//! What a writer holds after a run of logs, and what reading gives back of it.
//!
//! Each segment holds a sequence of payloads: its log file is their records, with the
//! segment's offsets from its first one on, and its index file has an entry for every
//! one of those offsets that is a multiple of `INDEX_INTERVAL`. The segments follow one
//! another in id and in offsets, and the last one is written, with the logs staged in the
//! batch after the ones in its files.
use vstd::prelude::*;
use crate::codec::{bincode_string_encoding, decoded_text, law_text_round_trip};
use crate::index::{first_containing, lemma_first_containing, lemma_search_bounds, position_of, search};
use crate::record::{
    first_with_offset, frames_from, index_entry_bytes, index_of_frames, lemma_index_entry_reads_back,
    lemma_record_reads_back, record_bytes, u64_at, Frame, INDEX_INTERVAL,
};
use crate::segment::{entry_count, entry_offset, entry_position, SegmentView};
use crate::writer::{consumed, consumed_payload, LogWriterView};
use vstd::utf8::encode_utf8;

verus! {

/// The records of `payloads`, the one of `payloads[j]` with offset `first + j`.
pub open spec fn records_from(first: int, payloads: Seq<Seq<u8>>) -> Seq<u8>
    decreases payloads.len(),
{
    if payloads.len() == 0 {
        Seq::empty()
    } else {
        records_from(first, payloads.drop_last()) + record_bytes(
            (first + payloads.len() - 1) as u64,
            payloads.last(),
        )
    }
}

/// Where the record of `payloads[j]` starts among the records of `payloads`.
pub open spec fn record_start(first: int, payloads: Seq<Seq<u8>>, j: int) -> int {
    records_from(first, payloads.take(j)).len() as int
}

/// The records of `payloads` as they are read back, placed from position `base` on.
pub open spec fn frames_of(first: int, base: int, payloads: Seq<Seq<u8>>) -> Seq<Frame> {
    Seq::new(
        payloads.len(),
        |j: int|
            Frame {
                offset: (first + j) as u64,
                position: base + record_start(first, payloads, j),
                payload: payloads[j],
            },
    )
}

/// A segment holds `payloads`: its log file is their records from its first offset on,
/// and its index file indexes them.
pub open spec fn segment_holds(segment: SegmentView, payloads: Seq<Seq<u8>>) -> bool {
    &&& segment.log == records_from(segment.first_offset as int, payloads)
    &&& segment.index == index_of_frames(frames_of(segment.first_offset as int, 0, payloads))
}

/// The writer holds the logs `written[i]` in the files of segment `i`, and the logs
/// `staged` in its batch. Offsets start at 1 or later; each segment's range is exactly the
/// offsets of its logs, staged ones included for the last segment, which is the one
/// written; and each segment continues the previous one's id and offsets.
pub open spec fn holds_logs(
    w: LogWriterView,
    written: Seq<Seq<Seq<u8>>>,
    staged: Seq<Seq<u8>>,
) -> bool {
    let n = w.segments.len() as int;
    let cur = w.segments[n - 1];
    let staged_first = cur.first_offset + written[n - 1].len();
    &&& n >= 1
    &&& written.len() == n
    &&& w.current_segment == n - 1
    &&& w.segments[0].first_offset >= 1
    &&& forall|i: int| 0 <= i < n ==> segment_holds(#[trigger] w.segments[i], written[i])
    &&& forall|i: int|
        0 <= i < n - 1 ==> #[trigger] w.segments[i].last_offset == w.segments[i].first_offset
            + written[i].len() - 1
    &&& forall|i: int|
        0 < i < n ==> {
            &&& #[trigger] w.segments[i].first_offset == w.segments[i - 1].last_offset + 1
            &&& w.segments[i].seg_id == w.segments[i - 1].seg_id + 1
        }
    &&& cur.last_offset == staged_first + staged.len() - 1
    &&& w.log_batch == records_from(staged_first, staged)
    &&& w.index_batch == index_of_frames(frames_of(staged_first, cur.log.len() as int, staged))
}

// ----- records and frames -----

proof fn lemma_take_records(first: int, payloads: Seq<Seq<u8>>, j: int)
    requires
        0 <= j < payloads.len(),
    ensures
        records_from(first, payloads.take(j + 1)) == records_from(first, payloads.take(j))
            + record_bytes((first + j) as u64, payloads[j]),
{
    let t = payloads.take(j + 1);
    assert(t.drop_last() =~= payloads.take(j));
}

proof fn lemma_records_prefix(first: int, payloads: Seq<Seq<u8>>, j: int)
    requires
        0 <= j <= payloads.len(),
    ensures
        records_from(first, payloads) == records_from(first, payloads.take(j)) + records_from(
            first,
            payloads,
        ).subrange(record_start(first, payloads, j), records_from(first, payloads).len() as int),
    decreases payloads.len(),
{
    let all = records_from(first, payloads);
    if j == payloads.len() {
        assert(payloads.take(j) =~= payloads);
        assert(all =~= records_from(first, payloads.take(j)) + all.subrange(
            all.len() as int,
            all.len() as int,
        ));
    } else {
        let before = payloads.drop_last();
        lemma_records_prefix(first, before, j);
        assert(before.take(j) =~= payloads.take(j));
        let tail = all.subrange(record_start(first, payloads, j), all.len() as int);
        assert(all =~= records_from(first, payloads.take(j)) + tail);
    }
}

proof fn lemma_records_concat(first: int, a: Seq<Seq<u8>>, b: Seq<Seq<u8>>)
    ensures
        records_from(first, a + b) == records_from(first, a) + records_from(first + a.len(), b),
    decreases b.len(),
{
    if b.len() == 0 {
        assert(a + b =~= a);
    } else {
        lemma_records_concat(first, a, b.drop_last());
        assert((a + b).drop_last() =~= a + b.drop_last());
        assert((a + b).last() == b.last());
        assert(first + (a + b).len() - 1 == first + a.len() + b.len() - 1);
    }
}

proof fn lemma_frames_concat(first: int, a: Seq<Seq<u8>>, b: Seq<Seq<u8>>)
    ensures
        frames_of(first, 0, a + b) == frames_of(first, 0, a) + frames_of(
            first + a.len(),
            records_from(first, a).len() as int,
            b,
        ),
{
    let left = frames_of(first, 0, a + b);
    let right = frames_of(first, 0, a) + frames_of(
        first + a.len(),
        records_from(first, a).len() as int,
        b,
    );
    assert forall|j: int| 0 <= j < left.len() implies left[j] == right[j] by {
        if j < a.len() {
            assert((a + b).take(j) =~= a.take(j));
        } else {
            let k = j - a.len();
            assert((a + b).take(j) =~= a + b.take(k));
            lemma_records_concat(first, a, b.take(k));
        }
    }
    assert(left =~= right);
}

proof fn lemma_frames_push(first: int, base: int, payloads: Seq<Seq<u8>>, p: Seq<u8>)
    ensures
        frames_of(first, base, payloads.push(p)) == frames_of(first, base, payloads).push(
            Frame {
                offset: (first + payloads.len()) as u64,
                position: base + records_from(first, payloads).len() as int,
                payload: p,
            },
        ),
{
    let after = payloads.push(p);
    assert forall|j: int| 0 <= j < payloads.len() implies after.take(j) =~= payloads.take(j) by {}
    assert(after.take(payloads.len() as int) =~= payloads);
    assert(frames_of(first, base, after) =~= frames_of(first, base, payloads).push(
        Frame {
            offset: (first + payloads.len()) as u64,
            position: base + records_from(first, payloads).len() as int,
            payload: p,
        },
    ));
}

proof fn lemma_index_concat(a: Seq<Frame>, b: Seq<Frame>)
    ensures
        index_of_frames(a + b) == index_of_frames(a) + index_of_frames(b),
    decreases b.len(),
{
    if b.len() == 0 {
        assert(a + b =~= a);
        assert(index_of_frames(a) + index_of_frames(b) =~= index_of_frames(a));
    } else {
        lemma_index_concat(a, b.drop_last());
        assert((a + b).drop_last() =~= a + b.drop_last());
        assert((a + b).last() == b.last());
        let e = index_entry_bytes(b.last().offset, b.last().position as u64);
        assert(index_of_frames(a) + index_of_frames(b.drop_last()) + e =~= index_of_frames(a) + (
        index_of_frames(b.drop_last()) + e));
    }
}

/// The record of `payloads[j]` is read back at its start.
proof fn lemma_record_at(first: int, payloads: Seq<Seq<u8>>, j: int)
    requires
        0 <= j < payloads.len(),
        records_from(first, payloads).len() <= u64::MAX,
    ensures
        ({
            let file = records_from(first, payloads);
            let p = record_start(first, payloads, j);
            &&& u64_at(file, p) == Some((first + j) as u64)
            &&& u64_at(file, p + 8) == Some(payloads[j].len() as u64)
            &&& payloads[j].len() <= u64::MAX
            &&& p + 16 + payloads[j].len() == record_start(first, payloads, j + 1)
            &&& record_start(first, payloads, j + 1) <= file.len()
            &&& file.subrange(p + 16, p + 16 + payloads[j].len()) == payloads[j]
        }),
{
    let file = records_from(first, payloads);
    lemma_records_prefix(first, payloads, j + 1);
    lemma_take_records(first, payloads, j);
    let pre = records_from(first, payloads.take(j));
    let post = file.subrange(record_start(first, payloads, j + 1), file.len() as int);
    let rec = record_bytes((first + j) as u64, payloads[j]);
    assert(file =~= pre + rec + post);
    vstd::bytes::lemma_auto_spec_u64_to_from_le_bytes();
    assert(rec.len() == 16 + payloads[j].len());
    lemma_record_reads_back(pre, (first + j) as u64, payloads[j], post);
}

/// Reading the records of `payloads` from the start of the `j`-th one gives them back,
/// from the `j`-th on.
proof fn lemma_frames_read_back(first: int, payloads: Seq<Seq<u8>>, j: int)
    requires
        0 <= j <= payloads.len(),
        records_from(first, payloads).len() <= u64::MAX,
    ensures
        frames_from(records_from(first, payloads), record_start(first, payloads, j)) == frames_of(
            first,
            0,
            payloads,
        ).skip(j),
    decreases payloads.len() - j,
{
    let file = records_from(first, payloads);
    let p = record_start(first, payloads, j);
    if j == payloads.len() {
        assert(payloads.take(j) =~= payloads);
        assert(frames_of(first, 0, payloads).skip(j) =~= Seq::<Frame>::empty());
    } else {
        lemma_record_at(first, payloads, j);
        lemma_frames_read_back(first, payloads, j + 1);
        vstd::bytes::lemma_auto_spec_u64_to_from_le_bytes();
        let fs = frames_of(first, 0, payloads);
        assert(fs.skip(j) =~= seq![fs[j]] + fs.skip(j + 1));
    }
}

// ----- the index -----

/// Every entry of the index of `frames` is that of one of the frames, and the entries
/// are whole.
proof fn lemma_index_entries(frames: Seq<Frame>)
    ensures
        index_of_frames(frames).len() % 16 == 0,
        forall|m: int|
            0 <= m < index_of_frames(frames).len() / 16 ==> exists|j: int|
                0 <= j < frames.len() && #[trigger] entry_offset(index_of_frames(frames), m)
                    == frames[j].offset && entry_position(index_of_frames(frames), m)
                    == frames[j].position as u64,
    decreases frames.len(),
{
    if frames.len() > 0 {
        let before = frames.drop_last();
        lemma_index_entries(before);
        let prev = index_of_frames(before);
        let idx = index_of_frames(frames);
        let f = frames.last();
        if f.offset % INDEX_INTERVAL == 0 {
            lemma_index_entry_reads_back(prev, f.offset, f.position as u64, Seq::empty());
            assert(idx =~= prev + index_entry_bytes(f.offset, f.position as u64) + Seq::empty());
            assert forall|m: int| 0 <= m < idx.len() / 16 implies exists|j: int|
                0 <= j < frames.len() && #[trigger] entry_offset(idx, m) == frames[j].offset
                    && entry_position(idx, m) == frames[j].position as u64 by {
                if m < prev.len() / 16 {
                    assert(idx.subrange(16 * m, 16 * m + 8) =~= prev.subrange(16 * m, 16 * m + 8));
                    assert(idx.subrange(16 * m + 8, 16 * m + 16) =~= prev.subrange(
                        16 * m + 8,
                        16 * m + 16,
                    ));
                    let j = choose|j: int|
                        0 <= j < before.len() && #[trigger] entry_offset(prev, m) == before[j].offset
                            && entry_position(prev, m) == before[j].position as u64;
                    assert(frames[j] == before[j]);
                } else {
                    assert(16 * m == prev.len());
                    assert(entry_offset(idx, m) == frames[frames.len() - 1].offset);
                }
            }
        } else {
            assert forall|m: int| 0 <= m < idx.len() / 16 implies exists|j: int|
                0 <= j < frames.len() && #[trigger] entry_offset(idx, m) == frames[j].offset
                    && entry_position(idx, m) == frames[j].position as u64 by {
                let j = choose|j: int|
                    0 <= j < before.len() && #[trigger] entry_offset(prev, m) == before[j].offset
                        && entry_position(prev, m) == before[j].position as u64;
                assert(frames[j] == before[j]);
            }
        }
    }
}

// ----- finding the segment -----

proof fn lemma_ranges_ordered(w: LogWriterView, written: Seq<Seq<Seq<u8>>>, staged: Seq<Seq<u8>>, i: int)
    requires
        holds_logs(w, written, staged),
        0 <= i < w.segments.len(),
    ensures
        forall|l: int| 0 <= l < i ==> #[trigger] w.segments[l].last_offset < w.segments[i].first_offset,
        w.segments[i].first_offset >= 1,
    decreases i,
{
    if i > 0 {
        lemma_ranges_ordered(w, written, staged, i - 1);
        assert(w.segments[i].first_offset == w.segments[i - 1].last_offset + 1);
        assert(w.segments[i - 1].last_offset == w.segments[i - 1].first_offset + written[i
            - 1].len() - 1);
    }
}

proof fn lemma_segment_found(
    w: LogWriterView,
    written: Seq<Seq<Seq<u8>>>,
    staged: Seq<Seq<u8>>,
    i: int,
    o: u64,
)
    requires
        holds_logs(w, written, staged),
        0 <= i < w.segments.len(),
        w.segments[i].contains_offset(o),
    ensures
        first_containing(w.segments, o) == Some(i),
{
    lemma_ranges_ordered(w, written, staged, i);
    assert forall|l: int| 0 <= l < i implies !(#[trigger] w.segments[l].contains_offset(o)) by {
        assert(w.segments[l].last_offset < w.segments[i].first_offset);
    }
    lemma_first_containing(w.segments, o, i);
}

proof fn lemma_first_match(frames: Seq<Frame>, o: u64, k: int)
    requires
        0 <= k < frames.len(),
        frames[k].offset == o,
        forall|t: int| 0 <= t < k ==> #[trigger] frames[t].offset != o,
    ensures
        first_with_offset(frames, o) == Some(frames[k].payload),
    decreases k,
{
    if k > 0 {
        let rest = frames.drop_first();
        assert forall|t: int| 0 <= t < k - 1 implies #[trigger] rest[t].offset != o by {
            assert(rest[t] == frames[t + 1]);
        }
        lemma_first_match(rest, o, k - 1);
    }
}

proof fn lemma_no_match(frames: Seq<Frame>, o: u64)
    requires
        forall|t: int| 0 <= t < frames.len() ==> #[trigger] frames[t].offset != o,
    ensures
        first_with_offset(frames, o) is None,
    decreases frames.len(),
{
    if frames.len() > 0 {
        let rest = frames.drop_first();
        assert forall|t: int| 0 <= t < rest.len() implies #[trigger] rest[t].offset != o by {
            assert(rest[t] == frames[t + 1]);
        }
        lemma_no_match(rest, o);
    }
}

/// The index entries of a segment point at records of `payloads`: each entry holds the
/// offset `first + j` of some `payloads[j]` and the position where its record starts.
pub open spec fn index_points_at_records(index: Seq<u8>, first: int, payloads: Seq<Seq<u8>>) -> bool {
    forall|m: int|
        #![trigger entry_offset(index, m)]
        0 <= m < entry_count(index) ==> exists|j: int|
            #![trigger record_start(first, payloads, j)]
            0 <= j < payloads.len() && entry_offset(index, m) == (first + j) as u64
                && entry_position(index, m) == record_start(first, payloads, j) as u64
}

/// Where reading for `o` starts in segment `i`, when its file holds the records of
/// `payloads` and its index points at them: at the start of the record of some
/// `payloads[j]` whose offset is at or before `o`.
proof fn lemma_start_in_segment(segments: Seq<SegmentView>, i: int, payloads: Seq<Seq<u8>>, o: u64) -> (j: int)
    requires
        0 <= i < segments.len(),
        first_containing(segments, o) == Some(i),
        segments[i].first_offset + payloads.len() - 1 <= u64::MAX,
        segments[i].log == records_from(segments[i].first_offset as int, payloads),
        segments[i].log.len() <= u64::MAX,
        index_points_at_records(segments[i].index, segments[i].first_offset as int, payloads),
    ensures
        0 <= j <= payloads.len(),
        j == 0 || segments[i].first_offset + j <= o,
        j < payloads.len() || j == 0,
        record_start(segments[i].first_offset as int, payloads, j) <= segments[i].log.len(),
        position_of(segments, o) == Some(
            (i as usize, record_start(segments[i].first_offset as int, payloads, j) as u64, (
            segments[i].first_offset + j) as u64),
        ),
{
    let seg = segments[i];
    let f = seg.first_offset as int;
    let idx = seg.index;
    let c = entry_count(idx);
    lemma_search_bounds(idx, o, 0, c);
    let r = search(idx, o, 0, c);
    assert(payloads.take(0) =~= Seq::<Seq<u8>>::empty());
    if r == 0 {
        assert(record_start(f, payloads, 0) == 0);
        0
    } else {
        let m = r - 1;
        assert(0 <= m < c);
        assert(entry_offset(idx, m) == entry_offset(idx, m));
        let j = choose|j: int|
            #![trigger record_start(f, payloads, j)]
            0 <= j < payloads.len() && entry_offset(idx, m) == (f + j) as u64 && entry_position(idx, m)
                == record_start(f, payloads, j) as u64;
        lemma_records_prefix(f, payloads, j);
        assert(record_start(f, payloads, j) <= seg.log.len());
        assert(f + j <= u64::MAX);
        j
    }
}

proof fn lemma_holds_segment(
    w: LogWriterView,
    written: Seq<Seq<Seq<u8>>>,
    staged: Seq<Seq<u8>>,
    i: int,
)
    requires
        holds_logs(w, written, staged),
        0 <= i < w.segments.len(),
        w.segments[i].log.len() <= u64::MAX,
    ensures
        w.segments[i].log == records_from(w.segments[i].first_offset as int, written[i]),
        w.segments[i].first_offset + written[i].len() - 1 <= u64::MAX,
        w.segments[i].first_offset >= 1,
        index_points_at_records(w.segments[i].index, w.segments[i].first_offset as int, written[i]),
{
    let seg = w.segments[i];
    let f = seg.first_offset as int;
    let p = written[i];
    assert(segment_holds(seg, p));
    lemma_ranges_ordered(w, written, staged, i);
    if i < w.segments.len() - 1 {
        assert(seg.last_offset == f + p.len() - 1);
    }
    let fs = frames_of(f, 0, p);
    lemma_index_entries(fs);
    assert forall|m: int| #![trigger entry_offset(seg.index, m)] 0 <= m < entry_count(seg.index) implies exists|j: int|
        #![trigger record_start(f, p, j)]
        0 <= j < p.len() && entry_offset(seg.index, m) == (f + j) as u64 && entry_position(
            seg.index,
            m,
        ) == record_start(f, p, j) as u64 by {
        let j = choose|j: int|
            0 <= j < fs.len() && #[trigger] entry_offset(seg.index, m) == fs[j].offset
                && entry_position(seg.index, m) == fs[j].position as u64;
        assert(fs[j].position == record_start(f, p, j));
        assert(record_start(f, p, j) == record_start(f, p, j));
    }
}

/// Law of reading a segment: in the first segment that holds offset `o`, where the log
/// file is the records of `payloads`, with consecutive offsets from the segment's first,
/// and every index entry points at the start of one of those records, reading `o` finds
/// the payload stored under `o` and gives back the text decoded from it.
pub proof fn law_read_segment(segments: Seq<SegmentView>, i: int, payloads: Seq<Seq<u8>>, k: int)
    requires
        segments.len() <= usize::MAX,
        0 <= i < segments.len(),
        0 <= k < payloads.len(),
        first_containing(segments, (segments[i].first_offset + k) as u64) == Some(i),
        segments[i].first_offset + payloads.len() - 1 <= u64::MAX,
        segments[i].log == records_from(segments[i].first_offset as int, payloads),
        segments[i].log.len() <= u64::MAX,
        index_points_at_records(segments[i].index, segments[i].first_offset as int, payloads),
    ensures
        consumed_payload(segments, (segments[i].first_offset + k) as u64) == Some(payloads[k]),
        consumed(segments, (segments[i].first_offset + k) as u64) == decoded_text(payloads[k]),
{
    let f = segments[i].first_offset as int;
    let o = (f + k) as u64;
    assert(o == f + k);
    let j0 = lemma_start_in_segment(segments, i, payloads, o);
    lemma_frames_read_back(f, payloads, j0);
    let fs = frames_of(f, 0, payloads).skip(j0);
    let d = k - j0;
    assert(fs[d].offset == o);
    assert forall|t: int| 0 <= t < d implies #[trigger] fs[t].offset != o by {
        assert(fs[t].offset == f + j0 + t);
    }
    lemma_first_match(fs, o, d);
}

// ----- the laws -----

/// A writer with one segment, starting at offset 1 or later with no offset given out,
/// empty files and an empty batch holds no logs.
pub proof fn law_empty_writer_holds_nothing(w: LogWriterView)
    requires
        w.segments.len() == 1,
        w.current_segment == 0,
        w.segments[0].first_offset >= 1,
        w.segments[0].last_offset == w.segments[0].first_offset - 1,
        w.segments[0].log.len() == 0,
        w.segments[0].index.len() == 0,
        w.log_batch.len() == 0,
        w.index_batch.len() == 0,
    ensures
        holds_logs(w, seq![Seq::empty()], Seq::empty()),
{
    let e = Seq::<Seq<u8>>::empty();
    assert(frames_of(w.segments[0].first_offset as int, 0, e) =~= Seq::<Frame>::empty());
    assert(w.segments[0].log =~= records_from(w.segments[0].first_offset as int, e));
    assert(w.segments[0].index =~= index_of_frames(Seq::<Frame>::empty()));
    assert(w.log_batch =~= records_from(w.segments[0].first_offset as int, e));
    assert(frames_of(w.segments[0].first_offset as int, 0, e) =~= frames_of(
        w.segments[0].first_offset as int,
        0,
        e,
    ));
    assert(w.index_batch =~= index_of_frames(
        frames_of(w.segments[0].first_offset as int, 0, e),
    ));
    assert(segment_holds(w.segments[0], seq![Seq::empty()][0]));
}

/// Staging one more log adds it, after the staged ones, to what the writer holds.
pub proof fn law_push_adds_log(
    w: LogWriterView,
    written: Seq<Seq<Seq<u8>>>,
    staged: Seq<Seq<u8>>,
    payload: Seq<u8>,
)
    requires
        holds_logs(w, written, staged),
        w.can_push(),
    ensures
        holds_logs(w.push(payload), written, staged.push(payload)),
{
    let n = w.segments.len() as int;
    let cur = w.segments[n - 1];
    let sf = cur.first_offset + written[n - 1].len();
    let w2 = w.push(payload);
    let after = staged.push(payload);
    assert(after.drop_last() =~= staged);
    lemma_frames_push(sf, cur.log.len() as int, staged, payload);
    let fr = Frame {
        offset: (sf + staged.len()) as u64,
        position: cur.log.len() + records_from(sf, staged).len() as int,
        payload,
    };
    let fs2 = frames_of(sf, cur.log.len() as int, after);
    assert(fs2.drop_last() =~= frames_of(sf, cur.log.len() as int, staged));
    assert(fs2.last() == fr);
    assert forall|i: int| 0 <= i < n implies segment_holds(#[trigger] w2.segments[i], written[i]) by {
        assert(segment_holds(w.segments[i], written[i]));
    }
    assert forall|i: int| 0 <= i < n - 1 implies #[trigger] w2.segments[i].last_offset
        == w2.segments[i].first_offset + written[i].len() - 1 by {
        assert(w.segments[i].last_offset == w.segments[i].first_offset + written[i].len() - 1);
    }
    assert forall|i: int| 0 < i < n implies {
        &&& #[trigger] w2.segments[i].first_offset == w2.segments[i - 1].last_offset + 1
        &&& w2.segments[i].seg_id == w2.segments[i - 1].seg_id + 1
    } by {
        assert(w.segments[i].first_offset == w.segments[i - 1].last_offset + 1);
    }
}

/// Writing a batch that fits into the current segment, and then emptying the batch,
/// leaves the writer holding the same logs, the staged ones now at the end of the
/// current segment's files.
pub proof fn law_write_batch_in_place(
    w: LogWriterView,
    written: Seq<Seq<Seq<u8>>>,
    staged: Seq<Seq<u8>>,
    disk_bytes: u64,
)
    requires
        holds_logs(w, written, staged),
        w.can_append_batch(disk_bytes),
        !w.rolls_over(disk_bytes),
    ensures
        holds_logs(
            w.append_batch(disk_bytes).flush_batch(),
            written.update(written.len() - 1, written.last() + staged),
            Seq::empty(),
        ),
{
    let n = w.segments.len() as int;
    let cur = w.segments[n - 1];
    let f = cur.first_offset as int;
    let p = written[n - 1];
    let sf = f + p.len();
    let w2 = w.append_batch(disk_bytes).flush_batch();
    let e = Seq::<Seq<u8>>::empty();
    assert(segment_holds(cur, p));
    lemma_ranges_ordered(w, written, staged, n - 1);
    assert(records_from(sf, e) =~= Seq::<u8>::empty());
    assert(w2.log_batch =~= records_from(sf, e));
        let written2 = written.update(n - 1, written.last() + staged);
        lemma_records_concat(f, p, staged);
        lemma_frames_concat(f, p, staged);
        lemma_index_concat(frames_of(f, 0, p), frames_of(sf, records_from(f, p).len() as int, staged));
        assert(frames_of(sf, 0, e) =~= Seq::<Frame>::empty());
        assert(w2.index_batch =~= index_of_frames(frames_of(sf + staged.len(), w2.segments[n - 1].log.len() as int, e)));
        assert forall|i: int| 0 <= i < n implies segment_holds(#[trigger] w2.segments[i], written2[i]) by {
            assert(segment_holds(w.segments[i], written[i]));
        }
        assert forall|i: int| 0 <= i < n - 1 implies #[trigger] w2.segments[i].last_offset
            == w2.segments[i].first_offset + written2[i].len() - 1 by {
            assert(w.segments[i].last_offset == w.segments[i].first_offset + written[i].len() - 1);
        }
        assert forall|i: int| 0 < i < n implies {
            &&& #[trigger] w2.segments[i].first_offset == w2.segments[i - 1].last_offset + 1
            &&& w2.segments[i].seg_id == w2.segments[i - 1].seg_id + 1
        } by {
            assert(w.segments[i].first_offset == w.segments[i - 1].last_offset + 1);
        }
}

proof fn lemma_batch_reads_back(first: int, staged: Seq<Seq<u8>>)
    requires
        1 <= first,
        first + staged.len() - 1 <= u64::MAX,
        records_from(first, staged).len() <= u64::MAX,
    ensures
        frames_from(records_from(first, staged), 0) == frames_of(first, 0, staged),
        staged.len() > 0 ==> frames_from(records_from(first, staged), 0)[0].offset == first,
        staged.len() == 0 ==> frames_from(records_from(first, staged), 0).len() == 0,
{
    assert(staged.take(0) =~= Seq::<Seq<u8>>::empty());
    assert(record_start(first, staged, 0) == 0);
    lemma_frames_read_back(first, staged, 0);
    let fs = frames_of(first, 0, staged);
    assert(fs.skip(0) =~= fs);
}

/// Writing a batch that does not fit into the current segment, and then emptying the
/// batch, leaves the writer holding the same logs, the staged ones now in a new last
/// segment of their own.
pub proof fn law_write_batch_rolls_over(
    w: LogWriterView,
    written: Seq<Seq<Seq<u8>>>,
    staged: Seq<Seq<u8>>,
    disk_bytes: u64,
)
    requires
        holds_logs(w, written, staged),
        w.can_append_batch(disk_bytes),
        w.rolls_over(disk_bytes),
        w.segments.len() < usize::MAX,
    ensures
        holds_logs(w.append_batch(disk_bytes).flush_batch(), written.push(staged), Seq::empty()),
{
    let n = w.segments.len() as int;
    let cur = w.segments[n - 1];
    let f = cur.first_offset as int;
    let p = written[n - 1];
    let sf = f + p.len();
    assert(w.log_batch == records_from(sf, staged));
    assert(cur.last_offset == sf + staged.len() - 1);
    lemma_ranges_ordered(w, written, staged, n - 1);
    assert(w.log_batch.len() <= u64::MAX);
    lemma_batch_reads_back(sf, staged);
    assert(w.batch_start() == sf);
    let w1 = w.append_batch(disk_bytes);
    assert(w1.segments.len() == n + 1);
    assert(w1.current_segment == n);
    let next = w1.segments[n];
    assert(next.first_offset == sf);
    assert(next.last_offset == cur.last_offset);
    assert(next.seg_id == cur.seg_id + 1);
    assert(next.log == records_from(sf, staged));
    assert(next.index == index_of_frames(frames_of(sf, 0, staged)));
    assert(w1.segments[n - 1].last_offset == sf - 1);
    let w2 = w1.flush_batch();
    let written2 = written.push(staged);
    let e = Seq::<Seq<u8>>::empty();
    assert(segment_holds(next, written2[n]));
    assert(records_from(sf + staged.len(), e) =~= Seq::<u8>::empty());
    assert(frames_of(sf + staged.len(), 0, e) =~= Seq::<Frame>::empty());
    assert(w2.log_batch =~= records_from(sf + staged.len(), e));
    assert(w2.index_batch =~= index_of_frames(frames_of(sf + staged.len(), next.log.len() as int, e)));
    assert forall|i: int| 0 <= i < n + 1 implies segment_holds(#[trigger] w2.segments[i], written2[i]) by {
        if i < n {
            assert(segment_holds(w.segments[i], written[i]));
        }
    }
    assert forall|i: int| 0 <= i < n implies #[trigger] w2.segments[i].last_offset
        == w2.segments[i].first_offset + written2[i].len() - 1 by {
        if i < n - 1 {
            assert(w.segments[i].last_offset == w.segments[i].first_offset + written[i].len() - 1);
        }
    }
    assert forall|i: int| 0 < i < n + 1 implies {
        &&& #[trigger] w2.segments[i].first_offset == w2.segments[i - 1].last_offset + 1
        &&& w2.segments[i].seg_id == w2.segments[i - 1].seg_id + 1
    } by {
        if i < n {
            assert(w.segments[i].first_offset == w.segments[i - 1].last_offset + 1);
        }
    }
}

/// Law of reading back: in a writer that holds its logs, reading the offset of a log in
/// a segment's files finds that log's payload, and gives back the text decoded from it.
pub proof fn law_read_returns_written(
    w: LogWriterView,
    written: Seq<Seq<Seq<u8>>>,
    staged: Seq<Seq<u8>>,
    i: int,
    j: int,
)
    requires
        holds_logs(w, written, staged),
        w.segments.len() <= usize::MAX,
        0 <= i < w.segments.len(),
        0 <= j < written[i].len(),
        w.segments[i].log.len() <= u64::MAX,
    ensures
        ({
            let o = (w.segments[i].first_offset + j) as u64;
            &&& o == w.segments[i].first_offset + j
            &&& consumed_payload(w.segments, o) == Some(written[i][j])
            &&& consumed(w.segments, o) == decoded_text(written[i][j])
        }),
{
    let seg = w.segments[i];
    let o = (seg.first_offset + j) as u64;
    lemma_holds_segment(w, written, staged, i);
    assert(o == seg.first_offset + j);
    if i < w.segments.len() - 1 {
        assert(seg.last_offset == seg.first_offset + written[i].len() - 1);
    }
    assert(seg.contains_offset(o));
    lemma_segment_found(w, written, staged, i, o);
    law_read_segment(w.segments, i, written[i], j);
}

/// Reading back the text: where the log stored is a text's encoding, reading its offset
/// gives the text.
pub proof fn law_read_returns_text(
    w: LogWriterView,
    written: Seq<Seq<Seq<u8>>>,
    staged: Seq<Seq<u8>>,
    i: int,
    j: int,
    text: Seq<char>,
)
    requires
        holds_logs(w, written, staged),
        w.segments.len() <= usize::MAX,
        0 <= i < w.segments.len(),
        0 <= j < written[i].len(),
        w.segments[i].log.len() <= u64::MAX,
        written[i][j] == bincode_string_encoding(text),
        encode_utf8(text).len() <= u64::MAX,
    ensures
        consumed(w.segments, (w.segments[i].first_offset + j) as u64) == Some(text),
{
    law_read_returns_written(w, written, staged, i, j);
    law_text_round_trip(text);
}

/// Logs still staged in the batch cannot be read back: their offsets belong to the last
/// segment, but its files do not hold them yet.
pub proof fn law_staged_not_readable(
    w: LogWriterView,
    written: Seq<Seq<Seq<u8>>>,
    staged: Seq<Seq<u8>>,
    k: int,
)
    requires
        holds_logs(w, written, staged),
        w.segments.len() <= usize::MAX,
        0 <= k < staged.len(),
        w.segments[w.segments.len() - 1].log.len() <= u64::MAX,
    ensures
        consumed_payload(
            w.segments,
            (w.segments[w.segments.len() - 1].first_offset + written.last().len() + k) as u64,
        ) is None,
{
    let n = w.segments.len() as int;
    let i = n - 1;
    let seg = w.segments[i];
    let f = seg.first_offset as int;
    let p = written[i];
    assert(segment_holds(seg, p));
    let o = (f + p.len() + k) as u64;
    assert(o == f + p.len() + k);
    assert(seg.contains_offset(o));
    lemma_holds_segment(w, written, staged, i);
    lemma_segment_found(w, written, staged, i, o);
    let j0 = lemma_start_in_segment(w.segments, i, p, o);
    lemma_frames_read_back(f, p, j0);
    let fs = frames_of(f, 0, p).skip(j0);
    assert forall|t: int| 0 <= t < fs.len() implies #[trigger] fs[t].offset != o by {
        assert(fs[t].offset == f + j0 + t);
    }
    lemma_no_match(fs, o);
}

/// Reading an offset that no segment holds, before the first segment's first offset or
/// after the last segment's last, finds nothing.
pub proof fn law_read_outside_range_finds_nothing(
    w: LogWriterView,
    written: Seq<Seq<Seq<u8>>>,
    staged: Seq<Seq<u8>>,
    o: u64,
)
    requires
        holds_logs(w, written, staged),
        o < w.segments[0].first_offset || o > w.segments[w.segments.len() - 1].last_offset,
    ensures
        consumed(w.segments, o) is None,
{
    let n = w.segments.len() as int;
    assert forall|i: int| 0 <= i < n implies !(#[trigger] w.segments[i].contains_offset(o)) by {
        lemma_ranges_ordered(w, written, staged, i);
        lemma_ranges_ordered(w, written, staged, n - 1);
        if i > 0 {
            assert(w.segments[0].last_offset < w.segments[i].first_offset);
            assert(w.segments[0].first_offset <= w.segments[0].last_offset + 1);
        }
        if i < n - 1 {
            assert(w.segments[i].last_offset < w.segments[n - 1].first_offset);
        }
        assert(w.segments[0].first_offset <= w.segments[i].first_offset) by {
            if i > 0 {
                assert(w.segments[0].last_offset == w.segments[0].first_offset + written[0].len() - 1);
            }
        }
        if i < n - 1 {
            assert(w.segments[i].last_offset == w.segments[i].first_offset + written[i].len() - 1);
            assert(w.segments[n - 1].first_offset <= w.segments[n - 1].last_offset + 1);
        }
    }
    assert(first_containing(w.segments, o) is None);
}

} // verus!
