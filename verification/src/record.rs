//! The byte layout of log records and index entries.
use vstd::prelude::*;
use vstd::bytes::{spec_u64_from_le_bytes, spec_u64_to_le_bytes, u64_from_le_bytes, u64_to_le_bytes};
use vstd::slice::slice_subrange;
use crate::segment::{entry_offset, entry_position};

verus! {

/// Every record whose offset is a multiple of this gets an index entry.
pub const INDEX_INTERVAL: u64 = 100;

/// One record as read from a log file: its offset field, where it starts, and its
/// payload.
pub struct Frame {
    pub offset: u64,
    pub position: int,
    pub payload: Seq<u8>,
}

/// The records of a log file from `pos` on, read one after another until fewer bytes
/// remain than the next whole record needs.
pub open spec fn frames_from(file: Seq<u8>, pos: int) -> Seq<Frame>
    decreases file.len() - pos,
{
    if 0 <= pos && pos + 16 <= file.len() {
        let len = spec_u64_from_le_bytes(file.subrange(pos + 8, pos + 16));
        if pos + 16 + len <= file.len() {
            seq![
                Frame {
                    offset: spec_u64_from_le_bytes(file.subrange(pos, pos + 8)),
                    position: pos,
                    payload: file.subrange(pos + 16, pos + 16 + len),
                },
            ] + frames_from(file, pos + 16 + len)
        } else {
            Seq::empty()
        }
    } else {
        Seq::empty()
    }
}

/// The payload of the first of `frames` whose offset field is `offset`.
pub open spec fn first_with_offset(frames: Seq<Frame>, offset: u64) -> Option<Seq<u8>>
    decreases frames.len(),
{
    if frames.len() == 0 {
        None
    } else if frames[0].offset == offset {
        Some(frames[0].payload)
    } else {
        first_with_offset(frames.drop_first(), offset)
    }
}

/// The index entries over `frames`: one `[offset][position]` entry for every frame whose
/// offset is a multiple of `INDEX_INTERVAL`, in order.
pub open spec fn index_of_frames(frames: Seq<Frame>) -> Seq<u8>
    decreases frames.len(),
{
    if frames.len() == 0 {
        Seq::empty()
    } else {
        let f = frames.last();
        if f.offset % INDEX_INTERVAL == 0 {
            index_of_frames(frames.drop_last()) + index_entry_bytes(f.offset, f.position as u64)
        } else {
            index_of_frames(frames.drop_last())
        }
    }
}

/// The bytes of one record: `[offset][length][payload]`.
pub open spec fn record_bytes(offset: u64, payload: Seq<u8>) -> Seq<u8> {
    spec_u64_to_le_bytes(offset) + spec_u64_to_le_bytes(payload.len() as u64) + payload
}

/// The bytes of one index entry: `[offset][position]`.
pub open spec fn index_entry_bytes(offset: u64, position: u64) -> Seq<u8> {
    spec_u64_to_le_bytes(offset) + spec_u64_to_le_bytes(position)
}

/// The little-endian `u64` that starts at `pos`, when all eight of its bytes are there.
pub open spec fn u64_at(bytes: Seq<u8>, pos: int) -> Option<u64> {
    if 0 <= pos && pos + 8 <= bytes.len() {
        Some(spec_u64_from_le_bytes(bytes.subrange(pos, pos + 8)))
    } else {
        None
    }
}

/// Reads the little-endian `u64` at `pos`; `None` where fewer than eight bytes remain.
pub fn read_u64_at(bytes: &[u8], pos: usize) -> (r: Option<u64>)
    ensures
        r == u64_at(bytes@, pos as int),
{
    if pos <= bytes.len() && bytes.len() - pos >= 8 {
        Some(u64_from_le_bytes(slice_subrange(bytes, pos, pos + 8)))
    } else {
        None
    }
}

/// Reads the little-endian `u64` at a `u64` position; `None` where fewer than eight bytes
/// remain.
pub fn read_u64_at_pos(bytes: &[u8], pos: u64) -> (r: Option<u64>)
    ensures
        r == u64_at(bytes@, pos as int),
{
    if pos > bytes.len() as u64 {
        None
    } else {
        read_u64_at(bytes, pos as usize)
    }
}

/// Appends the little-endian bytes of `x`.
pub fn append_u64(buf: &mut Vec<u8>, x: u64)
    ensures
        final(buf)@ == old(buf)@ + spec_u64_to_le_bytes(x),
{
    let mut bytes = u64_to_le_bytes(x);
    buf.append(&mut bytes);
}

/// Appends the record `[offset][payload length][payload]`.
pub fn append_record(buf: &mut Vec<u8>, offset: u64, payload: &[u8])
    ensures
        final(buf)@ == old(buf)@ + record_bytes(offset, payload@),
{
    let ghost start = buf@;
    append_u64(buf, offset);
    append_u64(buf, payload.len() as u64);
    buf.extend_from_slice(payload);
    assert(buf@ =~= start + record_bytes(offset, payload@));
}

/// Appends the index entry `[offset][position]`.
pub fn append_index_entry(buf: &mut Vec<u8>, offset: u64, position: u64)
    ensures
        final(buf)@ == old(buf)@ + index_entry_bytes(offset, position),
{
    let ghost start = buf@;
    append_u64(buf, offset);
    append_u64(buf, position);
    assert(buf@ =~= start + index_entry_bytes(offset, position));
}

/// Reading a record back: inside any byte sequence, the header of a record written at
/// `pre.len()` reads back as its offset and payload length, and the payload follows it.
pub proof fn lemma_record_reads_back(pre: Seq<u8>, offset: u64, payload: Seq<u8>, post: Seq<u8>)
    requires
        payload.len() <= u64::MAX,
    ensures
        ({
            let s = pre + record_bytes(offset, payload) + post;
            let p = pre.len() as int;
            &&& u64_at(s, p) == Some(offset)
            &&& u64_at(s, p + 8) == Some(payload.len() as u64)
            &&& s.subrange(p + 16, p + 16 + payload.len()) == payload
            &&& record_bytes(offset, payload).len() == 16 + payload.len()
        }),
{
    vstd::bytes::lemma_auto_spec_u64_to_from_le_bytes();
    let s = pre + record_bytes(offset, payload) + post;
    let p = pre.len() as int;
    assert(s.subrange(p, p + 8) =~= spec_u64_to_le_bytes(offset));
    assert(s.subrange(p + 8, p + 16) =~= spec_u64_to_le_bytes(payload.len() as u64));
    assert(s.subrange(p + 16, p + 16 + payload.len()) =~= payload);
}

/// Reading an index entry back: inside any byte sequence, an entry written at `pre.len()`
/// reads back as its offset and position.
pub proof fn lemma_index_entry_reads_back(pre: Seq<u8>, offset: u64, position: u64, post: Seq<u8>)
    ensures
        ({
            let s = pre + index_entry_bytes(offset, position) + post;
            let p = pre.len() as int;
            &&& u64_at(s, p) == Some(offset)
            &&& u64_at(s, p + 8) == Some(position)
            &&& index_entry_bytes(offset, position).len() == 16
        }),
{
    vstd::bytes::lemma_auto_spec_u64_to_from_le_bytes();
    let s = pre + index_entry_bytes(offset, position) + post;
    let p = pre.len() as int;
    assert(s.subrange(p, p + 8) =~= spec_u64_to_le_bytes(offset));
    assert(s.subrange(p + 8, p + 16) =~= spec_u64_to_le_bytes(position));
}

/// The offset field of the first whole record of `bytes`, if there is one.
pub fn first_frame_offset(bytes: &[u8]) -> (r: Option<u64>)
    ensures
        r == (if frames_from(bytes@, 0).len() > 0 {
            Some(frames_from(bytes@, 0)[0].offset)
        } else {
            None
        }),
{
    let n = bytes.len() as u64;
    if n < 16 {
        return None;
    }
    match (read_u64_at_pos(bytes, 0), read_u64_at_pos(bytes, 8)) {
        (Some(o), Some(len)) => if len > n - 16 {
            None
        } else {
            Some(o)
        },
        _ => None,
    }
}

/// Builds the index of a log file's bytes: an entry `[offset][position]` for every whole
/// record, read from the start, whose offset is a multiple of `INDEX_INTERVAL`.
pub fn index_for(bytes: &[u8]) -> (index: Vec<u8>)
    ensures
        index@ == index_of_frames(frames_from(bytes@, 0)),
{
    let n = bytes.len() as u64;
    let mut pos: u64 = 0;
    let mut index: Vec<u8> = Vec::new();
    let ghost mut seen: Seq<Frame> = Seq::empty();
    assert(frames_from(bytes@, 0) =~= seen + frames_from(bytes@, 0));
    loop
        invariant
            pos <= n,
            n == bytes@.len(),
            frames_from(bytes@, 0) == seen + frames_from(bytes@, pos as int),
            index@ == index_of_frames(seen),
        decreases n - pos,
    {
        if n - pos < 16 {
            assert(frames_from(bytes@, 0) =~= seen);
            return index;
        }
        let (o, len) = match (read_u64_at_pos(bytes, pos), read_u64_at_pos(bytes, pos + 8)) {
            (Some(o), Some(len)) => (o, len),
            _ => {
                assert(false);
                return index;
            },
        };
        if len > n - pos - 16 {
            assert(frames_from(bytes@, 0) =~= seen);
            return index;
        }
        let next = pos + 16 + len;
        let ghost frame = Frame {
            offset: o,
            position: pos as int,
            payload: bytes@.subrange(pos + 16, next as int),
        };
        assert(frames_from(bytes@, pos as int) == seq![frame] + frames_from(bytes@, next as int));
        assert(seen.push(frame).drop_last() =~= seen);
        if o % INDEX_INTERVAL == 0 {
            append_index_entry(&mut index, o, pos);
        }
        proof {
            assert(frames_from(bytes@, 0) =~= seen.push(frame) + frames_from(bytes@, next as int));
            seen = seen.push(frame);
        }
        pos = next;
    }
}

proof fn lemma_index_step(frames: Seq<Frame>)
    requires
        frames.len() > 0,
        index_of_frames(frames.drop_last()).len() % 16 == 0,
    ensures
        ({
            let prev = index_of_frames(frames.drop_last());
            let idx = index_of_frames(frames);
            let f = frames.last();
            &&& forall|m: int|
                #![trigger entry_offset(idx, m)]
                0 <= m < prev.len() / 16 ==> entry_offset(idx, m) == entry_offset(prev, m)
                    && entry_position(idx, m) == entry_position(prev, m)
            &&& f.offset % 100 == 0 ==> {
                &&& idx.len() == prev.len() + 16
                &&& entry_offset(idx, prev.len() as int / 16) == f.offset
                &&& entry_position(idx, prev.len() as int / 16) == f.position as u64
            }
            &&& f.offset % 100 != 0 ==> idx == prev
        }),
{
    let prev = index_of_frames(frames.drop_last());
    let idx = index_of_frames(frames);
    let f = frames.last();
    if f.offset % INDEX_INTERVAL == 0 {
        let e = index_entry_bytes(f.offset, f.position as u64);
        lemma_index_entry_reads_back(prev, f.offset, f.position as u64, Seq::empty());
        assert(idx =~= prev + e + Seq::empty());
        assert forall|m: int|
            #![trigger entry_offset(idx, m)]
            0 <= m < prev.len() / 16 implies entry_offset(idx, m) == entry_offset(prev, m)
                && entry_position(idx, m) == entry_position(prev, m) by {
            assert(idx.subrange(16 * m, 16 * m + 8) =~= prev.subrange(16 * m, 16 * m + 8));
            assert(idx.subrange(16 * m + 8, 16 * m + 16) =~= prev.subrange(16 * m + 8, 16 * m + 16));
        }
        assert(16 * (prev.len() as int / 16) == prev.len());
    }
}

/// Entry `m` of `index` holds the offset and the position of some record of `frames`
/// whose offset is a multiple of 100.
pub open spec fn entry_is_of_a_frame(index: Seq<u8>, frames: Seq<Frame>, m: int) -> bool {
    exists|j: int|
        #![trigger frames[j]]
        0 <= j < frames.len() && frames[j].offset % 100 == 0 && entry_offset(index, m)
            == frames[j].offset && entry_position(index, m) == frames[j].position as u64
}

/// Some entry of `index` holds the offset and the position of `frame`.
pub open spec fn frame_has_entry(index: Seq<u8>, frame: Frame) -> bool {
    exists|m: int|
        #![trigger entry_offset(index, m)]
        0 <= m < index.len() / 16 && entry_offset(index, m) == frame.offset && entry_position(
            index,
            m,
        ) == frame.position as u64
}

proof fn lemma_index_entries_sound(frames: Seq<Frame>)
    ensures
        index_of_frames(frames).len() % 16 == 0,
        forall|m: int|
            0 <= m < index_of_frames(frames).len() / 16 ==> #[trigger] entry_is_of_a_frame(
                index_of_frames(frames),
                frames,
                m,
            ),
    decreases frames.len(),
{
    if frames.len() > 0 {
        let before = frames.drop_last();
        lemma_index_entries_sound(before);
        lemma_index_step(frames);
        let prev = index_of_frames(before);
        let idx = index_of_frames(frames);
        let n = frames.len() as int;
        assert forall|m: int| 0 <= m < idx.len() / 16 implies #[trigger] entry_is_of_a_frame(
            idx,
            frames,
            m,
        ) by {
            if m < prev.len() / 16 {
                assert(entry_is_of_a_frame(prev, before, m));
                let j = choose|j: int|
                    #![trigger before[j]]
                    0 <= j < before.len() && before[j].offset % 100 == 0 && entry_offset(prev, m)
                        == before[j].offset && entry_position(prev, m) == before[j].position as u64;
                assert(frames[j] == before[j]);
                assert(entry_offset(idx, m) == entry_offset(prev, m));
            } else {
                assert(frames[n - 1] == frames.last());
            }
        }
    }
}

proof fn lemma_index_entries_complete(frames: Seq<Frame>)
    ensures
        forall|j: int|
            0 <= j < frames.len() && frames[j].offset % 100 == 0 ==> frame_has_entry(
                index_of_frames(frames),
                #[trigger] frames[j],
            ),
    decreases frames.len(),
{
    if frames.len() > 0 {
        let before = frames.drop_last();
        lemma_index_entries_complete(before);
        lemma_index_entries_sound(before);
        lemma_index_step(frames);
        let prev = index_of_frames(before);
        let idx = index_of_frames(frames);
        let n = frames.len() as int;
        assert forall|j: int| 0 <= j < frames.len() && frames[j].offset % 100 == 0 implies frame_has_entry(
            idx,
            #[trigger] frames[j],
        ) by {
            if j < n - 1 {
                assert(before[j] == frames[j]);
                assert(frame_has_entry(prev, before[j]));
                let m = choose|m: int|
                    #![trigger entry_offset(prev, m)]
                    0 <= m < prev.len() / 16 && entry_offset(prev, m) == before[j].offset
                        && entry_position(prev, m) == before[j].position as u64;
                assert(entry_offset(idx, m) == entry_offset(prev, m));
            } else {
                let last = prev.len() as int / 16;
                assert(entry_offset(idx, last) == frames[j].offset);
            }
        }
    }
}

/// Law of the index: the index built over a run of records is whole entries, one for
/// exactly each record whose offset is a multiple of 100, holding that record's offset
/// and the position where it starts.
pub proof fn law_index_of_frames_entries(frames: Seq<Frame>)
    ensures
        index_of_frames(frames).len() % 16 == 0,
        forall|m: int|
            0 <= m < index_of_frames(frames).len() / 16 ==> #[trigger] entry_is_of_a_frame(
                index_of_frames(frames),
                frames,
                m,
            ),
        forall|j: int|
            0 <= j < frames.len() && frames[j].offset % 100 == 0 ==> frame_has_entry(
                index_of_frames(frames),
                #[trigger] frames[j],
            ),
{
    lemma_index_entries_sound(frames);
    lemma_index_entries_complete(frames);
}

} // verus!
