//! The single writer of the log: it stages records and index entries in batches,
//! appends each batch to the current segment or to a new one once the segment is full,
//! and reads a record back by its offset, scanning the segment's log file from the
//! indexed position until it finds the record that carries that offset.
use vstd::prelude::*;
use crate::codec::{bincode_string_encoding, decode_text, decoded_text, encode_text};
use crate::index::{find_position, position_of};
use crate::record::{
    append_index_entry, entry_is_of_a_frame, frame_has_entry, append_record, first_frame_offset, first_with_offset, frames_from,
    index_entry_bytes, index_for, index_of_frames, law_index_of_frames_entries, read_u64_at_pos,
    record_bytes, INDEX_INTERVAL,
};
use crate::segment::{entry_offset, entry_position, segments_view, Segment, SegmentView};
use vstd::slice::slice_subrange;

verus! {

/// Logs are written to disk in batches of this many.
pub const BATCH_SIZE: u64 = 100;

/// A segment takes batches while the space its log file takes on disk, with the batch,
/// stays within this many bytes (1 GiB).
pub const SEGMENT_CAPACITY: u64 = 1_073_741_824;

/// A log as producers send it.
pub struct Log {
    pub log: String,
}

/// The writer: its segments, the one being written, and the staged batch of records and
/// of index entries.
pub struct LogWriter {
    pub segments: Vec<Segment>,
    pub current_segment: usize,
    pub log_batch: Vec<u8>,
    pub index_batch: Vec<u8>,
}

/// The mathematical value of a writer.
pub struct LogWriterView {
    pub segments: Seq<SegmentView>,
    pub current_segment: usize,
    pub log_batch: Seq<u8>,
    pub index_batch: Seq<u8>,
}

impl View for LogWriter {
    type V = LogWriterView;

    open spec fn view(&self) -> LogWriterView {
        LogWriterView {
            segments: segments_view(self.segments@),
            current_segment: self.current_segment,
            log_batch: self.log_batch@,
            index_batch: self.index_batch@,
        }
    }
}

impl LogWriterView {
    /// The segment being written.
    pub open spec fn current(self) -> SegmentView {
        self.segments[self.current_segment as int]
    }

    /// A writer is valid when the segment it writes exists.
    pub open spec fn valid(self) -> bool {
        self.current_segment < self.segments.len()
    }

    /// Whether `push` can stage a record: the next offset and the record's byte position
    /// fit in a `u64`.
    pub open spec fn can_push(self) -> bool {
        &&& self.current_segment < self.segments.len()
        &&& self.current().last_offset < u64::MAX
        &&& self.current().log.len() + self.log_batch.len() <= u64::MAX
    }

    /// Staging the record of one more log: it gets the offset after the current segment's
    /// last one, goes at the end of the batch, and, when its offset is a multiple of
    /// `INDEX_INTERVAL`, gets an index entry with the position where it will stand in the
    /// log file.
    pub open spec fn push(self, payload: Seq<u8>) -> LogWriterView {
        let seg = self.current();
        let offset = (seg.last_offset + 1) as u64;
        let position = (seg.log.len() + self.log_batch.len()) as u64;
        LogWriterView {
            segments: self.segments.update(
                self.current_segment as int,
                SegmentView { last_offset: offset, ..seg },
            ),
            log_batch: self.log_batch + record_bytes(offset, payload),
            index_batch: if offset % INDEX_INTERVAL == 0 {
                self.index_batch + index_entry_bytes(offset, position)
            } else {
                self.index_batch
            },
            ..self
        }
    }

    /// Whether the batch does not fit in the current segment any more.
    pub open spec fn rolls_over(self, disk_bytes: u64) -> bool {
        disk_bytes + self.log_batch.len() > SEGMENT_CAPACITY
    }

    /// The first offset of the staged batch: that of its first record, or, with no
    /// record staged, the one after the current segment's last.
    pub open spec fn batch_start(self) -> u64 {
        let frames = frames_from(self.log_batch, 0);
        if frames.len() > 0 {
            frames[0].offset
        } else {
            (self.current().last_offset + 1) as u64
        }
    }

    /// Appending the batch. Where it fits, it goes at the end of the current segment's
    /// files. Otherwise the current segment ends before the batch's first offset (at 0,
    /// where that offset is 0), and a
    /// new segment, with the next id, takes the batch's offsets up to the current last
    /// one: its log file is the batch, and its index is built from the batch's records at
    /// their positions in that file. The new segment becomes the current one.
    pub open spec fn append_batch(self, disk_bytes: u64) -> LogWriterView {
        let seg = self.current();
        if self.rolls_over(disk_bytes) {
            let start = self.batch_start();
            let next = SegmentView {
                seg_id: (seg.seg_id + 1) as u64,
                first_offset: start,
                last_offset: seg.last_offset,
                log: self.log_batch,
                index: index_of_frames(frames_from(self.log_batch, 0)),
            };
            LogWriterView {
                segments: self.segments.update(
                    self.current_segment as int,
                    SegmentView { last_offset: if start >= 1 { (start - 1) as u64 } else { 0 }, ..seg },
                ).push(next),
                current_segment: self.segments.len() as usize,
                ..self
            }
        } else {
            LogWriterView {
                segments: self.segments.update(
                    self.current_segment as int,
                    SegmentView {
                        log: seg.log + self.log_batch,
                        index: seg.index + self.index_batch,
                        ..seg
                    },
                ),
                ..self
            }
        }
    }

    /// Whether `append_batch` can run: the size test does not overflow, and, for a new
    /// segment, its id and, with no record staged, its first offset fit.
    pub open spec fn can_append_batch(self, disk_bytes: u64) -> bool {
        &&& self.valid()
        &&& disk_bytes + self.log_batch.len() <= u64::MAX
        &&& self.rolls_over(disk_bytes) ==> {
            &&& self.current().seg_id < u64::MAX
            &&& frames_from(self.log_batch, 0).len() == 0 ==> self.current().last_offset < u64::MAX
        }
    }

    /// The writer with both batches emptied.
    pub open spec fn flush_batch(self) -> LogWriterView {
        LogWriterView { log_batch: Seq::empty(), index_batch: Seq::empty(), ..self }
    }
}

/// The payload that reading `offset` finds: in the segment that holds it, the first
/// record from the indexed position on whose offset field is `offset`.
pub open spec fn consumed_payload(segments: Seq<SegmentView>, offset: u64) -> Option<Seq<u8>> {
    match position_of(segments, offset) {
        None => None,
        Some((i, position, _)) => first_with_offset(
            frames_from(segments[i as int].log, position as int),
            offset,
        ),
    }
}

/// The text that reading `offset` gives back.
pub open spec fn consumed(segments: Seq<SegmentView>, offset: u64) -> Option<Seq<char>> {
    match consumed_payload(segments, offset) {
        Some(payload) => decoded_text(payload),
        None => None,
    }
}

/// Law of staging: a log gets the offset after the current segment's last one, its
/// record goes at the end of the batch, and the index batch gains the entry
/// `[offset][position]`, with the position where the record will start in the log file,
/// exactly when that offset is a multiple of 100; nothing else changes.
pub proof fn law_push_indexes_every_hundredth(w: LogWriterView, payload: Seq<u8>)
    requires
        w.can_push(),
    ensures
        ({
            let cur = w.current_segment as int;
            let seg = w.segments[cur];
            let offset = seg.last_offset + 1;
            let position = seg.log.len() + w.log_batch.len();
            let after = w.push(payload);
            &&& after.segments.len() == w.segments.len()
            &&& after.current_segment == w.current_segment
            &&& after.segments[cur].last_offset == offset
            &&& after.segments[cur].first_offset == seg.first_offset
            &&& after.segments[cur].log == seg.log
            &&& after.segments[cur].index == seg.index
            &&& forall|i: int| 0 <= i < w.segments.len() && i != cur ==> after.segments[i] == w.segments[i]
            &&& after.log_batch == w.log_batch + record_bytes(offset as u64, payload)
            &&& offset % 100 == 0 ==> after.index_batch == w.index_batch + index_entry_bytes(
                offset as u64,
                position as u64,
            )
            &&& offset % 100 != 0 ==> after.index_batch == w.index_batch
        }),
{
}

/// Law of the segment size: a batch is appended to the current segment's files exactly
/// when the space that segment's log file takes on disk, with the batch, stays within
/// 1 GiB; otherwise a new segment, after all the others, takes the batch as its log file
/// and becomes the current one, and the segments before it keep their files.
pub proof fn law_rollover_threshold(w: LogWriterView, disk_bytes: u64)
    requires
        w.valid(),
        w.segments.len() < usize::MAX,
        w.segments[w.current_segment as int].seg_id < u64::MAX,
    ensures
        ({
            let cur = w.current_segment as int;
            let after = w.append_batch(disk_bytes);
            &&& disk_bytes + w.log_batch.len() <= 1_073_741_824 ==> {
                &&& after.segments.len() == w.segments.len()
                &&& after.current_segment == w.current_segment
                &&& after.segments[cur].log == w.segments[cur].log + w.log_batch
                &&& after.segments[cur].index == w.segments[cur].index + w.index_batch
                &&& after.segments[cur].first_offset == w.segments[cur].first_offset
                &&& after.segments[cur].last_offset == w.segments[cur].last_offset
            }
            &&& disk_bytes + w.log_batch.len() > 1_073_741_824 ==> {
                &&& after.segments.len() == w.segments.len() + 1
                &&& after.current_segment == w.segments.len()
                &&& after.segments[w.segments.len() as int].log == w.log_batch
                &&& after.segments[w.segments.len() as int].seg_id == w.segments[cur].seg_id + 1
                &&& after.segments[w.segments.len() as int].last_offset
                    == w.segments[cur].last_offset
                &&& forall|i: int|
                    0 <= i < w.segments.len() ==> (#[trigger] after.segments[i]).log
                        == w.segments[i].log && after.segments[i].index == w.segments[i].index
            }
            &&& after.log_batch == w.log_batch
            &&& after.index_batch == w.index_batch
        }),
{
}

/// Law of the new segment's index: when a batch opens a new segment, that segment's log
/// file is the batch, it starts at the offset of the batch's first record, and its index
/// holds, in whole entries, an entry for exactly each whole record of the batch whose
/// offset is a multiple of 100, with that offset and the record's position in the file.
pub proof fn law_rollover_index(w: LogWriterView, disk_bytes: u64)
    requires
        w.valid(),
        disk_bytes + w.log_batch.len() > 1_073_741_824,
    ensures
        ({
            let next = w.append_batch(disk_bytes).segments[w.segments.len() as int];
            let frames = frames_from(w.log_batch, 0);
            &&& next.log == w.log_batch
            &&& frames.len() > 0 ==> next.first_offset == frames[0].offset
            &&& next.index.len() % 16 == 0
            &&& forall|m: int|
                0 <= m < next.index.len() / 16 ==> #[trigger] entry_is_of_a_frame(
                    next.index,
                    frames,
                    m,
                )
            &&& forall|j: int|
                0 <= j < frames.len() && (#[trigger] frames[j]).offset % 100 == 0
                    ==> frame_has_entry(next.index, frames[j])
        }),
{
    let frames = frames_from(w.log_batch, 0);
    assert(w.rolls_over(disk_bytes));
    let next = w.append_batch(disk_bytes).segments[w.segments.len() as int];
    assert(next.index == index_of_frames(frames));
    law_index_of_frames_entries(frames);
}

/// The writer keeps writing the newest segment: where it writes the last segment before a
/// batch is appended, it writes the last one after, whether or not a new one was opened.
pub proof fn law_append_batch_writes_newest(w: LogWriterView, disk_bytes: u64)
    requires
        w.segments.len() >= 1,
        w.segments.len() < usize::MAX,
        w.current_segment == w.segments.len() - 1,
    ensures
        w.append_batch(disk_bytes).current_segment == w.append_batch(disk_bytes).segments.len() - 1,
        w.append_batch(disk_bytes).flush_batch().current_segment == w.append_batch(
            disk_bytes,
        ).segments.len() - 1,
{
}

proof fn lemma_position_in_range(segments: Seq<SegmentView>, offset: u64)
    requires
        segments.len() <= usize::MAX,
    ensures
        position_of(segments, offset) matches Some((i, _, _)) ==> 0 <= i < segments.len(),
{
}

/// What the writer does after a turn: wait for the next log, with the batch holding this
/// many, or write the batch.
pub enum BatchStep {
    Await(u64),
    Write,
}

impl LogWriter {
    /// Stages a record with payload `payload`: its offset is the one after the current
    /// segment's last, which it becomes, and it gets an index entry, with the position
    /// where the record will stand in the log file, when that offset is a multiple of
    /// `INDEX_INTERVAL`.
    pub fn push_payload(&mut self, payload: &[u8])
        requires
            old(self)@.can_push(),
        ensures
            final(self)@ == old(self)@.push(payload@),
    {
        let cur = self.current_segment;
        let position: u64 = self.segments[cur].log_file.len() as u64 + self.log_batch.len() as u64;
        let offset: u64 = self.segments[cur].last_offset + 1;
        let ghost before = self@;
        self.segments[cur].last_offset = offset;
        append_record(&mut self.log_batch, offset, payload);
        if offset % INDEX_INTERVAL == 0 {
            append_index_entry(&mut self.index_batch, offset, position);
        }
        assert(segments_view(self.segments@) =~= before.push(payload@).segments);
    }

    /// Stages the record of `log`, whose payload is the log's bincode encoding.
    pub fn push_log(&mut self, log: &Log)
        requires
            old(self)@.can_push(),
        ensures
            final(self)@ == old(self)@.push(bincode_string_encoding(log.log@)),
    {
        let payload = encode_text(&log.log);
        self.push_payload(payload.as_slice());
    }

    /// One turn of the writer's loop: `incoming` is the log taken off the queue, or `None`
    /// once the queue has closed. A log is staged, and the batch is written once it holds
    /// `BATCH_SIZE` logs or the queue has closed.
    pub fn receive(&mut self, log_count: u64, incoming: Option<&Log>) -> (step: BatchStep)
        requires
            log_count < BATCH_SIZE,
            incoming is Some ==> old(self)@.can_push(),
        ensures
            match incoming {
                Some(log) => {
                    &&& final(self)@ == old(self)@.push(bincode_string_encoding(log.log@))
                    &&& step == if log_count + 1 < BATCH_SIZE {
                        BatchStep::Await((log_count + 1) as u64)
                    } else {
                        BatchStep::Write
                    }
                },
                None => final(self)@ == old(self)@ && step == BatchStep::Write,
            },
    {
        match incoming {
            Some(log) => {
                self.push_log(log);
                let count = log_count + 1;
                if count < BATCH_SIZE {
                    BatchStep::Await(count)
                } else {
                    BatchStep::Write
                }
            },
            None => BatchStep::Write,
        }
    }

    /// Appends the staged batch to the current segment's files while the space its log
    /// file takes on disk (`disk_bytes`), with the batch, stays within
    /// `SEGMENT_CAPACITY`. Otherwise it opens the next segment for the batch: that
    /// segment takes the batch's offsets, from its first record's up to the current last
    /// offset, and an index built from the batch's records, and the current segment ends
    /// just before them (at 0, where the batch starts at offset 0). The batch itself stays
    /// staged.
    pub fn append_batch(&mut self, disk_bytes: u64)
        requires
            old(self)@.can_append_batch(disk_bytes),
        ensures
            final(self)@ == old(self)@.append_batch(disk_bytes),
            final(self)@.valid(),
    {
        let ghost before = self@;
        let cur = self.current_segment;
        if disk_bytes + self.log_batch.len() as u64 > SEGMENT_CAPACITY {
            let start = match first_frame_offset(self.log_batch.as_slice()) {
                Some(o) => o,
                None => self.segments[cur].last_offset + 1,
            };
            let index = index_for(self.log_batch.as_slice());
            let log_bytes = self.log_batch.clone();
            assert(log_bytes@ =~= self.log_batch@);
            let next = Segment {
                seg_id: self.segments[cur].seg_id + 1,
                first_offset: start,
                last_offset: self.segments[cur].last_offset,
                log_file: log_bytes,
                index_file: index,
            };
            self.segments[cur].last_offset = if start >= 1 {
                start - 1
            } else {
                0
            };
            let count = self.segments.len();
            self.segments.push(next);
            self.current_segment = count;
            assert(segments_view(self.segments@) =~= before.append_batch(disk_bytes).segments);
        } else {
            let mut log_bytes = self.log_batch.clone();
            let mut index_bytes = self.index_batch.clone();
            assert(log_bytes@ =~= self.log_batch@);
            assert(index_bytes@ =~= self.index_batch@);
            self.segments[cur].log_file.append(&mut log_bytes);
            self.segments[cur].index_file.append(&mut index_bytes);
            assert(segments_view(self.segments@) =~= before.append_batch(disk_bytes).segments);
        }
    }

    /// Whether `append_batch(disk_bytes)` may be called.
    pub fn can_append_batch(&self, disk_bytes: u64) -> (ok: bool)
        ensures
            ok == self@.can_append_batch(disk_bytes),
    {
        let cur = self.current_segment;
        if cur >= self.segments.len() {
            return false;
        }
        let batch_len = self.log_batch.len() as u64;
        if disk_bytes > u64::MAX - batch_len {
            return false;
        }
        if disk_bytes + batch_len <= SEGMENT_CAPACITY {
            return true;
        }
        if self.segments[cur].seg_id == u64::MAX {
            return false;
        }
        match first_frame_offset(self.log_batch.as_slice()) {
            Some(_) => true,
            None => self.segments[cur].last_offset < u64::MAX,
        }
    }

    /// Empties both batches.
    pub fn flush_batch(&mut self)
        ensures
            final(self)@ == old(self)@.flush_batch(),
    {
        self.log_batch = Vec::new();
        self.index_batch = Vec::new();
    }

    /// Reads back the text of the log with offset `offset`: the payload that
    /// `read_payload` finds, decoded. `None` where there is no such payload or it does not
    /// decode.
    pub fn consume(&self, offset: u64) -> (text: Option<String>)
        ensures
            match text {
                Some(t) => consumed(self@.segments, offset) == Some(t@),
                None => consumed(self@.segments, offset) is None,
            },
    {
        match self.read_payload(offset) {
            Some(payload) => decode_text(payload),
            None => None,
        }
    }

    /// Finds the payload of the record with offset `offset`: finds the segment that holds
    /// the offset and the indexed position in its log file, then scans the records from
    /// there until one carries `offset`. `None` where no segment holds the offset, or the
    /// file ends, or a record is cut short, before such a record.
    pub fn read_payload(&self, offset: u64) -> (payload: Option<&[u8]>)
        ensures
            match payload {
                Some(p) => consumed_payload(self@.segments, offset) == Some(p@),
                None => consumed_payload(self@.segments, offset) is None,
            },
    {
        let ghost segs = self@.segments;
        let segment_count = self.segments.len();
        let found = find_position(self.segments.as_slice(), offset);
        let (segment_index, position, _indexed_offset) = match found {
            Some(f) => f,
            None => return None,
        };
        proof {
            assert(segs.len() == segment_count);
            lemma_position_in_range(segs, offset);
        }
        let log = self.segments[segment_index].log_file.as_slice();
        let ghost file = log@;
        assert(file == segs[segment_index as int].log);
        let len_usize: usize = log.len();
        let file_len: u64 = len_usize as u64;
        if position > file_len {
            assert(frames_from(file, position as int).len() == 0);
            return None;
        }
        let mut pos: u64 = position;
        loop
            invariant
                pos <= file_len,
                file_len == file.len(),
                file_len == len_usize,
                file == log@,
                segs == self@.segments,
                consumed_payload(segs, offset) == first_with_offset(
                    frames_from(file, pos as int),
                    offset,
                ),
            decreases file_len - pos,
        {
            if file_len - pos < 16 {
                return None;
            }
            let (o, len) = match (read_u64_at_pos(log, pos), read_u64_at_pos(log, pos + 8)) {
                (Some(o), Some(len)) => (o, len),
                _ => {
                    assert(false);
                    return None;
                },
            };
            if len > file_len - pos - 16 {
                return None;
            }
            let start = pos + 16;
            let next = start + len;
            assert(frames_from(file, pos as int)[0].offset == o);
            assert(frames_from(file, pos as int).drop_first() =~= frames_from(file, next as int));
            assert(next <= file_len);
            if o == offset {
                assert(frames_from(file, pos as int)[0].payload == file.subrange(start as int, next as int));
                let payload = slice_subrange(log, start as usize, next as usize);
                return Some(payload);
            }
            pos = next;
        }
    }
}

} // verus!
