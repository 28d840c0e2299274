//! A segment of the log: the contents of its log file and of its index file, and the
//! range of offsets it was given.
use vstd::prelude::*;
use vstd::bytes::spec_u64_from_le_bytes;

verus! {

/// One segment of the log. `log_file` and `index_file` hold the bytes of the segment's
/// two files: its records, and the sparse index over them.
pub struct Segment {
    pub seg_id: u64,
    pub first_offset: u64,
    pub last_offset: u64,
    pub log_file: Vec<u8>,
    pub index_file: Vec<u8>,
}

/// The mathematical value of a segment.
pub struct SegmentView {
    pub seg_id: u64,
    pub first_offset: u64,
    pub last_offset: u64,
    pub log: Seq<u8>,
    pub index: Seq<u8>,
}

impl View for Segment {
    type V = SegmentView;

    open spec fn view(&self) -> SegmentView {
        SegmentView {
            seg_id: self.seg_id,
            first_offset: self.first_offset,
            last_offset: self.last_offset,
            log: self.log_file@,
            index: self.index_file@,
        }
    }
}

impl SegmentView {
    /// Whether the offset lies in the segment's range `first_offset..=last_offset`.
    pub open spec fn contains_offset(self, target: u64) -> bool {
        self.first_offset <= target <= self.last_offset
    }
}

/// The views of a slice of segments.
pub open spec fn segments_view(segments: Seq<Segment>) -> Seq<SegmentView> {
    segments.map_values(|s: Segment| s@)
}

/// The number of whole entries in an index file.
pub open spec fn entry_count(index: Seq<u8>) -> int {
    index.len() as int / 16
}

/// The offset stored in entry `i` of an index file.
pub open spec fn entry_offset(index: Seq<u8>, i: int) -> u64 {
    spec_u64_from_le_bytes(index.subrange(16 * i, 16 * i + 8))
}

/// The byte position stored in entry `i` of an index file.
pub open spec fn entry_position(index: Seq<u8>, i: int) -> u64 {
    spec_u64_from_le_bytes(index.subrange(16 * i + 8, 16 * i + 16))
}

/// Whether the offsets of an index file's entries never decrease.
pub open spec fn index_sorted(index: Seq<u8>) -> bool {
    forall|i: int, j: int|
        0 <= i <= j < entry_count(index) ==> entry_offset(index, i) <= entry_offset(index, j)
}

} // verus!
