//! Finding where to start reading for an offset: the segment whose range holds it, and
//! the last index entry at or before it, found by binary search over the index file.
use vstd::prelude::*;
use crate::record::{read_u64_at, u64_at};
use crate::segment::{
    entry_count, entry_offset, entry_position, index_sorted, segments_view, Segment, SegmentView,
};

verus! {

/// The first segment whose range holds `target`: the one that holds it while none
/// before it does.
pub open spec fn first_containing(segments: Seq<SegmentView>, target: u64) -> Option<int> {
    if exists|i: int|
        0 <= i < segments.len() && #[trigger] segments[i].contains_offset(target) && forall|j: int|
            0 <= j < i ==> !(#[trigger] segments[j].contains_offset(target)) {
        Some(
            choose|i: int|
                0 <= i < segments.len() && #[trigger] segments[i].contains_offset(target) && forall|j: int|
                    0 <= j < i ==> !(#[trigger] segments[j].contains_offset(target)),
        )
    } else {
        None
    }
}

/// The binary search over the entries `low..high` of an index file: the point where
/// the entries whose offset is at most `target` end.
pub open spec fn search(index: Seq<u8>, target: u64, low: int, high: int) -> int
    decreases high - low,
{
    if low < high {
        let mid = (low + high) / 2;
        if entry_offset(index, mid) <= target {
            search(index, target, mid + 1, high)
        } else {
            search(index, target, low, mid)
        }
    } else {
        low
    }
}

/// Where reading for `target` starts: the segment that holds it, the byte position in its
/// log file, and the offset of the record found there. That record is the one of the last
/// index entry that the search finds at or before `target`; where there is none, the start
/// of the file, which holds the segment's first offset.
pub open spec fn position_of(segments: Seq<SegmentView>, target: u64) -> Option<(usize, u64, u64)> {
    match first_containing(segments, target) {
        None => None,
        Some(i) => {
            let index = segments[i].index;
            let low = search(index, target, 0, entry_count(index));
            if low == 0 {
                Some((i as usize, 0u64, segments[i].first_offset))
            } else {
                Some((i as usize, entry_position(index, low - 1), entry_offset(index, low - 1)))
            }
        },
    }
}

pub proof fn lemma_first_containing(segments: Seq<SegmentView>, target: u64, i: int)
    requires
        0 <= i < segments.len(),
        segments[i].contains_offset(target),
        forall|j: int| 0 <= j < i ==> !(#[trigger] segments[j].contains_offset(target)),
    ensures
        first_containing(segments, target) == Some(i),
{
    let k = choose|k: int|
        0 <= k < segments.len() && #[trigger] segments[k].contains_offset(target) && forall|j: int|
            0 <= j < k ==> !(#[trigger] segments[j].contains_offset(target));
    assert(segments[i].contains_offset(target));
    if k < i {
        assert(!segments[k].contains_offset(target));
    }
    if i < k {
        assert(!segments[i].contains_offset(target));
    }
}

/// The search stays within its bounds, and whatever it stops after was at or before
/// `target`.
pub proof fn lemma_search_bounds(index: Seq<u8>, target: u64, low: int, high: int)
    requires
        0 <= low <= high,
        low > 0 ==> entry_offset(index, low - 1) <= target,
    ensures
        low <= search(index, target, low, high) <= high,
        search(index, target, low, high) > 0 ==> entry_offset(
            index,
            search(index, target, low, high) - 1,
        ) <= target,
    decreases high - low,
{
    if low < high {
        let mid = (low + high) / 2;
        if entry_offset(index, mid) <= target {
            lemma_search_bounds(index, target, mid + 1, high);
        } else {
            lemma_search_bounds(index, target, low, mid);
        }
    }
}

/// On a sorted index the search splits the entries exactly: those before the point it
/// returns are at or before `target`, those from it on are after `target`.
pub proof fn lemma_search_sorted(index: Seq<u8>, target: u64, low: int, high: int)
    requires
        index_sorted(index),
        0 <= low <= high <= entry_count(index),
        forall|i: int| 0 <= i < low ==> entry_offset(index, i) <= target,
        forall|i: int| high <= i < entry_count(index) ==> entry_offset(index, i) > target,
    ensures
        ({
            let r = search(index, target, low, high);
            &&& low <= r <= high
            &&& forall|i: int| 0 <= i < r ==> entry_offset(index, i) <= target
            &&& forall|i: int| r <= i < entry_count(index) ==> entry_offset(index, i) > target
        }),
    decreases high - low,
{
    if low < high {
        let mid = (low + high) / 2;
        if entry_offset(index, mid) <= target {
            assert forall|i: int| 0 <= i < mid + 1 implies entry_offset(index, i) <= target by {
                if i >= low {
                    assert(entry_offset(index, i) <= entry_offset(index, mid));
                }
            }
            lemma_search_sorted(index, target, mid + 1, high);
        } else {
            assert forall|i: int| mid <= i < entry_count(index) implies entry_offset(index, i)
                > target by {
                if i < high {
                    assert(entry_offset(index, mid) <= entry_offset(index, i));
                }
            }
            lemma_search_sorted(index, target, low, mid);
        }
    }
}

/// Law of the sparse index: in the first segment whose range holds `target`, where the
/// offsets of the index file's entries (all `index.len() / 16` whole ones) never
/// decrease, reading starts from the last entry at or before `target`; where no entry is
/// at or before it, reading starts at the beginning of the log file, with the segment's
/// first offset.
pub proof fn law_search_finds_last_entry_at_or_before(
    segments: Seq<SegmentView>,
    target: u64,
    i: int,
)
    requires
        segments.len() <= usize::MAX,
        0 <= i < segments.len(),
        segments[i].first_offset <= target <= segments[i].last_offset,
        forall|l: int|
            0 <= l < i ==> !(segments[l].first_offset <= target <= #[trigger] segments[l].last_offset),
        forall|a: int, b: int|
            0 <= a <= b < segments[i].index.len() / 16 ==> entry_offset(segments[i].index, a)
                <= entry_offset(segments[i].index, b),
    ensures
        ({
            let index = segments[i].index;
            let n = index.len() / 16;
            match position_of(segments, target) {
                Some((s, position, offset)) => {
                    &&& s == i
                    &&& if exists|k: int| 0 <= k < n && entry_offset(index, k) <= target {
                        exists|k: int|
                            0 <= k < n && entry_offset(index, k) <= target && (k + 1 == n
                                || entry_offset(index, k + 1) > target) && offset == entry_offset(
                                index,
                                k,
                            ) && position == entry_position(index, k)
                    } else {
                        position == 0 && offset == segments[i].first_offset
                    }
                },
                None => false,
            }
        }),
{
    assert forall|l: int| 0 <= l < i implies !(#[trigger] segments[l].contains_offset(target)) by {
        assert(!(segments[l].first_offset <= target <= segments[l].last_offset));
    }
    lemma_first_containing(segments, target, i);
    let index = segments[i].index;
    let n = entry_count(index);
    assert(index_sorted(index));
    lemma_search_sorted(index, target, 0, n);
    let r = search(index, target, 0, n);
    if r > 0 {
        let k = r - 1;
        assert(0 <= k < n && entry_offset(index, k) <= target && (k + 1 == n || entry_offset(
            index,
            k + 1,
        ) > target));
    } else {
        assert forall|k: int| 0 <= k < n implies !(entry_offset(index, k) <= target) by {}
    }
}

/// Finds where reading for `target_offset` starts: the first segment whose range holds
/// it, then the last index entry at or before it by binary search over the index file,
/// or else the start of the segment's log file with the segment's first offset. `None`
/// where no segment holds the offset.
pub fn find_position(segments: &[Segment], target_offset: u64) -> (r: Option<(usize, u64, u64)>)
    ensures
        r == position_of(segments_view(segments@), target_offset),
{
    let ghost segs = segments_view(segments@);
    let mut k: usize = 0;
    while k < segments.len() && !(target_offset >= segments[k].first_offset
        && target_offset <= segments[k].last_offset)
        invariant
            0 <= k <= segments.len(),
            segs == segments_view(segments@),
            forall|j: int| 0 <= j < k ==> !(#[trigger] segs[j].contains_offset(target_offset)),
        decreases segments.len() - k,
    {
        k = k + 1;
    }
    if k == segments.len() {
        assert forall|j: int| 0 <= j < segs.len() implies !(#[trigger] segs[j].contains_offset(
            target_offset,
        )) by {}
        return None;
    }
    let segment_index = k;
    proof {
        lemma_first_containing(segs, target_offset, segment_index as int);
    }
    let index = &segments[segment_index].index_file;
    let entry_size: usize = 16;
    let index_len: usize = index.len();
    let entry_count_exec: usize = index_len / entry_size;
    if entry_count_exec == 0 {
        return Some((segment_index, 0, segments[segment_index].first_offset));
    }
    let mut low: usize = 0;
    let mut high: usize = entry_count_exec;
    while low < high
        invariant
            0 <= low <= high <= entry_count_exec,
            entry_count_exec == entry_count(index@),
            index_len == index@.len(),
            search(index@, target_offset, low as int, high as int) == search(
                index@,
                target_offset,
                0,
                entry_count_exec as int,
            ),
        decreases high - low,
    {
        let mid = low + (high - low) / 2;
        assert(mid == (low + high) / 2);
        assert(mid * 16 + 16 <= index@.len()) by (nonlinear_arith)
            requires
                mid < entry_count_exec,
                entry_count_exec == index@.len() as int / 16,
        ;
        let indexed_offset = read_u64_at(index.as_slice(), mid * 16);
        match indexed_offset {
            Some(o) => {
                assert(o == entry_offset(index@, mid as int));
                if o <= target_offset {
                    low = mid + 1;
                } else {
                    high = mid;
                }
            },
            None => {
                assert(false);
                return None;
            },
        }
    }
    if low == 0 {
        return Some((segment_index, 0, segments[segment_index].first_offset));
    }
    assert((low - 1) * 16 + 16 <= index@.len()) by (nonlinear_arith)
        requires
            low - 1 < entry_count_exec,
            entry_count_exec == index@.len() as int / 16,
    ;
    let at = (low - 1) * 16;
    let indexed_offset = read_u64_at(index.as_slice(), at);
    let position = read_u64_at(index.as_slice(), at + 8);
    match (indexed_offset, position) {
        (Some(o), Some(p)) => Some((segment_index, p, o)),
        _ => {
            assert(false);
            None
        },
    }
}

} // verus!
