//! What the stream knows of a range: its place in the stream, whether it
//! still takes writes, and how far it has confirmed.

use itertools::Itertools;
use std::cmp::Ordering;
use vstd::prelude::*;

verus! {

/// The identity of a range, and its end once it is sealed.
#[derive(Clone, Copy, Debug, PartialEq, Eq, Structural)]
pub struct RangeMetadata {
    pub stream_id: i64,
    pub epoch: u64,
    pub index: i32,
    pub start: u64,
    pub end: Option<u64>,
}

/// A range as the stream last saw it.
#[derive(Clone, Copy, Debug, PartialEq, Eq, Structural)]
pub struct Range {
    pub metadata: RangeMetadata,
    pub writable: bool,
    pub confirm_offset: u64,
}

impl Range {
    /// A range that has reported nothing yet: it confirms up to its recorded
    /// end, or nothing beyond its start while it has none.
    pub open spec fn fresh(metadata: RangeMetadata, writable: bool) -> Range {
        Range {
            metadata,
            writable,
            confirm_offset: match metadata.end {
                Some(end) => end,
                None => metadata.start,
            },
        }
    }

    /// The range once it is sealed at `end`.
    pub open spec fn sealed_at(self, end: u64) -> Range {
        Range {
            metadata: RangeMetadata { end: Some(end), ..self.metadata },
            writable: false,
            confirm_offset: end,
        }
    }

    pub fn new(metadata: RangeMetadata, writable: bool) -> (range: Range)
        ensures
            range == Range::fresh(metadata, writable),
    {
        let confirm_offset: u64 = match metadata.end {
            Some(end) => end,
            None => metadata.start,
        };
        Range { metadata, writable, confirm_offset }
    }

    pub fn seal(self, end: u64) -> (range: Range)
        ensures
            range == self.sealed_at(end),
    {
        Range {
            metadata: RangeMetadata {
                stream_id: self.metadata.stream_id,
                epoch: self.metadata.epoch,
                index: self.metadata.index,
                start: self.metadata.start,
                end: Some(end),
            },
            writable: false,
            confirm_offset: end,
        }
    }

    pub fn metadata(&self) -> (metadata: RangeMetadata)
        ensures
            metadata == self.metadata,
    {
        self.metadata
    }

    pub fn start_offset(&self) -> (offset: u64)
        ensures
            offset == self.metadata.start,
    {
        self.metadata.start
    }

    pub fn confirm_offset(&self) -> (offset: u64)
        ensures
            offset == self.confirm_offset,
    {
        self.confirm_offset
    }

    pub fn is_writable(&self) -> (writable: bool)
        ensures
            writable == self.writable,
    {
        self.writable
    }
}

/// `sorted` holds the ranges of `listed` in ascending order of index, and
/// ranges of one index in the order they had in `listed`.
pub open spec fn is_sorted_by_index(listed: Seq<RangeMetadata>, sorted: Seq<RangeMetadata>)
    -> bool {
    &&& sorted.to_multiset() == listed.to_multiset()
    &&& forall|i: int, j: int| 0 <= i < j < sorted.len() ==> sorted[i].index <= sorted[j].index
    &&& forall|index: i32| #[trigger] with_index(sorted, index) == with_index(listed, index)
}

/// The ranges of `s` that have the index `index`, in their order.
pub open spec fn with_index(s: Seq<RangeMetadata>, index: i32) -> Seq<RangeMetadata> {
    s.filter(|m: RangeMetadata| m.index == index)
}

/// How two ranges stand by index.
pub fn by_index(a: &RangeMetadata, b: &RangeMetadata) -> (order: Ordering)
    ensures
        order == Ordering::Less <==> a.index < b.index,
        order == Ordering::Equal <==> a.index == b.index,
        order == Ordering::Greater <==> a.index > b.index,
{
    if a.index < b.index {
        Ordering::Less
    } else if a.index == b.index {
        Ordering::Equal
    } else {
        Ordering::Greater
    }
}

/// Trusted: `itertools::Itertools::sorted_by` collects the items, sorts them
/// with `slice::sort_by` under the given order, which is a stable sort, and
/// hands them out again; so the result is a rearrangement of `listed` that
/// ascends by index and keeps ranges of one index in their order.
#[verifier::external_body]
fn sorted_by_index(listed: Vec<RangeMetadata>) -> (sorted: Vec<RangeMetadata>)
    ensures
        is_sorted_by_index(listed@, sorted@),
{
    listed.into_iter().sorted_by(|a, b| by_index(a, b)).collect()
}

/// The ranges of a listing, ordered by index.
pub fn sort_by_index(listed: Vec<RangeMetadata>) -> (sorted: Vec<RangeMetadata>)
    ensures
        is_sorted_by_index(listed@, sorted@),
        sorted@.len() == listed@.len(),
{
    let ghost before = listed@;
    let sorted = sorted_by_index(listed);
    proof {
        before.to_multiset_ensures();
        sorted@.to_multiset_ensures();
    }
    sorted
}

} // verus!
