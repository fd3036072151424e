//! Which entries of the local index a compaction drops, given the lowest
//! offset that still has to be kept.

use crate::wire::{be_u64, get_u64};
use vstd::prelude::*;

verus! {

/// What a compaction does with one entry.
#[derive(Clone, Copy, Debug, PartialEq, Eq, Structural)]
pub enum CompactionDecision {
    Keep,
    Remove,
}

/// The rule for entries of the offset index: an entry under an eight-byte key
/// goes when its value is too short to hold an offset, or holds one below
/// `min_offset`. Entries under any other key stay.
pub open spec fn index_decision(min_offset: u64, key: Seq<u8>, value: Seq<u8>)
    -> CompactionDecision {
    if key.len() != 8 {
        CompactionDecision::Keep
    } else if value.len() < 8 {
        CompactionDecision::Remove
    } else if be_u64(value.subrange(0, 8)) < min_offset {
        CompactionDecision::Remove
    } else {
        CompactionDecision::Keep
    }
}

/// The rule for range records: a value of sixteen bytes is a pair of start and
/// end, and goes when the end is at or below `min_offset`. Anything else stays.
pub open spec fn range_decision(min_offset: u64, value: Seq<u8>) -> CompactionDecision {
    if value.len() == 16 && be_u64(value.subrange(8, 16)) <= min_offset {
        CompactionDecision::Remove
    } else {
        CompactionDecision::Keep
    }
}

/// Drops index entries that point below a minimum offset.
pub struct IndexCompactionFilter {
    pub min_offset: u64,
}

impl IndexCompactionFilter {
    pub fn new(min_offset: u64) -> (filter: Self)
        ensures
            filter.min_offset == min_offset,
    {
        Self { min_offset }
    }

    pub fn filter(&self, _level: u32, key: &[u8], value: &[u8]) -> (decision: CompactionDecision)
        ensures
            decision == index_decision(self.min_offset, key@, value@),
    {
        if key.len() != 8 {
            return CompactionDecision::Keep;
        }
        if value.len() < 8 {
            return CompactionDecision::Remove;
        }
        let offset: u64 = get_u64(value, 0);
        if offset < self.min_offset {
            CompactionDecision::Remove
        } else {
            CompactionDecision::Keep
        }
    }
}

/// Drops range records that end at or below a minimum offset.
pub struct RangeCompactionFilter {
    pub min_offset: u64,
}

impl RangeCompactionFilter {
    pub fn new(min_offset: u64) -> (filter: Self)
        ensures
            filter.min_offset == min_offset,
    {
        Self { min_offset }
    }

    pub fn filter(&self, _level: u32, _key: &[u8], value: &[u8]) -> (decision: CompactionDecision)
        ensures
            decision == range_decision(self.min_offset, value@),
    {
        if value.len() == 8 {
            return CompactionDecision::Keep;
        }
        if value.len() == 16 {
            let end: u64 = get_u64(value, 8);
            if end <= self.min_offset {
                return CompactionDecision::Remove;
            }
        }
        CompactionDecision::Keep
    }
}

} // verus!
