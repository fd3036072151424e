//! The records of the local index, as bytes: the entry that maps an offset of
//! a stream to its place in the write-ahead log, the checkpoint of that log,
//! and the records of the ranges a node hosts.
//!
//! A range record stands under the key `r`, stream id, start offset. Its
//! value is the status byte 0 while the range is open, and the status byte 1
//! followed by the end offset once it is sealed.

use crate::error::StoreError;
use crate::wire::{
    be_u64, get_u64, i64_be, lemma_u64_round_trip, put_i64, put_u32, put_u64, put_u8, u32_be,
    u64_be,
};
use vstd::prelude::*;

verus! {

/// The first byte of the key of a range record: the letter `r`.
pub const RANGE_PREFIX: u8 = 114;

/// The length of the key of a range record.
pub const RANGE_KEY_LEN: usize = 17;

/// A range of a stream as the index records it.
#[derive(Clone, Copy, Debug, PartialEq, Eq, Structural)]
pub struct StreamRange {
    pub start: u64,
    pub end: Option<u64>,
}

impl StreamRange {
    pub fn new(start: u64, end: Option<u64>) -> (range: StreamRange)
        ensures
            range == (StreamRange { start, end }),
    {
        StreamRange { start, end }
    }

    pub fn sealed(&self) -> (sealed: bool)
        ensures
            sealed == self.end.is_some(),
    {
        self.end.is_some()
    }
}

/// A key and its value.
#[derive(Debug, PartialEq, Eq)]
pub struct KeyValue {
    pub key: Vec<u8>,
    pub value: Vec<u8>,
}

/// The key of the range record of a stream's range that starts at `start`.
pub open spec fn range_key_bytes(stream_id: i64, start: u64) -> Seq<u8> {
    seq![RANGE_PREFIX] + i64_be(stream_id) + u64_be(start)
}

/// The value of a range record.
pub open spec fn range_value_bytes(end: Option<u64>) -> Seq<u8> {
    match end {
        Some(end) => seq![1u8] + u64_be(end),
        None => seq![0u8],
    }
}

/// `key` begins with `prefix`.
pub open spec fn has_prefix(key: Seq<u8>, prefix: Seq<u8>) -> bool {
    prefix.len() <= key.len() && key.subrange(0, prefix.len() as int) == prefix
}

/// A key and a value are long enough to be read as a range record.
pub open spec fn record_shaped(key: Seq<u8>, value: Seq<u8>) -> bool {
    key.len() >= RANGE_KEY_LEN && (value.len() == 1 || value.len() >= 9)
}

/// The range that a record holds: a value of one byte is an open range, any
/// other value carries the end behind the status byte.
pub open spec fn decoded_range(key: Seq<u8>, value: Seq<u8>) -> StreamRange {
    StreamRange {
        start: be_u64(key.subrange(9, 17)),
        end: if value.len() == 1 {
            None
        } else {
            Some(be_u64(value.subrange(1, 9)))
        },
    }
}

/// Every entry up to and with the one at `i` has the prefix.
pub open spec fn in_run(entries: Seq<KeyValue>, prefix: Seq<u8>, i: int) -> bool {
    forall|j: int| 0 <= j <= i ==> has_prefix((#[trigger] entries[j]).key@, prefix)
}

/// The entry that maps `offset` of a stream to its place in the log: the key
/// is stream id and offset, the value the position in the log, the length
/// and the checksum.
pub fn index_entry(stream_id: i64, offset: u64, wal_offset: u64, len: u32, hash: u64) -> (entry:
    KeyValue)
    ensures
        entry.key@ == i64_be(stream_id) + u64_be(offset),
        entry.value@ == u64_be(wal_offset) + u32_be(len) + u64_be(hash),
{
    let mut key: Vec<u8> = Vec::with_capacity(16);
    put_i64(&mut key, stream_id);
    put_u64(&mut key, offset);
    let mut value: Vec<u8> = Vec::with_capacity(20);
    put_u64(&mut value, wal_offset);
    put_u32(&mut value, len);
    put_u64(&mut value, hash);
    assert(key@ =~= i64_be(stream_id) + u64_be(offset));
    assert(value@ =~= u64_be(wal_offset) + u32_be(len) + u64_be(hash));
    KeyValue { key, value }
}

/// The value under which the checkpoint of the log is stored.
pub fn wal_checkpoint_value(offset: u64) -> (value: Vec<u8>)
    ensures
        value@ == u64_be(offset),
{
    let mut value: Vec<u8> = Vec::with_capacity(8);
    put_u64(&mut value, offset);
    assert(value@ =~= u64_be(offset));
    value
}

/// The checkpoint of the log that a stored value holds: 0 while nothing is
/// stored, the first eight bytes as a number otherwise. A value of fewer than
/// eight bytes is corrupted.
pub fn wal_checkpoint(stored: Option<&[u8]>) -> (offset: Result<u64, StoreError>)
    ensures
        offset == match stored {
            None => Ok::<u64, StoreError>(0),
            Some(value) => if value@.len() < 8 {
                Err(StoreError::DataCorrupted)
            } else {
                Ok(be_u64(value@.subrange(0, 8)))
            },
        },
{
    match stored {
        None => Ok(0),
        Some(value) => {
            if value.len() < 8 {
                Err(StoreError::DataCorrupted)
            } else {
                Ok(get_u64(value, 0))
            }
        },
    }
}

/// The prefix that the keys of all range records share.
pub fn range_prefix() -> (prefix: Vec<u8>)
    ensures
        prefix@ == seq![RANGE_PREFIX],
{
    let mut prefix: Vec<u8> = Vec::with_capacity(1);
    put_u8(&mut prefix, RANGE_PREFIX);
    assert(prefix@ =~= seq![RANGE_PREFIX]);
    prefix
}

/// The prefix that the keys of the range records of one stream share.
pub fn stream_prefix(stream_id: i64) -> (prefix: Vec<u8>)
    ensures
        prefix@ == seq![RANGE_PREFIX] + i64_be(stream_id),
{
    let mut prefix: Vec<u8> = Vec::with_capacity(9);
    put_u8(&mut prefix, RANGE_PREFIX);
    put_i64(&mut prefix, stream_id);
    assert(prefix@ =~= seq![RANGE_PREFIX] + i64_be(stream_id));
    prefix
}

/// The key of a range record.
pub fn range_key(stream_id: i64, start: u64) -> (key: Vec<u8>)
    ensures
        key@ == range_key_bytes(stream_id, start),
{
    let mut key: Vec<u8> = Vec::with_capacity(17);
    put_u8(&mut key, RANGE_PREFIX);
    put_i64(&mut key, stream_id);
    put_u64(&mut key, start);
    assert(key@ =~= range_key_bytes(stream_id, start));
    key
}

/// The record that adds a range to the index, sealed or not.
pub fn add_entry(stream_id: i64, range: &StreamRange) -> (entry: KeyValue)
    ensures
        entry.key@ == range_key_bytes(stream_id, range.start),
        entry.value@ == range_value_bytes(range.end),
{
    let key = range_key(stream_id, range.start);
    let mut value: Vec<u8> = Vec::with_capacity(9);
    match range.end {
        Some(end) => {
            put_u8(&mut value, 1);
            put_u64(&mut value, end);
        },
        None => {
            put_u8(&mut value, 0);
        },
    }
    assert(value@ =~= range_value_bytes(range.end));
    KeyValue { key, value }
}

/// The record that seals a range in the index. A range without an end cannot
/// be sealed.
pub fn seal_entry(stream_id: i64, range: &StreamRange) -> (entry: Result<KeyValue, StoreError>)
    ensures
        match range.end {
            None => entry matches Err(e) && e == StoreError::Internal,
            Some(end) => entry matches Ok(kv) && kv.key@ == range_key_bytes(stream_id, range.start)
                && kv.value@ == range_value_bytes(Some(end)),
        },
{
    match range.end {
        None => Err(StoreError::Internal),
        Some(end) => {
            let key = range_key(stream_id, range.start);
            let mut value: Vec<u8> = Vec::with_capacity(9);
            put_u8(&mut value, 1);
            put_u64(&mut value, end);
            assert(value@ =~= range_value_bytes(Some(end)));
            Ok(KeyValue { key, value })
        },
    }
}

/// Whether `key` begins with `prefix`.
pub fn starts_with(key: &[u8], prefix: &[u8]) -> (yes: bool)
    ensures
        yes == has_prefix(key@, prefix@),
{
    if prefix.len() > key.len() {
        return false;
    }
    let mut i: usize = 0;
    while i < prefix.len()
        invariant
            i <= prefix@.len() <= key@.len(),
            forall|j: int| 0 <= j < i ==> key@[j] == prefix@[j],
        decreases prefix@.len() - i,
    {
        if key[i] != prefix[i] {
            assert(key@.subrange(0, prefix@.len() as int)[i as int] != prefix@[i as int]);
            return false;
        }
        i = i + 1;
    }
    assert(key@.subrange(0, prefix@.len() as int) =~= prefix@);
    true
}

/// Whether a key and a value are long enough to be read as a range record.
pub fn is_range_record(key: &[u8], value: &[u8]) -> (yes: bool)
    ensures
        yes == record_shaped(key@, value@),
{
    key.len() >= RANGE_KEY_LEN && (value.len() == 1 || value.len() >= 9)
}

/// Reads a range record.
pub fn decode_range(key: &[u8], value: &[u8]) -> (range: StreamRange)
    requires
        record_shaped(key@, value@),
    ensures
        range == decoded_range(key@, value@),
{
    let start: u64 = get_u64(key, 9);
    if value.len() == 1 {
        StreamRange::new(start, None)
    } else {
        let end: u64 = get_u64(value, 1);
        StreamRange::new(start, Some(end))
    }
}

/// The ranges of the records at the head of `entries` whose keys begin with
/// `prefix`, in order: the walk ends at the first key that does not.
pub fn list_ranges(prefix: &[u8], entries: &Vec<KeyValue>) -> (ranges: Vec<StreamRange>)
    requires
        forall|i: int|
            0 <= i < entries@.len() && in_run(entries@, prefix@, i) ==> record_shaped(
                (#[trigger] entries@[i]).key@,
                entries@[i].value@,
            ),
    ensures
        ranges@.len() <= entries@.len(),
        forall|i: int|
            0 <= i < ranges@.len() ==> in_run(entries@, prefix@, i) && #[trigger] ranges@[i]
                == decoded_range(entries@[i].key@, entries@[i].value@),
        ranges@.len() < entries@.len() ==> !has_prefix(
            entries@[ranges@.len() as int].key@,
            prefix@,
        ),
{
    let mut ranges: Vec<StreamRange> = Vec::new();
    let mut i: usize = 0;
    while i < entries.len()
        invariant
            i <= entries@.len(),
            ranges@.len() == i,
            forall|i: int|
                0 <= i < entries@.len() && in_run(entries@, prefix@, i) ==> record_shaped(
                    (#[trigger] entries@[i]).key@,
                    entries@[i].value@,
                ),
            forall|j: int| 0 <= j < i ==> has_prefix((#[trigger] entries@[j]).key@, prefix@),
            forall|j: int|
                0 <= j < i ==> #[trigger] ranges@[j] == decoded_range(
                    entries@[j].key@,
                    entries@[j].value@,
                ),
        decreases entries@.len() - i,
    {
        let entry = &entries[i];
        if !starts_with(entry.key.as_slice(), prefix) {
            return ranges;
        }
        assert(in_run(entries@, prefix@, i as int));
        ranges.push(decode_range(entry.key.as_slice(), entry.value.as_slice()));
        i = i + 1;
    }
    ranges
}

/// The stored checkpoint reads back as the offset it was written for.
pub proof fn lemma_wal_checkpoint_round_trip(offset: u64)
    ensures
        u64_be(offset).len() >= 8,
        be_u64(u64_be(offset).subrange(0, 8)) == offset,
{
    lemma_u64_round_trip(offset);
    assert(u64_be(offset).subrange(0, 8) =~= u64_be(offset));
}

/// A range record reads back as the range it was written for.
pub proof fn lemma_range_record_round_trip(stream_id: i64, start: u64, end: Option<u64>)
    ensures
        record_shaped(range_key_bytes(stream_id, start), range_value_bytes(end)),
        has_prefix(range_key_bytes(stream_id, start), seq![RANGE_PREFIX] + i64_be(stream_id)),
        has_prefix(range_key_bytes(stream_id, start), seq![RANGE_PREFIX]),
        decoded_range(range_key_bytes(stream_id, start), range_value_bytes(end)) == (StreamRange {
            start,
            end,
        }),
{
    let key = range_key_bytes(stream_id, start);
    let value = range_value_bytes(end);
    lemma_u64_round_trip(start);
    assert(key.subrange(9, 17) =~= u64_be(start));
    assert(key.subrange(0, 9) =~= seq![RANGE_PREFIX] + i64_be(stream_id));
    assert(key.subrange(0, 1) =~= seq![RANGE_PREFIX]);
    match end {
        Some(e) => {
            lemma_u64_round_trip(e);
            assert(value.subrange(1, 9) =~= u64_be(e));
        },
        None => {},
    }
}

} // verus!
