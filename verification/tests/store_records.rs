use stream_core::compaction::{CompactionDecision, IndexCompactionFilter, RangeCompactionFilter};
use stream_core::error::StoreError;
use stream_core::index::{
    add_entry, decode_range, index_entry, is_range_record, list_ranges, range_key, range_prefix,
    seal_entry, starts_with, stream_prefix, wal_checkpoint, wal_checkpoint_value, KeyValue,
    StreamRange, RANGE_PREFIX,
};
use stream_core::lock::Lock;

#[test]
fn index_entry_layout() {
    let entry = index_entry(1, 2, 0x0102030405060708, 0x0a0b0c0d, 3);
    assert_eq!(entry.key, vec![0, 0, 0, 0, 0, 0, 0, 1, 0, 0, 0, 0, 0, 0, 0, 2]);
    assert_eq!(
        entry.value,
        vec![1, 2, 3, 4, 5, 6, 7, 8, 0x0a, 0x0b, 0x0c, 0x0d, 0, 0, 0, 0, 0, 0, 0, 3]
    );
    let negative = index_entry(-2, u64::MAX, 0, 0, 0);
    assert_eq!(&negative.key[..8], &[0xff, 0xff, 0xff, 0xff, 0xff, 0xff, 0xff, 0xfe]);
    assert_eq!(&negative.key[8..], &[0xff; 8]);
}

#[test]
fn wal_checkpoint_round_trip() {
    assert_eq!(wal_checkpoint(None), Ok(0));
    let value = wal_checkpoint_value(0x1122334455667788);
    assert_eq!(value, vec![0x11, 0x22, 0x33, 0x44, 0x55, 0x66, 0x77, 0x88]);
    assert_eq!(wal_checkpoint(Some(&value[..])), Ok(0x1122334455667788));
    assert_eq!(wal_checkpoint(Some(&[0, 0, 0, 0, 0, 0, 1, 0, 9, 9][..])), Ok(256));
    assert_eq!(wal_checkpoint(Some(&[1, 2, 3][..])), Err(StoreError::DataCorrupted));
    assert_eq!(wal_checkpoint(Some(&[][..])), Err(StoreError::DataCorrupted));
}

#[test]
fn range_record_layout() {
    assert_eq!(RANGE_PREFIX, b'r');
    assert_eq!(range_prefix(), vec![b'r']);
    assert_eq!(stream_prefix(3), vec![b'r', 0, 0, 0, 0, 0, 0, 0, 3]);
    assert_eq!(range_key(3, 5), vec![b'r', 0, 0, 0, 0, 0, 0, 0, 3, 0, 0, 0, 0, 0, 0, 0, 5]);
    let open = add_entry(3, &StreamRange::new(5, None));
    assert_eq!(open.value, vec![0]);
    let sealed = add_entry(3, &StreamRange::new(5, Some(9)));
    assert_eq!(sealed.key, range_key(3, 5));
    assert_eq!(sealed.value, vec![1, 0, 0, 0, 0, 0, 0, 0, 9]);
    assert_eq!(seal_entry(3, &StreamRange::new(5, Some(9))), Ok(sealed));
    assert_eq!(seal_entry(3, &StreamRange::new(5, None)), Err(StoreError::Internal));
    assert!(StreamRange::new(5, Some(9)).sealed());
    assert!(!StreamRange::new(5, None).sealed());
}

#[test]
fn range_record_reads_back() {
    let range = StreamRange::new(0xdead_beef_0000_0001, Some(0xdead_beef_0000_00ff));
    let entry = add_entry(-1, &range);
    assert!(is_range_record(&entry.key, &entry.value));
    assert_eq!(decode_range(&entry.key, &entry.value), range);
    let open = StreamRange::new(12, None);
    let entry = add_entry(4, &open);
    assert_eq!(decode_range(&entry.key, &entry.value), open);
    assert!(!is_range_record(&entry.key[..16], &entry.value));
    assert!(!is_range_record(&entry.key, &[1, 2]));
    assert!(!is_range_record(&entry.key, &[]));
}

#[test]
fn listing_stops_at_the_first_foreign_key() {
    let entries: Vec<KeyValue> = vec![
        add_entry(3, &StreamRange::new(0, Some(10))),
        add_entry(3, &StreamRange::new(10, None)),
        add_entry(4, &StreamRange::new(0, None)),
        add_entry(3, &StreamRange::new(99, None)),
    ];
    let of_three = list_ranges(&stream_prefix(3), &entries);
    assert_eq!(of_three, vec![StreamRange::new(0, Some(10)), StreamRange::new(10, None)]);
    let all = list_ranges(&range_prefix(), &entries);
    assert_eq!(all.len(), 4);
    assert_eq!(all[3], StreamRange::new(99, None));
    assert_eq!(list_ranges(&stream_prefix(4), &entries), vec![]);
    assert_eq!(list_ranges(&stream_prefix(3), &vec![]), vec![]);
}

#[test]
fn prefix_test() {
    assert!(starts_with(&[1, 2, 3], &[1, 2]));
    assert!(starts_with(&[1, 2, 3], &[]));
    assert!(starts_with(&[1, 2, 3], &[1, 2, 3]));
    assert!(!starts_with(&[1, 2, 3], &[1, 3]));
    assert!(!starts_with(&[1, 2], &[1, 2, 3]));
}

#[test]
fn index_filter_decisions() {
    let filter = IndexCompactionFilter::new(100);
    let key: [u8; 8] = [0; 8];
    assert_eq!(filter.filter(0, &key, &99u64.to_be_bytes()), CompactionDecision::Remove);
    assert_eq!(filter.filter(0, &key, &100u64.to_be_bytes()), CompactionDecision::Keep);
    assert_eq!(filter.filter(0, &key, &101u64.to_be_bytes()), CompactionDecision::Keep);
    assert_eq!(filter.filter(0, &key, &[0, 0, 1]), CompactionDecision::Remove);
    // Only the first eight bytes of the value count.
    let mut long: Vec<u8> = 7u64.to_be_bytes().to_vec();
    long.extend_from_slice(&[0xff; 12]);
    assert_eq!(filter.filter(0, &key, &long), CompactionDecision::Remove);
    // Keys of another length are left alone.
    assert_eq!(filter.filter(0, &[0; 16], &1u64.to_be_bytes()), CompactionDecision::Keep);
    assert_eq!(filter.filter(0, &[], &[]), CompactionDecision::Keep);
    // Big-endian, not little-endian: 1 << 56 is far above the minimum.
    assert_eq!(filter.filter(0, &key, &[1, 0, 0, 0, 0, 0, 0, 0]), CompactionDecision::Keep);
}

#[test]
fn range_filter_decisions() {
    let filter = RangeCompactionFilter::new(100);
    let mut pair: Vec<u8> = 10u64.to_be_bytes().to_vec();
    pair.extend_from_slice(&100u64.to_be_bytes());
    assert_eq!(filter.filter(0, &[], &pair), CompactionDecision::Remove);
    let mut pair: Vec<u8> = 10u64.to_be_bytes().to_vec();
    pair.extend_from_slice(&101u64.to_be_bytes());
    assert_eq!(filter.filter(0, &[], &pair), CompactionDecision::Keep);
    assert_eq!(filter.filter(0, &[], &5u64.to_be_bytes()), CompactionDecision::Keep);
    assert_eq!(filter.filter(0, &[], &[1, 2, 3]), CompactionDecision::Keep);
}

#[test]
fn lock_id_read_and_written() {
    assert_eq!(Lock::read_id(&[0, 0, 1, 2, 77]), Ok(258));
    assert_eq!(Lock::read_id(&[0xff, 0xff, 0xff, 0xfe]), Ok(-2));
    assert_eq!(Lock::read_id(&[0, 0, 1]), Err(StoreError::IO));
    assert_eq!(Lock::fresh_id(Some(258)), Ok((258, vec![0, 0, 1, 2])));
    assert_eq!(Lock::fresh_id(Some(-2)), Ok((-2, vec![0xff, 0xff, 0xff, 0xfe])));
    assert_eq!(Lock::fresh_id(None), Err(StoreError::Configuration));
    let lock = Lock::new(258, true).unwrap();
    assert_eq!(lock.id(), 258);
    assert_eq!(Lock::new(258, false), Err(StoreError::AcquireLock));
}
