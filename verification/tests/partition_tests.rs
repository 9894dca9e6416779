use std::collections::HashMap;

use scottdb::cache::TableCacheManager;
use scottdb::memtable::{InternalKey, UserKey};
use scottdb::partition::{LookupStep, Partition, RangeOrdering, WriteOutcome};
use scottdb::tablefmt::ScTableCatalogItem;
use scottdb::{DefaultComparator, Options};

fn options(table_size: usize) -> Options {
    Options::new(
        "db".to_string(),
        4,
        10,
        10,
        4,
        table_size,
        1024,
        1024,
    )
}

fn ikey(seq: u64, key: &[u8]) -> InternalKey {
    InternalKey::new(seq, UserKey::new_owned(key.to_vec()))
}

/// Runs a point lookup to completion against an in-memory file store.
fn get(
    part: &Partition<DefaultComparator>,
    mgr: &mut TableCacheManager,
    files: &HashMap<String, Vec<u8>>,
    key: &[u8],
) -> Option<Vec<u8>> {
    let mut step = part.get_start(mgr, key);
    loop {
        match step {
            LookupStep::Done(res) => return res,
            LookupStep::Fetch(file, cursor) => {
                let raw = files
                    .get(&file.file_name())
                    .expect("lookup asked for a file that was never persisted");
                let quota = mgr.acquire_quota();
                step = part
                    .get_resume(mgr, key, cursor, raw, quota)
                    .expect("persisted segment did not parse back");
            }
        }
    }
}

#[test]
fn put_then_get_before_flush() {
    // a written value reads back before any flush; writing an empty
    // value is a deletion and reads back as absent
    let opts = options(4096);
    let mut part: Partition<DefaultComparator> = Partition::new(&opts, 1);
    let mut mgr = TableCacheManager::new(4);
    let files = HashMap::new();

    assert!(matches!(
        part.write(ikey(1, b"k"), b"v".to_vec()),
        Ok(WriteOutcome::Inserted)
    ));
    assert_eq!(get(&part, &mut mgr, &files, b"k"), Some(b"v".to_vec()));

    assert!(matches!(
        part.write(ikey(2, b"k"), Vec::new()),
        Ok(WriteOutcome::Inserted)
    ));
    assert_eq!(get(&part, &mut mgr, &files, b"k"), None);
}

#[test]
fn latest_sequence_wins_in_memtable() {
    let opts = options(4096);
    let mut part: Partition<DefaultComparator> = Partition::new(&opts, 1);
    let mut mgr = TableCacheManager::new(4);
    let files = HashMap::new();

    part.write(ikey(1, b"k"), b"old".to_vec()).unwrap();
    part.write(ikey(2, b"k"), b"new".to_vec()).unwrap();
    assert_eq!(get(&part, &mut mgr, &files, b"k"), Some(b"new".to_vec()));
}

#[test]
fn out_of_bounds_reads_are_absent() {
    // for bounds [b, d], any key below b or above d is absent at once
    let opts = options(4096);
    let mut part: Partition<DefaultComparator> = Partition::new(&opts, 1);
    let mut mgr = TableCacheManager::new(4);
    let files = HashMap::new();

    part.write(ikey(1, b"b"), b"1".to_vec()).unwrap();
    part.write(ikey(2, b"d"), b"2".to_vec()).unwrap();
    assert_eq!(get(&part, &mut mgr, &files, b"a"), None);
    assert_eq!(get(&part, &mut mgr, &files, b"e"), None);
    // in bounds but never written: absent as well
    assert_eq!(get(&part, &mut mgr, &files, b"c"), None);
    // an empty partition has no bounds: everything is absent
    let empty: Partition<DefaultComparator> = Partition::new(&opts, 2);
    let mut step = empty.get_start(&mut mgr, b"a");
    assert!(matches!(step, LookupStep::Done(None)));
    step = empty.get_start(&mut mgr, b"");
    assert!(matches!(step, LookupStep::Done(None)));
}

#[test]
fn backpressure_then_flush_makes_entries_visible() {
    // with a table size small enough to force freezing: a write that
    // does not fit while a snapshot is pending must not complete; after
    // the flush it succeeds, and the flushed entries stay visible
    // through the new level-0 segment
    let opts = options(64);
    let mut part: Partition<DefaultComparator> = Partition::new(&opts, 1);
    let mut mgr = TableCacheManager::new(2);
    let mut files: HashMap<String, Vec<u8>> = HashMap::new();

    // fits: 24 (fixed) + 26 (entry) <= 64
    assert!(matches!(
        part.write(ikey(1, b"a"), b"1".to_vec()),
        Ok(WriteOutcome::Inserted)
    ));
    // does not fit: freezes the table and inserts into a fresh one
    assert!(matches!(
        part.write(ikey(2, b"b"), b"2".to_vec()),
        Ok(WriteOutcome::InsertedAfterFreeze)
    ));
    // still does not fit and a snapshot is pending: blocked, unchanged
    assert!(matches!(
        part.write(ikey(3, b"c"), b"3".to_vec()),
        Ok(WriteOutcome::Blocked)
    ));
    assert_eq!(get(&part, &mut mgr, &files, b"c"), None);
    // the frozen entry is still readable while the flush is pending
    assert_eq!(get(&part, &mut mgr, &files, b"a"), Some(b"1".to_vec()));

    // the flush: persist the built segment, then complete
    let (file, bytes) = part.prepare_flush().unwrap();
    files.insert(file.file_name(), bytes);
    part.complete_flush();

    // the blocked write now goes through (freezing again)
    assert!(matches!(
        part.write(ikey(3, b"c"), b"3".to_vec()),
        Ok(WriteOutcome::InsertedAfterFreeze)
    ));
    assert_eq!(get(&part, &mut mgr, &files, b"c"), Some(b"3".to_vec()));

    // the flushed entry is served from the level-0 segment
    assert_eq!(get(&part, &mut mgr, &files, b"a"), Some(b"1".to_vec()));
    // and again, now out of the shared cache
    assert_eq!(get(&part, &mut mgr, &files, b"a"), Some(b"1".to_vec()));
}

#[test]
fn flushed_tombstone_stays_deleted() {
    let opts = options(128);
    let mut part: Partition<DefaultComparator> = Partition::new(&opts, 1);
    let mut mgr = TableCacheManager::new(2);
    let mut files: HashMap<String, Vec<u8>> = HashMap::new();

    assert!(matches!(
        part.write(ikey(1, b"a"), b"1".to_vec()),
        Ok(WriteOutcome::Inserted)
    ));
    assert!(matches!(
        part.write(ikey(2, b"a"), Vec::new()),
        Ok(WriteOutcome::Inserted)
    ));
    // force a freeze with a write that does not fit
    let big = vec![b'x'; 40];
    assert!(matches!(
        part.write(ikey(3, b"b"), big.clone()),
        Ok(WriteOutcome::InsertedAfterFreeze)
    ));
    let (file, bytes) = part.prepare_flush().unwrap();
    files.insert(file.file_name(), bytes);
    part.complete_flush();

    // "a" only lives in the flushed segment now, as a tombstone
    assert_eq!(get(&part, &mut mgr, &files, b"a"), None);
    assert_eq!(get(&part, &mut mgr, &files, b"b"), Some(big));
}

#[test]
fn failed_flush_poisons_writes_not_reads() {
    let opts = options(64);
    let mut part: Partition<DefaultComparator> = Partition::new(&opts, 1);
    let mut mgr = TableCacheManager::new(2);
    let files: HashMap<String, Vec<u8>> = HashMap::new();

    part.write(ikey(1, b"a"), b"1".to_vec()).unwrap();
    part.write(ikey(2, b"b"), b"2".to_vec()).unwrap();
    let (file, _bytes) = part.prepare_flush().unwrap();
    part.fail_flush(scottdb::error::Error::io_error(
        scottdb::error::ErrorStr::StaticBorrow("disk full"),
        file.file_name(),
    ));

    // writes fail fast with the latched error
    assert!(matches!(
        part.write(ikey(3, b"c"), b"3".to_vec()),
        Err(scottdb::error::Error::IOError { .. })
    ));
    // reads still work: "b" is in the mutable table
    assert_eq!(get(&part, &mut mgr, &files, b"b"), Some(b"2".to_vec()));
}

#[test]
fn range_cmp_three_outcomes() {
    let opts = options(4096);
    let mut p1: Partition<DefaultComparator> = Partition::new(&opts, 1);
    let mut p2: Partition<DefaultComparator> = Partition::new(&opts, 2);
    let mut p3: Partition<DefaultComparator> = Partition::new(&opts, 3);
    p1.write(ikey(1, b"a"), b"x".to_vec()).unwrap();
    p1.write(ikey(2, b"c"), b"x".to_vec()).unwrap();
    p2.write(ikey(3, b"d"), b"x".to_vec()).unwrap();
    p2.write(ikey(4, b"f"), b"x".to_vec()).unwrap();
    p3.write(ikey(5, b"b"), b"x".to_vec()).unwrap();
    p3.write(ikey(6, b"e"), b"x".to_vec()).unwrap();

    assert!(matches!(p1.range_cmp(&p2), RangeOrdering::Before));
    assert!(matches!(p2.range_cmp(&p1), RangeOrdering::After));
    assert!(matches!(p1.range_cmp(&p3), RangeOrdering::Overlapping));
    assert!(matches!(p3.range_cmp(&p2), RangeOrdering::Overlapping));
}

#[test]
fn newest_level0_segment_shadows_older() {
    // two flushed segments both hold "a": the newer one wins the scan
    let opts = options(64);
    let mut part: Partition<DefaultComparator> = Partition::new(&opts, 1);
    let mut mgr = TableCacheManager::new(4);
    let mut files: HashMap<String, Vec<u8>> = HashMap::new();

    assert!(matches!(
        part.write(ikey(1, b"a"), b"1".to_vec()),
        Ok(WriteOutcome::Inserted)
    ));
    assert!(matches!(
        part.write(ikey(2, b"a"), b"2".to_vec()),
        Ok(WriteOutcome::InsertedAfterFreeze)
    ));
    let (f1, b1) = part.prepare_flush().unwrap();
    files.insert(f1.file_name(), b1);
    part.complete_flush();

    assert!(matches!(
        part.write(ikey(3, b"b"), b"3".to_vec()),
        Ok(WriteOutcome::InsertedAfterFreeze)
    ));
    let (f2, b2) = part.prepare_flush().unwrap();
    files.insert(f2.file_name(), b2);
    part.complete_flush();
    assert_ne!(f1.file_name(), f2.file_name());

    // "a" lives in both segments: the second flush carried seq 2
    assert_eq!(get(&part, &mut mgr, &files, b"a"), Some(b"2".to_vec()));
    assert_eq!(get(&part, &mut mgr, &files, b"b"), Some(b"3".to_vec()));
}

#[test]
fn kv_pair_size_counts_overhead() {
    let key = ikey(1, b"abc");
    assert_eq!(scottdb::partition::kv_pair_size(&key, b"xy"), 3 + 2 + 24);
}

#[test]
fn catalog_item_roundtrip() {
    let it = ScTableCatalogItem::new(7, 1, 2, 3, 4);
    let mut bytes = Vec::new();
    it.serialize(&mut bytes);
    assert_eq!(bytes.len(), 24);
    let back = ScTableCatalogItem::deserialize(&bytes);
    assert_eq!(back, it);
}

