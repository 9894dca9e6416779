use scottdb::builder::ScTableBuilder;
use scottdb::cache::{ScTableCache, TableCacheManager};
use scottdb::io::IOManager;
use scottdb::sctable::ScTableFile;
use std::cmp::Ordering;

use scottdb::{Comparator, DefaultComparator, Options, ScottDB};

#[test]
fn it_works() {
    assert_eq!(2 + 2, 4);
}

#[test]
fn facade_construction() {
    let opts = Options::new("db".to_string(), 8, 10, 10, 16, 4096, 1024, 1024);
    let db: ScottDB<DefaultComparator> = ScottDB::new(opts);
    assert_eq!(db.partitions.len(), 0);
    assert_eq!(db.options.cache_count, 8);
    assert_eq!(db.options.max_open_files, 16);
}

#[test]
fn default_comparator_is_lexicographic() {
    assert_eq!(DefaultComparator::compare(b"a", b"b"), Ordering::Less);
    assert_eq!(DefaultComparator::compare(b"b", b"a"), Ordering::Greater);
    assert_eq!(DefaultComparator::compare(b"ab", b"ab"), Ordering::Equal);
    // a strict prefix sorts first
    assert_eq!(DefaultComparator::compare(b"ab", b"abc"), Ordering::Less);
    assert_eq!(DefaultComparator::compare(b"abc", b"ab"), Ordering::Greater);
    assert_eq!(DefaultComparator::compare(b"", b""), Ordering::Equal);
    assert_eq!(DefaultComparator::compare(b"", b"a"), Ordering::Less);
}

#[test]
fn file_quota_never_exceeds_maximum() {
    // the number of simultaneously outstanding file permits is capped
    let mut io = IOManager::new(2);
    let q1 = io.acquire_quota();
    let q2 = io.acquire_quota();
    assert!(io.try_acquire_quota().is_none());
    io.on_quota_released(q1);
    let q3 = io.try_acquire_quota();
    assert!(q3.is_some());
    assert!(io.try_acquire_quota().is_none());
    io.on_quota_released(q2);
    io.on_quota_released(q3.unwrap());
}

#[test]
fn cache_quota_never_exceeds_maximum() {
    let mut mgr = TableCacheManager::new(2);
    let q1 = mgr.acquire_quota();
    let q2 = mgr.acquire_quota();
    assert!(mgr.try_acquire_quota().is_none());
    mgr.on_cache_released(q1);
    assert!(mgr.try_acquire_quota().is_some());
    drop(q2);
}

fn segment_with(key: &[u8], value: &[u8]) -> Vec<u8> {
    let mut b = ScTableBuilder::new();
    b.add_kv(1, key, value);
    b.build()
}

#[test]
fn cache_keeps_and_evicts_parsed_segments() {
    // with one cache slot, registering a second segment evicts the
    // least-recently-used first one and frees its permit
    let mut mgr = TableCacheManager::new(1);
    let f1 = ScTableFile::new(1, 0, 0);
    let f2 = ScTableFile::new(1, 0, 1);

    let q = mgr.acquire_quota();
    let s1 = ScTableCache::from_raw(&segment_with(b"a", b"1"), q).unwrap();
    mgr.add_cache(f1, s1);
    assert!(mgr.get_cache(f1).is_some());
    assert!(mgr.get_cache(f2).is_none());

    let q = mgr.acquire_quota();
    let s2 = ScTableCache::from_raw(&segment_with(b"b", b"2"), q).unwrap();
    mgr.add_cache(f2, s2);
    assert!(mgr.get_cache(f1).is_none());
    let hit = mgr.get_cache(f2).unwrap();
    assert_eq!(hit.get::<DefaultComparator>(b"b"), Some(b"2".to_vec()));
}
