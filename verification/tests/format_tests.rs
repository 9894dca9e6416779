use scottdb::builder::ScTableBuilder;
use scottdb::cache::{ScTableCache, TableCacheManager};
use scottdb::encode::decode_fixed32;
use scottdb::error::Error;
use scottdb::sctable::ScTableFile;
use scottdb::tablefmt::crc32_checksum;
use scottdb::DefaultComparator;

#[test]
fn test_builder_1() {
    let data = [
        (
            0x40490fd0fffffffeu64,
            "正当梨花开遍了天涯".as_bytes(),
            "Расцветали яблони и груши".as_bytes(),
        ),
        (
            0x40490fd0fffffffeu64,
            "河上飘着柔软的轻纱".as_bytes(),
            "Поплыли туманы над рекой".as_bytes(),
        ),
        (
            0x40490fd0fffffffeu64,
            "喀秋莎站在那俊俏的岸上".as_bytes(),
            "Выходила на берег Катюша".as_bytes(),
        ),
        (
            0x40490fd0fffffffeu64,
            "歌声好像明媚的春光".as_bytes(),
            "На высокий берег, на крутой".as_bytes(),
        ),
        (0x40490fd0fffffffeu64, "间奏".as_bytes(), "".as_bytes()),
        (
            0x40490fd0ffffffffu64,
            "喀秋莎站在那俊俏的岸上".as_bytes(),
            "Выходила на берег Катюша".as_bytes(),
        ),
        (
            0x40490fd0ffffffffu64,
            "歌声好像明媚的春光".as_bytes(),
            "На высокий берег, на крутой".as_bytes(),
        ),
        (0x40490fd0fffffffeu64, "尾声".as_bytes(), "".as_bytes()),
    ];

    let mut builder = ScTableBuilder::new();
    for &(seq, key, value) in data.iter() {
        builder.add_kv(seq, key, value);
    }
    let buffer = builder.build();

    let mut cache_manager = TableCacheManager::new(1);
    let quota = cache_manager.acquire_quota();
    let table = ScTableCache::from_raw(&buffer, quota).unwrap();
    assert_eq!(table.catalog_size(), data.len());
    for (i, &(seq, key, value)) in data.iter().enumerate() {
        let (seq1, key1, value1) = table.nth_item(i);
        assert_eq!(seq1, seq);
        assert_eq!(key1, key);
        assert_eq!(value1, value);
    }
}

fn build_sample() -> Vec<u8> {
    let mut builder = ScTableBuilder::new();
    builder.add_kv(1, b"a", b"1");
    builder.add_kv(2, b"b", b"2");
    builder.add_kv(3, b"c", b"");
    builder.build()
}

fn parse(raw: &[u8]) -> Result<ScTableCache, Error> {
    let mut cache_manager = TableCacheManager::new(1);
    let quota = cache_manager.acquire_quota();
    ScTableCache::from_raw(raw, quota)
}

#[test]
fn three_records_segment() {
    // three pairs, one of them a tombstone: the catalog region holds
    // exactly three fixed-size entries, lookups find "a", the tombstone
    // parses back as an empty value, and a missing key is a miss
    let buffer = build_sample();
    assert_eq!(decode_fixed32(&buffer[0..4]) as usize, 3 * 24);
    let table = parse(&buffer).unwrap();
    assert_eq!(table.catalog_size(), 3);
    assert_eq!(table.get::<DefaultComparator>(b"a"), Some(b"1".to_vec()));
    assert_eq!(table.get::<DefaultComparator>(b"b"), Some(b"2".to_vec()));
    assert_eq!(table.get::<DefaultComparator>(b"c"), Some(Vec::new()));
    assert_eq!(table.get::<DefaultComparator>(b"d"), None);
}

#[test]
fn parse_recovers_insertion_order() {
    // entries come back in exactly the order they were added
    let mut builder = ScTableBuilder::new();
    builder.add_kv(9, b"zz", b"last");
    builder.add_kv(7, b"mm", b"middle");
    builder.add_kv(5, b"aa", b"first");
    let buffer = builder.build();
    let table = parse(&buffer).unwrap();
    assert_eq!(table.catalog_size(), 3);
    assert_eq!(table.nth_item(0), (9, b"zz".to_vec(), b"last".to_vec()));
    assert_eq!(table.nth_item(1), (7, b"mm".to_vec(), b"middle".to_vec()));
    assert_eq!(table.nth_item(2), (5, b"aa".to_vec(), b"first".to_vec()));
}

#[test]
fn latest_sequence_wins_inside_segment() {
    // two entries for one key, sorted by sequence: the lookup returns
    // the one with the higher sequence number
    let mut builder = ScTableBuilder::new();
    builder.add_kv(1, b"k", b"old");
    builder.add_kv(2, b"k", b"new");
    let buffer = builder.build();
    let table = parse(&buffer).unwrap();
    assert_eq!(table.get::<DefaultComparator>(b"k"), Some(b"new".to_vec()));
}

#[test]
fn corrupt_single_byte_flips() {
    // flipping any single byte of the catalog region, the data region
    // or the magic trailer must be reported as a corrupt segment
    let buffer = build_sample();
    let len = buffer.len();
    for i in 16..len {
        let mut bad = buffer.clone();
        bad[i] ^= 0xFF;
        match parse(&bad) {
            Err(Error::ScTableCorrupt { .. }) => {}
            other => panic!("byte {} flipped, expected corruption, got {:?}", i, other.is_ok()),
        }
    }
}

#[test]
fn corrupt_truncations() {
    // any truncation below the fixed header-plus-trailer size must be
    // reported as a corrupt segment, and so must mid-file truncations
    let buffer = build_sample();
    for n in 0..24 {
        let bad = buffer[0..n].to_vec();
        assert!(matches!(parse(&bad), Err(Error::ScTableCorrupt { .. })));
    }
    let bad = buffer[0..buffer.len() - 1].to_vec();
    assert!(matches!(parse(&bad), Err(Error::ScTableCorrupt { .. })));
}

#[test]
fn corrupt_declared_sizes() {
    // a declared size that does not add up is a corrupt segment
    let mut bad = build_sample();
    bad[3] = bad[3].wrapping_add(24);
    assert!(matches!(parse(&bad), Err(Error::ScTableCorrupt { .. })));
}

#[test]
fn crc32_known_value() {
    // the standard check value of the CRC-32 algorithm the format uses
    assert_eq!(crc32_checksum(b"123456789"), 0xCBF43926);
    assert_ne!(crc32_checksum(b"123456780"), crc32_checksum(b"123456789"));
}

#[test]
fn segment_file_name() {
    let f = ScTableFile::new(1, 0, 42);
    assert_eq!(f.file_name(), "1_0_42.sst");
    let g = ScTableFile::new(1234567, 15, 9000000000);
    assert_eq!(g.file_name(), "1234567_15_9000000000.sst");
    assert_eq!(ScTableFile::new(0, 0, 0).file_name(), "0_0_0.sst");
}
