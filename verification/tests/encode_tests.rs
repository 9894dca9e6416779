use rand::RngExt;

use scottdb::encode::{
    decode_fixed32, decode_fixed64, encode_fixed32, encode_fixed32_ret, encode_fixed64,
    encode_fixed64_ret,
};

#[test]
fn test_encode_decode_32() {
    for _ in 1..1024 {
        let number = rand::rng().random_range(0..0x7FFFFFFFu32);
        let mut buffer = [0u8; 4];
        encode_fixed32(&mut buffer, number);
        assert_eq!(decode_fixed32(&buffer), number)
    }
}

#[test]
fn test_encode_decode_32_ret() {
    for _ in 1..1024 {
        let number = rand::rng().random_range(0..0x7FFFFFFFu32);
        let buffer = encode_fixed32_ret(number);
        assert_eq!(decode_fixed32(&buffer), number)
    }
}

#[test]
fn test_encode_decode_64() {
    for _ in 1..1024 {
        let number = rand::rng().random_range(0..0x7FFFFFFFFFFFFFFFu64);
        let mut buffer = [0u8; 8];
        encode_fixed64(&mut buffer, number);
        assert_eq!(decode_fixed64(&buffer), number)
    }
}

#[test]
fn test_encode_decode_64_ret() {
    for _ in 1..1024 {
        let number = rand::rng().random_range(0..0x7FFFFFFFFFFFFFFFu64);
        let buffer = encode_fixed64_ret(number);
        assert_eq!(decode_fixed64(&buffer), number)
    }
}

#[test]
fn test_encode_32_exact_bytes() {
    assert_eq!(encode_fixed32_ret(0x01020304), [1, 2, 3, 4]);
    assert_eq!(encode_fixed32_ret(0), [0, 0, 0, 0]);
    assert_eq!(encode_fixed32_ret(u32::MAX), [0xFF, 0xFF, 0xFF, 0xFF]);
}

#[test]
fn test_encode_64_exact_bytes() {
    assert_eq!(
        encode_fixed64_ret(0x0102030405060708),
        [1, 2, 3, 4, 5, 6, 7, 8]
    );
    assert_eq!(decode_fixed64(&[0, 0, 0, 0, 0, 0, 1, 0]), 256);
}
