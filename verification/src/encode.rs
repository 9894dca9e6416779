//! Fixed-width big-endian integer encoding.

use vstd::prelude::*;

verus! {

/// The four bytes that big-endian-encode `num`.
pub open spec fn spec_encode32(num: u32) -> Seq<u8> {
    seq![
        (num / 0x1000000) as u8,
        ((num / 0x10000) % 0x100) as u8,
        ((num / 0x100) % 0x100) as u8,
        (num % 0x100) as u8,
    ]
}

/// The number encoded big-endian by four bytes.
pub open spec fn spec_decode32(s: Seq<u8>) -> u32
    recommends
        s.len() == 4,
{
    ((s[0] as int) * 0x1000000 + (s[1] as int) * 0x10000 + (s[2] as int) * 0x100 + (
    s[3] as int)) as u32
}

/// The eight bytes that big-endian-encode `num`.
pub open spec fn spec_encode64(num: u64) -> Seq<u8> {
    seq![
        (num / 0x100000000000000) as u8,
        ((num / 0x1000000000000) % 0x100) as u8,
        ((num / 0x10000000000) % 0x100) as u8,
        ((num / 0x100000000) % 0x100) as u8,
        ((num / 0x1000000) % 0x100) as u8,
        ((num / 0x10000) % 0x100) as u8,
        ((num / 0x100) % 0x100) as u8,
        (num % 0x100) as u8,
    ]
}

/// The number encoded big-endian by eight bytes.
pub open spec fn spec_decode64(s: Seq<u8>) -> u64
    recommends
        s.len() == 8,
{
    ((s[0] as int) * 0x100000000000000 + (s[1] as int) * 0x1000000000000 + (s[2] as int)
        * 0x10000000000 + (s[3] as int) * 0x100000000 + (s[4] as int) * 0x1000000 + (s[5] as int)
        * 0x10000 + (s[6] as int) * 0x100 + (s[7] as int)) as u64
}

/// Decoding the encoding of a 32-bit number gives the number back.
pub proof fn lemma_decode_encode32(num: u32)
    ensures
        spec_decode32(spec_encode32(num)) == num,
{
    assert((num / 0x1000000) * 0x1000000 + ((num / 0x10000) % 0x100) * 0x10000 + ((num / 0x100)
        % 0x100) * 0x100 + (num % 0x100) == num) by (nonlinear_arith);
}

/// Decoding the encoding of a 64-bit number gives the number back.
pub proof fn lemma_decode_encode64(num: u64)
    ensures
        spec_decode64(spec_encode64(num)) == num,
{
    let n = num as int;
    let x1 = n / 0x100;
    let x2 = n / 0x10000;
    let x3 = n / 0x1000000;
    let x4 = n / 0x100000000;
    let x5 = n / 0x10000000000;
    let x6 = n / 0x1000000000000;
    let x7 = n / 0x100000000000000;
    assert(x1 / 0x100 == x2) by {
        vstd::arithmetic::div_mod::lemma_div_denominator(n, 0x100, 0x100);
    }
    assert(x2 / 0x100 == x3) by {
        vstd::arithmetic::div_mod::lemma_div_denominator(n, 0x10000, 0x100);
    }
    assert(x3 / 0x100 == x4) by {
        vstd::arithmetic::div_mod::lemma_div_denominator(n, 0x1000000, 0x100);
    }
    assert(x4 / 0x100 == x5) by {
        vstd::arithmetic::div_mod::lemma_div_denominator(n, 0x100000000, 0x100);
    }
    assert(x5 / 0x100 == x6) by {
        vstd::arithmetic::div_mod::lemma_div_denominator(n, 0x10000000000, 0x100);
    }
    assert(x6 / 0x100 == x7) by {
        vstd::arithmetic::div_mod::lemma_div_denominator(n, 0x1000000000000, 0x100);
    }
    vstd::arithmetic::div_mod::lemma_fundamental_div_mod(n, 0x100);
    vstd::arithmetic::div_mod::lemma_fundamental_div_mod(x1, 0x100);
    vstd::arithmetic::div_mod::lemma_fundamental_div_mod(x2, 0x100);
    vstd::arithmetic::div_mod::lemma_fundamental_div_mod(x3, 0x100);
    vstd::arithmetic::div_mod::lemma_fundamental_div_mod(x4, 0x100);
    vstd::arithmetic::div_mod::lemma_fundamental_div_mod(x5, 0x100);
    vstd::arithmetic::div_mod::lemma_fundamental_div_mod(x6, 0x100);
}

/// Reads the 32-bit number that `s` encodes big-endian.
pub fn decode_fixed32(s: &[u8]) -> (r: u32)
    requires
        s@.len() == 4,
    ensures
        r == spec_decode32(s@),
{
    (s[0] as u32) * 0x1000000 + (s[1] as u32) * 0x10000 + (s[2] as u32) * 0x100 + (s[3] as u32)
}

/// Writes the big-endian encoding of `num` over the four bytes of `s`.
pub fn encode_fixed32(s: &mut [u8], num: u32)
    requires
        old(s)@.len() == 4,
    ensures
        final(s)@ == spec_encode32(num),
{
    s[0] = (num / 0x1000000) as u8;
    s[1] = ((num / 0x10000) % 0x100) as u8;
    s[2] = ((num / 0x100) % 0x100) as u8;
    s[3] = (num % 0x100) as u8;
    proof {
        assert(s@ =~= spec_encode32(num));
    }
}

/// Returns the big-endian encoding of `num` as a fresh four-byte array.
pub fn encode_fixed32_ret(num: u32) -> (r: [u8; 4])
    ensures
        r@ == spec_encode32(num),
{
    let r: [u8; 4] = [
        (num / 0x1000000) as u8,
        ((num / 0x10000) % 0x100) as u8,
        ((num / 0x100) % 0x100) as u8,
        (num % 0x100) as u8,
    ];
    proof {
        assert(r@ =~= spec_encode32(num));
    }
    r
}

/// Reads the 64-bit number that `s` encodes big-endian.
pub fn decode_fixed64(s: &[u8]) -> (r: u64)
    requires
        s@.len() == 8,
    ensures
        r == spec_decode64(s@),
{
    (s[0] as u64) * 0x100000000000000 + (s[1] as u64) * 0x1000000000000 + (s[2] as u64)
        * 0x10000000000 + (s[3] as u64) * 0x100000000 + (s[4] as u64) * 0x1000000 + (s[5] as u64)
        * 0x10000 + (s[6] as u64) * 0x100 + (s[7] as u64)
}

/// Writes the big-endian encoding of `num` over the eight bytes of `s`.
pub fn encode_fixed64(s: &mut [u8], num: u64)
    requires
        old(s)@.len() == 8,
    ensures
        final(s)@ == spec_encode64(num),
{
    s[0] = (num / 0x100000000000000) as u8;
    s[1] = ((num / 0x1000000000000) % 0x100) as u8;
    s[2] = ((num / 0x10000000000) % 0x100) as u8;
    s[3] = ((num / 0x100000000) % 0x100) as u8;
    s[4] = ((num / 0x1000000) % 0x100) as u8;
    s[5] = ((num / 0x10000) % 0x100) as u8;
    s[6] = ((num / 0x100) % 0x100) as u8;
    s[7] = (num % 0x100) as u8;
    proof {
        assert(s@ =~= spec_encode64(num));
    }
}

/// Returns the big-endian encoding of `num` as a fresh eight-byte array.
pub fn encode_fixed64_ret(num: u64) -> (r: [u8; 8])
    ensures
        r@ == spec_encode64(num),
{
    let r: [u8; 8] = [
        (num / 0x100000000000000) as u8,
        ((num / 0x1000000000000) % 0x100) as u8,
        ((num / 0x10000000000) % 0x100) as u8,
        ((num / 0x100000000) % 0x100) as u8,
        ((num / 0x1000000) % 0x100) as u8,
        ((num / 0x10000) % 0x100) as u8,
        ((num / 0x100) % 0x100) as u8,
        (num % 0x100) as u8,
    ];
    proof {
        assert(r@ =~= spec_encode64(num));
    }
    r
}

} // verus!
