//! The on-disk segment format.
//!
//! A segment file is a fixed 16-byte header, a catalog of fixed-size
//! entries, the raw key/value bytes, and a fixed 8-byte magic trailer:
//!
//! ```raw
//! [0..4)     catalog size  (u32, big-endian)
//! [4..8)     data size     (u32, big-endian)
//! [8..12)    catalog crc32 (u32, big-endian)
//! [12..16)   data crc32    (u32, big-endian)
//! [16..16+c) catalog entries, 24 bytes each:
//!            8-byte sequence, then key offset, key length,
//!            value offset, value length, u32 big-endian each,
//!            offsets relative to the start of the data region
//! [16+c..16+c+d) raw concatenated key/value bytes, in insertion order
//! [end-8..end)   magic trailer
//! ```

use vstd::prelude::*;

use crate::encode::{spec_decode32, spec_decode64, spec_encode32, spec_encode64};

verus! {

pub const TABLE_HEAD_SIZE: usize = 16;

pub const TABLE_MAGIC_SIZE: usize = 8;

pub const TABLE_MIN_SIZE: usize = TABLE_MAGIC_SIZE + TABLE_HEAD_SIZE;

pub const TABLE_CATALOG_ITEM_SIZE: usize = 24;

/// No segment file may grow past this size: offsets and sizes must stay
/// well inside the 32-bit fields that carry them.
pub const TABLE_MAX_SIZE: usize = 0x7FFFFFFF;

/// The fixed 8-byte trailer, the ASCII bytes of "40490fd0".
pub open spec fn table_magic() -> Seq<u8> {
    seq![52u8, 48u8, 52u8, 57u8, 48u8, 102u8, 100u8, 48u8]
}

/// Returns the fixed 8-byte magic trailer.
pub fn table_magic_bytes() -> (r: Vec<u8>)
    ensures
        r@ == table_magic(),
{
    let mut v: Vec<u8> = Vec::new();
    v.push(52u8);
    v.push(48u8);
    v.push(52u8);
    v.push(57u8);
    v.push(48u8);
    v.push(102u8);
    v.push(100u8);
    v.push(48u8);
    proof {
        assert(v@ =~= table_magic());
    }
    v
}

/// The checksum that the segment format stores for its catalog and data
/// regions.  The value for given bytes is fixed by the CRC-32 algorithm;
/// the library does not restate that algorithm, it names its result.
pub uninterp spec fn crc32_of(bytes: Seq<u8>) -> u32;

/// Relies on `crc::Crc::<u32>::checksum` with the `CRC_32_ISO_HDLC`
/// algorithm: the checksum depends on the input bytes alone.
#[verifier::external_body]
pub fn crc32_checksum(bytes: &[u8]) -> (r: u32)
    ensures
        r == crc32_of(bytes@),
{
    crc::Crc::<u32>::new(&crc::CRC_32_ISO_HDLC).checksum(bytes)
}

/// One catalog entry: the sequence number of a stored pair and the
/// position of its key and value bytes inside the data region.
#[derive(Clone, Copy, PartialEq, Eq, Structural, Debug)]
pub struct ScTableCatalogItem {
    pub seq: u64,
    pub key_off: u32,
    pub key_len: u32,
    pub value_off: u32,
    pub value_len: u32,
}

/// The 24 bytes that encode one catalog entry.
pub open spec fn spec_item_bytes(it: ScTableCatalogItem) -> Seq<u8> {
    spec_encode64(it.seq) + spec_encode32(it.key_off) + spec_encode32(it.key_len) + spec_encode32(
        it.value_off,
    ) + spec_encode32(it.value_len)
}

/// The catalog entry encoded by 24 bytes.
pub open spec fn spec_item_of(s: Seq<u8>) -> ScTableCatalogItem
    recommends
        s.len() == TABLE_CATALOG_ITEM_SIZE,
{
    ScTableCatalogItem {
        seq: spec_decode64(s.subrange(0, 8)),
        key_off: spec_decode32(s.subrange(8, 12)),
        key_len: spec_decode32(s.subrange(12, 16)),
        value_off: spec_decode32(s.subrange(16, 20)),
        value_len: spec_decode32(s.subrange(20, 24)),
    }
}

/// Decoding the encoding of a catalog entry gives the entry back.
pub proof fn lemma_item_roundtrip(it: ScTableCatalogItem)
    ensures
        spec_item_of(spec_item_bytes(it)) == it,
{
    let s = spec_item_bytes(it);
    assert(s.subrange(0, 8) =~= spec_encode64(it.seq));
    assert(s.subrange(8, 12) =~= spec_encode32(it.key_off));
    assert(s.subrange(12, 16) =~= spec_encode32(it.key_len));
    assert(s.subrange(16, 20) =~= spec_encode32(it.value_off));
    assert(s.subrange(20, 24) =~= spec_encode32(it.value_len));
    crate::encode::lemma_decode_encode64(it.seq);
    crate::encode::lemma_decode_encode32(it.key_off);
    crate::encode::lemma_decode_encode32(it.key_len);
    crate::encode::lemma_decode_encode32(it.value_off);
    crate::encode::lemma_decode_encode32(it.value_len);
}

impl ScTableCatalogItem {
    pub fn new(seq: u64, key_off: u32, key_len: u32, value_off: u32, value_len: u32) -> (r:
        ScTableCatalogItem)
        ensures
            r == (ScTableCatalogItem { seq, key_off, key_len, value_off, value_len }),
    {
        ScTableCatalogItem { seq, key_off, key_len, value_off, value_len }
    }

    /// Appends the 24-byte encoding of this entry to `dest`.
    pub fn serialize(&self, dest: &mut Vec<u8>)
        ensures
            final(dest)@ == old(dest)@ + spec_item_bytes(*self),
    {
        let seq_bytes = crate::encode::encode_fixed64_ret(self.seq);
        dest.extend_from_slice(seq_bytes.as_slice());
        let b = crate::encode::encode_fixed32_ret(self.key_off);
        dest.extend_from_slice(b.as_slice());
        let b = crate::encode::encode_fixed32_ret(self.key_len);
        dest.extend_from_slice(b.as_slice());
        let b = crate::encode::encode_fixed32_ret(self.value_off);
        dest.extend_from_slice(b.as_slice());
        let b = crate::encode::encode_fixed32_ret(self.value_len);
        dest.extend_from_slice(b.as_slice());
        proof {
            assert(dest@ =~= old(dest)@ + spec_item_bytes(*self));
        }
    }

    /// Reads the catalog entry encoded by the 24 bytes of `from`.
    pub fn deserialize(from: &[u8]) -> (r: ScTableCatalogItem)
        requires
            from@.len() == TABLE_CATALOG_ITEM_SIZE,
        ensures
            r == spec_item_of(from@),
    {
        let r = ScTableCatalogItem {
            seq: crate::encode::decode_fixed64(&from[0..8]),
            key_off: crate::encode::decode_fixed32(&from[8..12]),
            key_len: crate::encode::decode_fixed32(&from[12..16]),
            value_off: crate::encode::decode_fixed32(&from[16..20]),
            value_len: crate::encode::decode_fixed32(&from[20..24]),
        };
        r
    }

    /// Whether this entry's key and value lie inside a data region of
    /// `data_len` bytes.
    pub open spec fn spec_in_bounds(&self, data_len: int) -> bool {
        &&& self.key_off + self.key_len <= data_len
        &&& self.value_off + self.value_len <= data_len
    }
}

/// The concatenated encodings of a catalog.
pub open spec fn spec_catalog_bytes(items: Seq<ScTableCatalogItem>) -> Seq<u8>
    decreases items.len(),
{
    if items.len() == 0 {
        Seq::empty()
    } else {
        spec_catalog_bytes(items.drop_last()) + spec_item_bytes(items.last())
    }
}

pub proof fn lemma_catalog_bytes_len(items: Seq<ScTableCatalogItem>)
    ensures
        spec_catalog_bytes(items).len() == items.len() * TABLE_CATALOG_ITEM_SIZE,
    decreases items.len(),
{
    if items.len() > 0 {
        lemma_catalog_bytes_len(items.drop_last());
        assert(items.len() * 24 == (items.len() - 1) * 24 + 24) by (nonlinear_arith);
    }
}

/// Each entry's encoding sits at its slot inside the catalog bytes.
pub proof fn lemma_catalog_bytes_index(items: Seq<ScTableCatalogItem>, i: int)
    requires
        0 <= i < items.len(),
    ensures
        spec_catalog_bytes(items).subrange(
            i * TABLE_CATALOG_ITEM_SIZE,
            i * TABLE_CATALOG_ITEM_SIZE + TABLE_CATALOG_ITEM_SIZE,
        ) == spec_item_bytes(items[i]),
    decreases items.len(),
{
    lemma_catalog_bytes_len(items);
    lemma_catalog_bytes_len(items.drop_last());
    if i == items.len() - 1 {
        assert(spec_catalog_bytes(items).subrange(i * 24, i * 24 + 24) =~= spec_item_bytes(
            items[i],
        ));
    } else {
        lemma_catalog_bytes_index(items.drop_last(), i);
        assert(spec_catalog_bytes(items).subrange(i * 24, i * 24 + 24) =~= spec_catalog_bytes(
            items.drop_last(),
        ).subrange(i * 24, i * 24 + 24)) by {
            assert(i * 24 + 24 <= (items.len() - 1) * 24) by (nonlinear_arith)
                requires
                    i <= items.len() - 2,
            ;
        }
        assert(items.drop_last()[i] == items[i]);
    }
}

/// The catalog encoded by a whole number of 24-byte slots.
pub open spec fn spec_parse_catalog(s: Seq<u8>) -> Seq<ScTableCatalogItem>
    recommends
        s.len() as int % (TABLE_CATALOG_ITEM_SIZE as int) == 0,
{
    Seq::new(
        ((s.len() as int) / (TABLE_CATALOG_ITEM_SIZE as int)) as nat,
        |i: int|
            spec_item_of(
                s.subrange(i * TABLE_CATALOG_ITEM_SIZE, i * TABLE_CATALOG_ITEM_SIZE
                    + TABLE_CATALOG_ITEM_SIZE),
            ),
    )
}

/// Parsing the encoding of a catalog gives the catalog back.
pub proof fn lemma_parse_catalog_roundtrip(items: Seq<ScTableCatalogItem>)
    ensures
        spec_parse_catalog(spec_catalog_bytes(items)) == items,
{
    lemma_catalog_bytes_len(items);
    let s = spec_catalog_bytes(items);
    assert(s.len() / 24 == items.len()) by (nonlinear_arith)
        requires
            s.len() == items.len() * 24,
    ;
    assert forall|i: int| 0 <= i < items.len() implies spec_parse_catalog(s)[i] == items[i] by {
        lemma_catalog_bytes_index(items, i);
        lemma_item_roundtrip(items[i]);
    }
    assert(spec_parse_catalog(s) =~= items);
}

/// One stored pair: a sequence number, key bytes, and value bytes.
pub struct KvEntry {
    pub seq: u64,
    pub key: Seq<u8>,
    pub value: Seq<u8>,
}

/// The pair that a catalog entry points at inside a data region.
pub open spec fn spec_entry_of(it: ScTableCatalogItem, data: Seq<u8>) -> KvEntry
    recommends
        it.spec_in_bounds(data.len() as int),
{
    KvEntry {
        seq: it.seq,
        key: data.subrange(it.key_off as int, it.key_off + it.key_len),
        value: data.subrange(it.value_off as int, it.value_off + it.value_len),
    }
}

/// The pairs that a catalog points at, in catalog order.
pub open spec fn spec_entries(items: Seq<ScTableCatalogItem>, data: Seq<u8>) -> Seq<KvEntry> {
    items.map(|i: int, it: ScTableCatalogItem| spec_entry_of(it, data))
}

/// Whether the stored pairs are sorted: keys ascending in the order
/// `Comp` decides, and pairs with equal keys ascending by sequence
/// number.
pub open spec fn spec_entries_sorted<Comp: crate::Comparator>(es: Seq<KvEntry>) -> bool {
    forall|i: int, j: int|
        0 <= i < j < es.len() ==> (Comp::lt(#[trigger] es[i].key, #[trigger] es[j].key) || (
        es[i].key == es[j].key && es[i].seq <= es[j].seq))
}

/// The value of the last stored pair whose key is `k`, scanning from the
/// end.  On a sorted sequence this is the pair with the highest sequence
/// number for `k`: the latest write wins.
pub open spec fn spec_lookup_last(es: Seq<KvEntry>, k: Seq<u8>) -> Option<Seq<u8>>
    decreases es.len(),
{
    if es.len() == 0 {
        None
    } else if es.last().key == k {
        Some(es.last().value)
    } else {
        spec_lookup_last(es.drop_last(), k)
    }
}

/// `spec_lookup_last` returns the value at `idx` when no later pair has
/// key `k`.
pub proof fn lemma_lookup_last_at(es: Seq<KvEntry>, k: Seq<u8>, idx: int)
    requires
        0 <= idx < es.len(),
        es[idx].key == k,
        forall|j: int| idx < j < es.len() ==> (#[trigger] es[j]).key != k,
    ensures
        spec_lookup_last(es, k) == Some(es[idx].value),
    decreases es.len(),
{
    if idx == es.len() - 1 {
    } else {
        assert(es.last().key != k);
        lemma_lookup_last_at(es.drop_last(), k, idx);
    }
}

/// `spec_lookup_last` returns nothing when no pair has key `k`.
pub proof fn lemma_lookup_last_none(es: Seq<KvEntry>, k: Seq<u8>)
    requires
        forall|j: int| 0 <= j < es.len() ==> (#[trigger] es[j]).key != k,
    ensures
        spec_lookup_last(es, k) == None::<Seq<u8>>,
    decreases es.len(),
{
    if es.len() > 0 {
        lemma_lookup_last_none(es.drop_last(), k);
    }
}

/// The full segment image for a catalog and a data region.
pub open spec fn spec_table_bytes(items: Seq<ScTableCatalogItem>, data: Seq<u8>) -> Seq<u8> {
    spec_encode32((items.len() * TABLE_CATALOG_ITEM_SIZE) as u32) + spec_encode32(
        data.len() as u32,
    ) + spec_encode32(crc32_of(spec_catalog_bytes(items))) + spec_encode32(crc32_of(data))
        + spec_catalog_bytes(items) + data + table_magic()
}

/// What the parser accepts: the declared sizes match the actual length,
/// the trailer is the magic, the catalog divides into whole slots, both
/// checksums match, and every catalog entry points inside the data region.
pub open spec fn spec_valid_table(raw: Seq<u8>) -> bool {
    let catalog_size = spec_decode32(raw.subrange(0, 4)) as int;
    let data_size = spec_decode32(raw.subrange(4, 8)) as int;
    let catalog = raw.subrange(16, 16 + catalog_size);
    let data = raw.subrange(16 + catalog_size, 16 + catalog_size + data_size);
    &&& raw.len() >= TABLE_MIN_SIZE
    &&& raw.subrange(raw.len() - 8, raw.len() as int) == table_magic()
    &&& catalog_size % (TABLE_CATALOG_ITEM_SIZE as int) == 0
    &&& catalog_size + data_size + TABLE_MIN_SIZE == raw.len()
    &&& crc32_of(catalog) == spec_decode32(raw.subrange(8, 12))
    &&& crc32_of(data) == spec_decode32(raw.subrange(12, 16))
    &&& forall|i: int|
        0 <= i < spec_parse_catalog(catalog).len() ==> (#[trigger] spec_parse_catalog(
            catalog,
        )[i]).spec_in_bounds(data_size)
}

/// The catalog region of a valid segment image.
pub open spec fn spec_table_catalog(raw: Seq<u8>) -> Seq<ScTableCatalogItem>
    recommends
        spec_valid_table(raw),
{
    spec_parse_catalog(raw.subrange(16, 16 + spec_decode32(raw.subrange(0, 4)) as int))
}

/// The data region of a valid segment image.
pub open spec fn spec_table_data(raw: Seq<u8>) -> Seq<u8>
    recommends
        spec_valid_table(raw),
{
    let catalog_size = spec_decode32(raw.subrange(0, 4)) as int;
    let data_size = spec_decode32(raw.subrange(4, 8)) as int;
    raw.subrange(16 + catalog_size, 16 + catalog_size + data_size)
}

/// The stored pairs of a valid segment image, in catalog order.
pub open spec fn spec_table_entries(raw: Seq<u8>) -> Seq<KvEntry>
    recommends
        spec_valid_table(raw),
{
    spec_entries(spec_table_catalog(raw), spec_table_data(raw))
}


/// Truncating below the fixed header-plus-trailer size never yields a
/// valid segment image.
pub proof fn lemma_truncated_invalid(raw: Seq<u8>)
    requires
        raw.len() < TABLE_MIN_SIZE,
    ensures
        !spec_valid_table(raw),
{
}

/// Flipping any single byte of a valid segment's magic trailer yields
/// an invalid image, so the parser reports corruption rather than
/// accepting it.
pub proof fn lemma_magic_flip_invalid(raw: Seq<u8>, i: int, b: u8)
    requires
        spec_valid_table(raw),
        raw.len() - TABLE_MAGIC_SIZE <= i < raw.len(),
        b != raw[i],
    ensures
        !spec_valid_table(raw.update(i, b)),
{
    let raw2 = raw.update(i, b);
    assert(raw.subrange(raw.len() - 8, raw.len() as int)[i - (raw.len() - 8)] == raw[i]);
    assert(raw2.subrange(raw2.len() - 8, raw2.len() as int)[i - (raw.len() - 8)] == b);
    assert(raw2.subrange(raw2.len() - 8, raw2.len() as int) != table_magic());
}

} // verus!
