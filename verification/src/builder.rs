//! Accumulates (sequence, key, value) triples and serializes them into a
//! segment image.

use vstd::prelude::*;

use crate::tablefmt::{
    crc32_checksum, crc32_of, lemma_catalog_bytes_len, lemma_item_roundtrip,
    lemma_parse_catalog_roundtrip, spec_catalog_bytes, spec_entries, spec_entry_of, spec_item_bytes,
    spec_table_bytes, spec_table_catalog, spec_table_data, spec_table_entries, spec_valid_table,
    table_magic_bytes, KvEntry, ScTableCatalogItem, TABLE_CATALOG_ITEM_SIZE, TABLE_MAX_SIZE,
    TABLE_MIN_SIZE,
};

verus! {

/// Builds a segment image: every added pair appends its key bytes and
/// then its value bytes to a growing data buffer, and records where they
/// lie as a catalog entry, in insertion order.
pub struct ScTableBuilder {
    indexes: Vec<ScTableCatalogItem>,
    data: Vec<u8>,
}

impl ScTableBuilder {
    /// The catalog recorded so far, in insertion order.
    pub closed spec fn catalog(&self) -> Seq<ScTableCatalogItem> {
        self.indexes@
    }

    /// The data buffer accumulated so far.
    pub closed spec fn data(&self) -> Seq<u8> {
        self.data@
    }

    /// The pairs added so far, in insertion order.
    pub open spec fn entries(&self) -> Seq<KvEntry> {
        spec_entries(self.catalog(), self.data())
    }

    /// The size of the segment image that `build` would produce.
    pub open spec fn spec_size(&self) -> int {
        TABLE_MIN_SIZE + self.catalog().len() * TABLE_CATALOG_ITEM_SIZE + self.data().len()
    }

    /// Every catalog entry points inside the data buffer and the image
    /// stays below the format's size cap.
    pub open spec fn wf(&self) -> bool {
        &&& self.spec_size() <= TABLE_MAX_SIZE
        &&& forall|i: int|
            0 <= i < self.catalog().len() ==> (#[trigger] self.catalog()[i]).spec_in_bounds(
                self.data().len() as int,
            )
    }

    pub fn new() -> (r: ScTableBuilder)
        ensures
            r.wf(),
            r.catalog() == Seq::<ScTableCatalogItem>::empty(),
            r.data() == Seq::<u8>::empty(),
            r.entries() == Seq::<KvEntry>::empty(),
    {
        let r = ScTableBuilder { indexes: Vec::new(), data: Vec::new() };
        proof {
            assert(r.entries() =~= Seq::<KvEntry>::empty());
        }
        r
    }

    /// Appends one (sequence, key, value) triple.
    pub fn add_kv(&mut self, key_seq: u64, key: &[u8], value: &[u8])
        requires
            old(self).wf(),
            old(self).spec_size() + key@.len() + value@.len() + TABLE_CATALOG_ITEM_SIZE
                <= TABLE_MAX_SIZE,
        ensures
            final(self).wf(),
            final(self).entries() == old(self).entries().push(
                KvEntry { seq: key_seq, key: key@, value: value@ },
            ),
            final(self).catalog().len() == old(self).catalog().len() + 1,
            final(self).data() == old(self).data() + key@ + value@,
            final(self).spec_size() == old(self).spec_size() + key@.len() + value@.len()
                + TABLE_CATALOG_ITEM_SIZE,
    {
        let key_off = self.data.len() as u32;
        let key_size = key.len() as u32;
        self.data.extend_from_slice(key);
        let value_off = self.data.len() as u32;
        let value_size = value.len() as u32;
        self.data.extend_from_slice(value);
        let item = ScTableCatalogItem::new(key_seq, key_off, key_size, value_off, value_size);
        self.indexes.push(item);
        proof {
            let od = old(self).data();
            let nd = self.data();
            assert(nd == od + key@ + value@);
            let oc = old(self).catalog();
            assert(self.catalog() == oc.push(item));
            assert(item.spec_in_bounds(nd.len() as int));
            assert forall|i: int| 0 <= i < oc.len() implies (#[trigger] self.catalog()[i])
                == oc[i] && oc[i].spec_in_bounds(nd.len() as int) by {
                assert(oc[i].spec_in_bounds(od.len() as int));
            }
            assert(self.wf());
            assert forall|i: int| 0 <= i < oc.len() implies #[trigger] self.entries()[i] == old(
                self,
            ).entries()[i] by {
                let it = oc[i];
                assert(it.spec_in_bounds(od.len() as int));
                assert(nd.subrange(it.key_off as int, it.key_off + it.key_len) =~= od.subrange(
                    it.key_off as int,
                    it.key_off + it.key_len,
                ));
                assert(nd.subrange(it.value_off as int, it.value_off + it.value_len)
                    =~= od.subrange(it.value_off as int, it.value_off + it.value_len));
            }
            let e = KvEntry { seq: key_seq, key: key@, value: value@ };
            assert(self.entries().last() == spec_entry_of(item, nd));
            assert(nd.subrange(item.key_off as int, item.key_off + item.key_len) =~= key@);
            assert(nd.subrange(item.value_off as int, item.value_off + item.value_len) =~= value@);
            assert(self.entries() =~= old(self).entries().push(e));
        }
    }

    /// Serializes the accumulated catalog and data into a segment image:
    /// the four header fields, the catalog, the data, then the magic
    /// trailer.
    pub fn build(&self) -> (r: Vec<u8>)
        requires
            self.wf(),
        ensures
            r@ == spec_table_bytes(self.catalog(), self.data()),
            r@.len() == self.spec_size(),
    {
        proof {
            lemma_catalog_bytes_len(self.catalog());
        }
        let mut catalog: Vec<u8> = Vec::new();
        let n = self.indexes.len();
        let mut i: usize = 0;
        while i < n
            invariant
                n == self.catalog().len(),
                0 <= i <= n,
                self.wf(),
                catalog@ == spec_catalog_bytes(self.catalog().take(i as int)),
                catalog@.len() == i * TABLE_CATALOG_ITEM_SIZE,
            decreases n - i,
        {
            self.indexes[i].serialize(&mut catalog);
            proof {
                let c = self.catalog();
                assert(c.take(i + 1).drop_last() =~= c.take(i as int));
                assert(c.take(i + 1).last() == c[i as int]);
                assert(catalog@ == spec_catalog_bytes(c.take(i + 1)));
                lemma_catalog_bytes_len(c.take(i + 1));
            }
            i = i + 1;
        }
        proof {
            assert(self.catalog().take(n as int) =~= self.catalog());
        }
        let catalog_crc = crc32_checksum(catalog.as_slice());
        let data_crc = crc32_checksum(self.data.as_slice());
        let mut ret: Vec<u8> = Vec::new();
        let b = crate::encode::encode_fixed32_ret((n * TABLE_CATALOG_ITEM_SIZE) as u32);
        ret.extend_from_slice(b.as_slice());
        let b = crate::encode::encode_fixed32_ret(self.data.len() as u32);
        ret.extend_from_slice(b.as_slice());
        let b = crate::encode::encode_fixed32_ret(catalog_crc);
        ret.extend_from_slice(b.as_slice());
        let b = crate::encode::encode_fixed32_ret(data_crc);
        ret.extend_from_slice(b.as_slice());
        ret.extend_from_slice(catalog.as_slice());
        ret.extend_from_slice(self.data.as_slice());
        let magic = table_magic_bytes();
        ret.extend_from_slice(magic.as_slice());
        proof {
            assert(ret@ =~= spec_table_bytes(self.catalog(), self.data()));
        }
        ret
    }

    /// The size of the segment image that `build` would produce.
    pub fn size(&self) -> (r: usize)
        requires
            self.wf(),
        ensures
            r == self.spec_size(),
    {
        TABLE_MIN_SIZE + self.indexes.len() * TABLE_CATALOG_ITEM_SIZE + self.data.len()
    }
}

impl Default for ScTableBuilder {
    fn default() -> (r: ScTableBuilder)
        ensures
            r.wf(),
            r.entries() == Seq::<KvEntry>::empty(),
    {
        ScTableBuilder::new()
    }
}

/// A built segment image is valid and parses back to exactly the catalog
/// and data it was built from: the stored pairs come back complete and in
/// insertion order, with no re-sort.
#[verifier::rlimit(60)]
pub proof fn lemma_build_parse_roundtrip(items: Seq<ScTableCatalogItem>, data: Seq<u8>)
    requires
        TABLE_MIN_SIZE + items.len() * TABLE_CATALOG_ITEM_SIZE + data.len() <= TABLE_MAX_SIZE,
        forall|i: int|
            0 <= i < items.len() ==> (#[trigger] items[i]).spec_in_bounds(data.len() as int),
    ensures
        spec_valid_table(spec_table_bytes(items, data)),
        spec_table_catalog(spec_table_bytes(items, data)) == items,
        spec_table_data(spec_table_bytes(items, data)) == data,
        spec_table_entries(spec_table_bytes(items, data)) == spec_entries(items, data),
{
    lemma_catalog_bytes_len(items);
    let raw = spec_table_bytes(items, data);
    let cat = spec_catalog_bytes(items);
    let csize = (items.len() * TABLE_CATALOG_ITEM_SIZE) as u32;
    let dsize = data.len() as u32;
    assert(raw.subrange(0, 4) =~= crate::encode::spec_encode32(csize));
    assert(raw.subrange(4, 8) =~= crate::encode::spec_encode32(dsize));
    assert(raw.subrange(8, 12) =~= crate::encode::spec_encode32(crc32_of(cat)));
    assert(raw.subrange(12, 16) =~= crate::encode::spec_encode32(crc32_of(data)));
    crate::encode::lemma_decode_encode32(csize);
    crate::encode::lemma_decode_encode32(dsize);
    crate::encode::lemma_decode_encode32(crc32_of(cat));
    crate::encode::lemma_decode_encode32(crc32_of(data));
    assert(raw.subrange(16, 16 + csize as int) =~= cat);
    assert(raw.subrange(16 + csize as int, 16 + csize as int + dsize as int) =~= data);
    assert(raw.subrange(raw.len() - 8, raw.len() as int) =~= crate::tablefmt::table_magic());
    assert(csize as int % (TABLE_CATALOG_ITEM_SIZE as int) == 0) by (nonlinear_arith)
        requires
            csize == items.len() * 24,
    ;
    lemma_parse_catalog_roundtrip(items);
    assert(spec_valid_table(raw));
    assert(spec_table_catalog(raw) == items);
    assert(spec_table_data(raw) == data);
}

} // verus!
