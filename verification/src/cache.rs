//! Parsing and querying of segment images.
//!
//! `ScTableCache` is a segment parsed into memory: its catalog and its
//! data region, validated against the declared sizes, the magic trailer
//! and both checksums.  Every violation is reported as a corruption
//! error; no input crashes the parser.

use vstd::prelude::*;

use crate::error::{Error, ErrorStr};
use crate::tablefmt::{
    crc32_checksum, crc32_of, spec_entries, spec_entries_sorted, spec_item_of, spec_lookup_last,
    spec_parse_catalog, spec_table_catalog, spec_table_data, spec_table_entries, spec_valid_table,
    table_magic_bytes, KvEntry, ScTableCatalogItem, TABLE_CATALOG_ITEM_SIZE, TABLE_HEAD_SIZE,
    TABLE_MAGIC_SIZE, TABLE_MIN_SIZE,
};
use crate::Comparator;

verus! {

/// The scoped right to keep one parsed segment in memory.  Granted by
/// `TableCacheManager::acquire_quota` and held by the parsed segment
/// until it is dropped or evicted.
pub struct CacheQuota {
    _priv: (),
}

impl CacheQuota {
    /// Only the cache manager mints quota permits.
    pub(crate) fn mint() -> CacheQuota {
        CacheQuota { _priv: () }
    }
}

/// A segment parsed into memory: the decoded catalog, the copied data
/// region, and the cache permit that accounts for it.
pub struct ScTableCache {
    catalog: Vec<ScTableCatalogItem>,
    data: Vec<u8>,
    quota: CacheQuota,
    raw: Ghost<Seq<u8>>,
}

impl ScTableCache {
    /// The segment image this cache was parsed from.
    pub closed spec fn raw(&self) -> Seq<u8> {
        self.raw@
    }

    /// The decoded catalog, in stored order.
    pub closed spec fn catalog(&self) -> Seq<ScTableCatalogItem> {
        self.catalog@
    }

    /// The data region.
    pub closed spec fn data(&self) -> Seq<u8> {
        self.data@
    }

    /// The stored pairs, in catalog order.
    pub open spec fn entries(&self) -> Seq<KvEntry> {
        spec_entries(self.catalog(), self.data())
    }

    /// A parsed segment always comes from a valid image and mirrors its
    /// catalog and data regions exactly.
    #[verifier::type_invariant]
    pub closed spec fn type_inv(&self) -> bool {
        &&& spec_valid_table(self.raw@)
        &&& self.catalog@ == spec_table_catalog(self.raw@)
        &&& self.data@ == spec_table_data(self.raw@)
    }

    /// What every parsed segment guarantees: it mirrors a valid image.
    pub proof fn properties(self)
        requires
            self.type_inv(),
        ensures
            spec_valid_table(self.raw()),
            self.catalog() == spec_table_catalog(self.raw()),
            self.data() == spec_table_data(self.raw()),
            self.entries() == spec_table_entries(self.raw()),
    {
    }

    /// The number of catalog entries.
    pub fn catalog_size(&self) -> (r: usize)
        ensures
            r == self.catalog().len(),
            r == self.entries().len(),
    {
        self.catalog.len()
    }

    /// The `i`-th stored pair: its sequence number, key bytes and value
    /// bytes.
    pub fn nth_item(&self, i: usize) -> (r: (u64, Vec<u8>, Vec<u8>))
        requires
            i < self.entries().len(),
        ensures
            r.0 == self.entries()[i as int].seq,
            r.1@ == self.entries()[i as int].key,
            r.2@ == self.entries()[i as int].value,
    {
        proof {
            use_type_invariant(self);
        }
        let it = self.catalog[i];
        let key = vstd::slice::slice_to_vec(
            &self.data.as_slice()[it.key_off as usize..it.key_off as usize + it.key_len as usize],
        );
        let value = vstd::slice::slice_to_vec(
            &self.data.as_slice()[it.value_off as usize..it.value_off as usize + it.value_len as usize],
        );
        (it.seq, key, value)
    }

    /// The key bytes of the `i`-th catalog entry.
    fn key_at(&self, i: usize) -> (r: &[u8])
        requires
            i < self.catalog().len(),
        ensures
            r@ == self.entries()[i as int].key,
    {
        proof {
            use_type_invariant(self);
        }
        let it = self.catalog[i];
        &self.data.as_slice()[it.key_off as usize..it.key_off as usize + it.key_len as usize]
    }

    /// Parses and validates a segment image.  Succeeds exactly on valid
    /// images — declared sizes summing to the total length, the magic
    /// trailer in place, a catalog of whole entries, both checksums
    /// matching, every entry inside the data region — and reports a
    /// corruption error on every other input.
    #[verifier::loop_isolation(false)]
    pub fn from_raw(raw: &[u8], quota: CacheQuota) -> (r: Result<ScTableCache, Error>)
        ensures
            match r {
                Ok(cache) => {
                    &&& spec_valid_table(raw@)
                    &&& cache.raw() == raw@
                    &&& cache.catalog() == spec_table_catalog(raw@)
                    &&& cache.data() == spec_table_data(raw@)
                    &&& cache.entries() == spec_table_entries(raw@)
                },
                Err(e) => {
                    &&& !spec_valid_table(raw@)
                    &&& e.is_sc_table_corrupt()
                },
            },
    {
        let len = raw.len();
        if len < TABLE_MIN_SIZE {
            return Err(
                Error::sc_table_corrupt(ErrorStr::StaticBorrow("too small to be a table file")),
            );
        }
        let magic = table_magic_bytes();
        let mut m: usize = 0;
        while m < TABLE_MAGIC_SIZE
            invariant
                0 <= m <= TABLE_MAGIC_SIZE,
                len == raw@.len(),
                len >= TABLE_MIN_SIZE,
                magic@ == crate::tablefmt::table_magic(),
                forall|j: int| 0 <= j < m ==> raw@[len - 8 + j] == magic@[j],
            decreases TABLE_MAGIC_SIZE - m,
        {
            if raw[len - TABLE_MAGIC_SIZE + m] != magic[m] {
                proof {
                    assert(raw@.subrange(len - 8, len as int)[m as int] != crate::tablefmt::table_magic()[m as int]);
                }
                return Err(Error::sc_table_corrupt(ErrorStr::StaticBorrow("incorrect table magic")));
            }
            m = m + 1;
        }
        proof {
            assert(raw@.subrange(len - 8, len as int) =~= crate::tablefmt::table_magic());
        }

        let kv_catalog_size = crate::encode::decode_fixed32(&raw[0..4]) as usize;
        let data_size = crate::encode::decode_fixed32(&raw[4..8]) as usize;

        if kv_catalog_size % TABLE_CATALOG_ITEM_SIZE != 0 {
            return Err(
                Error::sc_table_corrupt(
                    ErrorStr::StaticBorrow("catalog size should be a whole number of entries"),
                ),
            );
        }
        if (kv_catalog_size as u64) + (data_size as u64) + (TABLE_MIN_SIZE as u64) != (len as u64) {
            return Err(Error::sc_table_corrupt(ErrorStr::StaticBorrow("incorrect table size")));
        }

        let kv_catalog_crc = crate::encode::decode_fixed32(&raw[8..12]);
        let data_crc = crate::encode::decode_fixed32(&raw[12..16]);

        let kv_catalog = &raw[TABLE_HEAD_SIZE..TABLE_HEAD_SIZE + kv_catalog_size];
        let data = &raw[TABLE_HEAD_SIZE + kv_catalog_size..TABLE_HEAD_SIZE + kv_catalog_size
            + data_size];

        if crc32_checksum(kv_catalog) != kv_catalog_crc {
            return Err(
                Error::sc_table_corrupt(ErrorStr::StaticBorrow("incorrect kv_catalog crc")),
            );
        }
        if crc32_checksum(data) != data_crc {
            return Err(Error::sc_table_corrupt(ErrorStr::StaticBorrow("incorrect data crc")));
        }

        let n = kv_catalog_size / TABLE_CATALOG_ITEM_SIZE;
        proof {
            assert(n * TABLE_CATALOG_ITEM_SIZE == kv_catalog_size) by (nonlinear_arith)
                requires
                    n == kv_catalog_size / 24,
                    kv_catalog_size % 24 == 0,
            ;
            assert(spec_parse_catalog(kv_catalog@).len() == n);
        }
        let mut catalog_items: Vec<ScTableCatalogItem> = Vec::new();
        let mut i: usize = 0;
        while i < n
            invariant
                0 <= i <= n,
                n * TABLE_CATALOG_ITEM_SIZE == kv_catalog@.len(),
                kv_catalog@.len() <= u32::MAX,
                data@.len() == data_size,
                spec_parse_catalog(kv_catalog@).len() == n,
                catalog_items@ == spec_parse_catalog(kv_catalog@).take(i as int),
                forall|j: int|
                    0 <= j < i ==> (#[trigger] spec_parse_catalog(kv_catalog@)[j]).spec_in_bounds(
                        data_size as int,
                    ),
            decreases n - i,
        {
            proof {
                assert(i * 24 + 24 <= kv_catalog@.len()) by (nonlinear_arith)
                    requires
                        i < n,
                        n * 24 == kv_catalog@.len(),
                ;
            }
            let base = i * TABLE_CATALOG_ITEM_SIZE;
            let index = ScTableCatalogItem::deserialize(
                &kv_catalog[base..base + TABLE_CATALOG_ITEM_SIZE],
            );
            if (index.key_off as u64) + (index.key_len as u64) > (data_size as u64) || (
            index.value_off as u64) + (index.value_len as u64) > (data_size as u64) {
                proof {
                    assert(kv_catalog@ =~= raw@.subrange(16, 16 + kv_catalog_size as int));
                    assert(!(#[trigger] spec_parse_catalog(kv_catalog@)[i as int]).spec_in_bounds(
                        data_size as int,
                    ));
                    assert(!spec_valid_table(raw@));
                }
                return Err(
                    Error::sc_table_corrupt(
                        ErrorStr::StaticBorrow("incorrect key/value catalog data"),
                    ),
                );
            }
            catalog_items.push(index);
            proof {
                assert(catalog_items@ =~= spec_parse_catalog(kv_catalog@).take(i + 1));
            }
            i = i + 1;
        }
        proof {
            assert(spec_parse_catalog(kv_catalog@).take(n as int) =~= spec_parse_catalog(
                kv_catalog@,
            ));
            assert(spec_valid_table(raw@));
            assert(kv_catalog@ =~= raw@.subrange(16, 16 + kv_catalog_size as int));
            assert(data@ =~= spec_table_data(raw@));
        }
        let r = ScTableCache {
            catalog: catalog_items,
            data: vstd::slice::slice_to_vec(data),
            quota,
            raw: Ghost(raw@),
        };
        Ok(r)
    }

    /// Point lookup by key.  On a segment whose pairs are sorted in
    /// `Comp`'s order this returns the value of the stored pair with key
    /// `key` and the highest sequence number, or nothing when no pair
    /// has that key.
    pub fn get<Comp: Comparator>(&self, key: &[u8]) -> (r: Option<Vec<u8>>)
        ensures
            spec_entries_sorted::<Comp>(self.entries()) ==> match r {
                Some(v) => spec_lookup_last(self.entries(), key@) == Some(v@),
                None => spec_lookup_last(self.entries(), key@) == None::<Seq<u8>>,
            },
    {
        proof {
            use_type_invariant(self);
        }
        let ghost es = self.entries();
        let ghost sorted = spec_entries_sorted::<Comp>(self.entries());
        let n = self.catalog.len();
        let mut lo: usize = 0;
        let mut hi: usize = n;
        while lo < hi
            invariant
                0 <= lo <= hi <= n,
                n == self.catalog().len(),
                es == self.entries(),
                sorted == spec_entries_sorted::<Comp>(es),
                sorted ==> forall|j: int| 0 <= j < lo ==> !Comp::lt(key@, (#[trigger] es[j]).key),
                sorted ==> forall|j: int| hi <= j < n ==> Comp::lt(key@, (#[trigger] es[j]).key),
            decreases hi - lo,
        {
            let mid = lo + (hi - lo) / 2;
            let cmp = Comp::compare(self.key_at(mid), key);
            if matches!(cmp, core::cmp::Ordering::Greater) {
                proof {
                    if sorted {
                        assert forall|j: int| mid <= j < n implies Comp::lt(
                            key@,
                            (#[trigger] es[j]).key,
                        ) by {
                            if j > mid {
                                if es[mid as int].key == es[j].key {
                                } else {
                                    Comp::lt_transitive(key@, es[mid as int].key, es[j].key);
                                }
                            }
                        }
                    }
                }
                hi = mid;
            } else {
                proof {
                    if sorted {
                        assert(!Comp::lt(key@, es[mid as int].key));
                        assert forall|j: int| 0 <= j <= mid implies !Comp::lt(
                            key@,
                            (#[trigger] es[j]).key,
                        ) by {
                            if j < mid {
                                if Comp::lt(key@, es[j].key) {
                                    if es[j].key == es[mid as int].key {
                                    } else {
                                        Comp::lt_transitive(key@, es[j].key, es[mid as int].key);
                                    }
                                }
                            }
                        }
                    }
                }
                lo = mid + 1;
            }
        }
        if lo > 0 {
            let idx = lo - 1;
            let cmp = Comp::compare(self.key_at(idx), key);
            if matches!(cmp, core::cmp::Ordering::Equal) {
                proof {
                    if sorted {
                        assert forall|j: int| idx < j < n implies (#[trigger] es[j]).key != key@ by {
                            assert(Comp::lt(key@, es[j].key));
                            Comp::lt_asymmetric(key@, es[j].key);
                        }
                        crate::tablefmt::lemma_lookup_last_at(es, key@, idx as int);
                    }
                }
                let it = self.catalog[idx];
                return Some(
                    vstd::slice::slice_to_vec(
                        &self.data.as_slice()[it.value_off as usize..it.value_off as usize
                            + it.value_len as usize],
                    ),
                );
            }
        }
        proof {
            if sorted {
                assert forall|j: int| 0 <= j < n implies (#[trigger] es[j]).key != key@ by {
                    if j < lo {
                        if j < lo - 1 {
                            if es[j].key == key@ {
                                assert(!Comp::lt(key@, es[j].key));
                                if es[j].key == es[lo - 1].key {
                                    assert(es[lo - 1].key == key@);
                                } else {
                                    assert(Comp::lt(es[j].key, es[lo - 1].key));
                                }
                            }
                        } else {
                            assert(es[j].key != key@);
                        }
                    } else {
                        assert(Comp::lt(key@, es[j].key));
                        Comp::lt_asymmetric(key@, es[j].key);
                    }
                }
                crate::tablefmt::lemma_lookup_last_none(es, key@);
            }
        }
        None
    }
}


/// The least-recently-used map of parsed segments, from the `lru` crate.
#[verifier::external_type_specification]
#[verifier::external_body]
#[verifier::reject_recursive_types(K)]
#[verifier::reject_recursive_types(V)]
#[verifier::reject_recursive_types(S)]
pub struct ExLruCache<K, V, S>(lru::LruCache<K, V, S>);

/// A segment identity as a plain triple: partition, level, file number.
pub type SegmentKey = (u32, u32, u64);

/// The concrete least-recently-used map the manager guards.
pub type SegmentLru = lru::LruCache<SegmentKey, ScTableCache>;

/// What the shared segment cache holds: for each cached identity triple,
/// the segment image that the cached parse came from.
pub uninterp spec fn lru_contents(c: SegmentLru) -> Map<SegmentKey, Seq<u8>>;

/// The fixed capacity the cache was created with.
pub uninterp spec fn lru_cap(c: SegmentLru) -> int;

/// Relies on `lru::LruCache::new`: creates an empty cache with the given
/// capacity.
#[verifier::external_body]
fn lru_new(cap: usize) -> (r: SegmentLru)
    requires
        cap >= 1,
    ensures
        lru_contents(r).dom().finite(),
        forall|k: SegmentKey| !lru_contents(r).contains_key(k),
        lru_cap(r) == cap,
{
    lru::LruCache::new(core::num::NonZeroUsize::new(cap).unwrap())
}

/// Relies on `lru::LruCache::get`: returns the entry stored under `k`,
/// if any, promoting it to most recently used; the stored entries do not
/// change.
#[verifier::external_body]
fn lru_get<'a>(c: &'a mut SegmentLru, k: &SegmentKey) -> (r: Option<&'a ScTableCache>)
    ensures
        lru_contents(*final(c)) == lru_contents(*old(c)),
        lru_cap(*final(c)) == lru_cap(*old(c)),
        match r {
            Some(seg) => lru_contents(*old(c)).contains_key(*k) && seg.raw() == lru_contents(
                *old(c),
            )[*k],
            None => !lru_contents(*old(c)).contains_key(*k),
        },
{
    c.get(k)
}

/// Relies on `lru::LruCache::push`: stores `v` under `k`.  When `k` was
/// already present its old entry comes back; when the cache was full the
/// least-recently-used entry is evicted and comes back; otherwise the
/// entry is simply added.
#[verifier::external_body]
fn lru_push(c: &mut SegmentLru, k: SegmentKey, v: ScTableCache) -> (r: Option<
    (SegmentKey, ScTableCache),
>)
    ensures
        lru_cap(*final(c)) == lru_cap(*old(c)),
        match r {
            None => {
                &&& !lru_contents(*old(c)).contains_key(k)
                &&& lru_contents(*old(c)).len() < lru_cap(*old(c))
                &&& lru_contents(*final(c)) == lru_contents(*old(c)).insert(k, v.raw())
            },
            Some((ek, ev)) => {
                if ek == k {
                    &&& lru_contents(*old(c)).contains_key(k)
                    &&& ev.raw() == lru_contents(*old(c))[k]
                    &&& lru_contents(*final(c)) == lru_contents(*old(c)).insert(k, v.raw())
                } else {
                    &&& !lru_contents(*old(c)).contains_key(k)
                    &&& lru_contents(*old(c)).contains_key(ek)
                    &&& ev.raw() == lru_contents(*old(c))[ek]
                    &&& lru_contents(*final(c)) == lru_contents(*old(c)).remove(ek).insert(
                        k,
                        v.raw(),
                    )
                }
            },
        },
{
    c.push(k, v)
}

/// The shared, quota-bounded cache of parsed segments: a
/// least-recently-used map keyed by segment identity, plus the counted
/// gate bounding how many parsed segments are materialized at once.
pub struct TableCacheManager {
    lru: SegmentLru,
    cache_count: usize,
    outstanding: usize,
}

impl TableCacheManager {
    /// The cached segment images, by identity triple.
    pub closed spec fn contents(&self) -> Map<SegmentKey, Seq<u8>> {
        lru_contents(self.lru)
    }

    /// The configured bound on materialized segments.
    pub closed spec fn spec_cache_count(&self) -> int {
        self.cache_count as int
    }

    /// The quota permits currently handed out.
    pub closed spec fn spec_outstanding(&self) -> int {
        self.outstanding as int
    }

    /// The capacity the inner map was created with.
    pub closed spec fn spec_lru_cap(&self) -> int {
        lru_cap(self.lru)
    }

    /// The permit count and the cache size never exceed the configured
    /// bound.
    pub open spec fn wf(&self) -> bool {
        &&& self.spec_cache_count() >= 1
        &&& self.spec_outstanding() <= self.spec_cache_count()
        &&& self.spec_lru_cap() == self.spec_cache_count()
        &&& self.contents().dom().finite()
        &&& self.contents().len() <= self.spec_cache_count()
    }

    pub fn new(cache_count: usize) -> (r: TableCacheManager)
        requires
            cache_count >= 1,
        ensures
            r.wf(),
            r.spec_cache_count() == cache_count,
            r.spec_outstanding() == 0,
            r.contents() == Map::<SegmentKey, Seq<u8>>::empty(),
    {
        let r = TableCacheManager { lru: lru_new(cache_count), cache_count, outstanding: 0 };
        proof {
            assert(r.contents() =~= Map::<SegmentKey, Seq<u8>>::empty());
        }
        r
    }

    /// Grants a cache permit; callable only while a permit is free.
    pub fn acquire_quota(&mut self) -> (r: CacheQuota)
        requires
            old(self).wf(),
            old(self).spec_outstanding() < old(self).spec_cache_count(),
        ensures
            final(self).wf(),
            final(self).spec_cache_count() == old(self).spec_cache_count(),
            final(self).spec_outstanding() == old(self).spec_outstanding() + 1,
            final(self).contents() == old(self).contents(),
    {
        self.outstanding = self.outstanding + 1;
        CacheQuota::mint()
    }

    /// Grants a cache permit when one is free, and refuses otherwise.
    pub fn try_acquire_quota(&mut self) -> (r: Option<CacheQuota>)
        requires
            old(self).wf(),
        ensures
            final(self).wf(),
            final(self).spec_cache_count() == old(self).spec_cache_count(),
            final(self).contents() == old(self).contents(),
            match r {
                Some(_) => {
                    &&& old(self).spec_outstanding() < old(self).spec_cache_count()
                    &&& final(self).spec_outstanding() == old(self).spec_outstanding() + 1
                },
                None => {
                    &&& old(self).spec_outstanding() == old(self).spec_cache_count()
                    &&& final(self).spec_outstanding() == old(self).spec_outstanding()
                },
            },
    {
        if self.outstanding < self.cache_count {
            self.outstanding = self.outstanding + 1;
            Some(CacheQuota::mint())
        } else {
            None
        }
    }

    /// Takes a permit back when the scope holding it ends.
    pub fn on_cache_released(&mut self, quota: CacheQuota)
        requires
            old(self).wf(),
        ensures
            final(self).wf(),
            final(self).spec_cache_count() == old(self).spec_cache_count(),
            final(self).contents() == old(self).contents(),
            final(self).spec_outstanding() == if old(self).spec_outstanding() > 0 {
                old(self).spec_outstanding() - 1
            } else {
                0
            },
    {
        let CacheQuota { _priv } = quota;
        if self.outstanding > 0 {
            self.outstanding = self.outstanding - 1;
        }
    }

    /// Registers a parsed segment under its identity, evicting the
    /// least-recently-used entry if the cache is full; an evicted or
    /// replaced entry hands its cache permit back.
    pub fn add_cache(&mut self, table_file: crate::sctable::ScTableFile, table_cache: ScTableCache)
        requires
            old(self).wf(),
        ensures
            final(self).wf(),
            final(self).spec_cache_count() == old(self).spec_cache_count(),
            final(self).spec_outstanding() <= old(self).spec_outstanding(),
            final(self).contents().contains_key(
                (table_file.origin_partition, table_file.origin_level, table_file.origin_number),
            ),
            final(self).contents()[(
                table_file.origin_partition,
                table_file.origin_level,
                table_file.origin_number,
            )] == table_cache.raw(),
            forall|k2: SegmentKey|
                #![trigger final(self).contents().contains_key(k2)]
                final(self).contents().contains_key(k2) && k2 != (
                    table_file.origin_partition,
                    table_file.origin_level,
                    table_file.origin_number,
                ) ==> old(self).contents().contains_key(k2) && final(self).contents()[k2] == old(
                    self,
                ).contents()[k2],
    {
        let k = table_file.as_triple();
        let ghost old_contents = self.contents();
        let evicted = lru_push(&mut self.lru, k, table_cache);
        proof {
            vstd::set_lib::lemma_len_subset(
                self.contents().dom(),
                old_contents.insert(k, table_cache.raw()).dom(),
            );
        }
        match evicted {
            Some(_) => {
                if self.outstanding > 0 {
                    self.outstanding = self.outstanding - 1;
                }
            },
            None => {},
        }
    }

    /// The cached parse of the segment with this identity, if present,
    /// promoted to most recently used.
    pub fn get_cache<'a>(&'a mut self, table_file: crate::sctable::ScTableFile) -> (r: Option<
        &'a ScTableCache,
    >)
        requires
            old(self).wf(),
        ensures
            final(self).wf(),
            final(self).spec_cache_count() == old(self).spec_cache_count(),
            final(self).spec_outstanding() == old(self).spec_outstanding(),
            final(self).contents() == old(self).contents(),
            match r {
                Some(seg) => old(self).contents().contains_key(
                    (
                        table_file.origin_partition,
                        table_file.origin_level,
                        table_file.origin_number,
                    ),
                ) && seg.raw() == old(self).contents()[(
                    table_file.origin_partition,
                    table_file.origin_level,
                    table_file.origin_number,
                )],
                None => !old(self).contents().contains_key(
                    (
                        table_file.origin_partition,
                        table_file.origin_level,
                        table_file.origin_number,
                    ),
                ),
            },
    {
        let k = table_file.as_triple();
        lru_get(&mut self.lru, &k)
    }
}

} // verus!
