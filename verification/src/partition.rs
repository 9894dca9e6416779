//! The partition: one contiguous key range's full log-structured state.
//!
//! A partition owns a mutable in-memory table, at most one frozen
//! snapshot awaiting flush, the levels of persisted segments, its key
//! range bounds, and a sticky background error.  Writes enter the
//! mutable table; when a write would push the table over the configured
//! size the table freezes and the caller flushes it into a level-0
//! segment.  Reads consult the mutable table, the frozen table, then
//! level 0 newest first, then the deeper range-disjoint levels.
//!
//! The flush and the segment reads perform file work that the library
//! does not do itself: `prepare_flush` hands the caller the bytes to
//! persist, and the lookup steps hand back which segment file to read.
//! The embedding layer moves the bytes and calls back in.

use vstd::prelude::*;

use crate::cache::{CacheQuota, ScTableCache, TableCacheManager};
use crate::error::{Error, ErrorView};
use crate::level::Level;
use crate::memtable::{
    entries_data_size, lemma_data_size_nonneg, lemma_data_size_take_le, lemma_data_size_take_step,
    mt_entry_lt, mt_insert, mt_sorted, InternalKey, MemTable, UserKey,
};
use crate::sctable::{ScTable, ScTableFile};
use crate::table::{spec_in_range, Table, TableView};
use crate::tablefmt::{
    spec_entries_sorted, spec_lookup_last, spec_table_entries, spec_valid_table, KvEntry,
    TABLE_CATALOG_ITEM_SIZE, TABLE_MAX_SIZE, TABLE_MIN_SIZE,
};
use crate::{Comparator, Options};

verus! {

/// The footprint one entry adds to a table: its key and value bytes
/// plus the fixed per-entry catalog overhead.
pub open spec fn spec_kv_pair_size(e: KvEntry) -> int {
    e.key.len() + e.value.len() + TABLE_CATALOG_ITEM_SIZE
}

/// The footprint one entry adds to a table.
pub fn kv_pair_size(key: &InternalKey, value: &[u8]) -> (r: usize)
    requires
        key.user_key@.len() + value@.len() + TABLE_CATALOG_ITEM_SIZE <= usize::MAX,
    ensures
        r == spec_kv_pair_size(KvEntry { seq: key.seq, key: key.user_key@, value: value@ }),
{
    key.user_key.key().len() + value.len() + TABLE_CATALOG_ITEM_SIZE
}

/// The segment image a memtable would serialize into: its data bytes,
/// one catalog slot per entry, and the fixed header and trailer.
pub open spec fn spec_memtable_size(es: Seq<KvEntry>) -> int {
    entries_data_size(es) + es.len() * TABLE_CATALOG_ITEM_SIZE + TABLE_MIN_SIZE
}

/// The mathematical image of a pending flush: the allocated identity,
/// the frozen table's key range, and the exact built image.
pub struct PendingView {
    pub file: ScTableFile,
    pub lower: Seq<u8>,
    pub upper: Seq<u8>,
    pub bytes: Seq<u8>,
}

/// The mathematical image of a partition.
pub struct PartitionView {
    pub id: u32,
    pub table_size: int,
    pub mem: Seq<KvEntry>,
    pub imm: Option<Seq<KvEntry>>,
    pub levels: Seq<Seq<TableView>>,
    pub lower: Option<Seq<u8>>,
    pub upper: Option<Seq<u8>>,
    pub err: Option<ErrorView>,
    pub pending: Option<PendingView>,
}

/// Whether `k` lies inside the partition's key range.
pub open spec fn in_bounds<Comp: Comparator>(p: PartitionView, k: Seq<u8>) -> bool {
    match (p.lower, p.upper) {
        (Some(l), Some(u)) => !Comp::lt(k, l) && !Comp::lt(u, k),
        _ => false,
    }
}

/// What one persisted segment holds for a key.
pub open spec fn table_lookup(t: TableView, k: Seq<u8>) -> Option<Seq<u8>> {
    spec_lookup_last(spec_table_entries(t.bytes), k)
}

/// What one level holds for a key: the newest table whose range
/// contains the key and which holds an entry wins.
pub open spec fn level_lookup<Comp: Comparator>(tables: Seq<TableView>, k: Seq<u8>) -> Option<
    Seq<u8>,
>
    decreases tables.len(),
{
    if tables.len() == 0 {
        None::<Seq<u8>>
    } else if spec_in_range::<Comp>(tables.last(), k) && table_lookup(tables.last(), k) is Some {
        table_lookup(tables.last(), k)
    } else {
        level_lookup::<Comp>(tables.drop_last(), k)
    }
}

/// What the levels hold for a key, shallowest level first.
pub open spec fn levels_lookup<Comp: Comparator>(levels: Seq<Seq<TableView>>, k: Seq<u8>) -> Option<
    Seq<u8>,
>
    decreases levels.len(),
{
    if levels.len() == 0 {
        None::<Seq<u8>>
    } else if level_lookup::<Comp>(levels[0], k) is Some {
        level_lookup::<Comp>(levels[0], k)
    } else {
        levels_lookup::<Comp>(levels.skip(1), k)
    }
}

/// What the frozen table holds for a key, when one exists.
pub open spec fn imm_lookup(p: PartitionView, k: Seq<u8>) -> Option<Seq<u8>> {
    match p.imm {
        Some(m) => spec_lookup_last(m, k),
        None => None::<Seq<u8>>,
    }
}

/// The raw stored value for a key: absent outside the bounds, else the
/// mutable table first, the frozen table second, the levels last.
pub open spec fn raw_lookup<Comp: Comparator>(p: PartitionView, k: Seq<u8>) -> Option<Seq<u8>> {
    if !in_bounds::<Comp>(p, k) {
        None::<Seq<u8>>
    } else if spec_lookup_last(p.mem, k) is Some {
        spec_lookup_last(p.mem, k)
    } else if imm_lookup(p, k) is Some {
        imm_lookup(p, k)
    } else {
        levels_lookup::<Comp>(p.levels, k)
    }
}

/// The caller-visible lookup result: a zero-length stored value is a
/// tombstone and surfaces as absent.
pub open spec fn get_spec<Comp: Comparator>(p: PartitionView, k: Seq<u8>) -> Option<Seq<u8>> {
    match raw_lookup::<Comp>(p, k) {
        Some(v) => if v.len() > 0 {
            Some(v)
        } else {
            None::<Seq<u8>>
        },
        None => None::<Seq<u8>>,
    }
}

/// How an insert widens the lower bound.
pub open spec fn spec_lower_after<Comp: Comparator>(lower: Option<Seq<u8>>, k: Seq<u8>) -> Option<
    Seq<u8>,
> {
    match lower {
        None => Some(k),
        Some(l) => if Comp::lt(k, l) {
            Some(k)
        } else {
            Some(l)
        },
    }
}

/// How an insert widens the upper bound.
pub open spec fn spec_upper_after<Comp: Comparator>(upper: Option<Seq<u8>>, k: Seq<u8>) -> Option<
    Seq<u8>,
> {
    match upper {
        None => Some(k),
        Some(u) => if Comp::lt(u, k) {
            Some(k)
        } else {
            Some(u)
        },
    }
}

/// A persisted segment as a level registers it: fully resolved, a valid
/// image, its pairs sorted, and every stored key inside its range.
pub open spec fn table_wf<Comp: Comparator>(t: TableView) -> bool {
    &&& t.full
    &&& spec_valid_table(t.bytes)
    &&& spec_entries_sorted::<Comp>(spec_table_entries(t.bytes))
    &&& forall|i: int|
        0 <= i < spec_table_entries(t.bytes).len() ==> !Comp::lt(
            (#[trigger] spec_table_entries(t.bytes)[i]).key,
            t.lower,
        ) && !Comp::lt(t.upper, spec_table_entries(t.bytes)[i].key)
    &&& !Comp::lt(t.upper, t.lower)
}

/// No byte string is below itself.
pub proof fn lemma_lt_irrefl<Comp: Comparator>(k: Seq<u8>)
    ensures
        !Comp::lt(k, k),
{
    if Comp::lt(k, k) {
        Comp::lt_asymmetric(k, k);
    }
}

/// A key below an ordered range's lower bound is below its upper bound
/// too, and symmetrically above.
pub proof fn lemma_widen_bounds<Comp: Comparator>(l: Seq<u8>, u: Seq<u8>, k: Seq<u8>)
    requires
        !Comp::lt(u, l),
    ensures
        Comp::lt(k, l) ==> !Comp::lt(u, k),
        Comp::lt(u, k) ==> !Comp::lt(k, l),
{
    if Comp::lt(k, l) && Comp::lt(u, k) {
        if u == l {
            Comp::lt_asymmetric(k, l);
        } else {
            Comp::lt_transitive(u, k, l);
        }
    }
}

/// The lock-protected state of a partition.
pub struct PartitionData {
    mem_table: MemTable,
    imm_table: Option<MemTable>,
    levels: Vec<Level>,
    lower_bound: Option<UserKey>,
    upper_bound: Option<UserKey>,
    background_error: Option<Error>,
    table_size: usize,
}

impl PartitionData {
    pub closed spec fn mem(&self) -> Seq<KvEntry> {
        self.mem_table.entries()
    }

    pub closed spec fn imm(&self) -> Option<Seq<KvEntry>> {
        match self.imm_table {
            Some(m) => Some(m.entries()),
            None => None,
        }
    }

    pub closed spec fn levels_view(&self) -> Seq<Seq<TableView>> {
        self.levels@.map(|i: int, l: Level| l.tables())
    }

    pub closed spec fn lower(&self) -> Option<Seq<u8>> {
        match self.lower_bound {
            Some(k) => Some(k@),
            None => None,
        }
    }

    pub closed spec fn upper(&self) -> Option<Seq<u8>> {
        match self.upper_bound {
            Some(k) => Some(k@),
            None => None,
        }
    }

    pub closed spec fn err(&self) -> Option<ErrorView> {
        match self.background_error {
            Some(e) => Some(e@),
            None => None,
        }
    }

    pub closed spec fn spec_table_size(&self) -> int {
        self.table_size as int
    }

    /// The tracked footprint of the mutable table's bytes.
    pub closed spec fn mem_data_size(&self) -> int {
        self.mem_table.spec_data_size()
    }

    /// The file-id counter of level 0, where the next flush lands.
    pub closed spec fn level0_next_file_id(&self) -> int {
        if self.levels@.len() > 0 {
            self.levels@[0].spec_next_file_id() as int
        } else {
            0
        }
    }

    /// Sorted tables, a sorted nonempty frozen table, matching bounds,
    /// well-formed registered segments, and range-disjoint sorted deep
    /// levels.
    pub closed spec fn wf<Comp: Comparator>(&self) -> bool {
        &&& self.mem_table.wf::<Comp>()
        &&& spec_memtable_size(self.mem()) <= usize::MAX
        &&& match self.imm_table {
            Some(m) => m.wf::<Comp>() && m.entries().len() > 0 && spec_memtable_size(m.entries())
                <= usize::MAX,
            None => true,
        }
        &&& (self.lower() is Some <==> self.upper() is Some)
        &&& match (self.lower(), self.upper()) {
            (Some(l), Some(u)) => !Comp::lt(u, l),
            _ => true,
        }
        &&& forall|l: int, i: int|
            0 <= l < self.levels_view().len() && 0 <= i < self.levels_view()[l].len()
                ==> table_wf::<Comp>(#[trigger] self.levels_view()[l][i])
        &&& forall|l: int, i: int, j: int|
            1 <= l < self.levels_view().len() && 0 <= i < j < self.levels_view()[l].len()
                ==> Comp::lt(
                (#[trigger] self.levels_view()[l][i]).upper,
                (#[trigger] self.levels_view()[l][j]).lower,
            )
    }

    pub fn new<Comp: Comparator>(options: &Options) -> (r: PartitionData)
        ensures
            r.wf::<Comp>(),
            r.mem() == Seq::<KvEntry>::empty(),
            r.imm() is None,
            r.levels_view() == Seq::<Seq<TableView>>::empty(),
            r.lower() is None,
            r.upper() is None,
            r.err() is None,
            r.spec_table_size() == options.table_size,
    {
        let r = PartitionData {
            mem_table: MemTable::new(),
            imm_table: None,
            levels: Vec::new(),
            lower_bound: None,
            upper_bound: None,
            background_error: None,
            table_size: options.table_size,
        };
        proof {
            assert(r.levels_view() =~= Seq::<Seq<TableView>>::empty());
        }
        r
    }

    /// The latched flush failure, if one is recorded: once poisoned,
    /// every write fails with this error.
    pub fn background_error(&self) -> (r: Result<(), Error>)
        ensures
            match r {
                Ok(()) => self.err() is None,
                Err(e) => self.err() == Some(e@),
            },
    {
        match &self.background_error {
            Some(e) => Err(e.clone()),
            None => Ok(()),
        }
    }

    /// Latches a flush failure.
    fn record_background_error(&mut self, error: Error)
        ensures
            final(self).err() == Some(error@),
            final(self).mem_table == old(self).mem_table,
            final(self).imm_table == old(self).imm_table,
            final(self).mem() == old(self).mem(),
            final(self).imm() == old(self).imm(),
            final(self).levels_view() == old(self).levels_view(),
            final(self).lower() == old(self).lower(),
            final(self).upper() == old(self).upper(),
            final(self).spec_table_size() == old(self).spec_table_size(),
            final(self).level0_next_file_id() == old(self).level0_next_file_id(),
    {
        self.background_error = Some(error);
    }

    /// Whether a frozen table is awaiting flush.
    pub fn has_imm(&self) -> (r: bool)
        ensures
            r <==> self.imm() is Some,
    {
        self.imm_table.is_some()
    }

    /// The key range of the frozen table: its first and last keys.
    pub fn imm_bounds<Comp: Comparator>(&self) -> (r: (UserKey, UserKey))
        requires
            self.wf::<Comp>(),
            self.imm() is Some,
        ensures
            r.0@ == self.imm().unwrap()[0].key,
            r.1@ == self.imm().unwrap().last().key,
    {
        let imm_table = self.imm_table.as_ref().unwrap();
        let n = imm_table.len();
        let first = imm_table.nth(0);
        let lower_bound = first.0.user_key.clone();
        let last = imm_table.nth(n - 1);
        let upper_bound = last.0.user_key.clone();
        (lower_bound, upper_bound)
    }

    /// The frozen table's serialized size.
    pub fn imm_size<Comp: Comparator>(&self) -> (r: usize)
        requires
            self.wf::<Comp>(),
            self.imm() is Some,
        ensures
            r == spec_memtable_size(self.imm().unwrap()),
    {
        let imm_table = self.imm_table.as_ref().unwrap();
        proof {
            lemma_data_size_nonneg(imm_table.entries());
        }
        imm_table.data_size() + imm_table.len() * TABLE_CATALOG_ITEM_SIZE + TABLE_MIN_SIZE
    }

    /// Inserts an entry into the mutable table, widening the partition
    /// bounds when the key falls outside them.
    pub fn memtable_put<Comp: Comparator>(&mut self, key: InternalKey, value: Vec<u8>)
        requires
            old(self).wf::<Comp>(),
            old(self).mem_data_size() + key.user_key@.len() + value@.len() <= usize::MAX,
            spec_memtable_size(
                mt_insert::<Comp>(
                    old(self).mem(),
                    KvEntry { seq: key.seq, key: key.user_key@, value: value@ },
                ),
            ) <= usize::MAX,
        ensures
            final(self).wf::<Comp>(),
            final(self).mem() == mt_insert::<Comp>(
                old(self).mem(),
                KvEntry { seq: key.seq, key: key.user_key@, value: value@ },
            ),
            final(self).lower() == spec_lower_after::<Comp>(old(self).lower(), key.user_key@),
            final(self).upper() == spec_upper_after::<Comp>(old(self).upper(), key.user_key@),
            final(self).imm() == old(self).imm(),
            final(self).levels_view() == old(self).levels_view(),
            final(self).err() == old(self).err(),
            final(self).spec_table_size() == old(self).spec_table_size(),
            final(self).level0_next_file_id() == old(self).level0_next_file_id(),
    {
        proof {
            lemma_lt_irrefl::<Comp>(key.user_key@);
            match (old(self).lower(), old(self).upper()) {
                (Some(l), Some(u)) => {
                    lemma_widen_bounds::<Comp>(l, u, key.user_key@);
                },
                _ => {},
            }
        }
        if self.lower_bound.is_none() && self.upper_bound.is_none() {
            self.set_lower_bound(key.user_key.clone());
            self.set_upper_bound(key.user_key.clone());
        } else {
            let cl = Comp::compare(
                key.user_key.key(),
                self.lower_bound.as_ref().unwrap().key(),
            );
            if matches!(cl, core::cmp::Ordering::Less) {
                self.set_lower_bound(key.user_key.clone());
            } else {
                let cu = Comp::compare(
                    key.user_key.key(),
                    self.upper_bound.as_ref().unwrap().key(),
                );
                if matches!(cu, core::cmp::Ordering::Greater) {
                    self.set_upper_bound(key.user_key.clone());
                }
            }
        }
        self.mem_table.put::<Comp>(key, value);
        proof {
            // the untouched fields keep their invariants, and the
            // bounds moved exactly as the widening functions say
            assert(self.imm_table == old(self).imm_table);
            assert(self.levels_view() == old(self).levels_view());
            assert(self.lower() == spec_lower_after::<Comp>(old(self).lower(), key.user_key@));
            assert(self.upper() == spec_upper_after::<Comp>(old(self).upper(), key.user_key@));
        }
    }

    /// Freezes the mutable table into the snapshot slot and starts a
    /// fresh empty table.
    pub fn convert_mem_to_imm(&mut self)
        requires
            old(self).imm() is None,
        ensures
            final(self).imm() == Some(old(self).mem()),
            final(self).mem() == Seq::<KvEntry>::empty(),
            final(self).imm_table_data_size() == old(self).mem_data_size(),
            final(self).levels_view() == old(self).levels_view(),
            final(self).lower() == old(self).lower(),
            final(self).upper() == old(self).upper(),
            final(self).err() == old(self).err(),
            final(self).spec_table_size() == old(self).spec_table_size(),
            final(self).level0_next_file_id() == old(self).level0_next_file_id(),
            final(self).mem_data_size() == 0,
    {
        let mut new_imm = MemTable::new();
        core::mem::swap(&mut self.mem_table, &mut new_imm);
        self.imm_table = Some(new_imm);
    }

    /// The tracked footprint of the frozen table, when one exists.
    pub closed spec fn imm_table_data_size(&self) -> int {
        match self.imm_table {
            Some(m) => m.spec_data_size(),
            None => 0,
        }
    }

    /// The mutable table's serialized size: data bytes plus per-entry
    /// catalog overhead plus the fixed header and trailer.
    pub fn memtable_size<Comp: Comparator>(&self) -> (r: usize)
        requires
            self.wf::<Comp>(),
        ensures
            r == spec_memtable_size(self.mem()),
    {
        proof {
            lemma_data_size_nonneg(self.mem());
        }
        self.mem_table.data_size() + self.mem_table.len() * TABLE_CATALOG_ITEM_SIZE
            + TABLE_MIN_SIZE
    }

    /// The partition's key range bounds.
    pub fn bounds(&self) -> (r: (Option<&UserKey>, Option<&UserKey>))
        ensures
            match r.0 {
                Some(k) => self.lower() == Some(k@),
                None => self.lower() is None,
            },
            match r.1 {
                Some(k) => self.upper() == Some(k@),
                None => self.upper() is None,
            },
    {
        (self.lower_bound.as_ref(), self.upper_bound.as_ref())
    }

    fn set_lower_bound(&mut self, lower_bound: UserKey)
        ensures
            final(self).lower() == Some(lower_bound@),
            final(self).upper() == old(self).upper(),
            final(self).mem() == old(self).mem(),
            final(self).imm() == old(self).imm(),
            final(self).levels_view() == old(self).levels_view(),
            final(self).err() == old(self).err(),
            final(self).spec_table_size() == old(self).spec_table_size(),
            final(self).mem_table == old(self).mem_table,
            final(self).imm_table == old(self).imm_table,
            final(self).level0_next_file_id() == old(self).level0_next_file_id(),
    {
        self.lower_bound = Some(lower_bound);
    }

    fn set_upper_bound(&mut self, upper_bound: UserKey)
        ensures
            final(self).upper() == Some(upper_bound@),
            final(self).lower() == old(self).lower(),
            final(self).mem() == old(self).mem(),
            final(self).imm() == old(self).imm(),
            final(self).levels_view() == old(self).levels_view(),
            final(self).err() == old(self).err(),
            final(self).spec_table_size() == old(self).spec_table_size(),
            final(self).mem_table == old(self).mem_table,
            final(self).imm_table == old(self).imm_table,
            final(self).level0_next_file_id() == old(self).level0_next_file_id(),
    {
        self.upper_bound = Some(upper_bound);
    }
}

/// What a write did: inserted directly, froze the full table and then
/// inserted into the fresh one (the caller should flush now), or could
/// not proceed because a frozen table is still awaiting flush.
pub enum WriteOutcome {
    Inserted,
    InsertedAfterFreeze,
    Blocked,
}

/// One contiguous key range's full log-structured state.
pub struct Partition<Comp: Comparator> {
    partition_id: u32,
    data: PartitionData,
    pending: Option<PendingFlush>,
    comparator: core::marker::PhantomData<Comp>,
}

/// A prepared but not yet completed flush: the identity the segment
/// will persist under, the frozen table's range, and (as a ghost
/// record) the exact built image.
struct PendingFlush {
    file: ScTableFile,
    lower: UserKey,
    upper: UserKey,
    bytes: Ghost<Seq<u8>>,
}

impl<Comp: Comparator> Partition<Comp> {
    pub closed spec fn view(&self) -> PartitionView {
        PartitionView {
            id: self.partition_id,
            table_size: self.data.spec_table_size(),
            mem: self.data.mem(),
            imm: self.data.imm(),
            levels: self.data.levels_view(),
            lower: self.data.lower(),
            upper: self.data.upper(),
            err: self.data.err(),
            pending: match self.pending {
                Some(p) => Some(
                    PendingView { file: p.file, lower: p.lower@, upper: p.upper@, bytes: p.bytes@ },
                ),
                None => None,
            },
        }
    }

    /// The inner state is well-formed and, when a flush is prepared,
    /// its recorded image is exactly the serialization of the frozen
    /// table.
    pub closed spec fn wf(&self) -> bool {
        &&& self.data.wf::<Comp>()
        &&& self.data.levels_view().len() <= u32::MAX
        &&& forall|l: int, i: int|
            0 <= l < self.data.levels_view().len() && 0 <= i < self.data.levels_view()[l].len()
                ==> (#[trigger] self.data.levels_view()[l][i]).file == (ScTableFile {
                origin_partition: self.partition_id,
                origin_level: l as u32,
                origin_number: self.data.levels_view()[l][i].file.origin_number,
            })
        &&& forall|l: int, i: int, j: int|
            0 <= l < self.data.levels_view().len() && 0 <= i < j < self.data.levels_view()[l].len()
                ==> (#[trigger] self.data.levels_view()[l][i]).file.origin_number < (
            #[trigger] self.data.levels_view()[l][j]).file.origin_number
        &&& forall|i: int|
            self.data.levels_view().len() > 0 && 0 <= i < self.data.levels_view()[0].len() ==> (
            #[trigger] self.data.levels_view()[0][i]).file.origin_number
                < self.data.level0_next_file_id()
        &&& match (self.pending, self.data.imm()) {
            (Some(p), Some(m)) => {
                &&& spec_valid_table(p.bytes@)
                &&& spec_table_entries(p.bytes@) == m
                &&& p.lower@ == m[0].key
                &&& p.upper@ == m.last().key
                &&& self.data.levels_view().len() >= 1
                &&& p.file == (ScTableFile {
                    origin_partition: self.partition_id,
                    origin_level: 0,
                    origin_number: p.file.origin_number,
                })
                &&& p.file.origin_number < self.data.level0_next_file_id()
                &&& forall|i: int|
                    0 <= i < self.data.levels_view()[0].len() ==> (
                    #[trigger] self.data.levels_view()[0][i]).file.origin_number
                        < p.file.origin_number
            },
            (Some(p), None) => false,
            (None, _) => true,
        }
    }

    /// Whether a prepared flush awaits completion.
    pub closed spec fn has_pending(&self) -> bool {
        self.pending is Some
    }

    pub fn new(options: &Options, partition_id: u32) -> (r: Partition<Comp>)
        ensures
            r.wf(),
            !r.has_pending(),
            r@.id == partition_id,
            r@.table_size == options.table_size,
            r@.mem == Seq::<KvEntry>::empty(),
            r@.imm is None,
            r@.levels == Seq::<Seq<TableView>>::empty(),
            r@.lower is None,
            r@.upper is None,
            r@.err is None,
    {
        Partition {
            partition_id,
            data: PartitionData::new::<Comp>(options),
            pending: None,
            comparator: core::marker::PhantomData,
        }
    }

    /// The write path.  Fails fast when poisoned.  When the projected
    /// size fits, inserts directly.  When it does not fit and a frozen
    /// table is pending, reports backpressure without changing
    /// anything: the caller must complete the pending flush and retry.
    /// Otherwise freezes the mutable table (unless it is empty) and
    /// inserts into the fresh one.
    pub fn write(&mut self, key: InternalKey, value: Vec<u8>) -> (r: Result<WriteOutcome, Error>)
        requires
            old(self).wf(),
            key.user_key@.len() + value@.len() + TABLE_CATALOG_ITEM_SIZE + TABLE_MIN_SIZE
                <= usize::MAX,
        ensures
            final(self).wf(),
            final(self).has_pending() == old(self).has_pending(),
            ({
                let p = old(self)@;
                let q = final(self)@;
                let e = KvEntry { seq: key.seq, key: key.user_key@, value: value@ };
                let fits = spec_memtable_size(p.mem) + spec_kv_pair_size(e) <= p.table_size;
                match r {
                    Err(err) => p.err == Some(err@) && q == p,
                    Ok(WriteOutcome::Blocked) => {
                        &&& p.err is None
                        &&& !fits
                        &&& p.imm is Some
                        &&& q == p
                    },
                    Ok(WriteOutcome::Inserted) => {
                        &&& p.err is None
                        &&& (fits || (p.imm is None && p.mem.len() == 0))
                        &&& q == (PartitionView {
                            mem: mt_insert::<Comp>(p.mem, e),
                            lower: spec_lower_after::<Comp>(p.lower, e.key),
                            upper: spec_upper_after::<Comp>(p.upper, e.key),
                            ..p
                        })
                    },
                    Ok(WriteOutcome::InsertedAfterFreeze) => {
                        &&& p.err is None
                        &&& !fits
                        &&& p.imm is None
                        &&& p.mem.len() > 0
                        &&& q == (PartitionView {
                            mem: mt_insert::<Comp>(Seq::<KvEntry>::empty(), e),
                            imm: Some(p.mem),
                            lower: spec_lower_after::<Comp>(p.lower, e.key),
                            upper: spec_upper_after::<Comp>(p.upper, e.key),
                            ..p
                        })
                    },
                }
            }),
    {
        if let Err(e) = self.data.background_error() {
            return Err(e);
        }
        let ghost e = KvEntry { seq: key.seq, key: key.user_key@, value: value@ };
        let pair = kv_pair_size(&key, value.as_slice());
        let size = self.data.memtable_size::<Comp>();
        let fits = (size as u128) + (pair as u128) <= (self.data.table_size_exec() as u128);
        if fits {
            proof {
                crate::memtable::lemma_data_size_nonneg(self.data.mem());
                lemma_mt_insert_size::<Comp>(self.data.mem(), e);
            }
            self.data.memtable_put::<Comp>(key, value);
            return Ok(WriteOutcome::Inserted);
        }
        if self.data.has_imm() {
            return Ok(WriteOutcome::Blocked);
        }
        if self.data.mem_table_len() == 0 {
            proof {
                assert(self.data.mem() =~= Seq::<KvEntry>::empty());
                lemma_mt_insert_size::<Comp>(self.data.mem(), e);
            }
            self.data.memtable_put::<Comp>(key, value);
            return Ok(WriteOutcome::Inserted);
        }
        self.data.convert_mem_to_imm();
        proof {
            assert(self.data.mem() =~= Seq::<KvEntry>::empty());
            lemma_mt_insert_size::<Comp>(self.data.mem(), e);
        }
        self.data.memtable_put::<Comp>(key, value);
        Ok(WriteOutcome::InsertedAfterFreeze)
    }
}

impl PartitionData {
    /// The configured table size.
    pub fn table_size_exec(&self) -> (r: usize)
        ensures
            r == self.spec_table_size(),
    {
        self.table_size
    }

    /// The number of entries in the mutable table.
    pub fn mem_table_len(&self) -> (r: usize)
        ensures
            r == self.mem().len(),
    {
        self.mem_table.len()
    }
}


impl PartitionData {
    /// The number of entries in the frozen table.
    fn imm_len(&self) -> (r: usize)
        requires
            self.imm() is Some,
        ensures
            r == self.imm().unwrap().len(),
    {
        self.imm_table.as_ref().unwrap().len()
    }

    /// The `i`-th entry of the frozen table, in sorted order.
    fn imm_nth(&self, i: usize) -> (r: (&InternalKey, &Vec<u8>))
        requires
            self.imm() is Some,
            i < self.imm().unwrap().len(),
        ensures
            r.0.seq == self.imm().unwrap()[i as int].seq,
            r.0.user_key@ == self.imm().unwrap()[i as int].key,
            r.1@ == self.imm().unwrap()[i as int].value,
    {
        self.imm_table.as_ref().unwrap().nth(i)
    }

    /// The number of levels.
    fn level_count(&self) -> (r: usize)
        ensures
            r == self.levels_view().len(),
    {
        self.levels.len()
    }

    /// Creates the next deeper (or first) level, empty.
    fn push_level(&mut self)
        ensures
            final(self).levels_view() == old(self).levels_view().push(
                Seq::<TableView>::empty(),
            ),
            final(self).mem() == old(self).mem(),
            final(self).imm() == old(self).imm(),
            final(self).lower() == old(self).lower(),
            final(self).upper() == old(self).upper(),
            final(self).err() == old(self).err(),
            final(self).spec_table_size() == old(self).spec_table_size(),
            final(self).mem_table == old(self).mem_table,
            final(self).imm_table == old(self).imm_table,
            final(self).mem_data_size() == old(self).mem_data_size(),
            old(self).levels_view().len() > 0 ==> final(self).level0_next_file_id() == old(
                self,
            ).level0_next_file_id(),
            old(self).levels_view().len() == 0 ==> final(self).level0_next_file_id() == 0,
    {
        self.levels.push(Level::new());
        proof {
            assert(self.levels_view() =~= old(self).levels_view().push(
                Seq::<TableView>::empty(),
            ));
        }
    }

    /// Returns and advances level 0's file-id counter.
    fn level0_next_id(&mut self) -> (r: u64)
        requires
            old(self).levels_view().len() > 0,
            old(self).level0_next_file_id() < u64::MAX,
        ensures
            r == old(self).level0_next_file_id(),
            final(self).level0_next_file_id() == old(self).level0_next_file_id() + 1,
            final(self).levels_view() == old(self).levels_view(),
            final(self).mem() == old(self).mem(),
            final(self).imm() == old(self).imm(),
            final(self).lower() == old(self).lower(),
            final(self).upper() == old(self).upper(),
            final(self).err() == old(self).err(),
            final(self).spec_table_size() == old(self).spec_table_size(),
            final(self).mem_table == old(self).mem_table,
            final(self).imm_table == old(self).imm_table,
    {
        let r = self.levels[0].level_next_file_id();
        proof {
            assert(self.levels_view() =~= old(self).levels_view());
        }
        r
    }

    /// Registers a persisted segment at the end of level 0.
    fn add_table_level0(&mut self, table: ScTable)
        requires
            old(self).levels_view().len() > 0,
        ensures
            final(self).levels_view() == old(self).levels_view().update(
                0,
                old(self).levels_view()[0].push(Table::Full(table)@),
            ),
            final(self).mem() == old(self).mem(),
            final(self).imm() == old(self).imm(),
            final(self).lower() == old(self).lower(),
            final(self).upper() == old(self).upper(),
            final(self).err() == old(self).err(),
            final(self).spec_table_size() == old(self).spec_table_size(),
            final(self).mem_table == old(self).mem_table,
            final(self).imm_table == old(self).imm_table,
            final(self).level0_next_file_id() == old(self).level0_next_file_id(),
    {
        let mut level0 = Level::new();
        core::mem::swap(&mut self.levels[0], &mut level0);
        level0.add_file(table);
        core::mem::swap(&mut self.levels[0], &mut level0);
        proof {
            assert(self.levels_view() =~= old(self).levels_view().update(
                0,
                old(self).levels_view()[0].push(Table::Full(table)@),
            ));
        }
    }

    /// Retires the frozen table once its flush completed.
    fn clear_imm(&mut self)
        ensures
            final(self).imm() is None,
            final(self).mem() == old(self).mem(),
            final(self).levels_view() == old(self).levels_view(),
            final(self).lower() == old(self).lower(),
            final(self).upper() == old(self).upper(),
            final(self).err() == old(self).err(),
            final(self).spec_table_size() == old(self).spec_table_size(),
            final(self).mem_table == old(self).mem_table,
            final(self).level0_next_file_id() == old(self).level0_next_file_id(),
    {
        self.imm_table = None;
    }
}

/// A lookup finds a value exactly when some entry has the key.
pub proof fn lemma_lookup_some_exists(es: Seq<KvEntry>, k: Seq<u8>)
    ensures
        spec_lookup_last(es, k) is Some <==> exists|i: int|
            0 <= i < es.len() && (#[trigger] es[i]).key == k,
    decreases es.len(),
{
    if es.len() > 0 {
        lemma_lookup_some_exists(es.drop_last(), k);
        if es.last().key == k {
            assert(es[es.len() - 1].key == k);
        } else {
            assert forall|i: int|
                0 <= i < es.len() && (#[trigger] es[i]).key == k implies 0 <= i < es.drop_last().len()
                && es.drop_last()[i].key == k by {
                assert(i != es.len() - 1);
            }
        }
    }
}

/// On a sorted table every stored key lies between the first and the
/// last key, so a key outside that range is not stored.
pub proof fn lemma_lookup_outside_range<Comp: Comparator>(es: Seq<KvEntry>, k: Seq<u8>)
    requires
        mt_sorted::<Comp>(es),
        es.len() > 0,
        Comp::lt(k, es[0].key) || Comp::lt(es.last().key, k),
    ensures
        spec_lookup_last(es, k) == None::<Seq<u8>>,
{
    assert forall|i: int| 0 <= i < es.len() implies (#[trigger] es[i]).key != k by {
        if es[i].key == k {
            if Comp::lt(k, es[0].key) {
                if i == 0 {
                    Comp::lt_asymmetric(k, es[0].key);
                } else {
                    assert(mt_entry_lt::<Comp>(es[0], es[i]));
                    if es[0].key == es[i].key {
                        Comp::lt_asymmetric(k, es[0].key);
                    } else {
                        assert(Comp::lt(es[0].key, k));
                        Comp::lt_asymmetric(k, es[0].key);
                    }
                }
            } else {
                let n = es.len() - 1;
                if i == n {
                    Comp::lt_asymmetric(es[n].key, k);
                } else {
                    assert(mt_entry_lt::<Comp>(es[i], es[n]));
                    if es[i].key == es[n].key {
                        Comp::lt_asymmetric(es[n].key, k);
                    } else {
                        assert(Comp::lt(k, es[n].key));
                        Comp::lt_asymmetric(es[n].key, k);
                    }
                }
            }
        }
    }
    crate::tablefmt::lemma_lookup_last_none(es, k);
}

/// On a sorted table a stored key lies inside the first-to-last range.
pub proof fn lemma_lookup_in_range<Comp: Comparator>(es: Seq<KvEntry>, k: Seq<u8>)
    requires
        mt_sorted::<Comp>(es),
        es.len() > 0,
        spec_lookup_last(es, k) is Some,
    ensures
        !Comp::lt(k, es[0].key),
        !Comp::lt(es.last().key, k),
{
    lemma_lookup_some_exists(es, k);
    if Comp::lt(k, es[0].key) || Comp::lt(es.last().key, k) {
        lemma_lookup_outside_range::<Comp>(es, k);
    }
}

/// Multiplying by the catalog slot size distributes over adding one.
proof fn lemma_mul_slot_succ(a: int)
    ensures
        (a + 1) * TABLE_CATALOG_ITEM_SIZE == a * TABLE_CATALOG_ITEM_SIZE + TABLE_CATALOG_ITEM_SIZE,
{
    assert((a + 1) * 24 == a * 24 + 24) by (nonlinear_arith);
}

/// Inserting grows a table's serialized size by at most the new entry's
/// footprint.
proof fn lemma_mt_insert_size<Comp: Comparator>(es: Seq<KvEntry>, e: KvEntry)
    ensures
        spec_memtable_size(mt_insert::<Comp>(es, e)) <= spec_memtable_size(es) + spec_kv_pair_size(
            e,
        ),
        mt_insert::<Comp>(es, e).len() <= es.len() + 1,
    decreases es.len(),
{
    lemma_data_size_nonneg(es);
    let r = mt_insert::<Comp>(es, e);
    if es.len() == 0 {
        assert(r == seq![e]);
        assert(r.drop_last() =~= Seq::<KvEntry>::empty());
        assert(r.last() == e);
        assert(entries_data_size(r) == entries_data_size(r.drop_last()) + e.key.len()
            + e.value.len());
        assert(entries_data_size(r.drop_last()) == 0);
        lemma_mul_slot_succ(0);
    } else if mt_entry_lt::<Comp>(es.last(), e) {
        assert(r == es.push(e));
        assert(r.drop_last() =~= es);
        assert(r.last() == e);
        assert(entries_data_size(r) == entries_data_size(es) + e.key.len() + e.value.len());
        lemma_mul_slot_succ(es.len() as int);
    } else if es.last().key == e.key && es.last().seq == e.seq {
        let dl = es.drop_last();
        assert(r == dl.push(e));
        assert(r.drop_last() =~= dl);
        assert(r.last() == e);
        assert(entries_data_size(r) == entries_data_size(dl) + e.key.len() + e.value.len());
        assert(entries_data_size(es) == entries_data_size(dl) + es.last().key.len()
            + es.last().value.len());
        assert(es.last().key.len() == e.key.len());
        assert(r.len() == es.len());
    } else {
        lemma_mt_insert_size::<Comp>(es.drop_last(), e);
        let dl = es.drop_last();
        let rdl = mt_insert::<Comp>(dl, e);
        let r2 = rdl.push(es.last());
        assert(r == r2);
        let lk = es.last().key.len() as int;
        let lv = es.last().value.len() as int;
        assert(r2.drop_last() =~= rdl);
        assert(r2.last() == es.last());
        assert(entries_data_size(r2) == entries_data_size(rdl) + lk + lv);
        assert(entries_data_size(es) == entries_data_size(dl) + lk + lv);
        lemma_mul_slot_succ(rdl.len() as int);
        lemma_mul_slot_succ(dl.len() as int);
        assert(rdl.len() * TABLE_CATALOG_ITEM_SIZE <= (dl.len() + 1) * TABLE_CATALOG_ITEM_SIZE)
            by (nonlinear_arith)
            requires
                rdl.len() <= dl.len() + 1,
        ;
        assert(spec_memtable_size(r2) == spec_memtable_size(rdl) + lk + lv
            + TABLE_CATALOG_ITEM_SIZE);
        assert(spec_memtable_size(es) == spec_memtable_size(dl) + lk + lv
            + TABLE_CATALOG_ITEM_SIZE);
        assert(spec_memtable_size(r2) <= spec_memtable_size(es) + spec_kv_pair_size(e));
    }
}


impl<Comp: Comparator> Partition<Comp> {
    /// Level 0's file-id counter, where the next flush lands.
    pub closed spec fn level0_counter(&self) -> int {
        self.data.level0_next_file_id()
    }

    /// Serializes the frozen table into a segment image and allocates
    /// its on-disk identity.  The caller persists the returned bytes
    /// under the returned identity's file name, then reports back
    /// through `complete_flush` or `fail_flush`.  Fails fast when
    /// poisoned; a frozen table too large for one segment latches and
    /// reports `RequiresExplode`.
    #[verifier::rlimit(100)]
    pub fn prepare_flush(&mut self) -> (r: Result<(ScTableFile, Vec<u8>), Error>)
        requires
            old(self).wf(),
            !old(self).has_pending(),
            old(self)@.imm is Some,
            old(self).level0_counter() < u64::MAX,
        ensures
            final(self).wf(),
            ({
                let p = old(self)@;
                let q = final(self)@;
                let m = p.imm.unwrap();
                match r {
                    Err(err) => {
                        &&& !final(self).has_pending()
                        &&& q.mem == p.mem
                        &&& q.imm == p.imm
                        &&& q.levels == p.levels
                        &&& q.lower == p.lower
                        &&& q.upper == p.upper
                        &&& match p.err {
                            Some(ev) => err@ == ev && q.err == p.err,
                            None => {
                                &&& spec_memtable_size(m) > TABLE_MAX_SIZE
                                &&& err@ == ErrorView::RequiresExplode
                                &&& q.err == Some(ErrorView::RequiresExplode)
                            },
                        }
                    },
                    Ok((file, bytes)) => {
                        &&& p.err is None
                        &&& spec_memtable_size(m) <= TABLE_MAX_SIZE
                        &&& spec_valid_table(bytes@)
                        &&& spec_table_entries(bytes@) == m
                        &&& bytes@.len() == spec_memtable_size(m)
                        &&& file == (ScTableFile {
                            origin_partition: p.id,
                            origin_level: 0,
                            origin_number: file.origin_number,
                        })
                        &&& file.origin_number == old(self).level0_counter()
                        &&& final(self).level0_counter() == old(self).level0_counter() + 1
                        &&& final(self).has_pending()
                        &&& q.pending == Some(
                            PendingView {
                                file,
                                lower: m[0].key,
                                upper: m.last().key,
                                bytes: bytes@,
                            },
                        )
                        &&& q.mem == p.mem
                        &&& q.imm == p.imm
                        &&& q.lower == p.lower
                        &&& q.upper == p.upper
                        &&& q.err is None
                        &&& (p.levels.len() > 0 ==> q.levels == p.levels)
                        &&& (p.levels.len() == 0 ==> q.levels == p.levels.push(
                            Seq::<TableView>::empty(),
                        ))
                    },
                }
            }),
    {
        if let Err(e) = self.data.background_error() {
            return Err(e);
        }
        let imm_sz = self.data.imm_size::<Comp>();
        if imm_sz > TABLE_MAX_SIZE {
            self.data.record_background_error(Error::requires_explode());
            return Err(Error::requires_explode());
        }
        let ghost m = self.data.imm().unwrap();
        proof {
            lemma_data_size_nonneg(m);
        }
        let n = self.data.imm_len();
        let mut builder = crate::builder::ScTableBuilder::new();
        let mut i: usize = 0;
        while i < n
            invariant
                0 <= i <= n,
                *self == *old(self),
                self.wf(),
                self.data.imm() == Some(m),
                n == m.len(),
                spec_memtable_size(m) <= TABLE_MAX_SIZE,
                builder.wf(),
                builder.entries() == m.take(i as int),
                builder.catalog().len() == i,
                builder.spec_size() == TABLE_MIN_SIZE + i * TABLE_CATALOG_ITEM_SIZE
                    + entries_data_size(m.take(i as int)),
            decreases n - i,
        {
            let (ik, v) = self.data.imm_nth(i);
            proof {
                lemma_data_size_take_step(m, i as int);
                lemma_data_size_take_le(m, i + 1);
                lemma_mul_slot_succ(i as int);
                assert((i + 1) * TABLE_CATALOG_ITEM_SIZE <= m.len() * TABLE_CATALOG_ITEM_SIZE)
                    by (nonlinear_arith)
                    requires
                        i + 1 <= m.len(),
                ;
            }
            let seq_no = ik.seq;
            let key_slice = ik.user_key.key();
            builder.add_kv(seq_no, key_slice, v.as_slice());
            proof {
                assert(builder.entries() =~= m.take(i + 1));
            }
            i = i + 1;
        }
        proof {
            assert(m.take(n as int) =~= m);
        }
        let buffer = builder.build();
        proof {
            crate::builder::lemma_build_parse_roundtrip(builder.catalog(), builder.data());
        }
        if self.data.level_count() == 0 {
            self.data.push_level();
        }
        let file_number = self.data.level0_next_id();
        let table_file = ScTableFile::new(self.partition_id, 0, file_number);
        let (lo, hi) = self.data.imm_bounds::<Comp>();
        self.pending = Some(
            PendingFlush { file: table_file, lower: lo, upper: hi, bytes: Ghost(buffer@) },
        );
        Ok((table_file, buffer))
    }

    /// Latches a flush failure: the pending flush is abandoned, the
    /// frozen table stays, and every later write fails fast with this
    /// error.
    pub fn fail_flush(&mut self, error: Error)
        requires
            old(self).wf(),
            old(self).has_pending(),
        ensures
            final(self).wf(),
            !final(self).has_pending(),
            final(self)@ == (PartitionView {
                err: Some(error@),
                pending: None::<PendingView>,
                ..old(self)@
            }),
    {
        self.pending = None;
        self.data.record_background_error(error);
    }

    /// Registers the persisted segment into level 0, retires the frozen
    /// table, and unblocks writers.  Every key reads the same before
    /// and after: what the frozen table held is now served by the new
    /// level-0 segment.
    pub fn complete_flush(&mut self)
        requires
            old(self).wf(),
            old(self).has_pending(),
        ensures
            final(self).wf(),
            !final(self).has_pending(),
            ({
                let p = old(self)@;
                let q = final(self)@;
                let pd = p.pending.unwrap();
                &&& q.imm is None
                &&& q.mem == p.mem
                &&& q.lower == p.lower
                &&& q.upper == p.upper
                &&& q.err == p.err
                &&& q.levels == p.levels.update(
                    0,
                    p.levels[0].push(
                        TableView {
                            file: pd.file,
                            lower: pd.lower,
                            upper: pd.upper,
                            full: true,
                            bytes: pd.bytes,
                        },
                    ),
                )
                &&& forall|k: Seq<u8>| raw_lookup::<Comp>(q, k) == raw_lookup::<Comp>(p, k)
                &&& forall|k: Seq<u8>| get_spec::<Comp>(q, k) == get_spec::<Comp>(p, k)
            }),
    {
        let ghost p = self@;
        let ghost m = self.data.imm().unwrap();
        let mut tmp: Option<PendingFlush> = None;
        core::mem::swap(&mut self.pending, &mut tmp);
        let pf = match tmp {
            Some(pf) => pf,
            None => {
                proof {
                    assert(false);
                }
                vstd::pervasive::unreached()
            },
        };
        let ghost tv = TableView {
            file: pf.file,
            lower: pf.lower@,
            upper: pf.upper@,
            full: true,
            bytes: pf.bytes@,
        };
        let table = ScTable::new(pf.file, pf.lower, pf.upper, Ghost(pf.bytes@));
        proof {
            assert(Table::Full(table)@ == tv);
        }
        self.data.add_table_level0(table);
        self.data.clear_imm();
        proof {
            let q = self@;
            // the new table is well-formed: its pairs are the frozen
            // table's pairs, sorted and inside [first, last]
            assert(spec_table_entries(tv.bytes) == m);
            assert(mt_sorted::<Comp>(m));
            assert(spec_entries_sorted::<Comp>(m)) by {
                assert forall|i: int, j: int| 0 <= i < j < m.len() implies (Comp::lt(
                    #[trigger] m[i].key,
                    #[trigger] m[j].key,
                ) || (m[i].key == m[j].key && m[i].seq <= m[j].seq)) by {
                    assert(mt_entry_lt::<Comp>(m[i], m[j]));
                }
            }
            assert forall|i: int| 0 <= i < m.len() implies !Comp::lt(
                (#[trigger] m[i]).key,
                tv.lower,
            ) && !Comp::lt(tv.upper, m[i].key) by {
                lemma_sorted_entry_in_range::<Comp>(m, i);
            }
            assert(table_wf::<Comp>(tv)) by {
                assert(m.len() > 0);
                lemma_sorted_entry_in_range::<Comp>(m, 0);
            }
            // the data state is still well-formed
            assert(self.data.wf::<Comp>()) by {
                assert forall|l: int, i: int|
                    0 <= l < q.levels.len() && 0 <= i < q.levels[l].len() implies table_wf::<Comp>(
                    #[trigger] q.levels[l][i],
                ) by {
                    if l == 0 && i == q.levels[0].len() - 1 {
                        assert(q.levels[l][i] == tv);
                    } else {
                        assert(q.levels[l][i] == p.levels[l][i]);
                    }
                }
            }
            // every key reads the same before and after
            assert forall|k: Seq<u8>| raw_lookup::<Comp>(q, k) == raw_lookup::<Comp>(p, k) by {
                lemma_flush_preserves_lookup::<Comp>(p, q, m, tv, k);
            }
            assert forall|k: Seq<u8>| get_spec::<Comp>(q, k) == get_spec::<Comp>(p, k) by {
                assert(raw_lookup::<Comp>(q, k) == raw_lookup::<Comp>(p, k));
            }
        }
    }
}

/// On a sorted nonempty table, every stored key lies between the first
/// and the last key.
proof fn lemma_sorted_entry_in_range<Comp: Comparator>(m: Seq<KvEntry>, i: int)
    requires
        mt_sorted::<Comp>(m),
        0 <= i < m.len(),
    ensures
        !Comp::lt(m[i].key, m[0].key),
        !Comp::lt(m.last().key, m[i].key),
{
    if i > 0 {
        assert(mt_entry_lt::<Comp>(m[0], m[i]));
        if m[0].key == m[i].key {
            lemma_lt_irrefl::<Comp>(m[i].key);
        } else {
            Comp::lt_asymmetric(m[0].key, m[i].key);
        }
    } else {
        lemma_lt_irrefl::<Comp>(m[0].key);
    }
    let n = m.len() - 1;
    if i < n {
        assert(mt_entry_lt::<Comp>(m[i], m[n]));
        if m[i].key == m[n].key {
            lemma_lt_irrefl::<Comp>(m[i].key);
        } else {
            Comp::lt_asymmetric(m[i].key, m[n].key);
        }
    } else {
        lemma_lt_irrefl::<Comp>(m[i].key);
    }
}

/// Replacing the frozen table by a level-0 segment holding exactly its
/// pairs leaves every key's raw lookup unchanged.
proof fn lemma_flush_preserves_lookup<Comp: Comparator>(
    p: PartitionView,
    q: PartitionView,
    m: Seq<KvEntry>,
    tv: TableView,
    k: Seq<u8>,
)
    requires
        mt_sorted::<Comp>(m),
        m.len() > 0,
        p.imm == Some(m),
        spec_table_entries(tv.bytes) == m,
        tv.lower == m[0].key,
        tv.upper == m.last().key,
        p.levels.len() >= 1,
        q.mem == p.mem,
        q.imm is None,
        q.lower == p.lower,
        q.upper == p.upper,
        q.levels == p.levels.update(0, p.levels[0].push(tv)),
    ensures
        raw_lookup::<Comp>(q, k) == raw_lookup::<Comp>(p, k),
{
    assert(in_bounds::<Comp>(q, k) == in_bounds::<Comp>(p, k));
    if in_bounds::<Comp>(p, k) {
        if spec_lookup_last(p.mem, k) is Some {
        } else {
            let l0 = p.levels[0];
            let l0q = q.levels[0];
            assert(l0q == l0.push(tv));
            assert(l0q.last() == tv);
            assert(l0q.drop_last() =~= l0);
            assert(table_lookup(tv, k) == spec_lookup_last(m, k));
            // the levels beyond 0 are untouched
            assert(q.levels.skip(1) =~= p.levels.skip(1));
            if spec_lookup_last(m, k) is Some {
                // the key was in the frozen table, so it lies inside
                // the new segment's range and the segment serves it
                lemma_lookup_in_range::<Comp>(m, k);
                assert(spec_in_range::<Comp>(tv, k));
                assert(level_lookup::<Comp>(l0q, k) == spec_lookup_last(m, k));
                assert(levels_lookup::<Comp>(q.levels, k) == spec_lookup_last(m, k));
                assert(raw_lookup::<Comp>(p, k) == spec_lookup_last(m, k));
            } else {
                // the frozen table misses the key; the new segment
                // misses it too and the scan falls through unchanged
                assert(level_lookup::<Comp>(l0q, k) == level_lookup::<Comp>(l0, k));
                assert(levels_lookup::<Comp>(q.levels, k) == levels_lookup::<Comp>(p.levels, k));
            }
        }
    }
}


/// A segment identity as the cache keys it.
pub open spec fn file_key(f: ScTableFile) -> crate::cache::SegmentKey {
    (f.origin_partition, f.origin_level, f.origin_number)
}

/// The cache agrees with this partition: whatever it holds for one of
/// the partition's segments is exactly the image persisted for it.
pub open spec fn cache_coherent(
    contents: Map<crate::cache::SegmentKey, Seq<u8>>,
    p: PartitionView,
) -> bool {
    forall|l: int, i: int|
        0 <= l < p.levels.len() && 0 <= i < p.levels[l].len() && contents.contains_key(
            file_key((#[trigger] p.levels[l][i]).file),
        ) ==> contents[file_key(p.levels[l][i].file)] == p.levels[l][i].bytes
}

/// A position in the level scan of a lookup.
#[derive(Clone, Copy, PartialEq, Eq, Structural, Debug)]
pub struct ReadCursor {
    pub level: usize,
    pub index: usize,
}

/// What one lookup step may report: the resolved result, or the
/// segment file that must be read before the lookup can go on.
pub enum LookupStep {
    Done(Option<Vec<u8>>),
    Fetch(ScTableFile, ReadCursor),
}

/// The lookup continued at the level-0 suffix of length `rem`, then
/// through the deeper levels.
pub open spec fn resume0<Comp: Comparator>(p: PartitionView, k: Seq<u8>, rem: int) -> Option<
    Seq<u8>,
> {
    if p.levels.len() == 0 {
        None::<Seq<u8>>
    } else if level_lookup::<Comp>(p.levels[0].take(rem), k) is Some {
        level_lookup::<Comp>(p.levels[0].take(rem), k)
    } else {
        levels_lookup::<Comp>(p.levels.skip(1), k)
    }
}

/// Where a lookup stands when it asks for the segment at `c`:
/// resolving that segment and continuing the scan behind it answers
/// the lookup.
pub open spec fn cursor_lookup<Comp: Comparator>(
    p: PartitionView,
    k: Seq<u8>,
    c: ReadCursor,
) -> Option<Seq<u8>>
    recommends
        c.level < p.levels.len(),
        c.index < p.levels[c.level as int].len(),
{
    if c.level == 0 {
        resume0::<Comp>(p, k, c.index + 1)
    } else if table_lookup(p.levels[c.level as int][c.index as int], k) is Some {
        table_lookup(p.levels[c.level as int][c.index as int], k)
    } else {
        levels_lookup::<Comp>(p.levels.skip(c.level + 1), k)
    }
}

/// A fetch request is meaningful: it points at a registered segment
/// whose range contains the key, and answering it continues the
/// lookup faithfully.
pub open spec fn cursor_valid<Comp: Comparator>(p: PartitionView, k: Seq<u8>, c: ReadCursor) -> bool {
    &&& c.level < p.levels.len()
    &&& c.index < p.levels[c.level as int].len()
    &&& spec_in_range::<Comp>(p.levels[c.level as int][c.index as int], k)
    &&& raw_lookup::<Comp>(p, k) == cursor_lookup::<Comp>(p, k, c)
}

/// A correct step: a resolved result is the partition's answer for the
/// key, and a fetch request is valid and names a segment the cache
/// does not hold.
pub open spec fn step_valid<Comp: Comparator>(
    p: PartitionView,
    contents: Map<crate::cache::SegmentKey, Seq<u8>>,
    k: Seq<u8>,
    step: LookupStep,
) -> bool {
    match step {
        LookupStep::Done(res) => match res {
            Some(v) => get_spec::<Comp>(p, k) == Some(v@),
            None => get_spec::<Comp>(p, k) is None,
        },
        LookupStep::Fetch(f, c) => {
            &&& cursor_valid::<Comp>(p, k, c)
            &&& f == p.levels[c.level as int][c.index as int].file
            &&& !contents.contains_key(file_key(f))
        },
    }
}

/// From `a <= b` and `b < c` conclude `a < c`.
proof fn lemma_le_lt_trans<Comp: Comparator>(a: Seq<u8>, b: Seq<u8>, c: Seq<u8>)
    requires
        !Comp::lt(b, a),
        Comp::lt(b, c),
    ensures
        Comp::lt(a, c),
{
    if a != b {
        Comp::lt_connected(a, b);
        if !Comp::lt(b, a) {
            Comp::lt_transitive(a, b, c);
        }
    }
}

/// From `a < b` and `b <= c` conclude `a < c`.
proof fn lemma_lt_le_trans<Comp: Comparator>(a: Seq<u8>, b: Seq<u8>, c: Seq<u8>)
    requires
        Comp::lt(a, b),
        !Comp::lt(c, b),
    ensures
        Comp::lt(a, c),
{
    if b != c {
        Comp::lt_connected(b, c);
        if !Comp::lt(c, b) {
            Comp::lt_transitive(a, b, c);
        }
    }
}

/// A level none of whose tables' ranges contain the key holds nothing
/// for it.
proof fn lemma_level_lookup_none<Comp: Comparator>(tables: Seq<TableView>, k: Seq<u8>)
    requires
        forall|j: int| 0 <= j < tables.len() ==> !spec_in_range::<Comp>(#[trigger] tables[j], k),
    ensures
        level_lookup::<Comp>(tables, k) is None,
    decreases tables.len(),
{
    if tables.len() > 0 {
        assert(!spec_in_range::<Comp>(tables[tables.len() - 1], k));
        lemma_level_lookup_none::<Comp>(tables.drop_last(), k);
    }
}

/// In a range-disjoint sorted level, only the one table whose range
/// contains the key can answer, so it decides the level's answer.
proof fn lemma_level_lookup_unique<Comp: Comparator>(tables: Seq<TableView>, k: Seq<u8>, j: int)
    requires
        forall|a: int, b: int|
            0 <= a < b < tables.len() ==> Comp::lt(
                (#[trigger] tables[a]).upper,
                (#[trigger] tables[b]).lower,
            ),
        0 <= j < tables.len(),
        spec_in_range::<Comp>(tables[j], k),
    ensures
        level_lookup::<Comp>(tables, k) == (if table_lookup(tables[j], k) is Some {
            table_lookup(tables[j], k)
        } else {
            None::<Seq<u8>>
        }),
    decreases tables.len(),
{
    let n = tables.len() - 1;
    assert forall|a: int| 0 <= a < tables.len() && a != j implies !spec_in_range::<Comp>(
        #[trigger] tables[a],
        k,
    ) by {
        if a < j {
            assert(Comp::lt(tables[a].upper, tables[j].lower));
            lemma_lt_le_trans::<Comp>(tables[a].upper, tables[j].lower, k);
            if !Comp::lt(tables[a].upper, k) {
                Comp::lt_asymmetric(tables[a].upper, k);
            }
        } else {
            assert(Comp::lt(tables[j].upper, tables[a].lower));
            lemma_le_lt_trans::<Comp>(k, tables[j].upper, tables[a].lower);
            if !Comp::lt(k, tables[a].lower) {
                Comp::lt_asymmetric(k, tables[a].lower);
            }
        }
    }
    if j == n {
        if table_lookup(tables[j], k) is Some {
        } else {
            assert forall|a: int| 0 <= a < tables.drop_last().len() implies !spec_in_range::<
                Comp,
            >(#[trigger] tables.drop_last()[a], k) by {
                assert(tables.drop_last()[a] == tables[a]);
            }
            lemma_level_lookup_none::<Comp>(tables.drop_last(), k);
        }
    } else {
        assert(tables.last() == tables[n]);
        assert(!spec_in_range::<Comp>(tables.last(), k));
        assert forall|a: int, b: int|
            0 <= a < b < tables.drop_last().len() implies Comp::lt(
            (#[trigger] tables.drop_last()[a]).upper,
            (#[trigger] tables.drop_last()[b]).lower,
        ) by {
            assert(tables.drop_last()[a] == tables[a]);
            assert(tables.drop_last()[b] == tables[b]);
        }
        assert(tables.drop_last()[j] == tables[j]);
        lemma_level_lookup_unique::<Comp>(tables.drop_last(), k, j);
    }
}

impl PartitionData {
    /// The raw stored value of the mutable table for a key.
    fn mem_get(&self, key: &[u8]) -> (r: Option<&Vec<u8>>)
        ensures
            match r {
                Some(v) => spec_lookup_last(self.mem(), key@) == Some(v@),
                None => spec_lookup_last(self.mem(), key@) is None,
            },
    {
        self.mem_table.get(key)
    }

    /// The raw stored value of the frozen table for a key.
    fn imm_get(&self, key: &[u8]) -> (r: Option<&Vec<u8>>)
        requires
            self.imm() is Some,
        ensures
            match r {
                Some(v) => spec_lookup_last(self.imm().unwrap(), key@) == Some(v@),
                None => spec_lookup_last(self.imm().unwrap(), key@) is None,
            },
    {
        self.imm_table.as_ref().unwrap().get(key)
    }

    /// The number of tables in level `l`.
    fn level_len(&self, l: usize) -> (r: usize)
        requires
            l < self.levels_view().len(),
        ensures
            r == self.levels_view()[l as int].len(),
    {
        self.levels[l].len()
    }

    /// The table at position `i` of level `l`.
    fn table_at(&self, l: usize, i: usize) -> (r: &Table)
        requires
            l < self.levels_view().len(),
            i < self.levels_view()[l as int].len(),
        ensures
            r@ == self.levels_view()[l as int][i as int],
    {
        self.levels[l].nth(i)
    }
}

impl<Comp: Comparator> Partition<Comp> {
    /// Begins a point lookup.  A key outside the partition bounds
    /// resolves to absent at once, without consulting any table.  A
    /// key found in the mutable or frozen table resolves directly; an
    /// empty stored value is a tombstone and resolves to absent.
    /// Otherwise the level scan starts, served from the shared cache
    /// where possible, and reports the first segment file it needs.
    pub fn get_start(&self, cache_manager: &mut TableCacheManager, key: &[u8]) -> (r: LookupStep)
        requires
            self.wf(),
            old(cache_manager).wf(),
        ensures
            final(cache_manager).wf(),
            final(cache_manager).contents() == old(cache_manager).contents(),
            final(cache_manager).spec_outstanding() == old(cache_manager).spec_outstanding(),
            final(cache_manager).spec_cache_count() == old(cache_manager).spec_cache_count(),
            !in_bounds::<Comp>(self@, key@) ==> r == LookupStep::Done(None::<Vec<u8>>),
            cache_coherent(old(cache_manager).contents(), self@) ==> step_valid::<Comp>(
                self@,
                final(cache_manager).contents(),
                key@,
                r,
            ),
    {
        let (lo, hi) = self.data.bounds();
        let lo = match lo {
            Some(l) => l,
            None => {
                return LookupStep::Done(None);
            },
        };
        let hi = match hi {
            Some(u) => u,
            None => {
                return LookupStep::Done(None);
            },
        };
        let cl = Comp::compare(key, lo.key());
        if matches!(cl, core::cmp::Ordering::Less) {
            return LookupStep::Done(None);
        }
        let cu = Comp::compare(key, hi.key());
        if matches!(cu, core::cmp::Ordering::Greater) {
            return LookupStep::Done(None);
        }
        assert(in_bounds::<Comp>(self@, key@));
        if let Some(v) = self.data.mem_get(key) {
            if v.len() == 0 {
                return LookupStep::Done(None);
            }
            return LookupStep::Done(Some(v.clone()));
        }
        if self.data.has_imm() {
            if let Some(v) = self.data.imm_get(key) {
                if v.len() == 0 {
                    return LookupStep::Done(None);
                }
                return LookupStep::Done(Some(v.clone()));
            }
        }
        let rem: usize = if self.data.level_count() == 0 {
            0
        } else {
            self.data.level_len(0)
        };
        proof {
            if self@.levels.len() > 0 {
                assert(self@.levels[0].take(rem as int) =~= self@.levels[0]);
                assert(raw_lookup::<Comp>(self@, key@) == levels_lookup::<Comp>(
                    self@.levels,
                    key@,
                ));
            }
        }
        self.advance0(cache_manager, key, rem)
    }

    /// Continues the level-0 scan with `rem` tables still unexamined,
    /// falling through to the deeper levels.
    #[verifier::loop_isolation(false)]
    fn advance0(&self, cache_manager: &mut TableCacheManager, key: &[u8], rem: usize) -> (r:
        LookupStep)
        requires
            self.wf(),
            old(cache_manager).wf(),
            self@.levels.len() > 0 ==> rem <= self@.levels[0].len(),
            self@.levels.len() == 0 ==> rem == 0,
        ensures
            final(cache_manager).wf(),
            final(cache_manager).contents() == old(cache_manager).contents(),
            final(cache_manager).spec_outstanding() == old(cache_manager).spec_outstanding(),
            final(cache_manager).spec_cache_count() == old(cache_manager).spec_cache_count(),
            (cache_coherent(old(cache_manager).contents(), self@) && raw_lookup::<Comp>(
                self@,
                key@,
            ) == resume0::<Comp>(self@, key@, rem as int)) ==> step_valid::<Comp>(
                self@,
                final(cache_manager).contents(),
                key@,
                r,
            ),
    {
        let ghost p = self@;
        let ghost coh = cache_coherent(old(cache_manager).contents(), p);
        let ghost ctx0 = raw_lookup::<Comp>(p, key@) == resume0::<Comp>(p, key@, rem as int);
        let mut i: usize = rem;
        while i > 0
            invariant
                i <= rem,
                cache_manager.wf(),
                cache_manager.contents() == old(cache_manager).contents(),
                cache_manager.spec_outstanding() == old(cache_manager).spec_outstanding(),
                cache_manager.spec_cache_count() == old(cache_manager).spec_cache_count(),
                (coh && ctx0) ==> raw_lookup::<Comp>(p, key@) == resume0::<Comp>(
                    p,
                    key@,
                    i as int,
                ),
            decreases i,
        {
            let t = self.data.table_at(0, i - 1);
            let ghost tv = p.levels[0][i - 1];
            proof {
                assert(table_wf::<Comp>(tv));
                assert(p.levels[0].take(i as int).last() == tv);
                assert(p.levels[0].take(i as int).drop_last() =~= p.levels[0].take(i - 1));
            }
            let ck = t.cmp_key::<Comp>(key);
            if matches!(ck, core::cmp::Ordering::Equal) {
                // the table's range contains the key
                let st = match t {
                    Table::Full(st) => st,
                    Table::Split(_) => {
                        proof {
                            assert(false);
                        }
                        vstd::pervasive::unreached()
                    },
                };
                let file = st.table_file();
                match cache_manager.get_cache(file) {
                    Some(seg) => {
                        proof {
                            use_type_invariant(seg);
                            seg.properties();
                        }
                        let res = seg.get::<Comp>(key);
                        proof {
                            if coh && ctx0 {
                                assert(seg.raw() == tv.bytes);
                                assert(seg.entries() == spec_table_entries(tv.bytes));
                                assert(spec_entries_sorted::<Comp>(seg.entries()));
                            }
                        }
                        match res {
                            Some(v) => {
                                proof {
                                    if coh && ctx0 {
                                        assert(table_lookup(tv, key@) == Some(v@));
                                        assert(raw_lookup::<Comp>(p, key@) == Some(v@));
                                    }
                                }
                                if v.len() == 0 {
                                    return LookupStep::Done(None);
                                }
                                return LookupStep::Done(Some(v));
                            },
                            None => {
                                proof {
                                    if coh && ctx0 {
                                        assert(table_lookup(tv, key@) is None);
                                        assert(level_lookup::<Comp>(
                                            p.levels[0].take(i as int),
                                            key@,
                                        ) == level_lookup::<Comp>(
                                            p.levels[0].take(i - 1),
                                            key@,
                                        ));
                                    }
                                }
                            },
                        }
                    },
                    None => {
                        proof {
                            if coh && ctx0 {
                                assert(cursor_valid::<Comp>(
                                    p,
                                    key@,
                                    ReadCursor { level: 0, index: (i - 1) as usize },
                                ));
                            }
                        }
                        return LookupStep::Fetch(
                            file,
                            ReadCursor { level: 0, index: i - 1 },
                        );
                    },
                }
            } else {
                proof {
                    if coh && ctx0 {
                        assert(!spec_in_range::<Comp>(tv, key@));
                        assert(level_lookup::<Comp>(p.levels[0].take(i as int), key@)
                            == level_lookup::<Comp>(p.levels[0].take(i - 1), key@));
                    }
                }
            }
            i = i - 1;
        }
        if self.data.level_count() == 0 {
            proof {
                if coh && ctx0 {
                    assert(raw_lookup::<Comp>(p, key@) is None);
                }
            }
            return LookupStep::Done(None);
        }
        proof {
            if coh && ctx0 {
                assert(p.levels[0].take(0) =~= Seq::<TableView>::empty());
                assert(level_lookup::<Comp>(p.levels[0].take(0), key@) is None);
                assert(raw_lookup::<Comp>(p, key@) == levels_lookup::<Comp>(
                    p.levels.skip(1),
                    key@,
                ));
            }
        }
        self.advance_deep(cache_manager, key, 1)
    }

    /// Continues the scan through the deeper, range-disjoint levels,
    /// starting at level `from`.
    #[verifier::loop_isolation(false)]
    #[verifier::rlimit(100)]
    fn advance_deep(&self, cache_manager: &mut TableCacheManager, key: &[u8], from: usize) -> (r:
        LookupStep)
        requires
            self.wf(),
            old(cache_manager).wf(),
            1 <= from <= self@.levels.len(),
        ensures
            final(cache_manager).wf(),
            final(cache_manager).contents() == old(cache_manager).contents(),
            final(cache_manager).spec_outstanding() == old(cache_manager).spec_outstanding(),
            final(cache_manager).spec_cache_count() == old(cache_manager).spec_cache_count(),
            (cache_coherent(old(cache_manager).contents(), self@) && raw_lookup::<Comp>(
                self@,
                key@,
            ) == levels_lookup::<Comp>(self@.levels.skip(from as int), key@)) ==> step_valid::<
                Comp,
            >(self@, final(cache_manager).contents(), key@, r),
    {
        let ghost p = self@;
        let ghost coh = cache_coherent(old(cache_manager).contents(), p);
        let ghost ctx0 = raw_lookup::<Comp>(p, key@) == levels_lookup::<Comp>(
            p.levels.skip(from as int),
            key@,
        );
        let n_levels = self.data.level_count();
        let mut l: usize = from;
        while l < n_levels
            invariant
                from <= l <= n_levels,
                cache_manager.wf(),
                cache_manager.contents() == old(cache_manager).contents(),
                cache_manager.spec_outstanding() == old(cache_manager).spec_outstanding(),
                cache_manager.spec_cache_count() == old(cache_manager).spec_cache_count(),
                (coh && ctx0) ==> raw_lookup::<Comp>(p, key@) == levels_lookup::<Comp>(
                    p.levels.skip(l as int),
                    key@,
                ),
            decreases n_levels - l,
        {
            proof {
                assert(p.levels.skip(l as int)[0] == p.levels[l as int]);
                assert(p.levels.skip(l as int).skip(1) =~= p.levels.skip(l + 1));
            }
            let found = self.level_find(key, l);
            match found {
                Some(j) => {
                    let ghost tv = p.levels[l as int][j as int];
                    proof {
                        assert(table_wf::<Comp>(tv));
                        lemma_level_lookup_unique::<Comp>(p.levels[l as int], key@, j as int);
                    }
                    let t = self.data.table_at(l, j);
                    let st = match t {
                        Table::Full(st) => st,
                        Table::Split(_) => {
                            proof {
                                assert(false);
                            }
                            vstd::pervasive::unreached()
                        },
                    };
                    let file = st.table_file();
                    match cache_manager.get_cache(file) {
                        Some(seg) => {
                            proof {
                                use_type_invariant(seg);
                                seg.properties();
                            }
                            let res = seg.get::<Comp>(key);
                            proof {
                                if coh && ctx0 {
                                    assert(seg.raw() == tv.bytes);
                                    assert(spec_entries_sorted::<Comp>(seg.entries()));
                                }
                            }
                            match res {
                                Some(v) => {
                                    proof {
                                        if coh && ctx0 {
                                            assert(raw_lookup::<Comp>(p, key@) == Some(v@));
                                        }
                                    }
                                    if v.len() == 0 {
                                        return LookupStep::Done(None);
                                    }
                                    return LookupStep::Done(Some(v));
                                },
                                None => {},
                            }
                        },
                        None => {
                            proof {
                                if coh && ctx0 {
                                    assert(cursor_valid::<Comp>(
                                        p,
                                        key@,
                                        ReadCursor { level: l, index: j },
                                    ));
                                }
                            }
                            return LookupStep::Fetch(file, ReadCursor { level: l, index: j });
                        },
                    }
                },
                None => {
                    proof {
                        if coh && ctx0 {
                            lemma_level_lookup_none::<Comp>(p.levels[l as int], key@);
                        }
                    }
                },
            }
            l = l + 1;
        }
        proof {
            if coh && ctx0 {
                assert(p.levels.skip(l as int) =~= Seq::<Seq<TableView>>::empty());
            }
        }
        LookupStep::Done(None)
    }

    /// Binary search over a deep level for the single table whose range
    /// contains the key.
    #[verifier::loop_isolation(false)]
    fn level_find(&self, key: &[u8], l: usize) -> (r: Option<usize>)
        requires
            self.wf(),
            1 <= l < self@.levels.len(),
        ensures
            match r {
                Some(j) => j < self@.levels[l as int].len() && spec_in_range::<Comp>(
                    self@.levels[l as int][j as int],
                    key@,
                ),
                None => forall|j: int|
                    0 <= j < self@.levels[l as int].len() ==> !spec_in_range::<Comp>(
                        #[trigger] self@.levels[l as int][j],
                        key@,
                    ),
            },
    {
        let ghost tables = self@.levels[l as int];
        let n = self.data.level_len(l);
        let mut lo: usize = 0;
        let mut hi: usize = n;
        while lo < hi
            invariant
                0 <= lo <= hi <= n,
                forall|j: int| 0 <= j < lo ==> Comp::lt((#[trigger] tables[j]).upper, key@),
                forall|j: int| hi <= j < n ==> Comp::lt(key@, (#[trigger] tables[j]).lower),
            decreases hi - lo,
        {
            let mid = lo + (hi - lo) / 2;
            let t = self.data.table_at(l, mid);
            let ghost tv = tables[mid as int];
            proof {
                assert(table_wf::<Comp>(tv));
            }
            let ck = t.cmp_key::<Comp>(key);
            if matches!(ck, core::cmp::Ordering::Less) {
                // key below this table's range: everything at or after
                // mid starts even higher
                proof {
                    assert forall|j: int| mid <= j < n implies Comp::lt(
                        key@,
                        (#[trigger] tables[j]).lower,
                    ) by {
                        if j > mid {
                            assert(Comp::lt(tv.upper, tables[j].lower));
                            assert(!Comp::lt(tv.upper, tv.lower));
                            lemma_le_lt_trans::<Comp>(tv.lower, tv.upper, tables[j].lower);
                            Comp::lt_transitive(key@, tv.lower, tables[j].lower);
                        }
                    }
                }
                hi = mid;
            } else if matches!(ck, core::cmp::Ordering::Greater) {
                // key above this table's range: everything at or
                // before mid ends even lower
                proof {
                    assert forall|j: int| 0 <= j <= mid implies Comp::lt(
                        (#[trigger] tables[j]).upper,
                        key@,
                    ) by {
                        if j < mid {
                            assert(Comp::lt(tables[j].upper, tv.lower));
                            assert(!Comp::lt(tv.upper, tv.lower));
                            lemma_lt_le_trans::<Comp>(tables[j].upper, tv.lower, tv.upper);
                            Comp::lt_transitive(tables[j].upper, tv.upper, key@);
                        }
                    }
                }
                lo = mid + 1;
            } else {
                proof {
                    assert(spec_in_range::<Comp>(tv, key@));
                }
                return Some(mid);
            }
        }
        proof {
            assert forall|j: int| 0 <= j < n implies !spec_in_range::<Comp>(
                #[trigger] tables[j],
                key@,
            ) by {
                if j < lo {
                    if !Comp::lt(tables[j].upper, key@) {
                    } else {
                        Comp::lt_asymmetric(tables[j].upper, key@);
                    }
                } else {
                    Comp::lt_asymmetric(key@, tables[j].lower);
                }
            }
        }
        None
    }

    /// Resumes a lookup with the raw bytes of the requested segment
    /// and a cache permit for its parse.  A corrupt image is reported
    /// as such; a valid image is parsed, registered in the shared
    /// cache, and the scan continues behind it.
    pub fn get_resume(
        &self,
        cache_manager: &mut TableCacheManager,
        key: &[u8],
        cursor: ReadCursor,
        raw: &[u8],
        quota: CacheQuota,
    ) -> (r: Result<LookupStep, Error>)
        requires
            self.wf(),
            old(cache_manager).wf(),
            cursor.level < self@.levels.len(),
            cursor.index < self@.levels[cursor.level as int].len(),
        ensures
            final(cache_manager).wf(),
            final(cache_manager).spec_cache_count() == old(cache_manager).spec_cache_count(),
            final(cache_manager).spec_outstanding() <= old(cache_manager).spec_outstanding(),
            ({
                let p = self@;
                let tv = p.levels[cursor.level as int][cursor.index as int];
                match r {
                    Err(e) => {
                        &&& !spec_valid_table(raw@)
                        &&& e.is_sc_table_corrupt()
                        &&& final(cache_manager).contents() == old(cache_manager).contents()
                    },
                    Ok(step) => {
                        &&& spec_valid_table(raw@)
                        &&& ((cache_coherent(old(cache_manager).contents(), p) && cursor_valid::<
                            Comp,
                        >(p, key@, cursor) && raw@ == tv.bytes) ==> (cache_coherent(
                            final(cache_manager).contents(),
                            p,
                        ) && step_valid::<Comp>(
                            p,
                            final(cache_manager).contents(),
                            key@,
                            step,
                        )))
                    },
                }
            }),
    {
        let ghost p = self@;
        let ghost tv = p.levels[cursor.level as int][cursor.index as int];
        let seg = match ScTableCache::from_raw(raw, quota) {
            Ok(seg) => seg,
            Err(e) => {
                return Err(e);
            },
        };
        proof {
            use_type_invariant(&seg);
            seg.properties();
        }
        let res = seg.get::<Comp>(key);
        let t = self.data.table_at(cursor.level, cursor.index);
        let st = match t {
            Table::Full(st) => st,
            Table::Split(_) => {
                proof {
                    assert(table_wf::<Comp>(tv));
                    assert(false);
                }
                vstd::pervasive::unreached()
            },
        };
        let file = st.table_file();
        cache_manager.add_cache(file, seg);
        let ghost honest = cache_coherent(old(cache_manager).contents(), p) && cursor_valid::<
            Comp,
        >(p, key@, cursor) && raw@ == tv.bytes;
        proof {
            if honest {
                assert(table_wf::<Comp>(tv));
                assert(cache_manager.contents()[file_key(tv.file)] == tv.bytes);
                assert forall|l2: int, i2: int|
                    0 <= l2 < p.levels.len() && 0 <= i2 < p.levels[l2].len()
                        && cache_manager.contents().contains_key(
                        file_key((#[trigger] p.levels[l2][i2]).file),
                    ) implies cache_manager.contents()[file_key(p.levels[l2][i2].file)]
                    == p.levels[l2][i2].bytes by {
                    let x = p.levels[l2][i2];
                    if file_key(x.file) == file_key(tv.file) {
                        // distinct registered segments carry distinct
                        // identities, so this is the fetched table
                        assert(x.file.origin_level == l2);
                        assert(tv.file.origin_level == cursor.level as int);
                        assert(l2 == cursor.level as int);
                        if i2 != cursor.index as int {
                            if i2 < cursor.index as int {
                                assert(x.file.origin_number
                                    < tv.file.origin_number);
                            } else {
                                assert(tv.file.origin_number
                                    < x.file.origin_number);
                            }
                        }
                        assert(x == tv);
                    } else {
                        assert(file == tv.file);
                        assert(file_key(x.file) != (
                            file.origin_partition,
                            file.origin_level,
                            file.origin_number,
                        ));
                        assert(cache_manager.contents().contains_key(file_key(x.file)));
                        assert(old(cache_manager).contents().contains_key(file_key(x.file))
                            && cache_manager.contents()[file_key(x.file)] == old(
                            cache_manager,
                        ).contents()[file_key(x.file)]);
                    }
                }
                assert(cache_coherent(cache_manager.contents(), p));
                assert(spec_entries_sorted::<Comp>(spec_table_entries(raw@)));
            }
        }
        match res {
            Some(v) => {
                proof {
                    if honest {
                        assert(table_lookup(tv, key@) == Some(v@));
                        assert(raw_lookup::<Comp>(p, key@) == Some(v@)) by {
                            if cursor.level == 0 {
                                assert(p.levels[0].take(cursor.index + 1).last() == tv);
                            }
                        }
                    }
                }
                if v.len() == 0 {
                    return Ok(LookupStep::Done(None));
                }
                Ok(LookupStep::Done(Some(v)))
            },
            None => {
                proof {
                    if honest {
                        assert(table_lookup(tv, key@) is None);
                    }
                }
                if cursor.level == 0 {
                    proof {
                        if honest {
                            assert(p.levels[0].take(cursor.index + 1).last() == tv);
                            assert(p.levels[0].take(cursor.index + 1).drop_last() =~= p.levels[0]
                                .take(cursor.index as int));
                            assert(raw_lookup::<Comp>(p, key@) == resume0::<Comp>(
                                p,
                                key@,
                                cursor.index as int,
                            ));
                        }
                    }
                    Ok(self.advance0(cache_manager, key, cursor.index))
                } else {
                    let n_levels = self.data.level_count();
                    proof {
                        if honest {
                            assert(raw_lookup::<Comp>(p, key@) == levels_lookup::<Comp>(
                                p.levels.skip(cursor.level + 1),
                                key@,
                            ));
                        }
                    }
                    Ok(self.advance_deep(cache_manager, key, cursor.level + 1))
                }
            },
        }
    }
}


/// After a write of an entry whose sequence number is at least that of
/// every stored entry with its key, reading the key back before any
/// flush returns the written value; a zero-length value reads back as
/// absent: it is a tombstone.
pub proof fn lemma_write_then_get<Comp: Comparator>(p: PartitionView, e: KvEntry)
    requires
        forall|j: int|
            0 <= j < p.mem.len() && (#[trigger] p.mem[j]).key == e.key ==> p.mem[j].seq <= e.seq,
    ensures
        ({
            let q = PartitionView {
                mem: mt_insert::<Comp>(p.mem, e),
                lower: spec_lower_after::<Comp>(p.lower, e.key),
                upper: spec_upper_after::<Comp>(p.upper, e.key),
                ..p
            };
            get_spec::<Comp>(q, e.key) == (if e.value.len() > 0 {
                Some(e.value)
            } else {
                None::<Seq<u8>>
            })
        }),
{
    let q = PartitionView {
        mem: mt_insert::<Comp>(p.mem, e),
        lower: spec_lower_after::<Comp>(p.lower, e.key),
        upper: spec_upper_after::<Comp>(p.upper, e.key),
        ..p
    };
    crate::memtable::lemma_insert_then_lookup::<Comp>(p.mem, e);
    lemma_lt_irrefl::<Comp>(e.key);
    assert(in_bounds::<Comp>(q, e.key));
    assert(raw_lookup::<Comp>(q, e.key) == Some(e.value));
}

/// The three-outcome comparison of two partitions' key ranges: they
/// are ordered only when range-disjoint, and never equal.
pub enum RangeOrdering {
    Before,
    After,
    Overlapping,
}

impl<Comp: Comparator> Partition<Comp> {
    /// Compares this partition's key range against another's: `Before`
    /// when it ends below the other's start, `After` when it starts
    /// above the other's end, `Overlapping` otherwise.
    pub fn range_cmp(&self, other: &Partition<Comp>) -> (r: RangeOrdering)
        requires
            self@.lower is Some,
            self@.upper is Some,
            other@.lower is Some,
            other@.upper is Some,
        ensures
            (r == RangeOrdering::Before <==> Comp::lt(
                self@.upper.unwrap(),
                other@.lower.unwrap(),
            )),
            (r == RangeOrdering::After <==> (!Comp::lt(self@.upper.unwrap(), other@.lower.unwrap())
                && Comp::lt(other@.upper.unwrap(), self@.lower.unwrap()))),
            (r == RangeOrdering::Overlapping <==> (!Comp::lt(
                self@.upper.unwrap(),
                other@.lower.unwrap(),
            ) && !Comp::lt(other@.upper.unwrap(), self@.lower.unwrap()))),
    {
        let (self_lower, self_upper) = self.data.bounds();
        let (other_lower, other_upper) = other.data.bounds();
        let c1 = Comp::compare(self_upper.unwrap().key(), other_lower.unwrap().key());
        if matches!(c1, core::cmp::Ordering::Less) {
            return RangeOrdering::Before;
        }
        let c2 = Comp::compare(other_upper.unwrap().key(), self_lower.unwrap().key());
        if matches!(c2, core::cmp::Ordering::Less) {
            return RangeOrdering::After;
        }
        RangeOrdering::Overlapping
    }
}

} // verus!
