//! Keys and the in-memory sorted table.
//!
//! A memtable holds (sequence, key, value) entries sorted by key first
//! and sequence number second, so that a frozen table streams into a
//! segment builder in ascending key order and a point lookup returns the
//! entry with the highest sequence number for a key: the latest write
//! wins.

use vstd::prelude::*;

use crate::tablefmt::KvEntry;
use crate::Comparator;

verus! {

/// Whether two byte strings hold the same bytes.
pub fn bytes_eq(a: &[u8], b: &[u8]) -> (r: bool)
    ensures
        r <==> a@ == b@,
{
    let a_len: usize = a.len();
    let b_len: usize = b.len();
    if a_len != b_len {
        return false;
    }
    let mut i: usize = 0;
    while i < a_len
        invariant
            0 <= i <= a_len,
            a_len == a@.len(),
            a_len == b@.len(),
            forall|j: int| 0 <= j < i ==> a@[j] == b@[j],
        decreases a_len - i,
    {
        if a[i] != b[i] {
            return false;
        }
        i = i + 1;
    }
    proof {
        assert(a@ =~= b@);
    }
    true
}

/// A user-visible key, held as owned bytes.  Transient lookup keys are
/// passed as plain borrowed slices instead, so the borrow checker
/// guarantees the referent outlives every use.
pub enum UserKey {
    Owned(Vec<u8>),
}

impl View for UserKey {
    type V = Seq<u8>;

    open spec fn view(&self) -> Seq<u8> {
        match self {
            UserKey::Owned(v) => v@,
        }
    }
}

impl Clone for UserKey {
    fn clone(&self) -> (r: UserKey)
        ensures
            r@ == self@,
    {
        match self {
            UserKey::Owned(v) => UserKey::Owned(v.clone()),
        }
    }
}

impl UserKey {
    pub fn new_owned(vec: Vec<u8>) -> (r: UserKey)
        ensures
            r@ == vec@,
    {
        UserKey::Owned(vec)
    }

    /// Whether this key owns its bytes.
    pub fn is_owned(&self) -> (r: bool)
        ensures
            r,
    {
        match self {
            UserKey::Owned(_) => true,
        }
    }

    /// The key bytes.
    pub fn key(&self) -> (r: &[u8])
        ensures
            r@ == self@,
    {
        match self {
            UserKey::Owned(v) => v.as_slice(),
        }
    }
}

/// A user key tagged with the monotonically assigned sequence number of
/// its write.
pub struct InternalKey {
    pub seq: u64,
    pub user_key: UserKey,
}

impl InternalKey {
    pub fn new(seq: u64, user_key: UserKey) -> (r: InternalKey)
        ensures
            r.seq == seq,
            r.user_key == user_key,
    {
        InternalKey { seq, user_key }
    }
}

/// The order of memtable entries: by key in `Comp`'s order first, then
/// by sequence number.
pub open spec fn mt_entry_lt<Comp: Comparator>(a: KvEntry, b: KvEntry) -> bool {
    Comp::lt(a.key, b.key) || (a.key == b.key && a.seq < b.seq)
}

/// Strictly sorted: no two entries share a (key, sequence) pair.
pub open spec fn mt_sorted<Comp: Comparator>(es: Seq<KvEntry>) -> bool {
    forall|i: int, j: int|
        0 <= i < j < es.len() ==> mt_entry_lt::<Comp>(#[trigger] es[i], #[trigger] es[j])
}

/// Any two entries are ordered one way or the other, unless they carry
/// the same key and sequence number.
pub proof fn lemma_mt_entry_trichotomy<Comp: Comparator>(a: KvEntry, b: KvEntry)
    ensures
        mt_entry_lt::<Comp>(a, b) || mt_entry_lt::<Comp>(b, a) || (a.key == b.key && a.seq
            == b.seq),
{
    if a.key != b.key {
        Comp::lt_connected(a.key, b.key);
    }
}

/// Where an entry lands in a sorted sequence: entries smaller than `e`
/// keep their place, `e` replaces an entry with its (key, sequence) pair
/// or is inserted before the rest.
pub open spec fn mt_insert<Comp: Comparator>(es: Seq<KvEntry>, e: KvEntry) -> Seq<KvEntry>
    decreases es.len(),
{
    if es.len() == 0 {
        seq![e]
    } else if mt_entry_lt::<Comp>(es.last(), e) {
        es.push(e)
    } else if es.last().key == e.key && es.last().seq == e.seq {
        es.drop_last().push(e)
    } else {
        mt_insert::<Comp>(es.drop_last(), e).push(es.last())
    }
}

/// The total footprint of the entries' key and value bytes.
pub open spec fn entries_data_size(es: Seq<KvEntry>) -> int
    decreases es.len(),
{
    if es.len() == 0 {
        0
    } else {
        entries_data_size(es.drop_last()) + es.last().key.len() + es.last().value.len()
    }
}

/// One entry of the in-memory table.
pub struct MemEntry {
    pub key: InternalKey,
    pub value: Vec<u8>,
}

/// The mutable in-memory sorted table.
pub struct MemTable {
    entries: Vec<MemEntry>,
    data_size: usize,
}

impl MemTable {
    /// The stored entries, in order.
    pub closed spec fn entries(&self) -> Seq<KvEntry> {
        self.entries@.map(
            |i: int, e: MemEntry|
                KvEntry { seq: e.key.seq, key: e.key.user_key@, value: e.value@ },
        )
    }

    /// The tracked byte footprint.
    pub closed spec fn spec_data_size(&self) -> int {
        self.data_size as int
    }

    /// The tracked byte footprint matches the entries, and the entries
    /// are sorted in `Comp`'s order.
    pub open spec fn wf<Comp: Comparator>(&self) -> bool {
        &&& mt_sorted::<Comp>(self.entries())
        &&& self.spec_data_size() == entries_data_size(self.entries())
    }

    pub fn new() -> (r: MemTable)
        ensures
            r.entries() == Seq::<KvEntry>::empty(),
            r.spec_data_size() == 0,
    {
        let r = MemTable { entries: Vec::new(), data_size: 0 };
        proof {
            assert(r.entries() =~= Seq::<KvEntry>::empty());
        }
        r
    }

    pub fn len(&self) -> (r: usize)
        ensures
            r == self.entries().len(),
    {
        self.entries.len()
    }

    pub fn is_empty(&self) -> (r: bool)
        ensures
            r <==> self.entries().len() == 0,
    {
        self.entries.len() == 0
    }

    /// The total footprint of the stored key and value bytes.
    pub fn data_size(&self) -> (r: usize)
        ensures
            r == self.spec_data_size(),
    {
        self.data_size
    }

    /// The `i`-th entry, in sorted order.
    pub fn nth(&self, i: usize) -> (r: (&InternalKey, &Vec<u8>))
        requires
            i < self.entries().len(),
        ensures
            r.0.seq == self.entries()[i as int].seq,
            r.0.user_key@ == self.entries()[i as int].key,
            r.1@ == self.entries()[i as int].value,
    {
        let e = &self.entries[i];
        (&e.key, &e.value)
    }

    /// The value of the entry with key `key` and the highest sequence
    /// number, if any entry has that key.
    pub fn get(&self, key: &[u8]) -> (r: Option<&Vec<u8>>)
        ensures
            match r {
                Some(v) => crate::tablefmt::spec_lookup_last(self.entries(), key@) == Some(v@),
                None => crate::tablefmt::spec_lookup_last(self.entries(), key@) == None::<Seq<u8>>,
            },
    {
        let mut i: usize = self.entries.len();
        proof {
            assert(self.entries().take(i as int) =~= self.entries());
        }
        while i > 0
            invariant
                0 <= i <= self.entries().len(),
                self.entries().len() == self.entries@.len(),
                crate::tablefmt::spec_lookup_last(self.entries(), key@)
                    == crate::tablefmt::spec_lookup_last(
                    self.entries().take(i as int),
                    key@,
                ),
            decreases i,
        {
            proof {
                assert(self.entries().take(i as int).last() == self.entries()[i - 1]);
                assert(self.entries().take(i as int).drop_last() =~= self.entries().take(i - 1));
            }
            let e = &self.entries[i - 1];
            proof {
                assert(self.entries()[i - 1] == (KvEntry {
                    seq: self.entries@[i - 1].key.seq,
                    key: self.entries@[i - 1].key.user_key@,
                    value: self.entries@[i - 1].value@,
                }));
            }
            if bytes_eq(e.key.user_key.key(), key) {
                return Some(&e.value);
            }
            i = i - 1;
        }
        proof {
            assert(self.entries().take(0) =~= Seq::<KvEntry>::empty());
        }
        None
    }

    /// Inserts an entry, replacing the stored value when an entry with
    /// the same key and sequence number exists.
    pub fn put<Comp: Comparator>(&mut self, key: InternalKey, value: Vec<u8>)
        requires
            old(self).wf::<Comp>(),
            old(self).spec_data_size() + key.user_key@.len() + value@.len() <= usize::MAX,
        ensures
            final(self).wf::<Comp>(),
            final(self).entries() == mt_insert::<Comp>(
                old(self).entries(),
                KvEntry { seq: key.seq, key: key.user_key@, value: value@ },
            ),
            final(self).spec_data_size() <= old(self).spec_data_size() + key.user_key@.len()
                + value@.len(),
            final(self).entries().len() <= old(self).entries().len() + 1,
    {
        let ghost e = KvEntry { seq: key.seq, key: key.user_key@, value: value@ };
        let ghost es0 = self.entries();
        let mut i: usize = self.entries.len();
        proof {
            assert(es0.take(i as int) =~= es0);
            assert(es0.skip(i as int) =~= Seq::<KvEntry>::empty());
            assert(mt_insert::<Comp>(es0.take(i as int), e) + es0.skip(i as int) =~= mt_insert::<
                Comp,
            >(es0, e));
        }
        loop
            invariant_except_break
                *self == *old(self),
            invariant
                0 <= i <= self.entries@.len(),
                self.wf::<Comp>(),
                es0 == self.entries(),
                e == (KvEntry { seq: key.seq, key: key.user_key@, value: value@ }),
                self.spec_data_size() + key.user_key@.len() + value@.len() <= usize::MAX,
                mt_insert::<Comp>(es0, e) == mt_insert::<Comp>(es0.take(i as int), e) + es0.skip(
                    i as int,
                ),
                forall|j: int|
                    i <= j < es0.len() ==> mt_entry_lt::<Comp>(e, #[trigger] es0[j]),
            ensures
                0 <= i <= es0.len(),
                *self == *old(self),
                mt_insert::<Comp>(es0, e) == mt_insert::<Comp>(es0.take(i as int), e) + es0.skip(
                    i as int,
                ),
                i > 0 ==> mt_entry_lt::<Comp>(es0[i - 1], e),
                forall|j: int|
                    i <= j < es0.len() ==> mt_entry_lt::<Comp>(e, #[trigger] es0[j]),
            decreases i,
        {
            if i == 0 {
                break;
            }
            proof {
                assert(es0.take(i as int).last() == es0[i - 1]);
                assert(es0.take(i as int).drop_last() =~= es0.take(i - 1));
            }
            let prev = &self.entries[i - 1];
            proof {
                assert(es0[i - 1] == (KvEntry {
                    seq: self.entries@[i - 1].key.seq,
                    key: self.entries@[i - 1].key.user_key@,
                    value: self.entries@[i - 1].value@,
                }));
            }
            let cmp = Comp::compare(prev.key.user_key.key(), key.user_key.key());
            let prev_lt = matches!(cmp, core::cmp::Ordering::Less) || (matches!(
                cmp,
                core::cmp::Ordering::Equal,
            ) && prev.key.seq < key.seq);
            if prev_lt {
                break;
            }
            let same_pair = matches!(cmp, core::cmp::Ordering::Equal) && prev.key.seq == key.seq;
            if same_pair {
                // replace the stored value in place
                proof {
                    lemma_entry_size_le(es0, i - 1);
                }
                let old_len = self.entries[i - 1].value.len();
                let ds = self.data_size - old_len;
                self.data_size = ds + value.len();
                let key_moved = key;
                self.entries[i - 1] = MemEntry { key: key_moved, value };
                proof {
                    let esn = self.entries();
                    assert(esn =~= es0.update(i - 1, e));
                    assert(es0.take(i as int).drop_last().push(e) =~= esn.take(i as int));
                    assert(esn.take(i as int) + esn.skip(i as int) =~= esn);
                    assert(es0.skip(i as int) =~= esn.skip(i as int));
                    lemma_data_size_update(es0, i - 1, e);
                    assert(mt_sorted::<Comp>(esn)) by {
                        assert forall|p: int, q: int| 0 <= p < q < esn.len() implies mt_entry_lt::<
                            Comp,
                        >(#[trigger] esn[p], #[trigger] esn[q]) by {
                            assert(mt_entry_lt::<Comp>(es0[p], es0[q]));
                        }
                    }
                }
                return ;
            }
            proof {
                lemma_mt_entry_trichotomy::<Comp>(es0[i - 1], e);
                assert(mt_entry_lt::<Comp>(e, es0[i - 1]));
            }
            i = i - 1;
        }
        // insert at position i
        proof {
            if i > 0 {
                assert(es0.take(i as int).last() == es0[i - 1]);
                assert(mt_insert::<Comp>(es0.take(i as int), e) == es0.take(i as int).push(e));
            } else {
                assert(es0.take(0) =~= Seq::<KvEntry>::empty());
                assert(mt_insert::<Comp>(es0.take(0), e) == seq![e]);
            }
        }
        let ds = self.data_size;
        self.data_size = ds + key.user_key.key().len() + value.len();
        self.entries.insert(i, MemEntry { key, value });
        proof {
            let esn = self.entries();
            assert(esn =~= es0.insert(i as int, e));
            assert(esn =~= es0.take(i as int).push(e) + es0.skip(i as int));
            assert(esn == mt_insert::<Comp>(es0, e));
            lemma_data_size_insert(es0, i as int, e);
            assert(mt_sorted::<Comp>(esn)) by {
                assert forall|p: int, q: int| 0 <= p < q < esn.len() implies mt_entry_lt::<Comp>(
                    #[trigger] esn[p],
                    #[trigger] esn[q],
                ) by {
                    let sorted = mt_sorted::<Comp>(es0);
                    if q < i {
                        assert(esn[p] == es0[p] && esn[q] == es0[q]);
                    } else if p > i {
                        assert(esn[p] == es0[p - 1] && esn[q] == es0[q - 1]);
                    } else if p < i && q == i {
                        assert(esn[p] == es0[p]);
                        assert(mt_entry_lt::<Comp>(es0[i - 1], e));
                        if p < i - 1 {
                            assert(mt_entry_lt::<Comp>(es0[p], es0[i - 1]));
                            lemma_mt_entry_lt_trans::<Comp>(es0[p], es0[i - 1], e);
                        }
                    } else if p == i && q > i {
                        assert(esn[q] == es0[q - 1]);
                        assert(mt_entry_lt::<Comp>(e, es0[q - 1]));
                    } else if p < i && q > i {
                        assert(esn[p] == es0[p] && esn[q] == es0[q - 1]);
                        assert(mt_entry_lt::<Comp>(es0[i - 1], e));
                        assert(mt_entry_lt::<Comp>(e, es0[q - 1]));
                        if p < i - 1 {
                            assert(mt_entry_lt::<Comp>(es0[p], es0[i - 1]));
                        }
                    }
                }
            }
        }
    }
}

/// The entry order is transitive.
pub proof fn lemma_mt_entry_lt_trans<Comp: Comparator>(a: KvEntry, b: KvEntry, c: KvEntry)
    requires
        mt_entry_lt::<Comp>(a, b),
        mt_entry_lt::<Comp>(b, c),
    ensures
        mt_entry_lt::<Comp>(a, c),
{
    if Comp::lt(a.key, b.key) && Comp::lt(b.key, c.key) {
        Comp::lt_transitive(a.key, b.key, c.key);
    } else if Comp::lt(a.key, b.key) && b.key == c.key {
    } else if a.key == b.key && Comp::lt(b.key, c.key) {
    }
}

/// One entry's footprint is at most the total footprint.
proof fn lemma_entry_size_le(es: Seq<KvEntry>, i: int)
    requires
        0 <= i < es.len(),
    ensures
        es[i].key.len() + es[i].value.len() <= entries_data_size(es),
        entries_data_size(es) >= 0,
    decreases es.len(),
{
    lemma_data_size_nonneg(es);
    if i == es.len() - 1 {
        lemma_data_size_nonneg(es.drop_last());
    } else {
        lemma_entry_size_le(es.drop_last(), i);
    }
}

pub proof fn lemma_data_size_nonneg(es: Seq<KvEntry>)
    ensures
        entries_data_size(es) >= 0,
    decreases es.len(),
{
    if es.len() > 0 {
        lemma_data_size_nonneg(es.drop_last());
    }
}

/// Replacing an entry adjusts the footprint by the difference of the
/// old and new entry.
proof fn lemma_data_size_update(es: Seq<KvEntry>, i: int, e: KvEntry)
    requires
        0 <= i < es.len(),
    ensures
        entries_data_size(es.update(i, e)) == entries_data_size(es) - es[i].key.len()
            - es[i].value.len() + e.key.len() + e.value.len(),
    decreases es.len(),
{
    if i == es.len() - 1 {
        assert(es.update(i, e).drop_last() =~= es.drop_last());
        assert(es.update(i, e).last() == e);
    } else {
        lemma_data_size_update(es.drop_last(), i, e);
        assert(es.update(i, e).drop_last() =~= es.drop_last().update(i, e));
        assert(es.update(i, e).last() == es.last());
    }
}

/// Inserting an entry grows the footprint by that entry.
proof fn lemma_data_size_insert(es: Seq<KvEntry>, i: int, e: KvEntry)
    requires
        0 <= i <= es.len(),
    ensures
        entries_data_size(es.insert(i, e)) == entries_data_size(es) + e.key.len() + e.value.len(),
    decreases es.len(),
{
    if i == es.len() {
        assert(es.insert(i, e).drop_last() =~= es);
        assert(es.insert(i, e).last() == e);
    } else {
        lemma_data_size_insert(es.drop_last(), i, e);
        assert(es.insert(i, e).drop_last() =~= es.drop_last().insert(i, e));
        assert(es.insert(i, e).last() == es.last());
    }
}

/// Prefix footprints grow entry by entry.
pub proof fn lemma_data_size_take_step(es: Seq<KvEntry>, i: int)
    requires
        0 <= i < es.len(),
    ensures
        entries_data_size(es.take(i + 1)) == entries_data_size(es.take(i)) + es[i].key.len()
            + es[i].value.len(),
{
    assert(es.take(i + 1).drop_last() =~= es.take(i));
    assert(es.take(i + 1).last() == es[i]);
}

/// A prefix footprint never exceeds the whole footprint.
pub proof fn lemma_data_size_take_le(es: Seq<KvEntry>, i: int)
    requires
        0 <= i <= es.len(),
    ensures
        entries_data_size(es.take(i)) <= entries_data_size(es),
    decreases es.len() - i,
{
    if i == es.len() {
        assert(es.take(i) =~= es);
    } else {
        lemma_data_size_take_step(es, i);
        lemma_data_size_take_le(es, i + 1);
    }
}

/// After inserting an entry whose sequence number is at least that of
/// every stored entry with the same key, a lookup of that key returns
/// the inserted value: the latest write wins.
pub proof fn lemma_insert_then_lookup<Comp: Comparator>(es: Seq<KvEntry>, e: KvEntry)
    requires
        forall|j: int| 0 <= j < es.len() && (#[trigger] es[j]).key == e.key ==> es[j].seq <= e.seq,
    ensures
        crate::tablefmt::spec_lookup_last(mt_insert::<Comp>(es, e), e.key) == Some(e.value),
    decreases es.len(),
{
    let r = mt_insert::<Comp>(es, e);
    if es.len() == 0 {
        assert(r.last() == e);
    } else if mt_entry_lt::<Comp>(es.last(), e) {
        assert(r.last() == e);
    } else if es.last().key == e.key && es.last().seq == e.seq {
        assert(r.last() == e);
    } else {
        // the last entry is not smaller than e and not the same pair;
        // since equal keys would force es.last().seq <= e.seq, the keys
        // differ, so e sits before the last entry
        assert(r == mt_insert::<Comp>(es.drop_last(), e).push(es.last()));
        assert(es.last() == es[es.len() - 1]);
        if es.last().key == e.key {
            assert(es.last().seq <= e.seq);
            assert(!mt_entry_lt::<Comp>(es.last(), e));
            assert(es.last().seq == e.seq || es.last().seq < e.seq);
            assert(false);
        }
        assert(forall|j: int|
            0 <= j < es.drop_last().len() && (#[trigger] es.drop_last()[j]).key == e.key
                ==> es.drop_last()[j].seq <= e.seq);
        lemma_insert_then_lookup::<Comp>(es.drop_last(), e);
        assert(r.drop_last() =~= mt_insert::<Comp>(es.drop_last(), e));
        assert(r.last().key != e.key);
    }
}

} // verus!
