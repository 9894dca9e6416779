//! One compaction tier: an ordered sequence of tables and a monotonic
//! file-id counter.

use vstd::prelude::*;

use crate::sctable::ScTable;
use crate::table::Table;

verus! {

/// An ordered collection of tables for one compaction tier, with the
/// counter that hands out unique, strictly increasing file identities
/// within the tier.
pub struct Level {
    tables: Vec<Table>,
    next_file_id: u64,
}

impl Level {
    /// The tables of this tier, in the order they were registered.
    pub closed spec fn tables(&self) -> Seq<crate::table::TableView> {
        self.tables@.map(|i: int, t: Table| t@)
    }

    /// The next file id the tier will hand out.
    pub closed spec fn spec_next_file_id(&self) -> u64 {
        self.next_file_id
    }

    pub fn new() -> (r: Level)
        ensures
            r.tables() == Seq::<crate::table::TableView>::empty(),
            r.spec_next_file_id() == 0,
    {
        let r = Level { tables: Vec::new(), next_file_id: 0 };
        proof {
            assert(r.tables() =~= Seq::<crate::table::TableView>::empty());
        }
        r
    }

    /// Registers a fully-resolved segment at the end of the tier.
    pub fn add_file(&mut self, table_file: ScTable)
        ensures
            final(self).tables() == old(self).tables().push(Table::Full(table_file)@),
            final(self).spec_next_file_id() == old(self).spec_next_file_id(),
    {
        let ghost v = Table::Full(table_file)@;
        self.tables.push(Table::Full(table_file));
        proof {
            assert(self.tables() =~= old(self).tables().push(v));
        }
    }

    /// Returns the next file id and advances the counter, so that every
    /// id handed out within this tier is unique and strictly increasing.
    pub fn level_next_file_id(&mut self) -> (r: u64)
        requires
            old(self).spec_next_file_id() < u64::MAX,
        ensures
            r == old(self).spec_next_file_id(),
            final(self).spec_next_file_id() == old(self).spec_next_file_id() + 1,
            final(self).tables() == old(self).tables(),
    {
        let ret = self.next_file_id;
        self.next_file_id = self.next_file_id + 1;
        ret
    }

    /// The number of tables in this tier.
    pub fn len(&self) -> (r: usize)
        ensures
            r == self.tables().len(),
    {
        self.tables.len()
    }

    /// The `i`-th table of this tier.
    pub fn nth(&self, i: usize) -> (r: &Table)
        requires
            i < self.tables().len(),
        ensures
            r@ == self.tables()[i as int],
    {
        &self.tables[i]
    }
}

} // verus!
