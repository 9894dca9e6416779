//! The closed set of table variants: a fully-resolved segment or a
//! reserved split segment, matched exhaustively instead of dispatched
//! dynamically.

use vstd::prelude::*;

use crate::memtable::UserKey;
use crate::sctable::{ScTable, ScTableFile};
use crate::scsplit::ScSplit;
use crate::Comparator;

verus! {

/// A range-bounded lookup source inside a level.
pub enum Table {
    Full(ScTable),
    Split(ScSplit),
}

/// The mathematical image of a table: its identity, its key range,
/// whether it is fully resolved, and — for a full table — the segment
/// image persisted for it.
pub struct TableView {
    pub file: ScTableFile,
    pub lower: Seq<u8>,
    pub upper: Seq<u8>,
    pub full: bool,
    pub bytes: Seq<u8>,
}

impl View for Table {
    type V = TableView;

    open spec fn view(&self) -> TableView {
        match self {
            Table::Full(t) => TableView {
                file: t.spec_file(),
                lower: t.spec_lower(),
                upper: t.spec_upper(),
                full: true,
                bytes: t.spec_bytes(),
            },
            Table::Split(s) => TableView {
                file: s.spec_file(),
                lower: s.spec_lower(),
                upper: s.spec_upper(),
                full: false,
                bytes: Seq::empty(),
            },
        }
    }
}

/// Whether `k` lies inside the table range `[lower, upper]` in `Comp`'s
/// order.
pub open spec fn spec_in_range<Comp: Comparator>(t: TableView, k: Seq<u8>) -> bool {
    !Comp::lt(k, t.lower) && !Comp::lt(t.upper, k)
}

impl Table {
    pub fn lower_bound(&self) -> (r: &UserKey)
        ensures
            r@ == self@.lower,
    {
        match self {
            Table::Full(t) => t.lower_bound(),
            Table::Split(s) => s.lower_bound(),
        }
    }

    pub fn upper_bound(&self) -> (r: &UserKey)
        ensures
            r@ == self@.upper,
    {
        match self {
            Table::Full(t) => t.upper_bound(),
            Table::Split(s) => s.upper_bound(),
        }
    }

    pub fn is_lazy(&self) -> (r: bool)
        ensures
            !r,
    {
        match self {
            Table::Full(t) => t.is_lazy(),
            Table::Split(s) => s.is_lazy(),
        }
    }

    /// Classifies `key` against this table's range: `Less` below the
    /// lower bound, `Greater` above the upper bound, `Equal` inside.
    pub fn cmp_key<Comp: Comparator>(&self, key: &[u8]) -> (r: core::cmp::Ordering)
        ensures
            (r == core::cmp::Ordering::Less <==> Comp::lt(key@, self@.lower)),
            (r == core::cmp::Ordering::Greater <==> (!Comp::lt(key@, self@.lower) && Comp::lt(
                self@.upper,
                key@,
            ))),
            (r == core::cmp::Ordering::Equal <==> spec_in_range::<Comp>(self@, key@)),
    {
        let lower = self.lower_bound();
        let c1 = Comp::compare(key, lower.key());
        if matches!(c1, core::cmp::Ordering::Less) {
            return core::cmp::Ordering::Less;
        }
        let upper = self.upper_bound();
        let c2 = Comp::compare(key, upper.key());
        if matches!(c2, core::cmp::Ordering::Greater) {
            return core::cmp::Ordering::Greater;
        }
        core::cmp::Ordering::Equal
    }
}

} // verus!
