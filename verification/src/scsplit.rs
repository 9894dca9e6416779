//! The partial/split table variant: a sub-range of a larger segment
//! file.  Its storage format is reserved but not defined, so the store
//! never registers one into a level; only its range metadata is
//! meaningful.

use vstd::prelude::*;

use crate::memtable::UserKey;
use crate::sctable::ScTableFile;

verus! {

/// A reserved table variant describing the sub-range
/// `[first_kv_index, last_kv_index]` of a larger segment file.
pub struct ScSplit {
    file: ScTableFile,
    first_kv_index: u32,
    last_kv_index: u32,
    lower_bound: UserKey,
    upper_bound: UserKey,
}

impl ScSplit {
    pub closed spec fn spec_file(&self) -> ScTableFile {
        self.file
    }

    pub closed spec fn spec_lower(&self) -> Seq<u8> {
        self.lower_bound@
    }

    pub closed spec fn spec_upper(&self) -> Seq<u8> {
        self.upper_bound@
    }

    pub fn new(
        file: ScTableFile,
        first_kv_index: u32,
        last_kv_index: u32,
        lower_bound: UserKey,
        upper_bound: UserKey,
    ) -> (r: ScSplit)
        ensures
            r.spec_file() == file,
            r.spec_lower() == lower_bound@,
            r.spec_upper() == upper_bound@,
    {
        ScSplit { file, first_kv_index, last_kv_index, lower_bound, upper_bound }
    }

    pub fn lower_bound(&self) -> (r: &UserKey)
        ensures
            r@ == self.spec_lower(),
    {
        &self.lower_bound
    }

    pub fn upper_bound(&self) -> (r: &UserKey)
        ensures
            r@ == self.spec_upper(),
    {
        &self.upper_bound
    }

    /// A split segment never defers loading either; the flag mirrors the
    /// fully-resolved variant.
    pub fn is_lazy(&self) -> (r: bool)
        ensures
            !r,
    {
        false
    }
}

} // verus!
