//! On-disk segment identity and the fully-resolved table variant.

use vstd::prelude::*;

use vstd::string::StringExecFns;

use crate::memtable::UserKey;

verus! {

/// The identity of a persisted segment: the partition, the level and the
/// file number it was created under.
#[derive(PartialEq, Eq, Structural, Hash, Copy, Clone, Debug)]
pub struct ScTableFile {
    pub origin_partition: u32,
    pub origin_level: u32,
    pub origin_number: u64,
}

/// The decimal digit character for `d`.
pub open spec fn spec_digit(d: int) -> char
    recommends
        0 <= d < 10,
{
    if d == 0 {
        '0'
    } else if d == 1 {
        '1'
    } else if d == 2 {
        '2'
    } else if d == 3 {
        '3'
    } else if d == 4 {
        '4'
    } else if d == 5 {
        '5'
    } else if d == 6 {
        '6'
    } else if d == 7 {
        '7'
    } else if d == 8 {
        '8'
    } else {
        '9'
    }
}

/// The decimal digits of `n`, most significant first.
pub open spec fn spec_dec(n: int) -> Seq<char>
    recommends
        n >= 0,
    decreases n,
{
    if n < 10 {
        seq![spec_digit(n)]
    } else {
        spec_dec(n / 10) + seq![spec_digit(n % 10)]
    }
}

/// The deterministic segment file name for an identity triple:
/// "{partition}_{level}_{number}.sst".
pub open spec fn spec_file_name(f: ScTableFile) -> Seq<char> {
    spec_dec(f.origin_partition as int) + seq!['_'] + spec_dec(f.origin_level as int) + seq!['_']
        + spec_dec(f.origin_number as int) + seq!['.', 's', 's', 't']
}

/// Appends the character for one decimal digit.
fn push_digit(s: &mut String, d: u64)
    requires
        d < 10,
    ensures
        final(s)@ == old(s)@ + seq![spec_digit(d as int)],
{
    if d == 0 {
        proof {
            reveal_strlit("0");
        }
        s.append("0");
    } else if d == 1 {
        proof {
            reveal_strlit("1");
        }
        s.append("1");
    } else if d == 2 {
        proof {
            reveal_strlit("2");
        }
        s.append("2");
    } else if d == 3 {
        proof {
            reveal_strlit("3");
        }
        s.append("3");
    } else if d == 4 {
        proof {
            reveal_strlit("4");
        }
        s.append("4");
    } else if d == 5 {
        proof {
            reveal_strlit("5");
        }
        s.append("5");
    } else if d == 6 {
        proof {
            reveal_strlit("6");
        }
        s.append("6");
    } else if d == 7 {
        proof {
            reveal_strlit("7");
        }
        s.append("7");
    } else if d == 8 {
        proof {
            reveal_strlit("8");
        }
        s.append("8");
    } else {
        proof {
            reveal_strlit("9");
        }
        s.append("9");
    }
    proof {
        assert(s@ =~= old(s)@ + seq![spec_digit(d as int)]);
    }
}

/// Appends the decimal digits of `n`.
fn append_dec(s: &mut String, n: u64)
    ensures
        final(s)@ == old(s)@ + spec_dec(n as int),
    decreases n,
{
    if n < 10 {
        push_digit(s, n);
    } else {
        append_dec(s, n / 10);
        push_digit(s, n % 10);
        proof {
            assert(s@ =~= old(s)@ + spec_dec(n as int));
        }
    }
}

impl ScTableFile {
    pub fn new(origin_partition: u32, origin_level: u32, origin_number: u64) -> (r: ScTableFile)
        ensures
            r == (ScTableFile { origin_partition, origin_level, origin_number }),
    {
        ScTableFile { origin_partition, origin_level, origin_number }
    }

    /// The identity as a plain triple.
    pub fn as_triple(&self) -> (r: (u32, u32, u64))
        ensures
            r == (self.origin_partition, self.origin_level, self.origin_number),
    {
        (self.origin_partition, self.origin_level, self.origin_number)
    }

    /// The deterministic file name of this segment.
    pub fn file_name(&self) -> (r: String)
        ensures
            r@ == spec_file_name(*self),
    {
        let mut s = String::new();
        append_dec(&mut s, self.origin_partition as u64);
        proof {
            reveal_strlit("_");
        }
        s.append("_");
        append_dec(&mut s, self.origin_level as u64);
        s.append("_");
        append_dec(&mut s, self.origin_number as u64);
        proof {
            reveal_strlit(".sst");
        }
        s.append(".sst");
        proof {
            assert(s@ =~= spec_file_name(*self));
        }
        s
    }
}

/// A fully-resolved on-disk segment: its identity, its key range, and
/// (as a ghost record) the exact bytes that were persisted for it.
pub struct ScTable {
    table_file: ScTableFile,
    key_lower_bound: UserKey,
    key_upper_bound: UserKey,
    bytes: Ghost<Seq<u8>>,
}

impl ScTable {
    /// The persisted segment identity.
    pub closed spec fn spec_file(&self) -> ScTableFile {
        self.table_file
    }

    /// The lower bound of the stored key range.
    pub closed spec fn spec_lower(&self) -> Seq<u8> {
        self.key_lower_bound@
    }

    /// The upper bound of the stored key range.
    pub closed spec fn spec_upper(&self) -> Seq<u8> {
        self.key_upper_bound@
    }

    /// The segment image that was persisted under this identity.
    pub closed spec fn spec_bytes(&self) -> Seq<u8> {
        self.bytes@
    }

    pub fn new(
        table_file: ScTableFile,
        key_lower_bound: UserKey,
        key_upper_bound: UserKey,
        bytes: Ghost<Seq<u8>>,
    ) -> (r: ScTable)
        ensures
            r.spec_file() == table_file,
            r.spec_lower() == key_lower_bound@,
            r.spec_upper() == key_upper_bound@,
            r.spec_bytes() == bytes@,
    {
        ScTable { table_file, key_lower_bound, key_upper_bound, bytes }
    }

    pub fn table_file(&self) -> (r: ScTableFile)
        ensures
            r == self.spec_file(),
    {
        self.table_file
    }

    pub fn lower_bound(&self) -> (r: &UserKey)
        ensures
            r@ == self.spec_lower(),
    {
        &self.key_lower_bound
    }

    pub fn upper_bound(&self) -> (r: &UserKey)
        ensures
            r@ == self.spec_upper(),
    {
        &self.key_upper_bound
    }

    /// A fully-resolved segment needs no deferred loading.
    pub fn is_lazy(&self) -> (r: bool)
        ensures
            !r,
    {
        false
    }
}

} // verus!
