//! Storage core of an embedded, ordered, range-partitioned key-value store.
//!
//! Writes enter a partition's mutable in-memory table; once that table is
//! full it is frozen and flushed through a builder into an immutable,
//! checksummed on-disk segment registered in level 0.  Reads consult the
//! mutable table, the frozen table, and then the levels of segments.
//! File handles and cached segments are bounded by counted quota managers.

use vstd::prelude::*;

pub mod encode;
pub mod io;
pub mod level;
pub mod memtable;
pub mod partition;
pub mod sctable;
pub mod scsplit;
pub mod table;
pub mod error;
pub mod builder;
pub mod cache;
pub mod tablefmt;

verus! {

/// A total order on byte strings.  All key comparisons in the store go
/// through an implementation of this trait; `lt` is the mathematical order
/// that `compare` decides, and the proof obligations make it a strict
/// total order so that sorted structures behave as expected.
pub trait Comparator: Sized {
    /// The strict order decided by `compare`.
    spec fn lt(a: Seq<u8>, b: Seq<u8>) -> bool;

    proof fn lt_transitive(a: Seq<u8>, b: Seq<u8>, c: Seq<u8>)
        requires
            Self::lt(a, b),
            Self::lt(b, c),
        ensures
            Self::lt(a, c),
    ;

    proof fn lt_asymmetric(a: Seq<u8>, b: Seq<u8>)
        requires
            Self::lt(a, b),
        ensures
            !Self::lt(b, a),
            a != b,
    ;

    proof fn lt_connected(a: Seq<u8>, b: Seq<u8>)
        requires
            a != b,
        ensures
            Self::lt(a, b) || Self::lt(b, a),
    ;

    fn compare(lhs: &[u8], rhs: &[u8]) -> (r: core::cmp::Ordering)
        ensures
            (r == core::cmp::Ordering::Less <==> Self::lt(lhs@, rhs@)),
            (r == core::cmp::Ordering::Greater <==> Self::lt(rhs@, lhs@)),
            (r == core::cmp::Ordering::Equal <==> lhs@ == rhs@),
    ;
}

/// Byte-wise lexicographic order: the order used when the embedding
/// application supplies no comparator of its own.
pub struct DefaultComparator();

/// Lexicographic order on byte strings: `a` is smaller when it is a strict
/// prefix of `b`, or when it has the smaller byte at the first differing
/// position.
pub open spec fn lex_lt(a: Seq<u8>, b: Seq<u8>) -> bool
    decreases a.len(),
{
    if a.len() == 0 {
        b.len() > 0
    } else if b.len() == 0 {
        false
    } else if a[0] < b[0] {
        true
    } else if a[0] > b[0] {
        false
    } else {
        lex_lt(a.skip(1), b.skip(1))
    }
}

/// When `a` and `b` agree on their first `i` elements, the lexicographic
/// comparison is decided by the remainders.
proof fn lemma_lex_lt_skip(a: Seq<u8>, b: Seq<u8>, i: int)
    requires
        0 <= i <= a.len(),
        i <= b.len(),
        forall|j: int| 0 <= j < i ==> a[j] == b[j],
    ensures
        lex_lt(a, b) <==> lex_lt(a.skip(i), b.skip(i)),
    decreases i,
{
    if i == 0 {
        assert(a.skip(0) =~= a);
        assert(b.skip(0) =~= b);
    } else {
        assert(a.len() > 0 && b.len() > 0);
        assert(a[0] == b[0]);
        lemma_lex_lt_skip(a.skip(1), b.skip(1), i - 1);
        assert(a.skip(1).skip(i - 1) =~= a.skip(i));
        assert(b.skip(1).skip(i - 1) =~= b.skip(i));
    }
}

proof fn lemma_lex_lt_transitive(a: Seq<u8>, b: Seq<u8>, c: Seq<u8>)
    requires
        lex_lt(a, b),
        lex_lt(b, c),
    ensures
        lex_lt(a, c),
    decreases a.len(),
{
    if a.len() > 0 && b.len() > 0 && c.len() > 0 {
        if a[0] == b[0] && b[0] == c[0] {
            lemma_lex_lt_transitive(a.skip(1), b.skip(1), c.skip(1));
        }
    }
}

proof fn lemma_lex_lt_asymmetric(a: Seq<u8>, b: Seq<u8>)
    requires
        lex_lt(a, b),
    ensures
        !lex_lt(b, a),
        a != b,
    decreases a.len(),
{
    if a.len() == 0 {
        assert(b.len() > 0);
        assert(a.len() != b.len());
    } else {
        assert(b.len() > 0);
        if a[0] == b[0] {
            lemma_lex_lt_asymmetric(a.skip(1), b.skip(1));
            assert(a != b) by {
                if a == b {
                    assert(a.skip(1) == b.skip(1));
                }
            }
        } else {
            assert(a[0] < b[0]);
            assert(a != b) by {
                if a == b {
                    assert(a[0] == b[0]);
                }
            }
        }
    }
}

proof fn lemma_lex_lt_connected(a: Seq<u8>, b: Seq<u8>)
    requires
        a != b,
    ensures
        lex_lt(a, b) || lex_lt(b, a),
    decreases a.len(),
{
    if a.len() == 0 {
        assert(b.len() > 0) by {
            if b.len() == 0 {
                assert(a =~= b);
            }
        }
    } else if b.len() == 0 {
    } else if a[0] == b[0] {
        if a.skip(1) == b.skip(1) {
            assert(a.skip(1).len() == b.skip(1).len());
            assert forall|j: int| 0 <= j < a.len() implies a[j] == b[j] by {
                if j >= 1 {
                    assert(a[j] == a.skip(1)[j - 1]);
                    assert(b[j] == b.skip(1)[j - 1]);
                }
            }
            assert(a =~= b);
        }
        lemma_lex_lt_connected(a.skip(1), b.skip(1));
    }
}

impl Comparator for DefaultComparator {
    open spec fn lt(a: Seq<u8>, b: Seq<u8>) -> bool {
        lex_lt(a, b)
    }

    proof fn lt_transitive(a: Seq<u8>, b: Seq<u8>, c: Seq<u8>) {
        lemma_lex_lt_transitive(a, b, c);
    }

    proof fn lt_asymmetric(a: Seq<u8>, b: Seq<u8>) {
        lemma_lex_lt_asymmetric(a, b);
    }

    proof fn lt_connected(a: Seq<u8>, b: Seq<u8>) {
        lemma_lex_lt_connected(a, b);
    }

    fn compare(lhs: &[u8], rhs: &[u8]) -> (r: core::cmp::Ordering) {
        let lhs_len: usize = lhs.len();
        let rhs_len: usize = rhs.len();
        let n: usize = if lhs_len < rhs_len {
            lhs_len
        } else {
            rhs_len
        };
        let mut i: usize = 0;
        while i < n
            invariant
                0 <= i <= n,
                n <= lhs@.len(),
                n <= rhs@.len(),
                n == if lhs@.len() < rhs@.len() {
                    lhs@.len()
                } else {
                    rhs@.len()
                },
                forall|j: int| 0 <= j < i ==> lhs@[j] == rhs@[j],
            decreases n - i,
        {
            let x = lhs[i];
            let y = rhs[i];
            if x < y {
                proof {
                    lemma_lex_lt_skip(lhs@, rhs@, i as int);
                    lemma_lex_lt_asymmetric(lhs@, rhs@);
                }
                return core::cmp::Ordering::Less;
            } else if x > y {
                proof {
                    lemma_lex_lt_skip(rhs@, lhs@, i as int);
                    lemma_lex_lt_asymmetric(rhs@, lhs@);
                }
                return core::cmp::Ordering::Greater;
            }
            i = i + 1;
        }
        proof {
            lemma_lex_lt_skip(lhs@, rhs@, n as int);
            lemma_lex_lt_skip(rhs@, lhs@, n as int);
        }
        if lhs_len < rhs_len {
            proof {
                lemma_lex_lt_asymmetric(lhs@, rhs@);
            }
            core::cmp::Ordering::Less
        } else if lhs_len > rhs_len {
            proof {
                lemma_lex_lt_asymmetric(rhs@, lhs@);
            }
            core::cmp::Ordering::Greater
        } else {
            proof {
                assert(lhs@ =~= rhs@);
            }
            core::cmp::Ordering::Equal
        }
    }
}

/// Tunable options of the store.
pub struct Options {
    pub db_name: String,
    pub cache_count: usize,
    pub level0_size: usize,
    pub size_factor: usize,
    pub max_open_files: usize,
    pub table_size: usize,
    pub key_size_max: usize,
    pub value_size_max: usize,
}

impl Options {
    pub fn new(
        db_name: String,
        cache_count: usize,
        level0_size: usize,
        size_factor: usize,
        max_open_files: usize,
        table_size: usize,
        key_size_max: usize,
        value_size_max: usize,
    ) -> (r: Options)
        ensures
            r.db_name == db_name,
            r.cache_count == cache_count,
            r.level0_size == level0_size,
            r.size_factor == size_factor,
            r.max_open_files == max_open_files,
            r.table_size == table_size,
            r.key_size_max == key_size_max,
            r.value_size_max == value_size_max,
    {
        Options {
            db_name,
            cache_count,
            level0_size,
            size_factor,
            max_open_files,
            table_size,
            key_size_max,
            value_size_max,
        }
    }
}


/// The engine facade: the tunable options, the set of partitions, and
/// the two process-wide resource managers that every partition shares.
pub struct ScottDB<Comp: Comparator> {
    pub options: Options,
    pub partitions: std::collections::VecDeque<crate::partition::Partition<Comp>>,
    pub cache_manager: crate::cache::TableCacheManager,
    pub io_manager: crate::io::IOManager,
}

impl<Comp: Comparator> ScottDB<Comp> {
    pub fn new(options: Options) -> (r: ScottDB<Comp>)
        requires
            options.cache_count >= 1,
        ensures
            r.partitions@.len() == 0,
            r.cache_manager.wf(),
            r.cache_manager.spec_cache_count() == options.cache_count,
            r.cache_manager.spec_outstanding() == 0,
            r.io_manager.wf(),
            r.io_manager.spec_max() == options.max_open_files,
            r.io_manager.spec_outstanding() == 0,
            r.options == options,
    {
        let cache_count = options.cache_count;
        let max_open_files = options.max_open_files;
        ScottDB {
            options,
            partitions: std::collections::VecDeque::new(),
            cache_manager: crate::cache::TableCacheManager::new(cache_count),
            io_manager: crate::io::IOManager::new(max_open_files),
        }
    }
}

} // verus!
