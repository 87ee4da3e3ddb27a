//! Lexicographic order on names, the key order the registry is sorted by.
//!
//! Names are compared character by character on their Unicode scalar values,
//! with a proper prefix ordered before any of its extensions.

use vstd::prelude::*;
use vstd::string::StrSliceExecFns;

verus! {

/// Strict lexicographic order on character sequences.
pub open spec fn lex_lt(a: Seq<char>, b: Seq<char>) -> bool
    decreases a.len(),
{
    if b.len() == 0 {
        false
    } else if a.len() == 0 {
        true
    } else if a[0] == b[0] {
        lex_lt(a.drop_first(), b.drop_first())
    } else {
        a[0] < b[0]
    }
}

/// `lex_lt` is a strict total order: of `lex_lt(a, b)`, `a == b` and
/// `lex_lt(b, a)`, exactly one holds.
pub proof fn lemma_lex_lt_trichotomy(a: Seq<char>, b: Seq<char>)
    ensures
        lex_lt(a, b) || lex_lt(b, a) || a == b,
        lex_lt(a, b) ==> !lex_lt(b, a) && a != b,
        lex_lt(b, a) ==> !lex_lt(a, b) && a != b,
    decreases a.len(),
{
    if a.len() == 0 && b.len() == 0 {
        assert(a =~= b);
    } else if a.len() > 0 && b.len() > 0 && a[0] == b[0] {
        lemma_lex_lt_trichotomy(a.drop_first(), b.drop_first());
        assert(a.drop_first().len() == a.len() - 1);
        assert(b.drop_first().len() == b.len() - 1);
        if a.drop_first() == b.drop_first() {
            assert forall|i: int| 0 <= i < a.len() implies a[i] == b[i] by {
                if i > 0 {
                    assert(a.drop_first()[i - 1] == a[i]);
                    assert(b.drop_first()[i - 1] == b[i]);
                }
            }
            assert(a =~= b);
        }
    }
}

/// `lex_lt` is transitive.
pub proof fn lemma_lex_lt_transitive(a: Seq<char>, b: Seq<char>, c: Seq<char>)
    requires
        lex_lt(a, b),
        lex_lt(b, c),
    ensures
        lex_lt(a, c),
    decreases a.len(),
{
    if a.len() > 0 && b.len() > 0 && c.len() > 0 && a[0] == b[0] && b[0] == c[0] {
        lemma_lex_lt_transitive(a.drop_first(), b.drop_first(), c.drop_first());
    }
}

/// Sequences that agree up to position `i`, where `a` has the smaller
/// character, are lexicographically ordered.
proof fn lemma_lex_lt_from_common_prefix(a: Seq<char>, b: Seq<char>, i: int)
    requires
        0 <= i < a.len(),
        i < b.len(),
        forall|j: int| 0 <= j < i ==> a[j] == b[j],
        a[i] < b[i],
    ensures
        lex_lt(a, b),
    decreases i,
{
    if i == 0 {
        assert(a[0] != b[0]);
    } else {
        assert(a[0] == b[0]);
        assert forall|j: int| 0 <= j < i - 1 implies a.drop_first()[j] == b.drop_first()[j] by {
            assert(a[j + 1] == b[j + 1]);
        }
        assert(a.drop_first()[i - 1] == a[i]);
        assert(b.drop_first()[i - 1] == b[i]);
        lemma_lex_lt_from_common_prefix(a.drop_first(), b.drop_first(), i - 1);
    }
}

/// A proper prefix is ordered before any of its extensions.
proof fn lemma_lex_lt_from_proper_prefix(a: Seq<char>, b: Seq<char>)
    requires
        a.len() < b.len(),
        forall|j: int| 0 <= j < a.len() ==> a[j] == b[j],
    ensures
        lex_lt(a, b),
    decreases a.len(),
{
    if a.len() > 0 {
        assert(a[0] == b[0]);
        assert forall|j: int| 0 <= j < a.drop_first().len() implies a.drop_first()[j]
            == b.drop_first()[j] by {
            assert(a[j + 1] == b[j + 1]);
        }
        lemma_lex_lt_from_proper_prefix(a.drop_first(), b.drop_first());
    }
}

/// The three-way result of comparing two names.
#[derive(Clone, Copy, Debug, PartialEq, Eq, Structural)]
pub enum NameCmp {
    Less,
    Equal,
    Greater,
}

/// Three-way comparison of two names under `lex_lt`.
pub fn compare_names(a: &str, b: &str) -> (o: NameCmp)
    ensures
        o == NameCmp::Less <==> lex_lt(a@, b@),
        o == NameCmp::Greater <==> lex_lt(b@, a@),
        o == NameCmp::Equal <==> a@ == b@,
{
    proof {
        lemma_lex_lt_trichotomy(a@, b@);
    }
    let alen = a.unicode_len();
    let blen = b.unicode_len();
    let n = if alen < blen {
        alen
    } else {
        blen
    };
    let mut i: usize = 0;
    while i < n
        invariant
            i <= n,
            n <= alen,
            n <= blen,
            alen == a@.len(),
            blen == b@.len(),
            alen < blen ==> n == alen,
            alen >= blen ==> n == blen,
            forall|j: int| 0 <= j < i ==> a@[j] == b@[j],
        decreases n - i,
    {
        let ca = a.get_char(i);
        let cb = b.get_char(i);
        if ca < cb {
            proof {
                lemma_lex_lt_from_common_prefix(a@, b@, i as int);
                lemma_lex_lt_trichotomy(a@, b@);
            }
            return NameCmp::Less;
        }
        if cb < ca {
            proof {
                lemma_lex_lt_from_common_prefix(b@, a@, i as int);
                lemma_lex_lt_trichotomy(a@, b@);
            }
            return NameCmp::Greater;
        }
        assert(ca == cb);
        i += 1;
    }
    if alen < blen {
        proof {
            lemma_lex_lt_from_proper_prefix(a@, b@);
            lemma_lex_lt_trichotomy(a@, b@);
        }
        NameCmp::Less
    } else if blen < alen {
        proof {
            lemma_lex_lt_from_proper_prefix(b@, a@);
            lemma_lex_lt_trichotomy(a@, b@);
        }
        NameCmp::Greater
    } else {
        proof {
            assert(a@ =~= b@);
        }
        NameCmp::Equal
    }
}

} // verus!
