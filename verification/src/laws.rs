//! Laws of the registry, stated over the abstract model — the entry sequence
//! and the name-to-deadline map — and proved once and for all.
//!
//! The order invariant itself needs no law of its own: every constructor and
//! every mutating operation ensures `well_formed`, which says openly that the
//! underlying sequence stays sorted by name with no duplicate keys.

use vstd::prelude::*;

use crate::registry::Outcome;
use crate::registry::Registry;
use crate::registry::lemma_sorted_name_unique;
use crate::registry::seq_has_name;
use crate::registry::spec_check_map;
use crate::registry::spec_check_outcome;
use crate::registry::spec_upsert;

verus! {

/// Uniqueness: a well-formed registry holds exactly one record for any name
/// it knows — the name stands at some position of the sequence, and any two
/// positions carrying it are the same.
pub proof fn lemma_uniqueness(r: Registry, k: Seq<char>)
    requires
        r.well_formed(),
        r@.dom().contains(k),
    ensures
        seq_has_name(r.entries(), k),
        forall|i: int, j: int|
            0 <= i < r.entries().len() && 0 <= j < r.entries().len() && r.entries()[i].0 == k
                && r.entries()[j].0 == k ==> i == j,
{
    assert forall|i: int, j: int|
        0 <= i < r.entries().len() && 0 <= j < r.entries().len() && r.entries()[i].0 == k
            && r.entries()[j].0 == k implies i == j by {
        lemma_sorted_name_unique(r.entries(), i, j);
    }
}

/// Refresh monotonicity: announcing a name with deadline `d2` after a prior
/// announcement with `d1` leaves the record's deadline equal to `d2`, whether
/// `d2` lies before or after `d1` — a refresh always overwrites.
pub proof fn lemma_refresh_overwrites(m: Map<Seq<char>, u64>, name: Seq<char>, d1: u64, d2: u64)
    ensures
        spec_upsert(spec_upsert(m, name, d1), name, d2) == spec_upsert(m, name, d2),
        spec_upsert(spec_upsert(m, name, d1), name, d2)[name] == d2,
{
    assert(spec_upsert(spec_upsert(m, name, d1), name, d2) =~= spec_upsert(m, name, d2));
}

/// Lazy eviction: a record whose deadline has passed is retrievable as
/// `Expired` exactly once — the check that observes it evicts it, and any
/// following check of the same name answers `Unknown`.
pub proof fn lemma_lazy_eviction(m: Map<Seq<char>, u64>, name: Seq<char>, now1: u64, now2: u64)
    requires
        m.dom().contains(name),
        m[name] < now1,
    ensures
        spec_check_outcome(m, name, now1) == Outcome::Expired,
        spec_check_outcome(spec_check_map(m, name, now1), name, now2) == Outcome::Unknown,
{
}

/// Boundary: a check performed at the exact instant `now == deadline` answers
/// `Alive`, not `Expired`, and evicts nothing.
pub proof fn lemma_boundary(m: Map<Seq<char>, u64>, name: Seq<char>)
    requires
        m.dom().contains(name),
    ensures
        spec_check_outcome(m, name, m[name]) == Outcome::Alive,
        spec_check_map(m, name, m[name]) == m,
{
}

/// Announcements for distinct names commute: whichever order an interleaving
/// lets them take effect in, the registry content comes out the same.
pub proof fn lemma_upsert_commutes(
    m: Map<Seq<char>, u64>,
    n1: Seq<char>,
    d1: u64,
    n2: Seq<char>,
    d2: u64,
)
    requires
        n1 != n2,
    ensures
        spec_upsert(spec_upsert(m, n1, d1), n2, d2) == spec_upsert(spec_upsert(m, n2, d2), n1, d1),
{
    assert(spec_upsert(spec_upsert(m, n1, d1), n2, d2) =~= spec_upsert(
        spec_upsert(m, n2, d2),
        n1,
        d1,
    ));
}

} // verus!
