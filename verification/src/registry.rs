//! The liveness registry: an ordered sequence of named service records with
//! deadlines, functioning as an in-memory ordered map keyed by name.
//!
//! `upsert` refreshes or inserts a record; `check` reports whether a record is
//! still within its announced horizon and lazily evicts it once the horizon
//! has passed. Both locate the record by binary search over the name order.

use vstd::prelude::*;

use crate::auth::Decision;
use crate::auth::authorize;
use crate::auth::spec_authorize;
use crate::order::NameCmp;
use crate::order::compare_names;
use crate::order::lemma_lex_lt_transitive;
use crate::order::lemma_lex_lt_trichotomy;
use crate::order::lex_lt;

verus! {

/// One named service together with the absolute deadline after which it is
/// considered expired.
pub struct ServiceRecord {
    pub name: String,
    pub deadline: u64,
}

/// The answer `check` gives about a named service.
#[derive(Clone, Copy, Debug, PartialEq, Eq, Structural)]
pub enum Outcome {
    /// A record exists and its deadline has not passed (`deadline >= now`).
    Alive,
    /// A record existed but its deadline has passed; it was evicted by this
    /// very call.
    Expired,
    /// No record with this name exists.
    Unknown,
}

/// The abstract content of one record: its name and its deadline.
pub type Entry = (Seq<char>, u64);

/// Strictly ascending by name: sorted, hence also free of duplicate names.
pub open spec fn sorted_by_name(s: Seq<Entry>) -> bool {
    forall|i: int, j: int| 0 <= i < j < s.len() ==> lex_lt(s[i].0, s[j].0)
}

/// Whether some entry of `s` carries the name `k`.
pub open spec fn seq_has_name(s: Seq<Entry>, k: Seq<char>) -> bool {
    exists|i: int| 0 <= i < s.len() && s[i].0 == k
}

/// The index of the entry of `s` named `k` (unique when `s` is sorted).
pub open spec fn seq_name_index(s: Seq<Entry>, k: Seq<char>) -> int {
    choose|i: int| 0 <= i < s.len() && s[i].0 == k
}

/// The entry sequence read as a map from name to deadline.
pub open spec fn seq_as_map(s: Seq<Entry>) -> Map<Seq<char>, u64> {
    Map::new(|k: Seq<char>| seq_has_name(s, k), |k: Seq<char>| s[seq_name_index(s, k)].1)
}

/// In a sorted sequence, a name appears at no more than one index.
pub proof fn lemma_sorted_name_unique(s: Seq<Entry>, i: int, j: int)
    requires
        sorted_by_name(s),
        0 <= i < s.len(),
        0 <= j < s.len(),
        s[i].0 == s[j].0,
    ensures
        i == j,
{
    if i < j {
        lemma_lex_lt_trichotomy(s[i].0, s[j].0);
    }
    if j < i {
        lemma_lex_lt_trichotomy(s[j].0, s[i].0);
    }
}

/// For a name present in a sorted sequence, `seq_name_index` is the one index
/// that carries it.
pub proof fn lemma_name_index(s: Seq<Entry>, k: Seq<char>)
    requires
        sorted_by_name(s),
        seq_has_name(s, k),
    ensures
        0 <= seq_name_index(s, k) < s.len(),
        s[seq_name_index(s, k)].0 == k,
        forall|i: int| 0 <= i < s.len() && s[i].0 == k ==> i == seq_name_index(s, k),
{
    let idx = seq_name_index(s, k);
    assert(0 <= idx < s.len() && s[idx].0 == k);
    assert forall|i: int| 0 <= i < s.len() && s[i].0 == k implies i == idx by {
        lemma_sorted_name_unique(s, i, idx);
    }
}

/// The map reads off each entry of a sorted sequence.
proof fn lemma_map_at(s: Seq<Entry>, i: int)
    requires
        sorted_by_name(s),
        0 <= i < s.len(),
    ensures
        seq_as_map(s).dom().contains(s[i].0),
        seq_as_map(s)[s[i].0] == s[i].1,
{
    assert(seq_has_name(s, s[i].0));
    lemma_name_index(s, s[i].0);
}

/// A name smaller than every entry from `i` on, and larger than every entry
/// before `i`, is absent from the map.
proof fn lemma_absent(s: Seq<Entry>, k: Seq<char>, i: int)
    requires
        sorted_by_name(s),
        0 <= i <= s.len(),
        forall|j: int| 0 <= j < i ==> lex_lt(s[j].0, k),
        forall|j: int| i <= j < s.len() ==> lex_lt(k, s[j].0),
    ensures
        !seq_as_map(s).dom().contains(k),
{
    assert forall|j: int| 0 <= j < s.len() implies s[j].0 != k by {
        lemma_lex_lt_trichotomy(s[j].0, k);
    }
    assert(!seq_has_name(s, k));
}

/// Where a binary search stopped without an exact hit, the sought name is
/// strictly before every remaining entry.
proof fn lemma_strictly_after(s: Seq<Entry>, k: Seq<char>, i: int)
    requires
        sorted_by_name(s),
        0 <= i <= s.len(),
        forall|j: int| i <= j < s.len() ==> !lex_lt(s[j].0, k),
        i < s.len() ==> s[i].0 != k,
    ensures
        forall|j: int| i <= j < s.len() ==> lex_lt(k, s[j].0),
{
    assert forall|j: int| i <= j < s.len() implies lex_lt(k, s[j].0) by {
        lemma_lex_lt_trichotomy(k, s[j].0);
        if j > i && s[j].0 == k {
            assert(lex_lt(s[i].0, s[j].0));
        }
    }
}

/// What an announcement does to the registry, as a map: the name's deadline
/// is created or overwritten, whichever of the two applies.
pub open spec fn spec_upsert(m: Map<Seq<char>, u64>, name: Seq<char>, deadline: u64) -> Map<
    Seq<char>,
    u64,
> {
    m.insert(name, deadline)
}

/// What a check reports: `Alive` while `deadline >= now` (a deadline met
/// exactly counts as alive), `Expired` once the deadline has passed, and
/// `Unknown` for a name without a record.
pub open spec fn spec_check_outcome(m: Map<Seq<char>, u64>, name: Seq<char>, now: u64) -> Outcome {
    if !m.dom().contains(name) {
        Outcome::Unknown
    } else if m[name] >= now {
        Outcome::Alive
    } else {
        Outcome::Expired
    }
}

/// What a check leaves behind: the record is evicted exactly when the check
/// observes it expired; otherwise the registry is untouched.
pub open spec fn spec_check_map(m: Map<Seq<char>, u64>, name: Seq<char>, now: u64) -> Map<
    Seq<char>,
    u64,
> {
    if spec_check_outcome(m, name, now) == Outcome::Expired {
        m.remove(name)
    } else {
        m
    }
}

/// Overwriting the deadline at index `i` keeps the order and acts on the map
/// as an insert of the same name.
proof fn lemma_map_update(s: Seq<Entry>, i: int, d: u64)
    requires
        sorted_by_name(s),
        0 <= i < s.len(),
    ensures
        sorted_by_name(s.update(i, (s[i].0, d))),
        seq_as_map(s.update(i, (s[i].0, d))) == seq_as_map(s).insert(s[i].0, d),
{
    let k = s[i].0;
    let t = s.update(i, (k, d));
    assert forall|p: int, q: int| 0 <= p < q < t.len() implies lex_lt(t[p].0, t[q].0) by {
        assert(t[p].0 == s[p].0);
        assert(t[q].0 == s[q].0);
        assert(lex_lt(s[p].0, s[q].0));
    }
    let m0 = seq_as_map(s);
    let m1 = seq_as_map(t);
    assert forall|x: Seq<char>| #[trigger] m1.dom().contains(x)
        implies m0.insert(k, d).dom().contains(x) by {
        if x != k {
            let w = choose|j: int| 0 <= j < t.len() && t[j].0 == x;
            assert(s[w].0 == x);
            assert(seq_has_name(s, x));
        }
    }
    assert forall|x: Seq<char>| #[trigger] m0.insert(k, d).dom().contains(x)
        implies m1.dom().contains(x) by {
        if x == k {
            assert(t[i].0 == k);
        } else {
            let w = choose|j: int| 0 <= j < s.len() && s[j].0 == x;
            assert(t[w].0 == x);
        }
        assert(seq_has_name(t, x));
    }
    assert forall|x: Seq<char>| #[trigger] m1.dom().contains(x)
        implies m1[x] == m0.insert(k, d)[x] by {
        lemma_name_index(t, x);
        let w = seq_name_index(t, x);
        if x == k {
            assert(t[i].0 == k);
            assert(w == i);
            assert(m1[x] == d);
        } else {
            assert(w != i);
            assert(s[w] == t[w]);
            assert(seq_has_name(s, x));
            lemma_name_index(s, x);
            assert(seq_name_index(s, x) == w);
            assert(m0[x] == s[w].1);
        }
    }
    assert(m1 =~= m0.insert(k, d));
}

/// Inserting a fresh name at its sorted position keeps the order and acts on
/// the map as an insert.
proof fn lemma_map_insert(s: Seq<Entry>, i: int, k: Seq<char>, d: u64)
    requires
        sorted_by_name(s),
        0 <= i <= s.len(),
        forall|j: int| 0 <= j < i ==> lex_lt(s[j].0, k),
        forall|j: int| i <= j < s.len() ==> lex_lt(k, s[j].0),
    ensures
        sorted_by_name(s.insert(i, (k, d))),
        seq_as_map(s.insert(i, (k, d))) == seq_as_map(s).insert(k, d),
{
    let t = s.insert(i, (k, d));
    assert(t.len() == s.len() + 1);
    assert(forall|j: int| 0 <= j < i ==> t[j] == s[j]);
    assert(t[i] == (k, d));
    assert(forall|j: int| i < j < t.len() ==> t[j] == s[j - 1]);
    assert forall|p: int, q: int| 0 <= p < q < t.len() implies lex_lt(t[p].0, t[q].0) by {
        if p < i && q < i {
            assert(lex_lt(s[p].0, s[q].0));
        } else if p < i && q == i {
            assert(lex_lt(s[p].0, k));
        } else if p < i && q > i {
            assert(lex_lt(s[p].0, k));
            assert(lex_lt(k, s[q - 1].0));
            lemma_lex_lt_transitive(s[p].0, k, s[q - 1].0);
        } else if p == i && q > i {
            assert(lex_lt(k, s[q - 1].0));
        } else {
            assert(lex_lt(s[p - 1].0, s[q - 1].0));
        }
    }
    assert forall|j: int| 0 <= j < s.len() implies s[j].0 != k by {
        lemma_lex_lt_trichotomy(s[j].0, k);
    }
    let m0 = seq_as_map(s);
    let m1 = seq_as_map(t);
    assert forall|x: Seq<char>| #[trigger] m1.dom().contains(x)
        implies m0.insert(k, d).dom().contains(x) by {
        if x != k {
            let w = choose|j: int| 0 <= j < t.len() && t[j].0 == x;
            assert(w != i);
            if w < i {
                assert(s[w].0 == x);
            } else {
                assert(s[w - 1].0 == x);
            }
            assert(seq_has_name(s, x));
        }
    }
    assert forall|x: Seq<char>| #[trigger] m0.insert(k, d).dom().contains(x)
        implies m1.dom().contains(x) by {
        if x == k {
            assert(t[i].0 == k);
        } else {
            let w = choose|j: int| 0 <= j < s.len() && s[j].0 == x;
            if w < i {
                assert(t[w].0 == x);
            } else {
                assert(t[w + 1].0 == x);
            }
        }
        assert(seq_has_name(t, x));
    }
    assert forall|x: Seq<char>| #[trigger] m1.dom().contains(x)
        implies m1[x] == m0.insert(k, d)[x] by {
        lemma_name_index(t, x);
        let w = seq_name_index(t, x);
        if x == k {
            assert(t[i].0 == k);
            assert(w == i);
            assert(m1[x] == d);
        } else {
            assert(w != i);
            if w < i {
                assert(s[w] == t[w]);
                assert(seq_has_name(s, x));
                lemma_name_index(s, x);
                assert(seq_name_index(s, x) == w);
            } else {
                assert(s[w - 1] == t[w]);
                assert(seq_has_name(s, x));
                lemma_name_index(s, x);
                assert(seq_name_index(s, x) == w - 1);
            }
        }
    }
    assert(m1 =~= m0.insert(k, d));
}

/// Removing the entry at index `i` keeps the order and acts on the map as a
/// removal of that entry's name.
proof fn lemma_map_remove(s: Seq<Entry>, i: int)
    requires
        sorted_by_name(s),
        0 <= i < s.len(),
    ensures
        sorted_by_name(s.remove(i)),
        seq_as_map(s.remove(i)) == seq_as_map(s).remove(s[i].0),
{
    let k = s[i].0;
    let t = s.remove(i);
    assert(t.len() == s.len() - 1);
    assert(forall|j: int| 0 <= j < i ==> t[j] == s[j]);
    assert(forall|j: int| i <= j < t.len() ==> t[j] == s[j + 1]);
    assert forall|p: int, q: int| 0 <= p < q < t.len() implies lex_lt(t[p].0, t[q].0) by {
        if p < i && q < i {
            assert(lex_lt(s[p].0, s[q].0));
        } else if p < i && q >= i {
            assert(lex_lt(s[p].0, s[q + 1].0));
        } else {
            assert(lex_lt(s[p + 1].0, s[q + 1].0));
        }
    }
    let m0 = seq_as_map(s);
    let m1 = seq_as_map(t);
    assert forall|x: Seq<char>| #[trigger] m1.dom().contains(x)
        implies m0.remove(k).dom().contains(x) by {
        let w = choose|j: int| 0 <= j < t.len() && t[j].0 == x;
        if w < i {
            assert(s[w].0 == x);
            if x == k {
                lemma_sorted_name_unique(s, w, i);
            }
        } else {
            assert(s[w + 1].0 == x);
            if x == k {
                lemma_sorted_name_unique(s, w + 1, i);
            }
        }
        assert(seq_has_name(s, x));
        assert(x != k);
    }
    assert forall|x: Seq<char>| #[trigger] m0.remove(k).dom().contains(x)
        implies m1.dom().contains(x) by {
        let w = choose|j: int| 0 <= j < s.len() && s[j].0 == x;
        assert(w != i);
        if w < i {
            assert(t[w].0 == x);
        } else {
            assert(t[w - 1].0 == x);
        }
        assert(seq_has_name(t, x));
    }
    assert forall|x: Seq<char>| #[trigger] m1.dom().contains(x)
        implies m1[x] == m0.remove(k)[x] by {
        lemma_name_index(t, x);
        let w = seq_name_index(t, x);
        if w < i {
            assert(s[w] == t[w]);
            assert(seq_has_name(s, x));
            lemma_name_index(s, x);
            assert(seq_name_index(s, x) == w);
        } else {
            assert(s[w + 1] == t[w]);
            assert(seq_has_name(s, x));
            lemma_name_index(s, x);
            assert(seq_name_index(s, x) == w + 1);
        }
        assert(x != k);
    }
    assert(m1 =~= m0.remove(k));
}

/// Each entry of a sorted sequence is readable through its map: the map knows
/// the entry's name and answers with the entry's deadline.
pub proof fn lemma_entry_in_map(s: Seq<Entry>, i: int)
    requires
        sorted_by_name(s),
        0 <= i < s.len(),
    ensures
        seq_as_map(s).dom().contains(s[i].0),
        seq_as_map(s)[s[i].0] == s[i].1,
{
    lemma_map_at(s, i);
}

/// The registry: a sequence of records, strictly ascending by name.
pub struct Registry {
    records: Vec<ServiceRecord>,
}

impl View for Registry {
    type V = Map<Seq<char>, u64>;

    open spec fn view(&self) -> Map<Seq<char>, u64> {
        seq_as_map(self.entries())
    }
}

impl Registry {
    /// The abstract content of the underlying sequence, in storage order.
    pub closed spec fn entries(self) -> Seq<Entry> {
        Seq::new(
            self.records@.len(),
            |i: int| (self.records@[i].name@, self.records@[i].deadline),
        )
    }

    /// The registry invariant: the sequence is sorted by name, which also
    /// rules out duplicate names.
    pub open spec fn well_formed(self) -> bool {
        sorted_by_name(self.entries())
    }

    /// An empty registry.
    pub fn new() -> (r: Registry)
        ensures
            r.well_formed(),
            r@ == Map::<Seq<char>, u64>::empty(),
            r.entries().len() == 0,
    {
        let r = Registry { records: Vec::new() };
        proof {
            assert forall|x: Seq<char>| !(#[trigger] r@.dom().contains(x)) by {
                assert(!seq_has_name(r.entries(), x));
            }
            assert(r@ =~= Map::<Seq<char>, u64>::empty());
        }
        r
    }

    /// Binary search: the first position whose name is not below `name`.
    fn lower_bound(&self, name: &str) -> (i: usize)
        requires
            self.well_formed(),
        ensures
            i <= self.entries().len(),
            forall|j: int| 0 <= j < i ==> lex_lt(self.entries()[j].0, name@),
            forall|j: int| i <= j < self.entries().len() ==> !lex_lt(self.entries()[j].0, name@),
    {
        let ghost s = self.entries();
        let mut lo: usize = 0;
        let mut hi: usize = self.records.len();
        while lo < hi
            invariant
                lo <= hi <= s.len(),
                s == self.entries(),
                s.len() == self.records@.len(),
                sorted_by_name(s),
                forall|j: int| 0 <= j < lo ==> lex_lt(s[j].0, name@),
                forall|j: int| hi <= j < s.len() ==> !lex_lt(s[j].0, name@),
            decreases hi - lo,
        {
            let mid = lo + (hi - lo) / 2;
            let c = compare_names(self.records[mid].name.as_str(), name);
            proof {
                assert(s[mid as int].0 == self.records@[mid as int].name@);
            }
            match c {
                NameCmp::Less => {
                    proof {
                        assert forall|j: int| 0 <= j < mid + 1 implies lex_lt(s[j].0, name@) by {
                            if j < mid {
                                lemma_lex_lt_transitive(s[j].0, s[mid as int].0, name@);
                            }
                        }
                    }
                    lo = mid + 1;
                },
                _ => {
                    proof {
                        assert forall|j: int| mid <= j < s.len() implies !lex_lt(
                            s[j].0,
                            name@,
                        ) by {
                            if j > mid && lex_lt(s[j].0, name@) {
                                lemma_lex_lt_transitive(s[mid as int].0, s[j].0, name@);
                            }
                        }
                    }
                    hi = mid;
                },
            }
        }
        lo
    }

    /// Announce that `name` is alive until `now + ttl`: refresh the record if
    /// one exists, insert one at its sorted position otherwise.
    pub fn upsert(&mut self, name: String, ttl: u64, now: u64)
        requires
            old(self).well_formed(),
            now + ttl <= u64::MAX,
        ensures
            final(self).well_formed(),
            final(self)@ == spec_upsert(old(self)@, name@, (now + ttl) as u64),
    {
        let deadline = now + ttl;
        let ghost s0 = self.entries();
        let ghost k = name@;
        let i = self.lower_bound(name.as_str());
        if i < self.records.len() {
            let c = compare_names(self.records[i].name.as_str(), name.as_str());
            if matches!(c, NameCmp::Equal) {
                proof {
                    assert(s0[i as int].0 == k);
                }
                self.records[i].deadline = deadline;
                proof {
                    assert(self.entries() =~= s0.update(i as int, (k, deadline)));
                    lemma_map_update(s0, i as int, deadline);
                }
                return ;
            }
        }
        proof {
            lemma_strictly_after(s0, k, i as int);
        }
        self.records.insert(i, ServiceRecord { name, deadline });
        proof {
            assert(self.entries() =~= s0.insert(i as int, (k, deadline)));
            lemma_map_insert(s0, i as int, k, deadline);
        }
    }

    /// Ask whether `name` is still within its announced horizon. A record
    /// observed past its deadline is evicted by this very call; this is the
    /// registry's only eviction mechanism.
    pub fn check(&mut self, name: &str, now: u64) -> (o: Outcome)
        requires
            old(self).well_formed(),
        ensures
            final(self).well_formed(),
            o == spec_check_outcome(old(self)@, name@, now),
            final(self)@ == spec_check_map(old(self)@, name@, now),
            o != Outcome::Expired ==> *final(self) == *old(self),
    {
        let ghost s0 = self.entries();
        let i = self.lower_bound(name);
        if i < self.records.len() {
            let c = compare_names(self.records[i].name.as_str(), name);
            if matches!(c, NameCmp::Equal) {
                proof {
                    assert(s0[i as int].0 == name@);
                    lemma_map_at(s0, i as int);
                }
                if self.records[i].deadline < now {
                    self.records.remove(i);
                    proof {
                        assert(self.entries() =~= s0.remove(i as int));
                        lemma_map_remove(s0, i as int);
                    }
                    return Outcome::Expired;
                } else {
                    return Outcome::Alive;
                }
            }
        }
        proof {
            lemma_strictly_after(s0, name@, i as int);
            lemma_absent(s0, name@, i as int);
        }
        Outcome::Unknown
    }

    /// The whole mutating path of one announcement: the credential check
    /// first, then the upsert. A rejected announcement leaves the registry
    /// exactly as it was.
    pub fn announce(
        &mut self,
        presented: Option<&String>,
        configured: &String,
        name: String,
        ttl: u64,
        now: u64,
    ) -> (d: Decision)
        requires
            old(self).well_formed(),
            now + ttl <= u64::MAX,
        ensures
            final(self).well_formed(),
            d == spec_authorize(presented.deep_view(), configured@),
            d == Decision::Authorized ==> final(self)@ == spec_upsert(
                old(self)@,
                name@,
                (now + ttl) as u64,
            ),
            d != Decision::Authorized ==> *final(self) == *old(self),
    {
        let d = authorize(presented, configured);
        if matches!(d, Decision::Authorized) {
            self.upsert(name, ttl, now);
        }
        d
    }

    /// How many records the sequence holds, expired but not yet queried ones
    /// included.
    pub fn len(&self) -> (n: usize)
        ensures
            n == self.entries().len(),
    {
        self.records.len()
    }

    /// The deadline currently recorded for `name`. A read-only lookup: unlike
    /// `check`, it never evicts.
    pub fn deadline_of(&self, name: &str) -> (d: Option<u64>)
        requires
            self.well_formed(),
        ensures
            self@.dom().contains(name@) ==> d == Option::Some(self@[name@]),
            !self@.dom().contains(name@) ==> d == Option::None::<u64>,
    {
        let i = self.lower_bound(name);
        if i < self.records.len() {
            let c = compare_names(self.records[i].name.as_str(), name);
            if matches!(c, NameCmp::Equal) {
                proof {
                    assert(self.entries()[i as int].0 == name@);
                    lemma_map_at(self.entries(), i as int);
                }
                return Option::Some(self.records[i].deadline);
            }
        }
        proof {
            lemma_strictly_after(self.entries(), name@, i as int);
            lemma_absent(self.entries(), name@, i as int);
        }
        Option::None
    }

    /// The name stored at position `i` of the underlying sorted sequence.
    pub fn name_at(&self, i: usize) -> (n: &String)
        requires
            i < self.entries().len(),
        ensures
            n@ == self.entries()[i as int].0,
    {
        &self.records[i].name
    }
}

/// The announcement horizon a caller gets when it asks for none.
pub const DEFAULT_TTL: u64 = 15;

/// The horizon an announcement ends up with: the requested one, or the
/// default where none was supplied (the caller also hands over `None` for a
/// malformed request value — a deliberate leniency policy).
pub open spec fn spec_effective_ttl(requested: Option<u64>) -> u64 {
    match requested {
        Option::Some(t) => t,
        Option::None => DEFAULT_TTL,
    }
}

/// Apply the leniency policy for the announcement horizon.
pub fn effective_ttl(requested: Option<u64>) -> (ttl: u64)
    ensures
        ttl == spec_effective_ttl(requested),
{
    match requested {
        Option::Some(t) => t,
        Option::None => DEFAULT_TTL,
    }
}

} // verus!
