//! Labellings and the semantics that select them: complete, stable and
//! preferred.

use crate::af::Attack;
use vstd::prelude::*;
use vstd::string::StringExecFns;

verus! {

/// The status of one argument in a labelling.
#[derive(Debug, Clone, Copy, PartialEq, Eq, Structural)]
pub enum Acceptability {
    IN,
    OUT,
    UNDEC,
}

/// One status per argument, aligned with the argument indices.
#[derive(Debug, Clone, PartialEq, Eq)]
pub struct Labelling(pub Vec<Acceptability>);

impl View for Labelling {
    type V = Seq<Acceptability>;

    open spec fn view(&self) -> Seq<Acceptability> {
        self.0@
    }
}

/// Argument `j` attacks argument `i`.
pub open spec fn attacks_on(attacks: Seq<Attack>, j: int, i: int) -> bool {
    exists|k: int| 0 <= k < attacks.len() && attacks[k].0 == j && attacks[k].1 == i
}

/// Every attack joins two of the arguments `0..n`.
pub open spec fn attacks_within(attacks: Seq<Attack>, n: nat) -> bool {
    forall|k: int| 0 <= k < attacks.len() ==> (#[trigger] attacks[k]).0 < n && attacks[k].1 < n
}

/// The labelling conditions at argument `i`: it is accepted exactly when all
/// its attackers are rejected, and rejected exactly when some attacker is
/// accepted.
pub open spec fn complete_at(attacks: Seq<Attack>, l: Seq<Acceptability>, i: int) -> bool {
    &&& (l[i] == Acceptability::IN <==> forall|j: int| #[trigger]
        attacks_on(attacks, j, i) ==> l[j] == Acceptability::OUT)
    &&& (l[i] == Acceptability::OUT <==> exists|j: int| #[trigger]
        attacks_on(attacks, j, i) && l[j] == Acceptability::IN)
}

/// `l` is a complete labelling of the framework with arguments `0..n`.
pub open spec fn is_complete(n: nat, attacks: Seq<Attack>, l: Seq<Acceptability>) -> bool {
    &&& l.len() == n
    &&& forall|i: int| 0 <= i < n ==> #[trigger] complete_at(attacks, l, i)
}

/// `l` is a complete labelling that leaves no argument undecided.
pub open spec fn is_stable(n: nat, attacks: Seq<Attack>, l: Seq<Acceptability>) -> bool {
    &&& is_complete(n, attacks, l)
    &&& forall|i: int| 0 <= i < n ==> #[trigger] l[i] != Acceptability::UNDEC
}

/// The arguments that `l` accepts.
pub open spec fn accepted(l: Seq<Acceptability>) -> Set<int> {
    Set::new(|i: int| 0 <= i < l.len() && l[i] == Acceptability::IN)
}

/// `s` is a strict subset of `t`.
pub open spec fn strict_subset(s: Set<int>, t: Set<int>) -> bool {
    s.subset_of(t) && s != t
}

/// `l` is a complete labelling whose accepted arguments no other complete
/// labelling strictly extends.
pub open spec fn is_preferred(n: nat, attacks: Seq<Attack>, l: Seq<Acceptability>) -> bool {
    &&& is_complete(n, attacks, l)
    &&& forall|l2: Seq<Acceptability>| #[trigger]
        is_complete(n, attacks, l2) ==> !strict_subset(accepted(l), accepted(l2))
}

/// `r` lists the labellings of `s`, each exactly once.
pub open spec fn lists_exactly(r: Seq<Labelling>, s: Set<Seq<Acceptability>>) -> bool {
    &&& forall|k: int| 0 <= k < r.len() ==> s.contains(#[trigger] r[k]@)
    &&& forall|l: Seq<Acceptability>| #[trigger]
        s.contains(l) ==> exists|k: int| 0 <= k < r.len() && r[k]@ == l
    &&& forall|i: int, j: int| 0 <= i < j < r.len() ==> (#[trigger] r[i])@ != (#[trigger] r[j])@
}

/// Two complete labellings that accept the same arguments are equal: the
/// rejected arguments are those attacked by an accepted one.
pub proof fn lemma_complete_by_accepted(
    n: nat,
    attacks: Seq<Attack>,
    l: Seq<Acceptability>,
    m: Seq<Acceptability>,
)
    requires
        attacks_within(attacks, n),
        is_complete(n, attacks, l),
        is_complete(n, attacks, m),
        accepted(l) == accepted(m),
    ensures
        l == m,
{
    assert forall|i: int| 0 <= i < n implies l[i] == m[i] by {
        assert(complete_at(attacks, l, i));
        assert(complete_at(attacks, m, i));
        if l[i] == Acceptability::IN {
            assert(accepted(l).contains(i));
            assert(accepted(m).contains(i));
        } else if m[i] == Acceptability::IN {
            assert(accepted(m).contains(i));
            assert(accepted(l).contains(i));
        } else if l[i] == Acceptability::OUT {
            let j = choose|j: int| #[trigger] attacks_on(attacks, j, i) && l[j] == Acceptability::IN;
            let q = choose|q: int| 0 <= q < attacks.len() && attacks[q].0 == j && attacks[q].1 == i;
            assert(attacks[q].0 < n);
            assert(accepted(l).contains(j));
            assert(accepted(m).contains(j));
            assert(attacks_on(attacks, j, i) && m[j] == Acceptability::IN);
        } else if m[i] == Acceptability::OUT {
            let j = choose|j: int| #[trigger] attacks_on(attacks, j, i) && m[j] == Acceptability::IN;
            let q = choose|q: int| 0 <= q < attacks.len() && attacks[q].0 == j && attacks[q].1 == i;
            assert(attacks[q].0 < n);
            assert(accepted(m).contains(j));
            assert(accepted(l).contains(j));
            assert(attacks_on(attacks, j, i) && l[j] == Acceptability::IN);
        }
    }
    assert(l =~= m);
}

/// One round of the grounded construction from the labelling `l`: accept
/// whatever has all attackers rejected, reject whatever has an accepted
/// attacker.
pub open spec fn grounded_step(n: nat, attacks: Seq<Attack>, l: Seq<Acceptability>) -> Seq<
    Acceptability,
> {
    Seq::new(
        n,
        |i: int|
            if forall|j: int| #[trigger] attacks_on(attacks, j, i) ==> l[j] == Acceptability::OUT {
                Acceptability::IN
            } else if exists|j: int| #[trigger] attacks_on(attacks, j, i) && l[j] == Acceptability::IN {
                Acceptability::OUT
            } else {
                Acceptability::UNDEC
            },
    )
}

/// The labelling after `k` rounds of the grounded construction.
pub open spec fn grounded_iter(n: nat, attacks: Seq<Attack>, k: nat) -> Seq<Acceptability>
    decreases k,
{
    if k == 0 {
        Seq::new(n, |i: int| Acceptability::UNDEC)
    } else {
        grounded_step(n, attacks, grounded_iter(n, attacks, (k - 1) as nat))
    }
}

/// `l` decides at least what `m` decides, the same way.
pub open spec fn extends(l: Seq<Acceptability>, m: Seq<Acceptability>) -> bool {
    &&& l.len() == m.len()
    &&& forall|i: int| 0 <= i < m.len() && #[trigger] m[i] != Acceptability::UNDEC ==> l[i] == m[i]
}

/// The number of decided arguments of `l`.
pub open spec fn decided_count(l: Seq<Acceptability>) -> nat
    decreases l.len(),
{
    if l.len() == 0 {
        0
    } else {
        decided_count(l.drop_last()) + if l.last() != Acceptability::UNDEC { 1nat } else { 0nat }
    }
}

proof fn lemma_decided_count(l: Seq<Acceptability>, m: Seq<Acceptability>)
    requires
        extends(l, m),
    ensures
        decided_count(m) <= decided_count(l),
        decided_count(m) == decided_count(l) ==> l == m,
        decided_count(l) <= l.len(),
    decreases l.len(),
{
    if l.len() > 0 {
        let (lp, mp) = (l.drop_last(), m.drop_last());
        assert forall|i: int| 0 <= i < mp.len() && #[trigger] mp[i] != Acceptability::UNDEC implies lp[i] == mp[i] by {
            assert(m[i] != Acceptability::UNDEC);
        }
        lemma_decided_count(lp, mp);
        if decided_count(m) == decided_count(l) {
            assert(lp == mp);
            assert(l.last() == m.last());
            assert(l =~= mp.push(m.last()));
            assert(m =~= mp.push(m.last()));
        }
    } else {
        assert(l =~= m);
    }
}

/// The rounds of the grounded construction never decide an argument both
/// ways, and each keeps what the one before decided.
proof fn lemma_grounded_iter(n: nat, attacks: Seq<Attack>, k: nat)
    requires
        attacks_within(attacks, n),
    ensures
        grounded_iter(n, attacks, k).len() == n,
        extends(grounded_iter(n, attacks, k + 1), grounded_iter(n, attacks, k)),
    decreases k,
{
    let cur = grounded_iter(n, attacks, k);
    let next = grounded_iter(n, attacks, k + 1);
    if k > 0 {
        let prev = grounded_iter(n, attacks, (k - 1) as nat);
        lemma_grounded_iter(n, attacks, (k - 1) as nat);
        assert forall|i: int| 0 <= i < n && #[trigger] cur[i] != Acceptability::UNDEC implies next[i] == cur[i] by {
            if cur[i] == Acceptability::IN {
                assert forall|j: int| #[trigger] attacks_on(attacks, j, i) implies cur[j] == Acceptability::OUT by {
                    let q = choose|q: int| 0 <= q < attacks.len() && attacks[q].0 == j && attacks[q].1 == i;
                    assert(attacks[q].0 < n);
                    assert(prev[j] == Acceptability::OUT);
                }
            } else {
                let j = choose|j: int| #[trigger] attacks_on(attacks, j, i) && prev[j] == Acceptability::IN;
                let q = choose|q: int| 0 <= q < attacks.len() && attacks[q].0 == j && attacks[q].1 == i;
                assert(attacks[q].0 < n);
                assert(cur[j] == Acceptability::IN);
                assert(!(forall|j: int| #[trigger] attacks_on(attacks, j, i) ==> cur[j] == Acceptability::OUT));
            }
        }
    }
}

/// The decided count grows with every round that changes the labelling, so
/// the rounds from `k` on reach a fixpoint.
proof fn lemma_grounded_fixpoint(n: nat, attacks: Seq<Attack>, k: nat) -> (j: nat)
    requires
        attacks_within(attacks, n),
        decided_count(grounded_iter(n, attacks, k)) >= k,
    ensures
        grounded_iter(n, attacks, j + 1) == grounded_iter(n, attacks, j),
    decreases n + 1 - k,
{
    lemma_grounded_iter(n, attacks, k);
    lemma_decided_count(grounded_iter(n, attacks, k + 1), grounded_iter(n, attacks, k));
    lemma_grounded_iter(n, attacks, k + 1);
    if grounded_iter(n, attacks, k + 1) == grounded_iter(n, attacks, k) {
        k
    } else {
        lemma_grounded_fixpoint(n, attacks, k + 1)
    }
}

/// Every framework has a complete labelling (the grounded one).
pub proof fn lemma_complete_exists(n: nat, attacks: Seq<Attack>)
    requires
        attacks_within(attacks, n),
    ensures
        exists|l: Seq<Acceptability>| is_complete(n, attacks, l),
{
    let k = lemma_grounded_fixpoint(n, attacks, 0);
    let g = grounded_iter(n, attacks, k);
    lemma_grounded_iter(n, attacks, k);
    assert(g == grounded_step(n, attacks, g));
    assert forall|i: int| 0 <= i < n implies #[trigger] complete_at(attacks, g, i) by {
        assert(g[i] == grounded_step(n, attacks, g)[i]);
    }
    assert(is_complete(n, attacks, g));
}

/// The semantics that a framework can be asked for.
#[derive(Debug, PartialEq, Eq, Clone, Copy, Structural)]
pub enum SemanticsType {
    COMPLETE,
    GROUNDED,
    PREFERRED,
    STABLE,
}

/// The display name of a semantics.
pub open spec fn semantics_name(t: SemanticsType) -> Seq<char> {
    match t {
        SemanticsType::COMPLETE => "Complete"@,
        SemanticsType::GROUNDED => "Grounded"@,
        SemanticsType::PREFERRED => "Preferred"@,
        SemanticsType::STABLE => "Stable"@,
    }
}

/// The semantics named `name`; any name that is not one of the others reads
/// as the stable semantics.
pub open spec fn semantics_named(name: Seq<char>) -> SemanticsType {
    if name == "Complete"@ {
        SemanticsType::COMPLETE
    } else if name == "Grounded"@ {
        SemanticsType::GROUNDED
    } else if name == "Preferred"@ {
        SemanticsType::PREFERRED
    } else {
        SemanticsType::STABLE
    }
}

/// The position of a semantics in the order of their names.
pub open spec fn semantics_index(t: SemanticsType) -> usize {
    match t {
        SemanticsType::COMPLETE => 0,
        SemanticsType::GROUNDED => 1,
        SemanticsType::PREFERRED => 2,
        SemanticsType::STABLE => 3,
    }
}

impl SemanticsType {
    /// The display name.
    pub fn name(self) -> (r: String)
        ensures
            r@ == semantics_name(self),
    {
        match self {
            SemanticsType::COMPLETE => String::from_str("Complete"),
            SemanticsType::GROUNDED => String::from_str("Grounded"),
            SemanticsType::PREFERRED => String::from_str("Preferred"),
            SemanticsType::STABLE => String::from_str("Stable"),
        }
    }

    /// The semantics named `name` (the stable one for an unknown name).
    pub fn from_name(name: &String) -> (r: SemanticsType)
        ensures
            r == semantics_named(name@),
    {
        if *name == String::from_str("Complete") {
            SemanticsType::COMPLETE
        } else if *name == String::from_str("Grounded") {
            SemanticsType::GROUNDED
        } else if *name == String::from_str("Preferred") {
            SemanticsType::PREFERRED
        } else {
            SemanticsType::STABLE
        }
    }
}

impl From<SemanticsType> for String {
    fn from(t: SemanticsType) -> String {
        t.name()
    }
}

impl vstd::std_specs::convert::FromSpecImpl<SemanticsType> for String {
    open spec fn obeys_from_spec() -> bool {
        false
    }

    open spec fn from_spec(t: SemanticsType) -> String {
        arbitrary()
    }
}

impl From<String> for SemanticsType {
    fn from(value: String) -> SemanticsType {
        SemanticsType::from_name(&value)
    }
}

impl vstd::std_specs::convert::FromSpecImpl<String> for SemanticsType {
    open spec fn obeys_from_spec() -> bool {
        true
    }

    open spec fn from_spec(value: String) -> SemanticsType {
        semantics_named(value@)
    }
}

impl From<SemanticsType> for usize {
    fn from(t: SemanticsType) -> usize {
        match t {
            SemanticsType::COMPLETE => 0,
            SemanticsType::GROUNDED => 1,
            SemanticsType::PREFERRED => 2,
            SemanticsType::STABLE => 3,
        }
    }
}

impl vstd::std_specs::convert::FromSpecImpl<SemanticsType> for usize {
    open spec fn obeys_from_spec() -> bool {
        true
    }

    open spec fn from_spec(t: SemanticsType) -> usize {
        semantics_index(t)
    }
}

/// The labellings that each semantics selects, and the queries that compute
/// them.
pub trait Semantics {
    /// The framework is small enough for the backend (three variables per
    /// argument).
    spec fn encodable(&self) -> bool;

    /// The complete labellings.
    spec fn complete_labellings(&self) -> Set<Seq<Acceptability>>;

    /// The stable labellings.
    spec fn stable_labellings(&self) -> Set<Seq<Acceptability>>;

    /// The preferred labellings.
    spec fn preferred_labellings(&self) -> Set<Seq<Acceptability>>;

    /// Every complete labelling, each once.
    fn complete(&self) -> (r: Vec<Labelling>)
        requires
            self.encodable(),
        ensures
            lists_exactly(r@, self.complete_labellings()),
    ;

    /// Every stable labelling, each once.
    fn stable(&self) -> (r: Vec<Labelling>)
        requires
            self.encodable(),
        ensures
            lists_exactly(r@, self.stable_labellings()),
    ;

    /// Every preferred labelling, each once.
    fn preferred(&self) -> (r: Vec<Labelling>)
        requires
            self.encodable(),
        ensures
            lists_exactly(r@, self.preferred_labellings()),
    ;

    /// The labellings of the semantics `criteria`; none for the grounded
    /// semantics, which is not computed.
    fn get_semantics(&self, criteria: SemanticsType) -> (r: Vec<Labelling>)
        requires
            self.encodable(),
        ensures
            criteria == SemanticsType::COMPLETE ==> lists_exactly(r@, self.complete_labellings()),
            criteria == SemanticsType::GROUNDED ==> r@.len() == 0,
            criteria == SemanticsType::PREFERRED ==> lists_exactly(r@, self.preferred_labellings()),
            criteria == SemanticsType::STABLE ==> lists_exactly(r@, self.stable_labellings()),
    {
        match criteria {
            SemanticsType::COMPLETE => self.complete(),
            SemanticsType::GROUNDED => Vec::new(),
            SemanticsType::PREFERRED => self.preferred(),
            SemanticsType::STABLE => self.stable(),
        }
    }
}

} // verus!
