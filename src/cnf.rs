//! Clauses over numbered boolean variables, and what it means for an
//! assignment to satisfy them.

use vstd::prelude::*;

verus! {

/// A literal: a variable index and its polarity (`true` for the variable
/// itself, `false` for its negation).
pub type Literal = (usize, bool);

/// Number of variables that varisat supports (`Var::max_count()`).
pub const MAX_VARS: usize = 0x1000_0000;

/// Literal `l` is true under assignment `a`.
pub open spec fn lit_holds(a: Seq<bool>, l: Literal) -> bool {
    (l.0 as int) < a.len() && a[l.0 as int] == l.1
}

/// Some literal of clause `c` is true under `a`.
pub open spec fn clause_holds(a: Seq<bool>, c: Seq<Literal>) -> bool {
    exists|k: int| 0 <= k < c.len() && lit_holds(a, #[trigger] c[k])
}

/// Every clause of `cs` is true under `a`.
pub open spec fn satisfies(a: Seq<bool>, cs: Seq<Seq<Literal>>) -> bool {
    forall|k: int| 0 <= k < cs.len() ==> clause_holds(a, #[trigger] cs[k])
}

/// One more than the largest variable index in `c` (0 for no literal).
pub open spec fn clause_bound(c: Seq<Literal>) -> nat
    decreases c.len(),
{
    if c.len() == 0 {
        0
    } else {
        let rest = clause_bound(c.drop_last());
        let here = (c.last().0 + 1) as nat;
        if rest < here { here } else { rest }
    }
}

/// One more than the largest variable index in `cs`: the number of variables
/// that a model of `cs` assigns.
pub open spec fn var_bound(cs: Seq<Seq<Literal>>) -> nat
    decreases cs.len(),
{
    if cs.len() == 0 {
        0
    } else {
        let rest = var_bound(cs.drop_last());
        let here = clause_bound(cs.last());
        if rest < here { here } else { rest }
    }
}

/// Every variable of `c` is below `bound`.
pub open spec fn clause_within(c: Seq<Literal>, bound: int) -> bool {
    forall|k: int| 0 <= k < c.len() ==> (#[trigger] c[k]).0 < bound
}

/// Every variable of `cs` is below `bound`.
pub open spec fn clauses_within(cs: Seq<Seq<Literal>>, bound: int) -> bool {
    forall|k: int| 0 <= k < cs.len() ==> clause_within(#[trigger] cs[k], bound)
}

/// The assignments of exactly `len` variables that satisfy `cs`.
pub open spec fn models(cs: Seq<Seq<Literal>>, len: nat) -> Set<Seq<bool>> {
    Set::new(|a: Seq<bool>| a.len() == len && satisfies(a, cs))
}

/// The clause that every assignment but `m` satisfies.
pub open spec fn blocking_clause(m: Seq<bool>) -> Seq<Literal> {
    Seq::new(m.len(), |k: int| (k as usize, !m[k]))
}

/// Assignments of `len` variables.
pub open spec fn assignments(len: nat) -> Set<Seq<bool>> {
    Set::new(|a: Seq<bool>| a.len() == len)
}

/// There are finitely many assignments of `len` variables.
pub proof fn lemma_assignments_finite(len: nat)
    ensures
        assignments(len).finite(),
    decreases len,
{
    if len == 0 {
        assert forall|a: Seq<bool>| #[trigger] assignments(0).contains(a) <==> set![
            Seq::<bool>::empty(),
        ].contains(a) by {
            if a.len() == 0 {
                assert(a =~= Seq::<bool>::empty());
            }
        }
        assert(assignments(0) =~= set![Seq::<bool>::empty()]);
    } else {
        let prev = assignments((len - 1) as nat);
        lemma_assignments_finite((len - 1) as nat);
        let with_false = prev.map(|a: Seq<bool>| a.push(false));
        let with_true = prev.map(|a: Seq<bool>| a.push(true));
        prev.lemma_map_finite(|a: Seq<bool>| a.push(false));
        prev.lemma_map_finite(|a: Seq<bool>| a.push(true));
        assert forall|a: Seq<bool>| #[trigger] assignments(len).contains(a) implies (
        with_false + with_true).contains(a) by {
            let p = a.drop_last();
            assert(prev.contains(p));
            if a.last() {
                assert(a =~= p.push(true));
            } else {
                assert(a =~= p.push(false));
            }
        }
        vstd::set_lib::lemma_set_subset_finite(with_false + with_true, assignments(len));
    }
}

/// The models of `cs` over `len` variables are finitely many.
pub proof fn lemma_models_finite(cs: Seq<Seq<Literal>>, len: nat)
    ensures
        models(cs, len).finite(),
{
    lemma_assignments_finite(len);
    vstd::set_lib::lemma_set_subset_finite(assignments(len), models(cs, len));
}

/// Satisfying a clause list extended by one clause.
pub proof fn lemma_satisfies_push(a: Seq<bool>, cs: Seq<Seq<Literal>>, c: Seq<Literal>)
    ensures
        satisfies(a, cs.push(c)) <==> satisfies(a, cs) && clause_holds(a, c),
{
    if satisfies(a, cs.push(c)) {
        assert forall|k: int| 0 <= k < cs.len() implies clause_holds(a, #[trigger] cs[k]) by {
            assert(cs.push(c)[k] == cs[k]);
        }
        assert(cs.push(c)[cs.len() as int] == c);
    }
}

/// Satisfying two clause lists one after the other.
pub proof fn lemma_satisfies_concat(a: Seq<bool>, cs: Seq<Seq<Literal>>, ds: Seq<Seq<Literal>>)
    ensures
        satisfies(a, cs + ds) <==> satisfies(a, cs) && satisfies(a, ds),
{
    if satisfies(a, cs + ds) {
        assert forall|k: int| 0 <= k < cs.len() implies clause_holds(a, #[trigger] cs[k]) by {
            assert((cs + ds)[k] == cs[k]);
        }
        assert forall|k: int| 0 <= k < ds.len() implies clause_holds(a, #[trigger] ds[k]) by {
            assert((cs + ds)[cs.len() + k] == ds[k]);
        }
    }
    if satisfies(a, cs) && satisfies(a, ds) {
        assert forall|k: int| 0 <= k < (cs + ds).len() implies clause_holds(
            a,
            #[trigger] (cs + ds)[k],
        ) by {
            if k < cs.len() {
                assert((cs + ds)[k] == cs[k]);
            } else {
                assert((cs + ds)[k] == ds[k - cs.len()]);
            }
        }
    }
}

/// The blocking clause of `m` holds exactly for the other assignments of its
/// length.
pub proof fn lemma_blocking_clause(a: Seq<bool>, m: Seq<bool>)
    requires
        a.len() == m.len(),
        m.len() <= usize::MAX,
    ensures
        clause_holds(a, blocking_clause(m)) <==> a != m,
{
    let b = blocking_clause(m);
    if a == m {
        assert forall|k: int| 0 <= k < b.len() implies !lit_holds(a, #[trigger] b[k]) by {}
    } else {
        if forall|k: int| 0 <= k < a.len() ==> a[k] == m[k] {
            assert(a =~= m);
        }
        let k = choose|k: int| 0 <= k < a.len() && a[k] != m[k];
        assert(lit_holds(a, b[k]));
    }
}

/// A clause whose variables are below `bound` raises no bound past it.
pub proof fn lemma_clause_bound_within(c: Seq<Literal>, bound: nat)
    requires
        clause_within(c, bound as int),
    ensures
        clause_bound(c) <= bound,
    decreases c.len(),
{
    if c.len() > 0 {
        let p = c.drop_last();
        assert forall|k: int| 0 <= k < p.len() implies (#[trigger] p[k]).0 < bound by {
            assert(p[k] == c[k]);
        }
        lemma_clause_bound_within(p, bound);
        assert(c[c.len() - 1].0 < bound);
    }
}

/// Appending a clause whose variables are below the current bound keeps the
/// bound.
pub proof fn lemma_var_bound_push_within(cs: Seq<Seq<Literal>>, c: Seq<Literal>)
    requires
        clause_within(c, var_bound(cs) as int),
    ensures
        var_bound(cs.push(c)) == var_bound(cs),
{
    lemma_clause_bound_within(c, var_bound(cs));
    assert(cs.push(c).drop_last() =~= cs);
}

/// Adding a clause to a clause list takes away exactly the assignments that
/// fail it.
pub proof fn lemma_models_push(cs: Seq<Seq<Literal>>, c: Seq<Literal>, len: nat)
    ensures
        models(cs.push(c), len) == models(cs, len).filter(|a: Seq<bool>| clause_holds(a, c)),
{
    assert forall|a: Seq<bool>| #[trigger] models(cs.push(c), len).contains(a) <==> models(
        cs,
        len,
    ).filter(|a: Seq<bool>| clause_holds(a, c)).contains(a) by {
        lemma_satisfies_push(a, cs, c);
    }
    assert(models(cs.push(c), len) =~= models(cs, len).filter(|a: Seq<bool>| clause_holds(a, c)));
}

/// Every variable of a clause is below its bound.
pub proof fn lemma_clause_bound_above(c: Seq<Literal>, k: int)
    requires
        0 <= k < c.len(),
    ensures
        c[k].0 < clause_bound(c),
    decreases c.len(),
{
    if k < c.len() - 1 {
        lemma_clause_bound_above(c.drop_last(), k);
        assert(c.drop_last()[k] == c[k]);
    }
}

/// The bound of a clause list covers each of its clauses.
pub proof fn lemma_var_bound_above(cs: Seq<Seq<Literal>>, k: int)
    requires
        0 <= k < cs.len(),
    ensures
        clause_bound(cs[k]) <= var_bound(cs),
    decreases cs.len(),
{
    if k < cs.len() - 1 {
        lemma_var_bound_above(cs.drop_last(), k);
        assert(cs.drop_last()[k] == cs[k]);
    }
}

/// A clause list whose variables are below `bound` has its bound at most
/// `bound`.
pub proof fn lemma_var_bound_within(cs: Seq<Seq<Literal>>, bound: nat)
    requires
        clauses_within(cs, bound as int),
    ensures
        var_bound(cs) <= bound,
    decreases cs.len(),
{
    if cs.len() > 0 {
        let p = cs.drop_last();
        assert forall|k: int| 0 <= k < p.len() implies clause_within(#[trigger] p[k], bound as int) by {
            assert(p[k] == cs[k]);
        }
        lemma_var_bound_within(p, bound);
        lemma_clause_bound_within(cs.last(), bound);
    }
}

/// The bound of a clause list whose variables are below `bound` and one of
/// whose literals has variable `bound - 1`.
pub proof fn lemma_var_bound_exact(cs: Seq<Seq<Literal>>, bound: nat, k: int, j: int)
    requires
        clauses_within(cs, bound as int),
        0 <= k < cs.len(),
        0 <= j < cs[k].len(),
        cs[k][j].0 == bound - 1,
    ensures
        var_bound(cs) == bound,
{
    lemma_var_bound_within(cs, bound);
    lemma_var_bound_above(cs, k);
    lemma_clause_bound_above(cs[k], j);
}

/// Variables below a bound, in two clause lists one after the other.
pub proof fn lemma_within_concat(cs: Seq<Seq<Literal>>, ds: Seq<Seq<Literal>>, bound: int)
    requires
        clauses_within(cs, bound),
        clauses_within(ds, bound),
    ensures
        clauses_within(cs + ds, bound),
{
    assert forall|k: int| 0 <= k < (cs + ds).len() implies clause_within(#[trigger] (cs + ds)[k], bound) by {
        if k < cs.len() {
            assert((cs + ds)[k] == cs[k]);
        } else {
            assert((cs + ds)[k] == ds[k - cs.len()]);
        }
    }
}

/// A clause extended by one literal.
pub proof fn lemma_clause_push(a: Seq<bool>, c: Seq<Literal>, l: Literal)
    ensures
        clause_holds(a, c.push(l)) <==> clause_holds(a, c) || lit_holds(a, l),
{
    let d = c.push(l);
    if clause_holds(a, d) {
        let k = choose|k: int| 0 <= k < d.len() && lit_holds(a, #[trigger] d[k]);
        if k < c.len() {
            assert(lit_holds(a, c[k]));
        }
    }
    if clause_holds(a, c) {
        let k = choose|k: int| 0 <= k < c.len() && lit_holds(a, #[trigger] c[k]);
        assert(lit_holds(a, d[k]));
    }
    if lit_holds(a, l) {
        assert(lit_holds(a, d[c.len() as int]));
    }
}

} // verus!
