//! The boolean satisfiability backend: CNF formulas and solver sessions of
//! varisat, the satisfaction of clauses by assignments, and the two solving
//! procedures built on them (one model, every model).

use varisat::solver::Solver;
use varisat::{CnfFormula, ExtendFormula, Lit};
use vstd::prelude::*;

use crate::cnf::{
    blocking_clause, clause_bound, clause_holds, clause_within, clauses_within,
    lemma_clause_bound_within, lemma_blocking_clause, lemma_models_finite, lemma_models_push,
    lemma_var_bound_push_within, models, satisfies, var_bound, Literal, MAX_VARS,
};

verus! {

// ---------------------------------------------------------------------------
// varisat, as this library relies on it

#[verifier::external_type_specification]
#[verifier::external_body]
pub struct ExCnfFormula(CnfFormula);

#[verifier::external_type_specification]
#[verifier::external_body]
pub struct ExSolver<'a>(Solver<'a>);

/// The clauses of a formula, in the order in which they were added.
pub uninterp spec fn cnf_clauses(f: CnfFormula) -> Seq<Seq<(usize, bool)>>;

/// The variable count of a formula (`CnfFormula::var_count`).
pub uninterp spec fn cnf_var_count(f: CnfFormula) -> nat;

/// The clauses loaded into a solver, in the order in which they were added.
pub uninterp spec fn solver_clauses(s: Solver) -> Seq<Seq<(usize, bool)>>;

/// The model that a solver holds: present from a satisfiable `solve` until
/// the next clause is added (what `Solver::model` reports).
pub uninterp spec fn solver_model(s: Solver) -> Option<Seq<bool>>;

/// Relies on `CnfFormula::new`: a formula with no clause and no variable.
#[verifier::external_body]
pub(crate) fn cnf_new() -> (f: CnfFormula)
    ensures
        cnf_clauses(f) == Seq::<Seq<Literal>>::empty(),
        cnf_var_count(f) == 0,
{
    CnfFormula::new()
}

/// Relies on `ExtendFormula::new_var_iter` of `CnfFormula`: the `count` next
/// variables, numbered from the formula's variable count upwards (each
/// `new_var` returns `Var::from_index(var_count)` and increments the count,
/// which must stay within `Var::max_count()`).
#[verifier::external_body]
pub(crate) fn cnf_new_vars(f: &mut CnfFormula, count: usize) -> (vars: Vec<usize>)
    requires
        cnf_var_count(*old(f)) + count <= MAX_VARS,
    ensures
        vars@.len() == count,
        forall|k: int| 0 <= k < count ==> vars@[k] == cnf_var_count(*old(f)) + k,
        cnf_var_count(*final(f)) == cnf_var_count(*old(f)) + count,
        cnf_clauses(*final(f)) == cnf_clauses(*old(f)),
{
    f.new_var_iter(count).map(|v| v.index()).collect()
}

/// Relies on `ExtendFormula::add_clause` of `CnfFormula`: the clause is
/// appended as given, and the variable count grows to cover each of its
/// literals (`Lit::from_index` needs indices below `Var::max_count()`).
#[verifier::external_body]
pub(crate) fn cnf_add_clause(f: &mut CnfFormula, clause: &Vec<Literal>)
    requires
        clause_within(clause@, MAX_VARS as int),
    ensures
        cnf_clauses(*final(f)) == cnf_clauses(*old(f)).push(clause@),
        cnf_var_count(*final(f)) == if cnf_var_count(*old(f)) < clause_bound(clause@) {
            clause_bound(clause@)
        } else {
            cnf_var_count(*old(f))
        },
{
    let lits: Vec<Lit> = clause.iter().map(|&(v, p)| Lit::from_index(v, p)).collect();
    f.add_clause(&lits);
}

/// Relies on `CnfFormula::iter`: the clauses in the order in which they were
/// added.
#[verifier::external_body]
pub(crate) fn cnf_clause_list(f: &CnfFormula) -> (r: Vec<Vec<Literal>>)
    ensures
        r@.len() == cnf_clauses(*f).len(),
        forall|k: int| 0 <= k < r@.len() ==> (#[trigger] r@[k])@ == cnf_clauses(*f)[k],
{
    f.iter().map(|c| c.iter().map(|l| (l.index(), l.is_positive())).collect()).collect()
}

/// Relies on `Solver::new`: a session with no clause.
#[verifier::external_body]
pub(crate) fn solver_new<'a>() -> (s: Solver<'a>)
    ensures
        solver_clauses(s) == Seq::<Seq<Literal>>::empty(),
{
    Solver::new()
}

/// Relies on `Solver::add_formula`: every clause of the formula is loaded, in
/// order, as `ExtendFormula::add_clause` loads one.
#[verifier::external_body]
pub(crate) fn solver_add_formula(s: &mut Solver, f: &CnfFormula)
    ensures
        solver_clauses(*final(s)) == solver_clauses(*old(s)) + cnf_clauses(*f),
{
    s.add_formula(f);
}

/// Relies on `ExtendFormula::add_clause` of `Solver`: the clause is loaded.
#[verifier::external_body]
pub(crate) fn solver_add_clause(s: &mut Solver, clause: &Vec<Literal>)
    requires
        clause_within(clause@, MAX_VARS as int),
    ensures
        solver_clauses(*final(s)) == solver_clauses(*old(s)).push(clause@),
{
    let lits: Vec<Lit> = clause.iter().map(|&(v, p)| Lit::from_index(v, p)).collect();
    s.add_clause(&lits);
}

/// Relies on `Solver::solve`: it decides the clauses loaded so far, and it
/// fails only through a proof writer or processor, which this library never
/// attaches. When it answers `true` the session holds a model that assigns
/// every user variable below the largest index that the clauses mention,
/// which `Solver::model` then lists.
#[verifier::external_body]
pub(crate) fn solver_solve(s: &mut Solver) -> (sat: bool)
    ensures
        solver_clauses(*final(s)) == solver_clauses(*old(s)),
        sat ==> (solver_model(*final(s)) matches Some(m) && m.len() == var_bound(
            solver_clauses(*old(s)),
        ) && satisfies(m, solver_clauses(*old(s)))),
        !sat ==> models(solver_clauses(*old(s)), var_bound(solver_clauses(*old(s)))).is_empty(),
{
    s.solve().unwrap_or(false)
}

/// Relies on `Solver::model`: while the session holds a model, one literal
/// per variable, in variable order.
#[verifier::external_body]
pub(crate) fn solver_model_lits(s: &Solver) -> (r: Option<Vec<Literal>>)
    ensures
        solver_model(*s) matches Some(m) ==> (r matches Some(v) && v@.len() == m.len() && forall|
            k: int,
        | 0 <= k < m.len() ==> (#[trigger] v@[k]) == (k as usize, m[k])),
{
    s.model().map(|m| m.iter().map(|l| (l.index(), l.is_positive())).collect())
}

/// Copying a formula clause by clause.
pub trait CnfFormulaExtension {
    /// The clauses of the formula.
    spec fn clause_seq(&self) -> Seq<Seq<Literal>>;

    /// A new formula with the same clauses, in the same order.
    fn clone(&self) -> (r: CnfFormula)
        requires
            clauses_within(self.clause_seq(), MAX_VARS as int),
        ensures
            cnf_clauses(r) == self.clause_seq(),
    ;
}

impl CnfFormulaExtension for CnfFormula {
    open spec fn clause_seq(&self) -> Seq<Seq<Literal>> {
        cnf_clauses(*self)
    }

    fn clone(&self) -> (r: CnfFormula) {
        assert(self.clause_seq() == cnf_clauses(*self));
        let clauses = cnf_clause_list(self);
        let mut cnf = cnf_new();
        let mut k: usize = 0;
        while k < clauses.len()
            invariant
                k <= clauses@.len(),
                clauses@.len() == cnf_clauses(*self).len(),
                forall|j: int| 0 <= j < clauses@.len() ==> (#[trigger] clauses@[j])@ == cnf_clauses(*self)[j],
                clauses_within(cnf_clauses(*self), MAX_VARS as int),
                cnf_clauses(cnf) =~= cnf_clauses(*self).subrange(0, k as int),
            decreases clauses@.len() - k,
        {
            assert(clause_within(cnf_clauses(*self)[k as int], MAX_VARS as int));
            cnf_add_clause(&mut cnf, &clauses[k]);
            k = k + 1;
        }
        assert(cnf_clauses(*self).subrange(0, clauses@.len() as int) =~= cnf_clauses(*self));
        cnf
    }
}

// ---------------------------------------------------------------------------
// Formulas over argument variables

/// The variables of each argument: accepted (`i`), rejected (`o`) and
/// undecided (`u`), indexed by argument.
pub struct Vars {
    pub i: Vec<usize>,
    pub o: Vec<usize>,
    pub u: Vec<usize>,
}

/// A formula together with the variables of the arguments it speaks of.
pub struct Formula {
    pub vars: Vars,
    pub cnf: CnfFormula,
}

impl Formula {
    /// The formula holds exactly the `3n` variables of the `n` arguments:
    /// `0..n` (accepted), `n..2n` (rejected) and `2n..3n` (undecided).
    pub open spec fn laid_out(&self, n: nat) -> bool {
        &&& cnf_var_count(self.cnf) == 3 * n
        &&& self.vars.i@.len() == n
        &&& self.vars.o@.len() == n
        &&& self.vars.u@.len() == n
        &&& forall|k: int| 0 <= k < n ==> #[trigger] self.vars.i@[k] == k
        &&& forall|k: int| 0 <= k < n ==> #[trigger] self.vars.o@[k] == n + k
        &&& forall|k: int| 0 <= k < n ==> #[trigger] self.vars.u@[k] == 2 * n + k
    }
}

impl Formula {
    /// Appends a clause over the formula's variables; the variables stay the
    /// same.
    pub fn add_clause(&mut self, clause: &Vec<Literal>)
        requires
            clause_within(clause@, cnf_var_count(old(self).cnf) as int),
            cnf_var_count(old(self).cnf) <= MAX_VARS,
        ensures
            final(self).vars == old(self).vars,
            cnf_clauses(final(self).cnf) == cnf_clauses(old(self).cnf).push(clause@),
            cnf_var_count(final(self).cnf) == cnf_var_count(old(self).cnf),
    {
        proof {
            lemma_clause_bound_within(clause@, cnf_var_count(self.cnf));
        }
        cnf_add_clause(&mut self.cnf, clause);
    }
}

// ---------------------------------------------------------------------------
// Solving

/// The values of a model given literal by literal in variable order.
fn model_values(lits: &Vec<Literal>, Ghost(m): Ghost<Seq<bool>>) -> (r: Vec<bool>)
    requires
        lits@.len() == m.len(),
        forall|k: int| 0 <= k < m.len() ==> (#[trigger] lits@[k]) == (k as usize, m[k]),
    ensures
        r@ == m,
{
    let mut r: Vec<bool> = Vec::new();
    let mut k: usize = 0;
    while k < lits.len()
        invariant
            lits@.len() == m.len(),
            forall|j: int| 0 <= j < m.len() ==> (#[trigger] lits@[j]) == (j as usize, m[j]),
            k <= lits@.len(),
            r@ == m.subrange(0, k as int),
        decreases lits@.len() - k,
    {
        r.push(lits[k].1);
        k = k + 1;
    }
    assert(r@ =~= m);
    r
}

/// The clause that every assignment of the same length but `m` satisfies.
fn blocking(m: &Vec<bool>) -> (r: Vec<Literal>)
    ensures
        r@ == blocking_clause(m@),
{
    let mut r: Vec<Literal> = Vec::new();
    let mut k: usize = 0;
    while k < m.len()
        invariant
            k <= m@.len(),
            r@ =~= blocking_clause(m@).subrange(0, k as int),
        decreases m@.len() - k,
    {
        r.push((k, !m[k]));
        k = k + 1;
    }
    assert(r@ =~= blocking_clause(m@));
    r
}

/// Solving procedures over a fresh varisat session per call.
pub struct SAT {}

impl SAT {
    /// One model of `cnf` over the variables that its clauses mention, or
    /// `None` when it has none.
    pub fn solve(cnf: &CnfFormula) -> (r: Option<Vec<bool>>)
        ensures
            match r {
                Some(m) => models(cnf_clauses(*cnf), var_bound(cnf_clauses(*cnf))).contains(m@),
                None => models(cnf_clauses(*cnf), var_bound(cnf_clauses(*cnf))).is_empty(),
            },
    {
        let mut solver = solver_new();
        solver_add_formula(&mut solver, cnf);
        assert(solver_clauses(solver) =~= cnf_clauses(*cnf));
        if solver_solve(&mut solver) {
            let ghost m = solver_model(solver)->Some_0;
            match solver_model_lits(&solver) {
                Some(lits) => Some(model_values(&lits, Ghost(m))),
                None => None,
            }
        } else {
            None
        }
    }

    /// Every model of `cnf` over the variables that its clauses mention, each
    /// once: each model found is excluded from the session by its blocking
    /// clause until no model is left.
    pub fn enumerate(cnf: &CnfFormula) -> (r: Vec<Vec<bool>>)
        requires
            var_bound(cnf_clauses(*cnf)) <= MAX_VARS,
        ensures
            forall|k: int|
                0 <= k < r@.len() ==> models(cnf_clauses(*cnf), var_bound(cnf_clauses(*cnf))).contains(
                    (#[trigger] r@[k])@,
                ),
            forall|a: Seq<bool>|
                #[trigger] models(cnf_clauses(*cnf), var_bound(cnf_clauses(*cnf))).contains(a)
                    ==> exists|k: int| 0 <= k < r@.len() && (#[trigger] r@[k])@ == a,
            forall|i: int, j: int| 0 <= i < j < r@.len() ==> (#[trigger] r@[i])@ != (#[trigger] r@[j])@,
    {
        let ghost base = cnf_clauses(*cnf);
        let ghost len = var_bound(base);
        let mut solver = solver_new();
        solver_add_formula(&mut solver, cnf);
        assert(solver_clauses(solver) =~= base);
        let mut result: Vec<Vec<bool>> = Vec::new();
        loop
            invariant
                len == var_bound(base),
                len <= MAX_VARS,
                var_bound(solver_clauses(solver)) == len,
                forall|a: Seq<bool>| #[trigger]
                    models(solver_clauses(solver), len).contains(a) <==> models(base, len).contains(a)
                        && forall|k: int| 0 <= k < result@.len() ==> (#[trigger] result@[k])@ != a,
                forall|k: int| 0 <= k < result@.len() ==> models(base, len).contains((#[trigger] result@[k])@),
                forall|i: int, j: int|
                    0 <= i < j < result@.len() ==> (#[trigger] result@[i])@ != (#[trigger] result@[j])@,
            ensures
                models(solver_clauses(solver), len).is_empty(),
            decreases models(solver_clauses(solver), len).len(),
        {
            let ghost before = solver_clauses(solver);
            if !solver_solve(&mut solver) {
                break;
            }
            let ghost m = solver_model(solver)->Some_0;
            let lits = match solver_model_lits(&solver) {
                Some(lits) => lits,
                None => break,
            };
            let model = model_values(&lits, Ghost(m));
            let block = blocking(&model);
            proof {
                assert(models(before, len).contains(m));
                assert forall|k: int| 0 <= k < block@.len() implies (#[trigger] block@[k]).0 < len by {}
                lemma_var_bound_push_within(before, block@);
                lemma_models_push(before, block@, len);
                lemma_models_finite(before, len);
                assert forall|a: Seq<bool>| #[trigger] models(before, len).contains(a) implies (
                clause_holds(a, block@) <==> a != m) by {
                    lemma_blocking_clause(a, m);
                }
                assert(models(before.push(block@), len) =~= models(before, len).remove(m));
            }
            let ghost old_result = result@;
            result.push(model);
            solver_add_clause(&mut solver, &block);
            proof {
                let r = result@;
                assert(r == old_result.push(model));
                assert(forall|k: int| 0 <= k < old_result.len() ==> r[k] == #[trigger] old_result[k]);
                assert(solver_clauses(solver) == before.push(block@));
                assert(r[r.len() - 1]@ == m);
                assert forall|a: Seq<bool>| #[trigger]
                    models(solver_clauses(solver), len).contains(a) <==> models(base, len).contains(a)
                        && forall|k: int| 0 <= k < r.len() ==> (#[trigger] r[k])@ != a by {
                    assert(models(solver_clauses(solver), len).contains(a) <==> models(before, len).contains(a) && a != m);
                    if models(base, len).contains(a) && forall|k: int| 0 <= k < r.len() ==> (#[trigger] r[k])@ != a {
                        assert forall|k: int| 0 <= k < old_result.len() implies (#[trigger] old_result[k])@ != a by {
                            assert(r[k]@ != a);
                        }
                        assert(models(before, len).contains(a));
                        assert(r[r.len() - 1]@ != a);
                    }
                    if models(solver_clauses(solver), len).contains(a) {
                        assert forall|k: int| 0 <= k < r.len() implies (#[trigger] r[k])@ != a by {
                            if k < r.len() - 1 {
                                assert(models(before, len).contains(a));
                                assert(old_result[k]@ != a);
                            }
                        }
                    }
                }
            }
        }
        assert forall|a: Seq<bool>| #[trigger] models(base, len).contains(a) implies exists|k: int|
            0 <= k < result@.len() && (#[trigger] result@[k])@ == a by {
            assert(!models(solver_clauses(solver), len).contains(a));
        }
        result
    }
}

} // verus!
