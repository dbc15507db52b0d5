//! Argumentation frameworks: arguments `0..n` and an attack relation.

use crate::cnf::{
    clause_holds, clause_within, clauses_within, lemma_models_finite, lemma_satisfies_concat,
    lemma_satisfies_push, lemma_var_bound_push_within, models, satisfies, var_bound, Literal,
    MAX_VARS,
};
use crate::encoder::{
    accepted_clauses, arg_clauses, attacker_table, complete_clauses, complete_clauses_upto,
    complete_model, decode, defended_clause, encodes, encodes_at, in_set, lemma_accepted_in_set,
    lemma_complete_clauses, lemma_complete_formula_bound, lemma_decoded_models,
    lemma_not_empty_clause, lemma_stable_clauses, not_empty_clause, one_status_clauses,
    rejected_clause, rejecting_clauses, stable_clauses,
};
use crate::encoding::Enconding;
use crate::preferred::{
    accepting_complete_models, all_undecided, compute_preferred_candidate, exclusion_clause,
    excludes_found, lemma_candidate_preferred, lemma_found_all_preferred, lemma_only_undecided,
};
use crate::sat::{
    cnf_clauses, cnf_new, cnf_new_vars, cnf_var_count, CnfFormulaExtension, Formula, Vars, SAT,
};
use crate::semantics::{
    attacks_on, attacks_within, is_complete, is_preferred, is_stable, lists_exactly,
    Acceptability, Labelling, Semantics,
};
use varisat::CnfFormula;
use vstd::prelude::*;

verus! {

/// An attack from its first argument (the origin) on its second (the target).
#[derive(Debug, Clone, Copy, PartialEq, Eq, Structural)]
pub struct Attack(pub usize, pub usize);

/// One more than the largest argument index that `attacks` mentions (0 when
/// there is no attack).
pub open spec fn args_mentioned(attacks: Seq<Attack>) -> nat
    decreases attacks.len(),
{
    if attacks.len() == 0 {
        0
    } else {
        let rest = args_mentioned(attacks.drop_last());
        let a = attacks.last();
        let here = (if a.0 < a.1 { a.1 } else { a.0 }) + 1;
        if rest < here { here as nat } else { rest }
    }
}

/// The labels of `ls` without repeats, in the order in which they first
/// appear.
pub open spec fn distinct_labels(ls: Seq<Seq<char>>) -> Seq<Seq<char>>
    decreases ls.len(),
{
    if ls.len() == 0 {
        Seq::empty()
    } else {
        let d = distinct_labels(ls.drop_last());
        if d.contains(ls.last()) { d } else { d.push(ls.last()) }
    }
}

/// The position of label `x` in `names`.
pub open spec fn label_index(names: Seq<Seq<char>>, x: Seq<char>) -> int {
    choose|i: int| 0 <= i < names.len() && names[i] == x
}

/// The attacks between labels of `names`, by index; an attack that names an
/// unknown label is dropped.
pub open spec fn resolve_attacks(names: Seq<Seq<char>>, atts: Seq<(Seq<char>, Seq<char>)>) -> Seq<
    Attack,
>
    decreases atts.len(),
{
    if atts.len() == 0 {
        Seq::empty()
    } else {
        let rest = resolve_attacks(names, atts.drop_last());
        let (o, t) = atts.last();
        if names.contains(o) && names.contains(t) {
            rest.push(Attack(label_index(names, o) as usize, label_index(names, t) as usize))
        } else {
            rest
        }
    }
}

proof fn lemma_distinct_labels(ls: Seq<Seq<char>>)
    ensures
        distinct_labels(ls).no_duplicates(),
        forall|x: Seq<char>| #[trigger] distinct_labels(ls).contains(x) <==> ls.contains(x),
        distinct_labels(ls).len() <= ls.len(),
    decreases ls.len(),
{
    if ls.len() > 0 {
        let p = ls.drop_last();
        lemma_distinct_labels(p);
        assert forall|x: Seq<char>| #[trigger] distinct_labels(ls).contains(x) <==> ls.contains(x) by {
            if p.contains(x) {
                let i = choose|i: int| 0 <= i < p.len() && p[i] == x;
                assert(ls[i] == x);
            }
            if ls.contains(x) {
                let i = choose|i: int| 0 <= i < ls.len() && ls[i] == x;
                if i < ls.len() - 1 {
                    assert(p[i] == x);
                }
            }
            let d = distinct_labels(p);
            if !d.contains(ls.last()) && d.push(ls.last()).contains(x) {
                let i = choose|i: int| 0 <= i < d.push(ls.last()).len() && d.push(ls.last())[i] == x;
                if i < d.len() {
                    assert(d[i] == x);
                }
            }
            if d.contains(x) {
                let i = choose|i: int| 0 <= i < d.len() && d[i] == x;
                assert(d.push(ls.last())[i] == x);
            }
            if x == ls.last() {
                assert(d.push(ls.last())[d.len() as int] == x);
            }
        }
    }
}

/// The origins of the attacks on argument `i`, in the order of `attacks`,
/// repeats kept.
pub open spec fn attackers_of(attacks: Seq<Attack>, i: int) -> Seq<usize> {
    attacks.filter(|a: Attack| a.1 == i).map_values(|a: Attack| a.0)
}

/// The position of a string equal to `x` in `names`, if any.
fn position(names: &Vec<String>, x: &String) -> (r: Option<usize>)
    ensures
        match r {
            Some(i) => i < names@.len() && names@[i as int]@ == x@,
            None => !names@.map_values(|s: String| s@).contains(x@),
        },
{
    let mut i: usize = 0;
    while i < names.len()
        invariant
            i <= names@.len(),
            forall|j: int| 0 <= j < i ==> (#[trigger] names@[j])@ != x@,
        decreases names@.len() - i,
    {
        if names[i].eq(x) {
            return Some(i);
        }
        i = i + 1;
    }
    proof {
        if names@.map_values(|s: String| s@).contains(x@) {
            let v = names@.map_values(|s: String| s@);
            let j = choose|j: int| 0 <= j < v.len() && #[trigger] v[j] == x@;
            assert(names@[j]@ != x@);
        }
    }
    None
}

/// An argumentation framework, immutable once built.
#[derive(Debug)]
pub struct AF {
    num_of_args: usize,
    attacks: Vec<Attack>,
    names: Option<Vec<String>>,
}

impl AF {
    #[verifier::type_invariant]
    spec fn well_formed(&self) -> bool {
        &&& attacks_within(self.attacks@, self.num_of_args as nat)
        &&& self.names matches Some(v) ==> v@.len() == self.num_of_args
    }

    /// The number of arguments.
    pub closed spec fn arg_count(&self) -> nat {
        self.num_of_args as nat
    }

    /// The attacks, as given.
    pub closed spec fn attack_seq(&self) -> Seq<Attack> {
        self.attacks@
    }

    /// The argument names by index, when the framework has them.
    pub closed spec fn name_seq(&self) -> Option<Seq<Seq<char>>> {
        match self.names {
            Some(v) => Some(v@.map_values(|s: String| s@)),
            None => None,
        }
    }

    /// Creates a new Argumentation Framework from an attack relation.
    /// The framework has arguments 0, 1, ..., max; where max is the highest
    /// number in `attacks`.
    pub fn new(attacks: Vec<Attack>) -> (r: AF)
        requires
            forall|k: int| 0 <= k < attacks@.len() ==> (#[trigger] attacks@[k]).0 < usize::MAX
                && attacks@[k].1 < usize::MAX,
        ensures
            r.arg_count() == args_mentioned(attacks@),
            r.attack_seq() == attacks@,
            r.name_seq() is None,
    {
        let mut n: usize = 0;
        let mut k: usize = 0;
        while k < attacks.len()
            invariant
                k <= attacks@.len(),
                forall|j: int| 0 <= j < attacks@.len() ==> (#[trigger] attacks@[j]).0 < usize::MAX
                    && attacks@[j].1 < usize::MAX,
                n == args_mentioned(attacks@.subrange(0, k as int)),
                attacks_within(attacks@.subrange(0, k as int), n as nat),
            decreases attacks@.len() - k,
        {
            let Attack(origin, target) = attacks[k];
            let here = if origin < target { target + 1 } else { origin + 1 };
            assert(attacks@.subrange(0, k + 1).drop_last() =~= attacks@.subrange(0, k as int));
            if n < here {
                n = here;
            }
            k = k + 1;
        }
        assert(attacks@.subrange(0, attacks@.len() as int) =~= attacks@);
        AF { num_of_args: n, attacks, names: None }
    }

    /// Creates a framework whose argument `i` is called `names[i]`; the
    /// attacks refer to the arguments by index. The names come as the table
    /// from index to name, which holds the same as a table from name to index
    /// whose indices are `0..n`.
    pub fn new_named(attacks: Vec<Attack>, names: Vec<String>) -> (r: AF)
        requires
            attacks_within(attacks@, names@.len()),
        ensures
            r.arg_count() == names@.len(),
            r.attack_seq() == attacks@,
            r.name_seq() == Some(names@.map_values(|s: String| s@)),
    {
        AF { num_of_args: names.len(), attacks, names: Some(names) }
    }

    /// The framework that a text declares: its distinct labels in the order
    /// of first appearance are the arguments, and each attack between two
    /// declared labels is kept. A text that could not be read gives the
    /// empty framework.
    pub fn from_encoding(enc: Enconding) -> (r: AF)
        ensures
            enc matches Enconding::SIMPLE(labels, attacks) ==> {
                let names = distinct_labels(labels@.map_values(|s: String| s@));
                &&& r.name_seq() == Some(names)
                &&& r.arg_count() == names.len()
                &&& r.attack_seq() == resolve_attacks(
                    names,
                    attacks@.map_values(|p: (String, String)| (p.0@, p.1@)),
                )
            },
            enc is ERROR ==> r.arg_count() == 0 && r.attack_seq().len() == 0 && r.name_seq() is None,
    {
        match enc {
            Enconding::SIMPLE(labels, attacks) => {
                let ghost ls = labels@.map_values(|s: String| s@);
                let ghost pairs = attacks@.map_values(|p: (String, String)| (p.0@, p.1@));
                let mut names: Vec<String> = Vec::new();
                let mut k: usize = 0;
                while k < labels.len()
                    invariant
                        k <= labels@.len(),
                        ls == labels@.map_values(|s: String| s@),
                        names@.map_values(|s: String| s@) == distinct_labels(ls.subrange(0, k as int)),
                    decreases labels@.len() - k,
                {
                    let ghost before = names@.map_values(|s: String| s@);
                    assert(ls.subrange(0, k + 1).drop_last() =~= ls.subrange(0, k as int));
                    assert(ls.subrange(0, k + 1).last() == ls[k as int]);
                    match position(&names, &labels[k]) {
                        Some(i) => {
                            assert(before[i as int] == ls[k as int]);
                        },
                        None => {
                            names.push(labels[k].clone());
                            assert(names@.map_values(|s: String| s@) =~= before.push(ls[k as int]));
                        },
                    }
                    k = k + 1;
                }
                assert(ls.subrange(0, labels@.len() as int) =~= ls);
                let ghost nv = names@.map_values(|s: String| s@);
                proof {
                    lemma_distinct_labels(ls);
                }
                let mut att: Vec<Attack> = Vec::new();
                let mut k: usize = 0;
                while k < attacks.len()
                    invariant
                        k <= attacks@.len(),
                        pairs == attacks@.map_values(|p: (String, String)| (p.0@, p.1@)),
                        nv == names@.map_values(|s: String| s@),
                        nv.no_duplicates(),
                        att@ == resolve_attacks(nv, pairs.subrange(0, k as int)),
                        attacks_within(att@, names@.len()),
                    decreases attacks@.len() - k,
                {
                    assert(pairs.subrange(0, k + 1).drop_last() =~= pairs.subrange(0, k as int));
                    let (origin, target) = (&attacks[k].0, &attacks[k].1);
                    match (position(&names, origin), position(&names, target)) {
                        (Some(o), Some(t)) => {
                            proof {
                                assert(nv[o as int] == pairs[k as int].0);
                                assert(nv[t as int] == pairs[k as int].1);
                                assert(nv.contains(pairs[k as int].0));
                                assert(nv.contains(pairs[k as int].1));
                                let oi = label_index(nv, pairs[k as int].0);
                                let ti = label_index(nv, pairs[k as int].1);
                                assert(oi == o);
                                assert(ti == t);
                            }
                            att.push(Attack(o, t));
                        },
                        _ => {},
                    }
                    k = k + 1;
                }
                assert(pairs.subrange(0, attacks@.len() as int) =~= pairs);
                AF::new_named(att, names)
            },
            Enconding::ERROR(_) => AF::new(Vec::new()),
        }
    }

    /// The number of arguments.
    pub fn num_of_args(&self) -> (n: usize)
        ensures
            n == self.arg_count(),
    {
        self.num_of_args
    }

    /// The attacks.
    pub fn attacks(&self) -> (r: &Vec<Attack>)
        ensures
            r@ == self.attack_seq(),
            attacks_within(r@, self.arg_count()),
    {
        proof {
            use_type_invariant(self);
        }
        &self.attacks
    }

    /// The name of each argument by index, when the framework has names.
    pub fn names_by_index(&self) -> (r: Option<Vec<&str>>)
        ensures
            r is Some <==> self.name_seq() is Some,
            r matches Some(v) ==> v@.len() == self.arg_count() && forall|i: int|
                0 <= i < v@.len() ==> (#[trigger] v@[i])@ == self.name_seq()->Some_0[i],
    {
        proof {
            use_type_invariant(self);
        }
        match &self.names {
            Some(names) => {
                let mut by_index: Vec<&str> = Vec::new();
                let mut i: usize = 0;
                while i < names.len()
                    invariant
                        i <= names@.len(),
                        by_index@.len() == i,
                        forall|j: int| 0 <= j < i ==> (#[trigger] by_index@[j])@ == names@[j]@,
                    decreases names@.len() - i,
                {
                    by_index.push(names[i].as_str());
                    i = i + 1;
                }
                Some(by_index)
            },
            None => None,
        }
    }

    /// For each argument, the origins of the attacks on it.
    pub fn attacker_map(&self) -> (r: Vec<Vec<usize>>)
        ensures
            r@.len() == self.arg_count(),
            forall|i: int| 0 <= i < r@.len() ==> (#[trigger] r@[i])@ == attackers_of(self.attack_seq(), i),
            forall|i: int, j: usize|
                0 <= i < r@.len() ==> ((#[trigger] r@[i]@.contains(j)) <==> attacks_on(
                    self.attack_seq(),
                    j as int,
                    i,
                )),
            forall|i: int, k: int|
                0 <= i < r@.len() && 0 <= k < r@[i]@.len() ==> (#[trigger] r@[i]@[k]) < self.arg_count(),
    {
        proof {
            use_type_invariant(self);
        }
        let n = self.num_of_args;
        let mut result: Vec<Vec<usize>> = Vec::new();
        let mut arg: usize = 0;
        while arg < n
            invariant
                arg <= n,
                n == self.num_of_args,
                attacks_within(self.attacks@, n as nat),
                result@.len() == arg,
                forall|i: int| 0 <= i < arg ==> (#[trigger] result@[i])@ == attackers_of(self.attacks@, i),
                forall|i: int, j: usize|
                    0 <= i < arg ==> ((#[trigger] result@[i]@.contains(j)) <==> attacks_on(
                        self.attacks@,
                        j as int,
                        i,
                    )),
                forall|i: int, k: int|
                    0 <= i < arg && 0 <= k < result@[i]@.len() ==> (#[trigger] result@[i]@[k]) < n,
            decreases n - arg,
        {
            let mut attackers: Vec<usize> = Vec::new();
            let mut k: usize = 0;
            while k < self.attacks.len()
                invariant
                    k <= self.attacks@.len(),
                    arg < n,
                    attacks_within(self.attacks@, n as nat),
                    forall|j: usize|
                        #[trigger] attackers@.contains(j) <==> exists|m: int|
                            0 <= m < k && (#[trigger] self.attacks@[m]).0 == j && self.attacks@[m].1
                                == arg,
                    forall|m: int| 0 <= m < attackers@.len() ==> (#[trigger] attackers@[m]) < n,
                    attackers@ == attackers_of(self.attacks@.subrange(0, k as int), arg as int),
                decreases self.attacks@.len() - k,
            {
                let Attack(origin, target) = self.attacks[k];
                let ghost before = attackers@;
                if target == arg {
                    attackers.push(origin);
                }
                proof {
                    let prefix = self.attacks@.subrange(0, k + 1);
                    assert(prefix.drop_last() =~= self.attacks@.subrange(0, k as int));
                    assert(prefix.last() == self.attacks@[k as int]);
                    reveal_with_fuel(Seq::filter, 1);
                    let p = |a: Attack| a.1 == arg as int;
                    let f = |a: Attack| a.0;
                    if target == arg {
                        assert(prefix.filter(p) == prefix.drop_last().filter(p).push(prefix.last()));
                        assert(prefix.filter(p).map_values(f) =~= prefix.drop_last().filter(p).map_values(f).push(origin));
                    } else {
                        assert(prefix.filter(p) == prefix.drop_last().filter(p));
                    }
                    assert forall|j: usize|
                        #[trigger] attackers@.contains(j) <==> exists|m: int|
                            0 <= m < k + 1 && (#[trigger] self.attacks@[m]).0 == j
                                && self.attacks@[m].1 == arg by {
                        if attackers@.contains(j) && !before.contains(j) {
                            assert(self.attacks@[k as int].0 == j);
                        }
                        if exists|m: int|
                            0 <= m < k + 1 && (#[trigger] self.attacks@[m]).0 == j
                                && self.attacks@[m].1 == arg {
                            let m = choose|m: int|
                                0 <= m < k + 1 && (#[trigger] self.attacks@[m]).0 == j
                                    && self.attacks@[m].1 == arg;
                            if m == k {
                                assert(attackers@[attackers@.len() - 1] == j);
                            } else {
                                assert(before.contains(j));
                                let p = choose|p: int| 0 <= p < before.len() && before[p] == j;
                                assert(attackers@[p] == j);
                            }
                        }
                    }
                }
                k = k + 1;
            }
            assert(self.attacks@.subrange(0, self.attacks@.len() as int) =~= self.attacks@);
            result.push(attackers);
            arg = arg + 1;
        }
        result
    }

    /// The labelling that a model stands for: argument `i` is accepted if its
    /// accepted variable is true, else rejected if its rejected variable is
    /// true, else undecided.
    pub fn label(&self, model: &Vec<bool>) -> (r: Labelling)
        requires
            model@.len() >= 2 * self.arg_count(),
        ensures
            r@ == decode(self.arg_count(), model@),
    {
        let n = self.num_of_args;
        let len = model.len();
        let mut statuses: Vec<Acceptability> = Vec::new();
        let mut i: usize = 0;
        while i < n
            invariant
                n == self.arg_count(),
                len == model@.len(),
                len >= 2 * n,
                i <= n,
                statuses@ =~= decode(n as nat, model@).subrange(0, i as int),
            decreases n - i,
        {
            let status = if model[i] {
                Acceptability::IN
            } else if model[n + i] {
                Acceptability::OUT
            } else {
                Acceptability::UNDEC
            };
            statuses.push(status);
            i = i + 1;
        }
        assert(statuses@ =~= decode(n as nat, model@));
        Labelling(statuses)
    }

    /// A formula with no clause over fresh variables for the arguments.
    pub fn create_formula(&self) -> (f: Formula)
        requires
            3 * self.arg_count() <= MAX_VARS,
        ensures
            f.laid_out(self.arg_count()),
            cnf_var_count(f.cnf) == 3 * self.arg_count(),
            cnf_clauses(f.cnf) == Seq::<Seq<Literal>>::empty(),
    {
        let n = self.num_of_args;
        let mut cnf = cnf_new();
        let i = cnf_new_vars(&mut cnf, n);
        let o = cnf_new_vars(&mut cnf, n);
        let u = cnf_new_vars(&mut cnf, n);
        Formula { vars: Vars { i, o, u }, cnf }
    }

    /// Adds the clauses of argument `i` with attackers `attackers`.
    fn add_arg_clauses(&self, formula: &mut Formula, i: usize, attackers: &Vec<usize>)
        requires
            old(formula).laid_out(self.arg_count()),
            3 * self.arg_count() <= MAX_VARS,
            i < self.arg_count(),
            forall|k: int| 0 <= k < attackers@.len() ==> (#[trigger] attackers@[k]) < self.arg_count(),
        ensures
            final(formula).vars == old(formula).vars,
            cnf_var_count(final(formula).cnf) == cnf_var_count(old(formula).cnf),
            cnf_clauses(final(formula).cnf) == cnf_clauses(old(formula).cnf) + arg_clauses(
                self.arg_count(),
                attackers@,
                i as int,
            ),
    {
        let ghost n = self.arg_count();
        let ghost start = cnf_clauses(formula.cnf);
        let ghost atts = attackers@;
        let x = formula.vars.i[i];
        let y = formula.vars.o[i];
        let z = formula.vars.u[i];
        assert(formula.vars.i@[i as int] == i && formula.vars.o@[i as int] == n + i
            && formula.vars.u@[i as int] == 2 * n + i);
        let ghost one = one_status_clauses(n, i as int);
        let c = vec![(x, true), (y, true), (z, true)];
        assert(c@ =~= one[0]);
        formula.add_clause(&c);
        let c = vec![(x, false), (y, false)];
        assert(c@ =~= one[1]);
        formula.add_clause(&c);
        let c = vec![(x, false), (z, false)];
        assert(c@ =~= one[2]);
        formula.add_clause(&c);
        let c = vec![(y, false), (z, false)];
        assert(c@ =~= one[3]);
        formula.add_clause(&c);
        assert(cnf_clauses(formula.cnf) =~= start + one);
        if attackers.len() == 0 {
            let ghost units = seq![
                seq![(i as usize, true)],
                seq![((n + i) as usize, false)],
                seq![((2 * n + i) as usize, false)],
            ];
            let c = vec![(x, true)];
            assert(c@ =~= units[0]);
            formula.add_clause(&c);
            let c = vec![(y, false)];
            assert(c@ =~= units[1]);
            formula.add_clause(&c);
            let c = vec![(z, false)];
            assert(c@ =~= units[2]);
            formula.add_clause(&c);
            assert(cnf_clauses(formula.cnf) =~= start + arg_clauses(n, atts, i as int));
            return;
        }
        // if every attacker is rejected, the argument is accepted
        let mut defended: Vec<Literal> = Vec::new();
        let mut k: usize = 0;
        while k < attackers.len()
            invariant
                formula.laid_out(n),
                formula.vars == old(formula).vars,
                3 * n <= MAX_VARS,
                atts == attackers@,
                forall|m: int| 0 <= m < atts.len() ==> (#[trigger] atts[m]) < n,
                k <= atts.len(),
                defended@ =~= atts.map_values(|j: usize| ((n + j) as usize, false)).subrange(0, k as int),
            decreases atts.len() - k,
        {
            let j = attackers[k];
            defended.push((formula.vars.o[j], false));
            k = k + 1;
        }
        defended.push((x, true));
        assert(defended@ =~= defended_clause(n, atts, i as int));
        formula.add_clause(&defended);
        let ghost mid = cnf_clauses(formula.cnf);
        assert(mid =~= start + one + seq![defended_clause(n, atts, i as int)]);
        // if the argument is accepted, each attacker is rejected
        let mut k: usize = 0;
        while k < attackers.len()
            invariant
                formula.laid_out(n),
                formula.vars == old(formula).vars,
                3 * n <= MAX_VARS,
                atts == attackers@,
                forall|m: int| 0 <= m < atts.len() ==> (#[trigger] atts[m]) < n,
                x == i,
                i < n,
                k <= atts.len(),
                cnf_clauses(formula.cnf) =~= mid + accepted_clauses(n, atts, i as int).subrange(0, k as int),
            decreases atts.len() - k,
        {
            let j = attackers[k];
            let c = vec![(x, false), (formula.vars.o[j], true)];
            assert(c@ =~= accepted_clauses(n, atts, i as int)[k as int]);
            formula.add_clause(&c);
            k = k + 1;
        }
        let ghost mid2 = cnf_clauses(formula.cnf);
        // if an attacker is accepted, the argument is rejected
        let mut k: usize = 0;
        while k < attackers.len()
            invariant
                formula.laid_out(n),
                formula.vars == old(formula).vars,
                3 * n <= MAX_VARS,
                atts == attackers@,
                forall|m: int| 0 <= m < atts.len() ==> (#[trigger] atts[m]) < n,
                y == n + i,
                i < n,
                k <= atts.len(),
                cnf_clauses(formula.cnf) =~= mid2 + rejecting_clauses(n, atts, i as int).subrange(0, k as int),
            decreases atts.len() - k,
        {
            let j = attackers[k];
            let c = vec![(formula.vars.i[j], false), (y, true)];
            assert(formula.vars.i@[j as int] == j);
            assert(clause_within(c@, MAX_VARS as int));
            assert(c@ =~= rejecting_clauses(n, atts, i as int)[k as int]);
            formula.add_clause(&c);
            k = k + 1;
        }
        let ghost mid3 = cnf_clauses(formula.cnf);
        // if the argument is rejected, some attacker is accepted
        let mut rejected: Vec<Literal> = Vec::new();
        let mut k: usize = 0;
        while k < attackers.len()
            invariant
                formula.laid_out(n),
                formula.vars == old(formula).vars,
                3 * n <= MAX_VARS,
                atts == attackers@,
                forall|m: int| 0 <= m < atts.len() ==> (#[trigger] atts[m]) < n,
                k <= atts.len(),
                rejected@ =~= atts.map_values(|j: usize| (j, true)).subrange(0, k as int),
            decreases atts.len() - k,
        {
            let j = attackers[k];
            rejected.push((formula.vars.i[j], true));
            k = k + 1;
        }
        rejected.push((y, false));
        assert(rejected@ =~= rejected_clause(n, atts, i as int));
        formula.add_clause(&rejected);
        assert(accepted_clauses(n, atts, i as int).subrange(0, atts.len() as int) =~= accepted_clauses(n, atts, i as int));
        assert(rejecting_clauses(n, atts, i as int).subrange(0, atts.len() as int) =~= rejecting_clauses(n, atts, i as int));
        assert(cnf_clauses(formula.cnf) =~= start + arg_clauses(n, atts, i as int));
    }

    /// Adds the clauses whose models are the encodings of the complete
    /// labellings.
    pub fn add_complete_clauses(&self, formula: &mut Formula)
        requires
            old(formula).laid_out(self.arg_count()),
            3 * self.arg_count() <= MAX_VARS,
        ensures
            final(formula).vars == old(formula).vars,
            cnf_var_count(final(formula).cnf) == cnf_var_count(old(formula).cnf),
            exists|amap: Seq<Seq<usize>>|
                attacker_table(amap, self.arg_count(), self.attack_seq()) && cnf_clauses(
                    final(formula).cnf,
                ) == cnf_clauses(old(formula).cnf) + complete_clauses(self.arg_count(), amap),
    {
        let n = self.num_of_args;
        let attacker_map = self.attacker_map();
        let ghost amap = attacker_map@.map_values(|v: Vec<usize>| v@);
        let ghost start = cnf_clauses(formula.cnf);
        assert(attacker_table(amap, n as nat, self.attacks@));
        let mut i: usize = 0;
        while i < n
            invariant
                n == self.arg_count(),
                3 * n <= MAX_VARS,
                i <= n,
                formula.laid_out(n as nat),
                formula.vars == old(formula).vars,
                attacker_map@.len() == n,
                amap == attacker_map@.map_values(|v: Vec<usize>| v@),
                attacker_table(amap, n as nat, self.attacks@),
                cnf_clauses(formula.cnf) == start + complete_clauses_upto(n as nat, amap, i as int),
            decreases n - i,
        {
            let attackers = &attacker_map[i];
            assert(attackers@ == amap[i as int]);
            self.add_arg_clauses(formula, i, attackers);
            assert(cnf_clauses(formula.cnf) =~= start + complete_clauses_upto(n as nat, amap, i + 1));
            i = i + 1;
        }
        assert(complete_clauses_upto(n as nat, amap, n as int) == complete_clauses(n as nat, amap));
        assert(attacker_table(amap, self.arg_count(), self.attack_seq()) && cnf_clauses(formula.cnf)
            == cnf_clauses(old(formula).cnf) + complete_clauses(self.arg_count(), amap));
    }

    /// Adds the complete encoding, then the clauses that leave no argument
    /// undecided.
    pub fn add_stable_clauses(&self, formula: &mut Formula)
        requires
            old(formula).laid_out(self.arg_count()),
            3 * self.arg_count() <= MAX_VARS,
        ensures
            final(formula).vars == old(formula).vars,
            cnf_var_count(final(formula).cnf) == cnf_var_count(old(formula).cnf),
            exists|amap: Seq<Seq<usize>>|
                attacker_table(amap, self.arg_count(), self.attack_seq()) && cnf_clauses(
                    final(formula).cnf,
                ) == cnf_clauses(old(formula).cnf) + complete_clauses(self.arg_count(), amap)
                    + stable_clauses(self.arg_count()),
    {
        self.add_complete_clauses(formula);
        let ghost n = self.arg_count();
        let ghost mid = cnf_clauses(formula.cnf);
        let mut i: usize = 0;
        while i < self.num_of_args
            invariant
                n == self.num_of_args,
                3 * n <= MAX_VARS,
                i <= n,
                formula.laid_out(n),
                formula.vars == old(formula).vars,
                cnf_clauses(formula.cnf) =~= mid + stable_clauses(n).subrange(0, i as int),
            decreases n - i,
        {
            let c = vec![(formula.vars.u[i], false)];
            assert(c@ =~= stable_clauses(n)[i as int]);
            formula.add_clause(&c);
            i = i + 1;
        }
        assert(stable_clauses(n).subrange(0, n as int) =~= stable_clauses(n));
        let ghost amap = choose|amap: Seq<Seq<usize>>|
            attacker_table(amap, self.arg_count(), self.attack_seq()) && mid == cnf_clauses(
                old(formula).cnf,
            ) + complete_clauses(self.arg_count(), amap);
        assert(attacker_table(amap, self.arg_count(), self.attack_seq()) && cnf_clauses(
            formula.cnf,
        ) == cnf_clauses(old(formula).cnf) + complete_clauses(self.arg_count(), amap)
            + stable_clauses(self.arg_count()));
    }

    /// Adds the clause that some argument is accepted.
    pub fn add_not_empty_clause(&self, formula: &mut Formula)
        requires
            old(formula).laid_out(self.arg_count()),
            3 * self.arg_count() <= MAX_VARS,
        ensures
            final(formula).vars == old(formula).vars,
            cnf_var_count(final(formula).cnf) == cnf_var_count(old(formula).cnf),
            cnf_clauses(final(formula).cnf) == cnf_clauses(old(formula).cnf).push(
                not_empty_clause(self.arg_count()),
            ),
    {
        let ghost n = self.arg_count();
        let mut clause: Vec<Literal> = Vec::new();
        let mut i: usize = 0;
        while i < self.num_of_args
            invariant
                n == self.num_of_args,
                3 * n <= MAX_VARS,
                i <= n,
                formula.laid_out(n),
                clause@ =~= not_empty_clause(n).subrange(0, i as int),
            decreases n - i,
        {
            clause.push((formula.vars.i[i], true));
            i = i + 1;
        }
        assert(clause@ =~= not_empty_clause(n));
        formula.add_clause(&clause);
    }

    /// Every labelling of `s`, each once, when the models of `formula` are
    /// exactly the encodings of the labellings of `s`.
    fn compute(&self, formula: &CnfFormula, Ghost(s): Ghost<Set<Seq<Acceptability>>>) -> (r: Vec<Labelling>)
        requires
            3 * self.arg_count() <= MAX_VARS,
            var_bound(cnf_clauses(*formula)) == 3 * self.arg_count(),
            forall|a: Seq<bool>|
                a.len() == 3 * self.arg_count() ==> (#[trigger] satisfies(a, cnf_clauses(*formula))
                    <==> encodes(self.arg_count(), a, decode(self.arg_count(), a)) && s.contains(
                    decode(self.arg_count(), a),
                )),
            forall|l: Seq<Acceptability>| #[trigger] s.contains(l) ==> l.len() == self.arg_count(),
        ensures
            lists_exactly(r@, s),
    {
        let models = SAT::enumerate(formula);
        let mut result: Vec<Labelling> = Vec::new();
        let mut k: usize = 0;
        while k < models.len()
            invariant
                k <= models@.len(),
                forall|j: int| 0 <= j < models@.len() ==> (#[trigger] models@[j])@.len() == var_bound(cnf_clauses(*formula)),
                var_bound(cnf_clauses(*formula)) == 3 * self.arg_count(),
                result@.len() == k,
                forall|j: int| 0 <= j < k ==> (#[trigger] result@[j])@ == decode(self.arg_count(), models@[j]@),
            decreases models@.len() - k,
        {
            let labelling = self.label(&models[k]);
            result.push(labelling);
            k = k + 1;
        }
        proof {
            lemma_decoded_models(self.arg_count(), cnf_clauses(*formula), s, models@, result@);
        }
        result
    }
}

impl From<Enconding> for AF {
    fn from(enc: Enconding) -> AF {
        AF::from_encoding(enc)
    }
}

impl vstd::std_specs::convert::FromSpecImpl<Enconding> for AF {
    open spec fn obeys_from_spec() -> bool {
        false
    }

    open spec fn from_spec(enc: Enconding) -> AF {
        arbitrary()
    }
}

impl Semantics for AF {
    open spec fn encodable(&self) -> bool {
        3 * self.arg_count() <= MAX_VARS
    }

    open spec fn complete_labellings(&self) -> Set<Seq<Acceptability>> {
        Set::new(|l: Seq<Acceptability>| is_complete(self.arg_count(), self.attack_seq(), l))
    }

    open spec fn stable_labellings(&self) -> Set<Seq<Acceptability>> {
        Set::new(|l: Seq<Acceptability>| is_stable(self.arg_count(), self.attack_seq(), l))
    }

    open spec fn preferred_labellings(&self) -> Set<Seq<Acceptability>> {
        Set::new(|l: Seq<Acceptability>| is_preferred(self.arg_count(), self.attack_seq(), l))
    }

    fn complete(&self) -> (r: Vec<Labelling>) {
        let mut formula = self.create_formula();
        self.add_complete_clauses(&mut formula);
        proof {
            let n = self.arg_count();
            let amap = choose|amap: Seq<Seq<usize>>|
                attacker_table(amap, n, self.attack_seq()) && cnf_clauses(formula.cnf)
                    == Seq::<Seq<Literal>>::empty() + complete_clauses(n, amap);
            let none = Seq::<Seq<Literal>>::empty();
            assert(cnf_clauses(formula.cnf) =~= complete_clauses(n, amap) + none);
            lemma_complete_formula_bound(n, amap, none);
            assert forall|a: Seq<bool>| a.len() == 3 * n implies (#[trigger] satisfies(
                a,
                cnf_clauses(formula.cnf),
            ) <==> encodes(n, a, decode(n, a)) && self.complete_labellings().contains(decode(n, a))) by {
                lemma_complete_clauses(n, self.attack_seq(), amap, a);
                assert(cnf_clauses(formula.cnf) =~= complete_clauses(n, amap));
            }
        }
        self.compute(&formula.cnf, Ghost(self.complete_labellings()))
    }

    fn stable(&self) -> (r: Vec<Labelling>) {
        let mut formula = self.create_formula();
        self.add_stable_clauses(&mut formula);
        proof {
            let n = self.arg_count();
            let amap = choose|amap: Seq<Seq<usize>>|
                attacker_table(amap, n, self.attack_seq()) && cnf_clauses(formula.cnf)
                    == Seq::<Seq<Literal>>::empty() + complete_clauses(n, amap) + stable_clauses(n);
            let cs = complete_clauses(n, amap);
            assert(cnf_clauses(formula.cnf) =~= cs + stable_clauses(n));
            lemma_stable_clauses(n, Seq::new(3 * n, |v: int| false));
            lemma_complete_formula_bound(n, amap, stable_clauses(n));
            assert forall|a: Seq<bool>| a.len() == 3 * n implies (#[trigger] satisfies(
                a,
                cnf_clauses(formula.cnf),
            ) <==> encodes(n, a, decode(n, a)) && self.stable_labellings().contains(decode(n, a))) by {
                let l = decode(n, a);
                lemma_complete_clauses(n, self.attack_seq(), amap, a);
                lemma_stable_clauses(n, a);
                lemma_satisfies_concat(a, cs, stable_clauses(n));
                if encodes(n, a, l) {
                    if forall|i: int| 0 <= i < n ==> !#[trigger] a[2 * n + i] {
                        assert forall|i: int| 0 <= i < n implies #[trigger] l[i] != Acceptability::UNDEC by {
                            assert(encodes_at(n, a, l, i));
                            assert(!a[2 * n + i]);
                        }
                    }
                    if forall|i: int| 0 <= i < n ==> #[trigger] l[i] != Acceptability::UNDEC {
                        assert forall|i: int| 0 <= i < n implies !#[trigger] a[2 * n + i] by {
                            assert(encodes_at(n, a, l, i));
                            assert(l[i] != Acceptability::UNDEC);
                        }
                    }
                }
            }
        }
        self.compute(&formula.cnf, Ghost(self.stable_labellings()))
    }

    /// Searches one subset-maximal model at a time: each search climbs from
    /// any model of the working copy by freezing its accepted arguments and
    /// demanding one more, and each model found is excluded from the next
    /// searches by a clause that demands an argument it does not accept.
    fn preferred(&self) -> (r: Vec<Labelling>) {
        proof {
            use_type_invariant(self);
        }
        let n = self.num_of_args;
        let ghost nn = n as nat;
        let ghost len = 3 * nn;
        let ghost attacks = self.attacks@;
        let mut labellings: Vec<Labelling> = Vec::new();
        let mut formula = self.create_formula();
        self.add_complete_clauses(&mut formula);
        self.add_not_empty_clause(&mut formula);
        let ghost base = cnf_clauses(formula.cnf);
        proof {
            let amap = choose|amap: Seq<Seq<usize>>|
                attacker_table(amap, nn, attacks) && base == (Seq::<Seq<Literal>>::empty()
                    + complete_clauses(nn, amap)).push(not_empty_clause(nn));
            let cs = complete_clauses(nn, amap);
            let extra = seq![not_empty_clause(nn)];
            assert(base =~= cs + extra);
            lemma_not_empty_clause(nn, Seq::new(len, |v: int| false));
            assert forall|k: int| 0 <= k < extra.len() implies clause_within(#[trigger] extra[k], len as int) by {}
            lemma_complete_formula_bound(nn, amap, extra);
            assert forall|a: Seq<bool>| a.len() == len implies (#[trigger] satisfies(a, base)
                <==> complete_model(nn, attacks, a) && in_set(nn, a) != Set::<int>::empty()) by {
                lemma_complete_clauses(nn, attacks, amap, a);
                lemma_not_empty_clause(nn, a);
                assert(base =~= cs.push(not_empty_clause(nn)));
                lemma_satisfies_push(a, cs, not_empty_clause(nn));
            }
            assert(accepting_complete_models(nn, attacks, base));
        }
        let ghost mut found: Seq<Seq<bool>> = Seq::empty();
        loop
            invariant
                n == self.arg_count(),
                nn == n,
                len == 3 * nn,
                attacks == self.attack_seq(),
                attacks_within(attacks, nn),
                3 * n <= MAX_VARS,
                formula.laid_out(nn),
                accepting_complete_models(nn, attacks, base),
                var_bound(cnf_clauses(formula.cnf)) == len,
                clauses_within(cnf_clauses(formula.cnf), len as int),
                excludes_found(nn, base, cnf_clauses(formula.cnf), found),
                labellings@.len() == found.len(),
                forall|k: int| 0 <= k < found.len() ==> (#[trigger] labellings@[k])@ == decode(nn, found[k]),
                forall|k: int| 0 <= k < found.len() ==> models(base, len).contains(#[trigger] found[k]),
                forall|k: int| 0 <= k < found.len() ==> is_preferred(nn, attacks, decode(nn, #[trigger] found[k])),
                forall|i: int, j: int|
                    0 <= i < j < labellings@.len() ==> (#[trigger] labellings@[i])@ != (#[trigger] labellings@[j])@,
            ensures
                models(cnf_clauses(formula.cnf), len).is_empty(),
            decreases models(cnf_clauses(formula.cnf), len).len(),
        {
            let ghost now = cnf_clauses(formula.cnf);
            let mut working = formula.cnf.clone();
            let candidate = compute_preferred_candidate(&mut working, &formula.vars, n);
            let c = match candidate {
                Some(c) => c,
                None => break,
            };
            let exclusion = exclusion_clause(&formula.vars, n, &c);
            let labelling = self.label(&c);
            proof {
                lemma_candidate_preferred(nn, attacks, base, now, found, c@);
                assert(satisfies(c@, now));
                assert forall|k: int| 0 <= k < found.len() implies (#[trigger] labellings@[k])@ != labelling@ by {
                    assert(!in_set(nn, c@).subset_of(in_set(nn, found[k])));
                    if decode(nn, found[k]) == decode(nn, c@) {
                        assert(satisfies(found[k], base));
                        lemma_accepted_in_set(nn, found[k], decode(nn, found[k]));
                        lemma_accepted_in_set(nn, c@, decode(nn, c@));
                    }
                }
                assert(clause_within(exclusion@, len as int));
                lemma_var_bound_push_within(now, exclusion@);
                assert forall|k: int| 0 <= k < now.push(exclusion@).len() implies clause_within(
                    #[trigger] now.push(exclusion@)[k],
                    len as int,
                ) by {
                    if k < now.len() {
                        assert(now.push(exclusion@)[k] == now[k]);
                    }
                }
                let fresh = found.push(c@);
                assert forall|a: Seq<bool>| a.len() == len implies (#[trigger] satisfies(a, now.push(exclusion@))
                    <==> satisfies(a, base) && forall|k: int|
                    0 <= k < fresh.len() ==> !in_set(nn, a).subset_of(in_set(nn, #[trigger] fresh[k]))) by {
                    lemma_satisfies_push(a, now, exclusion@);
                    if satisfies(a, now.push(exclusion@)) {
                        assert forall|k: int| 0 <= k < fresh.len() implies !in_set(nn, a).subset_of(
                            in_set(nn, #[trigger] fresh[k]),
                        ) by {
                            if k < found.len() {
                                assert(fresh[k] == found[k]);
                            }
                        }
                    }
                    if satisfies(a, base) && forall|k: int|
                        0 <= k < fresh.len() ==> !in_set(nn, a).subset_of(in_set(nn, #[trigger] fresh[k])) {
                        assert forall|k: int| 0 <= k < found.len() implies !in_set(nn, a).subset_of(
                            in_set(nn, #[trigger] found[k]),
                        ) by {
                            assert(fresh[k] == found[k]);
                        }
                        assert(fresh[found.len() as int] == c@);
                    }
                }
                lemma_models_finite(now, len);
                assert(in_set(nn, c@).subset_of(in_set(nn, c@)));
                assert forall|a: Seq<bool>| #[trigger] models(now.push(exclusion@), len).contains(a) implies models(
                    now,
                    len,
                ).remove(c@).contains(a) by {
                    assert(satisfies(a, now.push(exclusion@)));
                    lemma_satisfies_push(a, now, exclusion@);
                    assert(satisfies(a, now));
                    assert(clause_holds(a, exclusion@));
                    assert(!clause_holds(c@, exclusion@));
                }
                assert(models(now.push(exclusion@), len).subset_of(models(now, len).remove(c@)));
                vstd::set_lib::lemma_len_subset(models(now.push(exclusion@), len), models(now, len).remove(c@));
            }
            labellings.push(labelling);
            formula.add_clause(&exclusion);
            proof {
                let old_found = found;
                found = found.push(c@);
                assert forall|k: int| 0 <= k < old_found.len() implies found[k] == #[trigger] old_found[k] by {}
                assert(found[old_found.len() as int] == c@);
            }
        }
        if labellings.len() == 0 {
            let mut undecided: Vec<Acceptability> = Vec::new();
            let mut i: usize = 0;
            while i < n
                invariant
                    i <= n,
                    undecided@ =~= all_undecided(n as nat).subrange(0, i as int),
                decreases n - i,
            {
                undecided.push(Acceptability::UNDEC);
                i = i + 1;
            }
            labellings.push(Labelling(undecided));
            proof {
                assert(excludes_found(nn, base, cnf_clauses(formula.cnf), found));
                assert forall|a: Seq<bool>| #[trigger] models(base, len).contains(a) implies false by {
                    assert(!models(cnf_clauses(formula.cnf), len).contains(a));
                }
                assert(models(base, len) =~= Set::<Seq<bool>>::empty());
                assert(labellings@[0]@ =~= all_undecided(nn));
                assert forall|l: Seq<Acceptability>| #[trigger] self.preferred_labellings().contains(l) implies exists|k: int|
                    0 <= k < labellings@.len() && labellings@[k]@ == l by {
                    lemma_only_undecided(nn, attacks, base, l);
                    assert(labellings@[0]@ == l);
                }
                lemma_only_undecided(nn, attacks, base, all_undecided(nn));
            }
        } else {
            proof {
                assert forall|l: Seq<Acceptability>| #[trigger] self.preferred_labellings().contains(l) implies exists|k: int|
                    0 <= k < labellings@.len() && labellings@[k]@ == l by {
                    lemma_found_all_preferred(nn, attacks, base, cnf_clauses(formula.cnf), found, l);
                    let k = choose|k: int| 0 <= k < found.len() && decode(nn, #[trigger] found[k]) == l;
                    assert(labellings@[k]@ == l);
                }
            }
        }
        labellings
    }
}

} // verus!
