//! The search for subset-maximal models: starting from any model, accepted
//! arguments are frozen and one more is demanded until no model is left.

use crate::cnf::{
    clause_holds, clause_within, clauses_within, lemma_clause_push, lemma_models_finite,
    lemma_satisfies_push, lemma_var_bound_push_within, lit_holds, models, satisfies, var_bound,
    Literal, MAX_VARS,
};
use crate::af::Attack;
use crate::encoder::{
    complete_model, decode, encode, in_set, lemma_accepted_in_set, lemma_encode_complete,
};
use crate::sat::{cnf_add_clause, cnf_clauses, Vars, SAT};
use crate::semantics::{
    accepted, attacks_on, attacks_within, complete_at, is_complete, is_preferred,
    lemma_complete_by_accepted, lemma_complete_exists, strict_subset, Acceptability,
};
use varisat::CnfFormula;
use vstd::prelude::*;

verus! {

/// Freezing the accepted arguments of `m` and demanding one more accepted
/// argument is demanding strictly more accepted arguments than `m`.
pub proof fn lemma_freeze_and_extend(n: nat, m: Seq<bool>, a: Seq<bool>)
    ensures
        ((forall|k: int| 0 <= k < n && #[trigger] m[k] ==> a[k]) && (exists|k: int|
            0 <= k < n && !m[k] && #[trigger] a[k])) <==> strict_subset(in_set(n, m), in_set(n, a)),
{
    let (s, t) = (in_set(n, m), in_set(n, a));
    if (forall|k: int| 0 <= k < n && #[trigger] m[k] ==> a[k]) && (exists|k: int|
        0 <= k < n && !m[k] && #[trigger] a[k]) {
        let k = choose|k: int| 0 <= k < n && !m[k] && #[trigger] a[k];
        assert(t.contains(k) && !s.contains(k));
    }
    if strict_subset(s, t) {
        assert forall|k: int| 0 <= k < n && #[trigger] m[k] implies a[k] by {
            assert(s.contains(k));
        }
        if forall|k: int| 0 <= k < n ==> !(!m[k] && #[trigger] a[k]) {
            assert(t =~= s);
        }
    }
}

/// Strict inclusion is transitive.
pub proof fn lemma_strict_subset_trans(s: Set<int>, t: Set<int>, u: Set<int>)
    requires
        strict_subset(s, t),
        strict_subset(t, u),
    ensures
        strict_subset(s, u),
{
    if s == u {
        assert(t =~= s);
    }
}

/// A model of `cnf` whose accepted arguments no other model of `cnf`
/// strictly extends, or `None` when `cnf` has no model over its `3n`
/// variables. Clauses are added to `cnf` on the way.
pub fn compute_preferred_candidate(cnf: &mut CnfFormula, vars: &Vars, n: usize) -> (r: Option<
    Vec<bool>,
>)
    requires
        3 * n <= MAX_VARS,
        var_bound(cnf_clauses(*old(cnf))) == 3 * n,
        clauses_within(cnf_clauses(*old(cnf)), (3 * n) as int),
        vars.i@.len() == n,
        forall|k: int| 0 <= k < n ==> #[trigger] vars.i@[k] == k,
    ensures
        r is None ==> models(cnf_clauses(*old(cnf)), (3 * n) as nat).is_empty(),
        r matches Some(m) ==> models(cnf_clauses(*old(cnf)), (3 * n) as nat).contains(m@),
        r matches Some(m) ==> forall|a: Seq<bool>| #[trigger]
            models(cnf_clauses(*old(cnf)), (3 * n) as nat).contains(a) ==> !strict_subset(
                in_set(n as nat, m@),
                in_set(n as nat, a),
            ),
{
    let ghost base = cnf_clauses(*cnf);
    let ghost len = (3 * n) as nat;
    let mut candidate: Option<Vec<bool>> = None;
    loop
        invariant
            base == cnf_clauses(*old(cnf)),
            len == 3 * n,
            3 * n <= MAX_VARS,
            vars.i@.len() == n,
            forall|k: int| 0 <= k < n ==> #[trigger] vars.i@[k] == k,
            var_bound(cnf_clauses(*cnf)) == len,
            clauses_within(cnf_clauses(*cnf), len as int),
            candidate is None ==> cnf_clauses(*cnf) == base,
            candidate matches Some(m) ==> models(base, len).contains(m@),
            candidate matches Some(m) ==> forall|a: Seq<bool>|
                a.len() == len ==> (#[trigger] satisfies(a, cnf_clauses(*cnf)) <==> satisfies(a, base)
                    && strict_subset(in_set(n as nat, m@), in_set(n as nat, a))),
        ensures
            candidate is None ==> models(base, len).is_empty(),
            candidate matches Some(m) ==> models(base, len).contains(m@),
            candidate matches Some(m) ==> forall|a: Seq<bool>| #[trigger]
                models(base, len).contains(a) ==> !strict_subset(
                    in_set(n as nat, m@),
                    in_set(n as nat, a),
                ),
        decreases models(cnf_clauses(*cnf), len).len(),
    {
        let ghost before = cnf_clauses(*cnf);
        let model = match SAT::solve(cnf) {
            Some(model) => model,
            None => {
                proof {
                    if candidate is Some {
                        let m = candidate->Some_0@;
                        assert forall|a: Seq<bool>| #[trigger] models(base, len).contains(a) implies !strict_subset(
                            in_set(n as nat, m),
                            in_set(n as nat, a),
                        ) by {
                            assert(!models(before, len).contains(a));
                        }
                    }
                }
                break;
            },
        };
        let ghost m = model@;
        assert(models(before, len).contains(m));
        let mut remaining: Vec<Literal> = Vec::new();
        let mut all_are_in = true;
        let mut i: usize = 0;
        while i < n
            invariant
                len == 3 * n,
                3 * n <= MAX_VARS,
                i <= n,
                vars.i@.len() == n,
                forall|k: int| 0 <= k < n ==> #[trigger] vars.i@[k] == k,
                model@ == m,
                m.len() == len,
                var_bound(cnf_clauses(*cnf)) == len,
                clauses_within(cnf_clauses(*cnf), len as int),
                forall|a: Seq<bool>|
                    a.len() == len ==> (#[trigger] satisfies(a, cnf_clauses(*cnf)) <==> satisfies(a, before)
                        && forall|k: int| 0 <= k < i && #[trigger] m[k] ==> a[k]),
                forall|a: Seq<bool>|
                    a.len() == len ==> (#[trigger] clause_holds(a, remaining@) <==> exists|k: int|
                        0 <= k < i && !m[k] && #[trigger] a[k]),
                clause_within(remaining@, n as int),
                all_are_in <==> forall|k: int| 0 <= k < i ==> #[trigger] m[k],
            decreases n - i,
        {
            let lit = (vars.i[i], true);
            let ghost now = cnf_clauses(*cnf);
            let ghost rem = remaining@;
            if model[i] {
                let unit = vec![lit];
                proof {
                    assert(clause_within(unit@, len as int));
                    lemma_var_bound_push_within(now, unit@);
                    assert forall|a: Seq<bool>| a.len() == len implies (#[trigger] satisfies(
                        a,
                        now.push(unit@),
                    ) <==> satisfies(a, before) && forall|k: int| 0 <= k < i + 1 && #[trigger] m[k] ==> a[k]) by {
                        lemma_satisfies_push(a, now, unit@);
                        if clause_holds(a, unit@) {
                            let j = choose|j: int| 0 <= j < unit@.len() && lit_holds(a, #[trigger] unit@[j]);
                            assert(j == 0);
                        }
                        if a[i as int] {
                            assert(lit_holds(a, unit@[0]));
                        }
                    }
                    assert forall|c: int| 0 <= c < now.push(unit@).len() implies clause_within(
                        #[trigger] now.push(unit@)[c],
                        len as int,
                    ) by {
                        if c < now.len() {
                            assert(now.push(unit@)[c] == now[c]);
                        }
                    }
                }
                cnf_add_clause(cnf, &unit);
            } else {
                remaining.push(lit);
                all_are_in = false;
                proof {
                    assert forall|a: Seq<bool>|
                        a.len() == len implies (#[trigger] clause_holds(a, remaining@) <==> exists|k: int|
                            0 <= k < i + 1 && !m[k] && #[trigger] a[k]) by {
                        lemma_clause_push(a, rem, lit);
                        if exists|k: int| 0 <= k < i + 1 && !m[k] && #[trigger] a[k] {
                            let k = choose|k: int| 0 <= k < i + 1 && !m[k] && #[trigger] a[k];
                            if k < i {
                                assert(clause_holds(a, rem));
                            }
                        }
                    }
                }
            }
            i = i + 1;
        }
        let ghost frozen = cnf_clauses(*cnf);
        proof {
            assert(clause_within(remaining@, len as int));
            lemma_var_bound_push_within(frozen, remaining@);
            assert forall|c: int| 0 <= c < frozen.push(remaining@).len() implies clause_within(
                #[trigger] frozen.push(remaining@)[c],
                len as int,
            ) by {
                if c < frozen.len() {
                    assert(frozen.push(remaining@)[c] == frozen[c]);
                }
            }
            assert forall|a: Seq<bool>| a.len() == len implies (#[trigger] satisfies(
                a,
                frozen.push(remaining@),
            ) <==> satisfies(a, base) && strict_subset(in_set(n as nat, m), in_set(n as nat, a))) by {
                lemma_satisfies_push(a, frozen, remaining@);
                lemma_freeze_and_extend(n as nat, m, a);
                if candidate is Some {
                    let p = candidate->Some_0@;
                    assert(satisfies(m, before));
                    if strict_subset(in_set(n as nat, m), in_set(n as nat, a)) {
                        lemma_strict_subset_trans(in_set(n as nat, p), in_set(n as nat, m), in_set(n as nat, a));
                    }
                }
            }
            if candidate is Some {
                assert(satisfies(m, before));
            }
            assert(satisfies(m, base));
            lemma_models_finite(before, len);
            lemma_freeze_and_extend(n as nat, m, m);
            assert forall|a: Seq<bool>| #[trigger] models(frozen.push(remaining@), len).contains(a) implies models(
                before,
                len,
            ).remove(m).contains(a) by {
                assert(satisfies(a, frozen.push(remaining@)));
                if candidate is Some {
                    let p = candidate->Some_0@;
                    lemma_strict_subset_trans(in_set(n as nat, p), in_set(n as nat, m), in_set(n as nat, a));
                }
            }
            assert(models(frozen.push(remaining@), len).subset_of(models(before, len).remove(m)));
            vstd::set_lib::lemma_len_subset(models(frozen.push(remaining@), len), models(before, len).remove(m));
        }
        cnf_add_clause(cnf, &remaining);
        candidate = Some(model);
        if all_are_in {
            proof {
                assert forall|a: Seq<bool>| #[trigger] models(base, len).contains(a) implies !strict_subset(
                    in_set(n as nat, m),
                    in_set(n as nat, a),
                ) by {
                    if strict_subset(in_set(n as nat, m), in_set(n as nat, a)) {
                        lemma_freeze_and_extend(n as nat, m, a);
                        let k = choose|k: int| 0 <= k < n && !m[k] && #[trigger] a[k];
                        assert(m[k]);
                    }
                }
            }
            break;
        }
    }
    candidate
}

/// The clause that some argument that `c` does not accept is accepted.
pub fn exclusion_clause(vars: &Vars, n: usize, c: &Vec<bool>) -> (r: Vec<Literal>)
    requires
        vars.i@.len() == n,
        forall|k: int| 0 <= k < n ==> #[trigger] vars.i@[k] == k,
        c@.len() >= n,
    ensures
        clause_within(r@, n as int),
        forall|a: Seq<bool>|
            a.len() >= n ==> (#[trigger] clause_holds(a, r@) <==> !in_set(n as nat, a).subset_of(
                in_set(n as nat, c@),
            )),
{
    let mut r: Vec<Literal> = Vec::new();
    let mut i: usize = 0;
    while i < n
        invariant
            i <= n,
            vars.i@.len() == n,
            forall|k: int| 0 <= k < n ==> #[trigger] vars.i@[k] == k,
            c@.len() >= n,
            clause_within(r@, n as int),
            forall|a: Seq<bool>|
                a.len() >= n ==> (#[trigger] clause_holds(a, r@) <==> exists|k: int|
                    0 <= k < i && !c@[k] && #[trigger] a[k]),
        decreases n - i,
    {
        if !c[i] {
            let ghost before = r@;
            let lit = (vars.i[i], true);
            r.push(lit);
            proof {
                assert forall|a: Seq<bool>|
                    a.len() >= n implies (#[trigger] clause_holds(a, r@) <==> exists|k: int|
                        0 <= k < i + 1 && !c@[k] && #[trigger] a[k]) by {
                    lemma_clause_push(a, before, lit);
                    if exists|k: int| 0 <= k < i + 1 && !c@[k] && #[trigger] a[k] {
                        let k = choose|k: int| 0 <= k < i + 1 && !c@[k] && #[trigger] a[k];
                        if k < i {
                            assert(clause_holds(a, before));
                        }
                    }
                }
            }
        }
        i = i + 1;
    }
    proof {
        assert forall|a: Seq<bool>|
            a.len() >= n implies (#[trigger] clause_holds(a, r@) <==> !in_set(n as nat, a).subset_of(
                in_set(n as nat, c@),
            )) by {
            if !in_set(n as nat, a).subset_of(in_set(n as nat, c@)) {
                let k = choose|k: int| in_set(n as nat, a).contains(k) && !in_set(n as nat, c@).contains(k);
                assert(!c@[k] && a[k]);
            } else {
                assert forall|k: int| 0 <= k < n && !c@[k] implies !#[trigger] a[k] by {
                    if a[k] {
                        assert(in_set(n as nat, a).contains(k));
                    }
                }
            }
        }
    }
    r
}

/// The models of `base` are the encodings of the complete labellings that
/// accept some argument.
pub open spec fn accepting_complete_models(n: nat, attacks: Seq<Attack>, base: Seq<Seq<Literal>>) -> bool {
    forall|a: Seq<bool>|
        a.len() == 3 * n ==> (#[trigger] satisfies(a, base) <==> complete_model(n, attacks, a)
            && in_set(n, a) != Set::<int>::empty())
}

/// The models of `cs` are those of `base` that accept some argument that
/// none of `found` accepts.
pub open spec fn excludes_found(n: nat, base: Seq<Seq<Literal>>, cs: Seq<Seq<Literal>>, found: Seq<Seq<bool>>) -> bool {
    forall|a: Seq<bool>|
        a.len() == 3 * n ==> (#[trigger] satisfies(a, cs) <==> satisfies(a, base) && forall|k: int|
            0 <= k < found.len() ==> !in_set(n, a).subset_of(in_set(n, #[trigger] found[k])))
}

/// A model that no other model strictly extends, once the maximal models
/// found before are excluded, stands for a preferred labelling.
pub proof fn lemma_candidate_preferred(
    n: nat,
    attacks: Seq<Attack>,
    base: Seq<Seq<Literal>>,
    cs: Seq<Seq<Literal>>,
    found: Seq<Seq<bool>>,
    c: Seq<bool>,
)
    requires
        attacks_within(attacks, n),
        accepting_complete_models(n, attacks, base),
        excludes_found(n, base, cs, found),
        models(cs, 3 * n).contains(c),
        forall|a: Seq<bool>| #[trigger]
            models(cs, 3 * n).contains(a) ==> !strict_subset(in_set(n, c), in_set(n, a)),
    ensures
        is_preferred(n, attacks, decode(n, c)),
{
    let l = decode(n, c);
    assert(satisfies(c, base));
    lemma_accepted_in_set(n, c, l);
    assert forall|l2: Seq<Acceptability>| #[trigger] is_complete(n, attacks, l2) implies !strict_subset(
        accepted(l),
        accepted(l2),
    ) by {
        if strict_subset(accepted(l), accepted(l2)) {
            let a2 = encode(l2);
            lemma_encode_complete(n, attacks, l2);
            lemma_accepted_in_set(n, a2, l2);
            assert(in_set(n, a2) != Set::<int>::empty()) by {
                assert(in_set(n, c) != Set::<int>::empty());
                if forall|i: int| !in_set(n, c).contains(i) {
                    assert(in_set(n, c) =~= Set::<int>::empty());
                }
                let i = choose|i: int| in_set(n, c).contains(i);
                assert(in_set(n, a2).contains(i));
            }
            assert(satisfies(a2, base));
            assert forall|k: int| 0 <= k < found.len() implies !in_set(n, a2).subset_of(
                in_set(n, #[trigger] found[k]),
            ) by {
                assert(!in_set(n, c).subset_of(in_set(n, found[k])));
            }
            assert(models(cs, 3 * n).contains(a2));
        }
    }
}

/// When no model is left once the preferred labellings `found` are excluded,
/// `found` holds every preferred labelling.
pub proof fn lemma_found_all_preferred(
    n: nat,
    attacks: Seq<Attack>,
    base: Seq<Seq<Literal>>,
    cs: Seq<Seq<Literal>>,
    found: Seq<Seq<bool>>,
    l: Seq<Acceptability>,
)
    requires
        attacks_within(attacks, n),
        accepting_complete_models(n, attacks, base),
        excludes_found(n, base, cs, found),
        models(cs, 3 * n).is_empty(),
        found.len() > 0,
        forall|k: int| 0 <= k < found.len() ==> models(base, 3 * n).contains(#[trigger] found[k]),
        is_preferred(n, attacks, l),
    ensures
        exists|k: int| 0 <= k < found.len() && decode(n, #[trigger] found[k]) == l,
{
    let a = encode(l);
    lemma_encode_complete(n, attacks, l);
    lemma_accepted_in_set(n, a, l);
    let f0 = found[0];
    assert(models(base, 3 * n).contains(f0));
    assert(satisfies(f0, base));
    lemma_accepted_in_set(n, f0, decode(n, f0));
    if in_set(n, a) == Set::<int>::empty() {
        assert(!strict_subset(accepted(l), accepted(decode(n, f0))));
        assert(accepted(l) =~= Set::<int>::empty());
    }
    assert(satisfies(a, base));
    assert(!models(cs, 3 * n).contains(a));
    let k = choose|k: int| 0 <= k < found.len() && in_set(n, a).subset_of(in_set(n, #[trigger] found[k]));
    let fk = found[k];
    assert(models(base, 3 * n).contains(fk));
    assert(satisfies(fk, base));
    lemma_accepted_in_set(n, fk, decode(n, fk));
    assert(!strict_subset(accepted(l), accepted(decode(n, fk))));
    lemma_complete_by_accepted(n, attacks, l, decode(n, fk));
}

/// The labelling that leaves every argument undecided.
pub open spec fn all_undecided(n: nat) -> Seq<Acceptability> {
    Seq::new(n, |i: int| Acceptability::UNDEC)
}

/// When no complete labelling accepts an argument, the only preferred
/// labelling leaves every argument undecided.
pub proof fn lemma_only_undecided(n: nat, attacks: Seq<Attack>, base: Seq<Seq<Literal>>, l: Seq<Acceptability>)
    requires
        attacks_within(attacks, n),
        accepting_complete_models(n, attacks, base),
        models(base, 3 * n).is_empty(),
    ensures
        is_preferred(n, attacks, l) <==> l == all_undecided(n),
{
    let u = all_undecided(n);
    // a complete labelling accepts nothing, and so rejects nothing
    assert forall|m: Seq<Acceptability>| #[trigger] is_complete(n, attacks, m) implies m == u by {
        lemma_encode_complete(n, attacks, m);
        lemma_accepted_in_set(n, encode(m), m);
        assert(!models(base, 3 * n).contains(encode(m)));
        assert(accepted(m) =~= Set::<int>::empty());
        assert forall|i: int| 0 <= i < n implies m[i] == u[i] by {
            assert(!accepted(m).contains(i));
            assert(complete_at(attacks, m, i));
            if m[i] == Acceptability::OUT {
                let j = choose|j: int| #[trigger] attacks_on(attacks, j, i) && m[j] == Acceptability::IN;
                let q = choose|q: int| 0 <= q < attacks.len() && attacks[q].0 == j && attacks[q].1 == i;
                assert(attacks[q].0 < n);
                assert(accepted(m).contains(j));
            }
        }
        assert(m =~= u);
    }
    lemma_complete_exists(n, attacks);
    let g = choose|g: Seq<Acceptability>| is_complete(n, attacks, g);
    assert(g == u);
    assert forall|m: Seq<Acceptability>| #[trigger] is_complete(n, attacks, m) implies !strict_subset(
        accepted(u),
        accepted(m),
    ) by {
        assert(m == u);
    }
}

} // verus!
