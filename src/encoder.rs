//! The CNF encoding of complete labellings: three variables per argument
//! (accepted `i`, rejected `n + i`, undecided `2n + i`) and clause families
//! whose models are exactly the encodings of the complete labellings.

use crate::af::Attack;
use crate::cnf::{
    clause_holds, clause_within, clauses_within, lemma_satisfies_concat, lemma_var_bound_exact,
    lemma_var_bound_within, lemma_within_concat, lit_holds, satisfies, var_bound, Literal,
};
use crate::semantics::{
    accepted, attacks_on, complete_at, is_complete, lists_exactly, Acceptability, Labelling,
};
use crate::cnf::models;
use vstd::prelude::*;

verus! {

/// The labelling that assignment `a` of `3n` variables stands for: accepted
/// if its accepted variable is true, else rejected if its rejected variable
/// is true, else undecided.
pub open spec fn decode(n: nat, a: Seq<bool>) -> Seq<Acceptability> {
    Seq::new(
        n,
        |i: int|
            if a[i] {
                Acceptability::IN
            } else if a[n + i] {
                Acceptability::OUT
            } else {
                Acceptability::UNDEC
            },
    )
}

/// The assignment that stands for labelling `l`.
pub open spec fn encode(l: Seq<Acceptability>) -> Seq<bool> {
    let n = l.len();
    Seq::new(
        3 * n,
        |v: int|
            if v < n {
                l[v] == Acceptability::IN
            } else if v < 2 * n {
                l[v - n] == Acceptability::OUT
            } else {
                l[v - 2 * n] == Acceptability::UNDEC
            },
    )
}

/// The three variables of argument `i` in `a` say its status in `l`.
pub open spec fn encodes_at(n: nat, a: Seq<bool>, l: Seq<Acceptability>, i: int) -> bool {
    &&& (a[i] <==> l[i] == Acceptability::IN)
    &&& (a[n + i] <==> l[i] == Acceptability::OUT)
    &&& (a[2 * n + i] <==> l[i] == Acceptability::UNDEC)
}

/// `a` sets exactly the variable of each argument's status in `l`.
pub open spec fn encodes(n: nat, a: Seq<bool>, l: Seq<Acceptability>) -> bool {
    &&& a.len() == 3 * n
    &&& l.len() == n
    &&& forall|i: int| 0 <= i < n ==> #[trigger] encodes_at(n, a, l, i)
}

/// Exactly one of the three variables of argument `i` is true in `a`.
pub open spec fn one_status(n: nat, a: Seq<bool>, i: int) -> bool {
    let (x, y, z) = (a[i], a[n + i], a[2 * n + i]);
    (x || y || z) && !(x && y) && !(x && z) && !(y && z)
}

/// `amap[i]` lists the attackers of argument `i`, for each of the `n`
/// arguments.
pub open spec fn attacker_table(amap: Seq<Seq<usize>>, n: nat, attacks: Seq<Attack>) -> bool {
    &&& amap.len() == n
    &&& forall|i: int, j: usize|
        0 <= i < n ==> ((#[trigger] amap[i].contains(j)) <==> attacks_on(attacks, j as int, i))
    &&& forall|i: int, k: int| 0 <= i < n && 0 <= k < amap[i].len() ==> (#[trigger] amap[i][k]) < n
}

/// The clauses that make exactly one status variable of argument `i` true.
pub open spec fn one_status_clauses(n: nat, i: int) -> Seq<Seq<Literal>> {
    let (x, y, z) = (i as usize, (n + i) as usize, (2 * n + i) as usize);
    seq![
        seq![(x, true), (y, true), (z, true)],
        seq![(x, false), (y, false)],
        seq![(x, false), (z, false)],
        seq![(y, false), (z, false)],
    ]
}

/// "If every attacker is rejected, `i` is accepted."
pub open spec fn defended_clause(n: nat, atts: Seq<usize>, i: int) -> Seq<Literal> {
    atts.map_values(|j: usize| ((n + j) as usize, false)).push((i as usize, true))
}

/// "If `i` is accepted, attacker `j` is rejected", for each attacker.
pub open spec fn accepted_clauses(n: nat, atts: Seq<usize>, i: int) -> Seq<Seq<Literal>> {
    atts.map_values(|j: usize| seq![(i as usize, false), ((n + j) as usize, true)])
}

/// "If attacker `j` is accepted, `i` is rejected", for each attacker.
pub open spec fn rejecting_clauses(n: nat, atts: Seq<usize>, i: int) -> Seq<Seq<Literal>> {
    atts.map_values(|j: usize| seq![(j, false), ((n + i) as usize, true)])
}

/// "If `i` is rejected, some attacker is accepted."
pub open spec fn rejected_clause(n: nat, atts: Seq<usize>, i: int) -> Seq<Literal> {
    atts.map_values(|j: usize| (j, true)).push(((n + i) as usize, false))
}

/// The clauses for argument `i` with attackers `atts`.
pub open spec fn arg_clauses(n: nat, atts: Seq<usize>, i: int) -> Seq<Seq<Literal>> {
    if atts.len() == 0 {
        one_status_clauses(n, i) + seq![
            seq![(i as usize, true)],
            seq![((n + i) as usize, false)],
            seq![((2 * n + i) as usize, false)],
        ]
    } else {
        one_status_clauses(n, i) + seq![defended_clause(n, atts, i)] + accepted_clauses(n, atts, i)
            + rejecting_clauses(n, atts, i) + seq![rejected_clause(n, atts, i)]
    }
}

/// The clauses of the arguments `0..m`.
pub open spec fn complete_clauses_upto(n: nat, amap: Seq<Seq<usize>>, m: int) -> Seq<
    Seq<Literal>,
>
    decreases m,
{
    if m <= 0 {
        Seq::empty()
    } else {
        complete_clauses_upto(n, amap, m - 1) + arg_clauses(n, amap[m - 1], m - 1)
    }
}

/// The complete encoding of a framework with `n` arguments and attacker
/// table `amap`.
pub open spec fn complete_clauses(n: nat, amap: Seq<Seq<usize>>) -> Seq<Seq<Literal>> {
    complete_clauses_upto(n, amap, n as int)
}

/// What the clauses of argument `i` say of assignment `a`.
pub open spec fn arg_ok(n: nat, atts: Seq<usize>, a: Seq<bool>, i: int) -> bool {
    let (x, y) = (a[i], a[n + i]);
    &&& one_status(n, a, i)
    &&& (x <==> forall|k: int| 0 <= k < atts.len() ==> #[trigger] a[n + atts[k]])
    &&& (y <==> exists|k: int| 0 <= k < atts.len() && #[trigger] a[atts[k] as int])
}

proof fn lemma_clause1(a: Seq<bool>, l: Literal)
    ensures
        clause_holds(a, seq![l]) <==> lit_holds(a, l),
{
    if lit_holds(a, l) {
        assert(lit_holds(a, seq![l][0]));
    }
}

proof fn lemma_clause2(a: Seq<bool>, l1: Literal, l2: Literal)
    ensures
        clause_holds(a, seq![l1, l2]) <==> lit_holds(a, l1) || lit_holds(a, l2),
{
    let c = seq![l1, l2];
    if lit_holds(a, l1) {
        assert(lit_holds(a, c[0]));
    }
    if lit_holds(a, l2) {
        assert(lit_holds(a, c[1]));
    }
}

proof fn lemma_clause3(a: Seq<bool>, l1: Literal, l2: Literal, l3: Literal)
    ensures
        clause_holds(a, seq![l1, l2, l3]) <==> lit_holds(a, l1) || lit_holds(a, l2) || lit_holds(
            a,
            l3,
        ),
{
    let c = seq![l1, l2, l3];
    if lit_holds(a, l1) {
        assert(lit_holds(a, c[0]));
    }
    if lit_holds(a, l2) {
        assert(lit_holds(a, c[1]));
    }
    if lit_holds(a, l3) {
        assert(lit_holds(a, c[2]));
    }
}

/// The exactly-one clauses of argument `i`.
proof fn lemma_one_status(n: nat, a: Seq<bool>, i: int)
    requires
        a.len() == 3 * n,
        0 <= i < n,
        3 * n <= usize::MAX,
    ensures
        satisfies(a, one_status_clauses(n, i)) <==> one_status(n, a, i),
{
    let (x, y, z) = (i as usize, (n + i) as usize, (2 * n + i) as usize);
    let cs = one_status_clauses(n, i);
    lemma_clause3(a, (x, true), (y, true), (z, true));
    lemma_clause2(a, (x, false), (y, false));
    lemma_clause2(a, (x, false), (z, false));
    lemma_clause2(a, (y, false), (z, false));
    assert(cs[0] == seq![(x, true), (y, true), (z, true)]);
    assert(cs[1] == seq![(x, false), (y, false)]);
    assert(cs[2] == seq![(x, false), (z, false)]);
    assert(cs[3] == seq![(y, false), (z, false)]);
}

/// The clauses of argument `i` say exactly `arg_ok`.
pub proof fn lemma_arg_clauses(n: nat, atts: Seq<usize>, a: Seq<bool>, i: int)
    requires
        a.len() == 3 * n,
        0 <= i < n,
        3 * n <= usize::MAX,
        forall|k: int| 0 <= k < atts.len() ==> (#[trigger] atts[k]) < n,
    ensures
        satisfies(a, arg_clauses(n, atts, i)) <==> arg_ok(n, atts, a, i),
{
    let (x, y, z) = (i as usize, (n + i) as usize, (2 * n + i) as usize);
    lemma_one_status(n, a, i);
    if atts.len() == 0 {
        let units = seq![seq![(x, true)], seq![(y, false)], seq![(z, false)]];
        lemma_satisfies_concat(a, one_status_clauses(n, i), units);
        lemma_clause1(a, (x, true));
        lemma_clause1(a, (y, false));
        lemma_clause1(a, (z, false));
        assert(units[0] == seq![(x, true)]);
        assert(units[1] == seq![(y, false)]);
        assert(units[2] == seq![(z, false)]);
    } else {
        let one = one_status_clauses(n, i);
        let d = seq![defended_clause(n, atts, i)];
        let acc = accepted_clauses(n, atts, i);
        let rej = rejecting_clauses(n, atts, i);
        let r = seq![rejected_clause(n, atts, i)];
        lemma_satisfies_concat(a, one + d + acc + rej, r);
        lemma_satisfies_concat(a, one + d + acc, rej);
        lemma_satisfies_concat(a, one + d, acc);
        lemma_satisfies_concat(a, one, d);
        assert(satisfies(a, d) <==> clause_holds(a, defended_clause(n, atts, i))) by {
            assert(d[0] == defended_clause(n, atts, i));
        }
        assert(satisfies(a, r) <==> clause_holds(a, rejected_clause(n, atts, i))) by {
            assert(r[0] == rejected_clause(n, atts, i));
        }
        // the accepted direction
        let dc = defended_clause(n, atts, i);
        assert(clause_holds(a, dc) <==> a[i] || exists|k: int|
            0 <= k < atts.len() && !#[trigger] a[n + atts[k]]) by {
            if clause_holds(a, dc) {
                let k = choose|k: int| 0 <= k < dc.len() && lit_holds(a, #[trigger] dc[k]);
                if k < atts.len() {
                    assert(!a[n + atts[k]]);
                }
            }
            if a[i] {
                assert(lit_holds(a, dc[atts.len() as int]));
            }
            if exists|k: int| 0 <= k < atts.len() && !#[trigger] a[n + atts[k]] {
                let k = choose|k: int| 0 <= k < atts.len() && !#[trigger] a[n + atts[k]];
                assert(lit_holds(a, dc[k]));
            }
        }
        assert(satisfies(a, acc) <==> forall|k: int|
            0 <= k < atts.len() ==> !a[i] || #[trigger] a[n + atts[k]]) by {
            if satisfies(a, acc) {
                assert forall|k: int| 0 <= k < atts.len() implies !a[i] || #[trigger] a[n
                    + atts[k]] by {
                    lemma_clause2(a, (x, false), ((n + atts[k]) as usize, true));
                    assert(clause_holds(a, acc[k]));
                }
            }
            if forall|k: int| 0 <= k < atts.len() ==> !a[i] || #[trigger] a[n + atts[k]] {
                assert forall|k: int| 0 <= k < acc.len() implies clause_holds(a, #[trigger] acc[k]) by {
                    lemma_clause2(a, (x, false), ((n + atts[k]) as usize, true));
                    assert(!a[i] || a[n + atts[k]]);
                }
            }
        }
        // the rejected direction
        let rc = rejected_clause(n, atts, i);
        assert(clause_holds(a, rc) <==> !a[n + i] || exists|k: int|
            0 <= k < atts.len() && #[trigger] a[atts[k] as int]) by {
            if clause_holds(a, rc) {
                let k = choose|k: int| 0 <= k < rc.len() && lit_holds(a, #[trigger] rc[k]);
                if k < atts.len() {
                    assert(a[atts[k] as int]);
                }
            }
            if !a[n + i] {
                assert(lit_holds(a, rc[atts.len() as int]));
            }
            if exists|k: int| 0 <= k < atts.len() && #[trigger] a[atts[k] as int] {
                let k = choose|k: int| 0 <= k < atts.len() && #[trigger] a[atts[k] as int];
                assert(lit_holds(a, rc[k]));
            }
        }
        assert(satisfies(a, rej) <==> forall|k: int|
            0 <= k < atts.len() ==> !#[trigger] a[atts[k] as int] || a[n + i]) by {
            if satisfies(a, rej) {
                assert forall|k: int| 0 <= k < atts.len() implies !#[trigger] a[atts[k] as int]
                    || a[n + i] by {
                    lemma_clause2(a, (atts[k], false), (y, true));
                    assert(clause_holds(a, rej[k]));
                }
            }
            if forall|k: int| 0 <= k < atts.len() ==> !#[trigger] a[atts[k] as int] || a[n + i] {
                assert forall|k: int| 0 <= k < rej.len() implies clause_holds(a, #[trigger] rej[k]) by {
                    lemma_clause2(a, (atts[k], false), (y, true));
                    assert(!a[atts[k] as int] || a[n + i]);
                }
            }
        }
        assert(one + d + acc + rej + r == arg_clauses(n, atts, i));
    }
}

/// The clauses of the arguments `0..m` say `arg_ok` of each of them.
pub proof fn lemma_complete_clauses_upto(n: nat, amap: Seq<Seq<usize>>, a: Seq<bool>, m: int)
    requires
        a.len() == 3 * n,
        0 <= m <= n,
        3 * n <= usize::MAX,
        amap.len() == n,
        forall|i: int, k: int| 0 <= i < n && 0 <= k < amap[i].len() ==> (#[trigger] amap[i][k]) < n,
    ensures
        satisfies(a, complete_clauses_upto(n, amap, m)) <==> forall|i: int|
            0 <= i < m ==> #[trigger] arg_ok(n, amap[i], a, i),
    decreases m,
{
    if m > 0 {
        lemma_complete_clauses_upto(n, amap, a, m - 1);
        assert forall|k: int| 0 <= k < amap[m - 1].len() implies (#[trigger] amap[m - 1][k]) < n by {}
        lemma_arg_clauses(n, amap[m - 1], a, m - 1);
        lemma_satisfies_concat(
            a,
            complete_clauses_upto(n, amap, m - 1),
            arg_clauses(n, amap[m - 1], m - 1),
        );
    }
}

/// An assignment that sets one status variable per argument encodes its
/// decoding.
pub proof fn lemma_encodes_decode(n: nat, a: Seq<bool>)
    requires
        a.len() == 3 * n,
        forall|i: int| 0 <= i < n ==> #[trigger] one_status(n, a, i),
    ensures
        encodes(n, a, decode(n, a)),
{
    assert forall|i: int| 0 <= i < n implies #[trigger] encodes_at(n, a, decode(n, a), i) by {
        assert(one_status(n, a, i));
    }
}

/// Every labelling is encoded by `encode`.
pub proof fn lemma_encodes_encode(l: Seq<Acceptability>)
    ensures
        encodes(l.len(), encode(l), l),
{
    let n = l.len();
    assert forall|i: int| 0 <= i < n implies #[trigger] encodes_at(n, encode(l), l, i) by {
        assert(encode(l)[n + i] == (l[n + i - n] == Acceptability::OUT));
        assert(encode(l)[2 * n + i] == (l[2 * n + i - 2 * n] == Acceptability::UNDEC));
    }
}

/// An assignment encodes at most one labelling, and a labelling has at most
/// one encoding.
pub proof fn lemma_encodes_unique(
    n: nat,
    a: Seq<bool>,
    b: Seq<bool>,
    l: Seq<Acceptability>,
    m: Seq<Acceptability>,
)
    requires
        encodes(n, a, l),
        encodes(n, b, m),
    ensures
        a == b <==> l == m,
{
    if a == b {
        assert forall|i: int| 0 <= i < n implies l[i] == m[i] by {
            assert(encodes_at(n, a, l, i));
            assert(encodes_at(n, b, m, i));
        }
        assert(l =~= m);
    }
    if l == m {
        assert forall|v: int| 0 <= v < 3 * n implies a[v] == b[v] by {
            if v < n {
                assert(encodes_at(n, a, l, v));
                assert(encodes_at(n, b, m, v));
            } else if v < 2 * n {
                assert(encodes_at(n, a, l, v - n));
                assert(encodes_at(n, b, m, v - n));
            } else {
                assert(encodes_at(n, a, l, v - 2 * n));
                assert(encodes_at(n, b, m, v - 2 * n));
            }
        }
        assert(a =~= b);
    }
}

/// `a` is the encoding of a complete labelling: its decoding.
pub open spec fn complete_model(n: nat, attacks: Seq<Attack>, a: Seq<bool>) -> bool {
    is_complete(n, attacks, decode(n, a)) && encodes(n, a, decode(n, a))
}

/// What the clauses say of one argument makes its decoded status meet the
/// labelling conditions.
proof fn lemma_arg_ok_complete_at(n: nat, attacks: Seq<Attack>, amap: Seq<Seq<usize>>, a: Seq<bool>, i: int)
    requires
        a.len() == 3 * n,
        0 <= i < n,
        attacker_table(amap, n, attacks),
        forall|k: int| 0 <= k < n ==> #[trigger] encodes_at(n, a, decode(n, a), k),
        arg_ok(n, amap[i], a, i),
    ensures
        complete_at(attacks, decode(n, a), i),
{
    let l = decode(n, a);
    let atts = amap[i];
    assert(encodes_at(n, a, l, i));
    if l[i] == Acceptability::IN {
        assert forall|j: int| #[trigger] attacks_on(attacks, j, i) implies l[j] == Acceptability::OUT by {
            let k = choose|k: int| 0 <= k < attacks.len() && attacks[k].0 == j && attacks[k].1 == i;
            let ju = attacks[k].0;
            assert(atts.contains(ju));
            let p = choose|p: int| 0 <= p < atts.len() && atts[p] == ju;
            assert(a[n + atts[p]]);
            assert(encodes_at(n, a, l, j));
        }
    } else {
        let p = choose|p: int| 0 <= p < atts.len() && !#[trigger] a[n + atts[p]];
        assert(atts.contains(atts[p]));
        assert(attacks_on(attacks, atts[p] as int, i));
        assert(encodes_at(n, a, l, atts[p] as int));
    }
    if l[i] == Acceptability::OUT {
        let p = choose|p: int| 0 <= p < atts.len() && #[trigger] a[atts[p] as int];
        assert(atts.contains(atts[p]));
        assert(attacks_on(attacks, atts[p] as int, i));
        assert(encodes_at(n, a, l, atts[p] as int));
    } else {
        assert forall|j: int| #[trigger] attacks_on(attacks, j, i) implies l[j] != Acceptability::IN by {
            let k = choose|k: int| 0 <= k < attacks.len() && attacks[k].0 == j && attacks[k].1 == i;
            let ju = attacks[k].0;
            assert(atts.contains(ju));
            let p = choose|p: int| 0 <= p < atts.len() && atts[p] == ju;
            assert(!a[atts[p] as int]);
            assert(encodes_at(n, a, l, j));
        }
    }
}

/// The encoding of a complete labelling meets the clauses of each argument.
proof fn lemma_complete_at_arg_ok(n: nat, attacks: Seq<Attack>, amap: Seq<Seq<usize>>, a: Seq<bool>, i: int)
    requires
        a.len() == 3 * n,
        0 <= i < n,
        attacker_table(amap, n, attacks),
        complete_model(n, attacks, a),
    ensures
        arg_ok(n, amap[i], a, i),
{
    let l = decode(n, a);
    let atts = amap[i];
    assert(complete_at(attacks, l, i));
    assert(encodes_at(n, a, l, i));
    if a[i] {
        assert forall|k: int| 0 <= k < atts.len() implies #[trigger] a[n + atts[k]] by {
            assert(atts.contains(atts[k]));
            assert(attacks_on(attacks, atts[k] as int, i));
            assert(encodes_at(n, a, l, atts[k] as int));
        }
    }
    if forall|k: int| 0 <= k < atts.len() ==> #[trigger] a[n + atts[k]] {
        assert forall|j: int| #[trigger] attacks_on(attacks, j, i) implies l[j] == Acceptability::OUT by {
            let k = choose|k: int| 0 <= k < attacks.len() && attacks[k].0 == j && attacks[k].1 == i;
            let ju = attacks[k].0;
            assert(atts.contains(ju));
            let p = choose|p: int| 0 <= p < atts.len() && atts[p] == ju;
            assert(a[n + atts[p]]);
            assert(encodes_at(n, a, l, j));
        }
    }
    if a[n + i] {
        let j = choose|j: int| #[trigger] attacks_on(attacks, j, i) && l[j] == Acceptability::IN;
        let k = choose|k: int| 0 <= k < attacks.len() && attacks[k].0 == j && attacks[k].1 == i;
        let ju = attacks[k].0;
        assert(atts.contains(ju));
        let p = choose|p: int| 0 <= p < atts.len() && atts[p] == ju;
        assert(encodes_at(n, a, l, j));
        assert(a[atts[p] as int]);
    }
    if exists|k: int| 0 <= k < atts.len() && #[trigger] a[atts[k] as int] {
        let p = choose|p: int| 0 <= p < atts.len() && #[trigger] a[atts[p] as int];
        assert(atts.contains(atts[p]));
        assert(attacks_on(attacks, atts[p] as int, i));
        assert(encodes_at(n, a, l, atts[p] as int));
    }
}

/// The models of the complete encoding are exactly the encodings of the
/// complete labellings.
pub proof fn lemma_complete_clauses(n: nat, attacks: Seq<Attack>, amap: Seq<Seq<usize>>, a: Seq<bool>)
    requires
        a.len() == 3 * n,
        3 * n <= usize::MAX,
        attacker_table(amap, n, attacks),
    ensures
        satisfies(a, complete_clauses(n, amap)) <==> complete_model(n, attacks, a),
{
    lemma_complete_clauses_upto(n, amap, a, n as int);
    let l = decode(n, a);
    if forall|i: int| 0 <= i < n ==> #[trigger] arg_ok(n, amap[i], a, i) {
        assert forall|i: int| 0 <= i < n implies #[trigger] one_status(n, a, i) by {
            assert(arg_ok(n, amap[i], a, i));
        }
        lemma_encodes_decode(n, a);
        assert forall|i: int| 0 <= i < n implies #[trigger] complete_at(attacks, l, i) by {
            lemma_arg_ok_complete_at(n, attacks, amap, a, i);
        }
    }
    if complete_model(n, attacks, a) {
        assert forall|i: int| 0 <= i < n implies #[trigger] arg_ok(n, amap[i], a, i) by {
            lemma_complete_at_arg_ok(n, attacks, amap, a, i);
        }
    }
}

/// The clauses of argument `i` use only the `3n` variables.
proof fn lemma_arg_clauses_within(n: nat, atts: Seq<usize>, i: int)
    requires
        0 <= i < n,
        3 * n <= usize::MAX,
        forall|k: int| 0 <= k < atts.len() ==> (#[trigger] atts[k]) < n,
    ensures
        clauses_within(arg_clauses(n, atts, i), (3 * n) as int),
        arg_clauses(n, atts, i)[0] == seq![(i as usize, true), ((n + i) as usize, true), ((2 * n + i) as usize, true)],
{
    let b = (3 * n) as int;
    let one = one_status_clauses(n, i);
    assert(clauses_within(one, b)) by {
        assert forall|k: int| 0 <= k < one.len() implies clause_within(#[trigger] one[k], b) by {
            assert forall|j: int| 0 <= j < one[k].len() implies (#[trigger] one[k][j]).0 < b by {}
        }
    }
    if atts.len() == 0 {
        let units = seq![
            seq![(i as usize, true)],
            seq![((n + i) as usize, false)],
            seq![((2 * n + i) as usize, false)],
        ];
        assert forall|k: int| 0 <= k < units.len() implies clause_within(#[trigger] units[k], b) by {
            assert forall|j: int| 0 <= j < units[k].len() implies (#[trigger] units[k][j]).0 < b by {}
        }
        lemma_within_concat(one, units, b);
    } else {
        let d = seq![defended_clause(n, atts, i)];
        let acc = accepted_clauses(n, atts, i);
        let rej = rejecting_clauses(n, atts, i);
        let r = seq![rejected_clause(n, atts, i)];
        assert forall|k: int| 0 <= k < d.len() implies clause_within(#[trigger] d[k], b) by {
            assert forall|j: int| 0 <= j < d[k].len() implies (#[trigger] d[k][j]).0 < b by {}
        }
        assert forall|k: int| 0 <= k < acc.len() implies clause_within(#[trigger] acc[k], b) by {
            assert forall|j: int| 0 <= j < acc[k].len() implies (#[trigger] acc[k][j]).0 < b by {}
        }
        assert forall|k: int| 0 <= k < rej.len() implies clause_within(#[trigger] rej[k], b) by {
            assert forall|j: int| 0 <= j < rej[k].len() implies (#[trigger] rej[k][j]).0 < b by {}
        }
        assert forall|k: int| 0 <= k < r.len() implies clause_within(#[trigger] r[k], b) by {
            assert forall|j: int| 0 <= j < r[k].len() implies (#[trigger] r[k][j]).0 < b by {}
        }
        lemma_within_concat(one, d, b);
        lemma_within_concat(one + d, acc, b);
        lemma_within_concat(one + d + acc, rej, b);
        lemma_within_concat(one + d + acc + rej, r, b);
        assert(one + d + acc + rej + r == arg_clauses(n, atts, i));
    }
}

/// The clauses of the arguments `0..m` use only the `3n` variables.
proof fn lemma_complete_clauses_upto_within(n: nat, amap: Seq<Seq<usize>>, m: int)
    requires
        0 <= m <= n,
        3 * n <= usize::MAX,
        amap.len() == n,
        forall|i: int, k: int| 0 <= i < n && 0 <= k < amap[i].len() ==> (#[trigger] amap[i][k]) < n,
    ensures
        clauses_within(complete_clauses_upto(n, amap, m), (3 * n) as int),
    decreases m,
{
    if m > 0 {
        lemma_complete_clauses_upto_within(n, amap, m - 1);
        assert forall|k: int| 0 <= k < amap[m - 1].len() implies (#[trigger] amap[m - 1][k]) < n by {}
        lemma_arg_clauses_within(n, amap[m - 1], m - 1);
        lemma_within_concat(
            complete_clauses_upto(n, amap, m - 1),
            arg_clauses(n, amap[m - 1], m - 1),
            (3 * n) as int,
        );
    }
}

/// The complete encoding followed by clauses over its variables mentions
/// exactly the `3n` variables.
pub proof fn lemma_complete_formula_bound(n: nat, amap: Seq<Seq<usize>>, extra: Seq<Seq<Literal>>)
    requires
        3 * n <= usize::MAX,
        amap.len() == n,
        forall|i: int, k: int| 0 <= i < n && 0 <= k < amap[i].len() ==> (#[trigger] amap[i][k]) < n,
        clauses_within(extra, (3 * n) as int),
    ensures
        clauses_within(complete_clauses(n, amap) + extra, (3 * n) as int),
        var_bound(complete_clauses(n, amap) + extra) == 3 * n,
{
    let cs = complete_clauses(n, amap);
    lemma_complete_clauses_upto_within(n, amap, n as int);
    lemma_within_concat(cs, extra, (3 * n) as int);
    if n == 0 {
        lemma_var_bound_within(cs + extra, 0);
    } else {
        let prefix = complete_clauses_upto(n, amap, n - 1);
        assert forall|k: int| 0 <= k < amap[n - 1].len() implies (#[trigger] amap[n - 1][k]) < n by {}
        lemma_arg_clauses_within(n, amap[n - 1], n - 1);
        let at = prefix.len() as int;
        assert((cs + extra)[at] == arg_clauses(n, amap[n - 1], n - 1)[0]);
        lemma_var_bound_exact(cs + extra, 3 * n, at, 2);
    }
}

/// Decoding every model of `cs` once lists the labellings of `s`, when the
/// models of `cs` are exactly the encodings of the labellings of `s`.
pub proof fn lemma_decoded_models(
    n: nat,
    cs: Seq<Seq<Literal>>,
    s: Set<Seq<Acceptability>>,
    ms: Seq<Vec<bool>>,
    r: Seq<Labelling>,
)
    requires
        var_bound(cs) == 3 * n,
        forall|a: Seq<bool>|
            a.len() == 3 * n ==> (#[trigger] satisfies(a, cs) <==> encodes(n, a, decode(n, a))
                && s.contains(decode(n, a))),
        forall|l: Seq<Acceptability>| #[trigger] s.contains(l) ==> l.len() == n,
        forall|k: int| 0 <= k < ms.len() ==> models(cs, 3 * n).contains((#[trigger] ms[k])@),
        forall|a: Seq<bool>| #[trigger]
            models(cs, 3 * n).contains(a) ==> exists|k: int| 0 <= k < ms.len() && (#[trigger] ms[k])@ == a,
        forall|i: int, j: int| 0 <= i < j < ms.len() ==> (#[trigger] ms[i])@ != (#[trigger] ms[j])@,
        r.len() == ms.len(),
        forall|k: int| 0 <= k < r.len() ==> (#[trigger] r[k])@ == decode(n, ms[k]@),
    ensures
        lists_exactly(r, s),
{
    assert forall|k: int| 0 <= k < r.len() implies s.contains(#[trigger] r[k]@) by {
        assert(models(cs, 3 * n).contains(ms[k]@));
        assert(satisfies(ms[k]@, cs));
    }
    assert forall|l: Seq<Acceptability>| #[trigger] s.contains(l) implies exists|k: int|
        0 <= k < r.len() && r[k]@ == l by {
        let a = encode(l);
        lemma_encodes_encode(l);
        lemma_encodes_decode(n, a);
        assert forall|i: int| 0 <= i < n implies #[trigger] one_status(n, a, i) by {
            assert(encodes_at(n, a, l, i));
        }
        lemma_encodes_decode(n, a);
        lemma_encodes_unique(n, a, a, l, decode(n, a));
        assert(satisfies(a, cs));
        assert(models(cs, 3 * n).contains(a));
        let k = choose|k: int| 0 <= k < ms.len() && (#[trigger] ms[k])@ == a;
        assert(r[k]@ == l);
    }
    assert forall|i: int, j: int| 0 <= i < j < r.len() implies (#[trigger] r[i])@ != (#[trigger] r[j])@ by {
        let (a, b) = (ms[i]@, ms[j]@);
        assert(models(cs, 3 * n).contains(a));
        assert(models(cs, 3 * n).contains(b));
        assert(satisfies(a, cs));
        assert(satisfies(b, cs));
        lemma_encodes_unique(n, a, b, decode(n, a), decode(n, b));
    }
}

/// The clauses that leave no argument undecided.
pub open spec fn stable_clauses(n: nat) -> Seq<Seq<Literal>> {
    Seq::new(n, |i: int| seq![((2 * n + i) as usize, false)])
}

/// The clauses that leave no argument undecided say so.
pub proof fn lemma_stable_clauses(n: nat, a: Seq<bool>)
    requires
        a.len() == 3 * n,
        3 * n <= usize::MAX,
    ensures
        satisfies(a, stable_clauses(n)) <==> forall|i: int| 0 <= i < n ==> !#[trigger] a[2 * n + i],
        clauses_within(stable_clauses(n), (3 * n) as int),
{
    let cs = stable_clauses(n);
    assert forall|i: int| 0 <= i < n implies (clause_holds(a, #[trigger] cs[i]) <==> !a[2 * n + i]) by {
        lemma_clause1(a, ((2 * n + i) as usize, false));
    }
    if forall|i: int| 0 <= i < n ==> !#[trigger] a[2 * n + i] {
        assert forall|i: int| 0 <= i < cs.len() implies clause_holds(a, #[trigger] cs[i]) by {
            assert(!a[2 * n + i]);
        }
    }
    if satisfies(a, cs) {
        assert forall|i: int| 0 <= i < n implies !#[trigger] a[2 * n + i] by {
            assert(clause_holds(a, cs[i]));
        }
    }
    assert forall|k: int| 0 <= k < cs.len() implies clause_within(#[trigger] cs[k], (3 * n) as int) by {
        assert forall|j: int| 0 <= j < cs[k].len() implies (#[trigger] cs[k][j]).0 < 3 * n by {}
    }
}

/// The clause that some argument is accepted.
pub open spec fn not_empty_clause(n: nat) -> Seq<Literal> {
    Seq::new(n, |i: int| (i as usize, true))
}

/// The arguments whose accepted variable is true in `a`.
pub open spec fn in_set(n: nat, a: Seq<bool>) -> Set<int> {
    Set::new(|i: int| 0 <= i < n && a[i])
}

/// The clause that some argument is accepted says so.
pub proof fn lemma_not_empty_clause(n: nat, a: Seq<bool>)
    requires
        a.len() == 3 * n,
        3 * n <= usize::MAX,
    ensures
        clause_holds(a, not_empty_clause(n)) <==> in_set(n, a) != Set::<int>::empty(),
        clause_within(not_empty_clause(n), (3 * n) as int),
{
    let c = not_empty_clause(n);
    if clause_holds(a, c) {
        let k = choose|k: int| 0 <= k < c.len() && lit_holds(a, #[trigger] c[k]);
        assert(in_set(n, a).contains(k));
    }
    if in_set(n, a) != Set::<int>::empty() {
        assert(!(in_set(n, a) =~= Set::<int>::empty()));
        let k = choose|k: int| in_set(n, a).contains(k);
        assert(lit_holds(a, c[k]));
    }
}

/// An assignment accepts the arguments that the labelling it encodes
/// accepts.
pub proof fn lemma_accepted_in_set(n: nat, a: Seq<bool>, l: Seq<Acceptability>)
    requires
        encodes(n, a, l),
    ensures
        accepted(l) == in_set(n, a),
{
    assert forall|i: int| #[trigger] accepted(l).contains(i) <==> in_set(n, a).contains(i) by {
        if 0 <= i < n {
            assert(encodes_at(n, a, l, i));
        }
    }
    assert(accepted(l) =~= in_set(n, a));
}

/// The encoding of a complete labelling is a model of the complete encoding
/// that decodes back to it.
pub proof fn lemma_encode_complete(n: nat, attacks: Seq<Attack>, l: Seq<Acceptability>)
    requires
        is_complete(n, attacks, l),
    ensures
        encodes(n, encode(l), l),
        decode(n, encode(l)) == l,
        complete_model(n, attacks, encode(l)),
{
    let a = encode(l);
    lemma_encodes_encode(l);
    assert forall|i: int| 0 <= i < n implies #[trigger] one_status(n, a, i) by {
        assert(encodes_at(n, a, l, i));
    }
    lemma_encodes_decode(n, a);
    lemma_encodes_unique(n, a, a, l, decode(n, a));
}

} // verus!
