use af_sat::af::{Attack, AF};
use af_sat::semantics::Acceptability::{IN, OUT, UNDEC};
use af_sat::semantics::{Acceptability, Labelling, Semantics, SemanticsType};

fn lab(v: Vec<Acceptability>) -> Labelling {
    Labelling(v)
}

fn same_set(got: &Vec<Labelling>, want: &Vec<Labelling>) -> bool {
    got.len() == want.len() && want.iter().all(|w| got.contains(w))
}

fn named(n: usize) -> Vec<String> {
    (0..n).map(|i| format!("a{}", i)).collect()
}

#[test]
fn two_cycle_labellings() {
    let af = AF::new(vec![Attack(0, 1), Attack(1, 0)]);
    let want = vec![lab(vec![IN, OUT]), lab(vec![OUT, IN])];
    let complete = af.complete();
    // the grounded labelling leaves both undecided
    assert!(same_set(
        &complete,
        &vec![lab(vec![IN, OUT]), lab(vec![OUT, IN]), lab(vec![UNDEC, UNDEC])]
    ));
    assert!(same_set(&af.stable(), &want));
    assert!(same_set(&af.preferred(), &want));
}

#[test]
fn single_attack_round_trip() {
    let af = AF::new(vec![Attack(0, 1)]);
    assert_eq!(af.num_of_args(), 2);
    assert_eq!(af.complete(), vec![lab(vec![IN, OUT])]);
    assert_eq!(af.stable(), vec![lab(vec![IN, OUT])]);
    assert_eq!(af.preferred(), vec![lab(vec![IN, OUT])]);
}

#[test]
fn no_attacks_accepts_everything() {
    let af = AF::new_named(vec![], named(3));
    assert_eq!(af.complete(), vec![lab(vec![IN, IN, IN])]);
    assert_eq!(af.stable(), vec![lab(vec![IN, IN, IN])]);
    assert_eq!(af.preferred(), vec![lab(vec![IN, IN, IN])]);
}

#[test]
fn self_attacker_is_undecided() {
    let af = AF::new(vec![Attack(0, 0)]);
    assert_eq!(af.complete(), vec![lab(vec![UNDEC])]);
    assert_eq!(af.stable(), Vec::<Labelling>::new());
    // no complete labelling accepts anything: the degenerate answer
    assert_eq!(af.preferred(), vec![lab(vec![UNDEC])]);
}

#[test]
fn self_attacker_beside_others() {
    // 0 attacks itself only; 1 attacks 2
    let af = AF::new(vec![Attack(0, 0), Attack(1, 2)]);
    assert_eq!(af.complete(), vec![lab(vec![UNDEC, IN, OUT])]);
    assert_eq!(af.preferred(), vec![lab(vec![UNDEC, IN, OUT])]);
    assert_eq!(af.stable(), Vec::<Labelling>::new());
}

#[test]
fn empty_framework() {
    let af = AF::new(vec![]);
    assert_eq!(af.num_of_args(), 0);
    assert_eq!(af.complete(), vec![lab(vec![])]);
    assert_eq!(af.stable(), vec![lab(vec![])]);
    assert_eq!(af.preferred(), vec![lab(vec![])]);
}

#[test]
fn chain_of_three() {
    // a -> b -> c
    let af = AF::new(vec![Attack(0, 1), Attack(1, 2)]);
    assert_eq!(af.complete(), vec![lab(vec![IN, OUT, IN])]);
    assert_eq!(af.stable(), vec![lab(vec![IN, OUT, IN])]);
    assert_eq!(af.preferred(), vec![lab(vec![IN, OUT, IN])]);
}

#[test]
fn two_two_cycles() {
    // a <-> b, c <-> d
    let af = AF::new(vec![Attack(0, 1), Attack(1, 0), Attack(2, 3), Attack(3, 2)]);
    assert_eq!(af.complete().len(), 9);
    let want = vec![
        lab(vec![IN, OUT, IN, OUT]),
        lab(vec![IN, OUT, OUT, IN]),
        lab(vec![OUT, IN, IN, OUT]),
        lab(vec![OUT, IN, OUT, IN]),
    ];
    assert!(same_set(&af.stable(), &want));
    assert!(same_set(&af.preferred(), &want));
}

#[test]
fn odd_cycle_has_no_stable_labelling() {
    let af = AF::new(vec![Attack(0, 1), Attack(1, 2), Attack(2, 0)]);
    assert_eq!(af.complete(), vec![lab(vec![UNDEC, UNDEC, UNDEC])]);
    assert_eq!(af.stable(), Vec::<Labelling>::new());
    assert_eq!(af.preferred(), vec![lab(vec![UNDEC, UNDEC, UNDEC])]);
}

#[test]
fn preferred_differs_from_stable() {
    // a <-> b, b -> c, c -> c: only {a} survives as stable-free maximal
    let af = AF::new(vec![Attack(0, 1), Attack(1, 0), Attack(1, 2), Attack(2, 2)]);
    let complete = af.complete();
    assert!(same_set(
        &complete,
        &vec![
            lab(vec![UNDEC, UNDEC, UNDEC]),
            lab(vec![IN, OUT, UNDEC]),
            lab(vec![OUT, IN, OUT]),
        ]
    ));
    assert_eq!(af.stable(), vec![lab(vec![OUT, IN, OUT])]);
    assert!(same_set(
        &af.preferred(),
        &vec![lab(vec![IN, OUT, UNDEC]), lab(vec![OUT, IN, OUT])]
    ));
}

#[test]
fn stable_labellings_are_complete() {
    let af = AF::new(vec![Attack(0, 1), Attack(1, 0), Attack(1, 2), Attack(2, 3), Attack(3, 2)]);
    let complete = af.complete();
    for l in af.stable() {
        assert!(complete.contains(&l));
    }
}

#[test]
fn preferred_are_maximal_complete_labellings() {
    let af = AF::new(vec![Attack(0, 1), Attack(1, 0), Attack(1, 2), Attack(2, 3), Attack(3, 2)]);
    let complete = af.complete();
    let accepted = |l: &Labelling| -> Vec<usize> { (0..l.0.len()).filter(|&i| l.0[i] == IN).collect() };
    let strictly_within = |s: &Vec<usize>, t: &Vec<usize>| s.len() < t.len() && s.iter().all(|x| t.contains(x));
    let maximal: Vec<Labelling> = complete
        .iter()
        .filter(|l| !complete.iter().any(|m| strictly_within(&accepted(l), &accepted(m))))
        .cloned()
        .collect();
    assert!(same_set(&af.preferred(), &maximal));
}

#[test]
fn results_hold_no_duplicates() {
    let af = AF::new(vec![Attack(0, 1), Attack(1, 0), Attack(2, 3), Attack(3, 2), Attack(4, 4)]);
    for r in [af.complete(), af.stable(), af.preferred()] {
        for i in 0..r.len() {
            for j in (i + 1)..r.len() {
                assert_ne!(r[i], r[j]);
            }
        }
    }
}

#[test]
fn get_semantics_dispatches() {
    let af = AF::new(vec![Attack(0, 1), Attack(1, 0)]);
    assert_eq!(af.get_semantics(SemanticsType::COMPLETE).len(), 3);
    assert_eq!(af.get_semantics(SemanticsType::STABLE).len(), 2);
    assert_eq!(af.get_semantics(SemanticsType::PREFERRED).len(), 2);
    assert!(af.get_semantics(SemanticsType::GROUNDED).is_empty());
}

#[test]
fn label_decodes_a_model() {
    let af = AF::new(vec![Attack(0, 1), Attack(1, 2)]);
    // accepted: 0; rejected: 1; undecided: 2
    let model = vec![true, false, false, false, true, false, false, false, true];
    assert_eq!(af.label(&model), lab(vec![IN, OUT, UNDEC]));
}

#[test]
fn attacker_map_lists_origins() {
    let af = AF::new(vec![Attack(0, 2), Attack(1, 2), Attack(2, 0)]);
    assert_eq!(af.attacker_map(), vec![vec![2], vec![], vec![0, 1]]);
}

#[test]
fn attacker_map_keeps_attack_order_and_repeats() {
    let af = AF::new(vec![Attack(2, 0), Attack(1, 0), Attack(2, 0), Attack(0, 1)]);
    assert_eq!(af.attacker_map(), vec![vec![2, 1, 2], vec![0], vec![]]);
}

#[test]
fn names_by_index_reads_names() {
    let af = AF::new_named(vec![Attack(0, 1)], vec!["x".to_string(), "y".to_string()]);
    assert_eq!(af.names_by_index(), Some(vec!["x", "y"]));
    assert_eq!(AF::new(vec![Attack(0, 1)]).names_by_index(), None);
}

#[test]
fn new_counts_the_largest_index() {
    let af = AF::new(vec![Attack(3, 1), Attack(0, 2)]);
    assert_eq!(af.num_of_args(), 4);
    assert_eq!(af.attacks().len(), 2);
}

fn all_labellings(n: usize) -> Vec<Vec<Acceptability>> {
    let mut out = vec![vec![]];
    for _ in 0..n {
        let mut next = vec![];
        for l in &out {
            for s in [IN, OUT, UNDEC] {
                let mut m = l.clone();
                m.push(s);
                next.push(m);
            }
        }
        out = next;
    }
    out
}

fn brute_complete(n: usize, attacks: &[(usize, usize)]) -> Vec<Labelling> {
    all_labellings(n)
        .into_iter()
        .filter(|l| {
            (0..n).all(|i| {
                let attackers: Vec<usize> = attacks.iter().filter(|a| a.1 == i).map(|a| a.0).collect();
                let all_out = attackers.iter().all(|&j| l[j] == OUT);
                let some_in = attackers.iter().any(|&j| l[j] == IN);
                (l[i] == IN) == all_out && (l[i] == OUT) == some_in
            })
        })
        .map(Labelling)
        .collect()
}

fn check_against_brute_force(attacks: &[(usize, usize)]) {
    let af = AF::new(attacks.iter().map(|&(o, t)| Attack(o, t)).collect());
    let n = af.num_of_args();
    let complete = brute_complete(n, attacks);
    let stable: Vec<Labelling> = complete.iter().filter(|l| !l.0.contains(&UNDEC)).cloned().collect();
    let accepted = |l: &Labelling| -> Vec<usize> { (0..n).filter(|&i| l.0[i] == IN).collect() };
    let strictly_within = |s: &Vec<usize>, t: &Vec<usize>| s.len() < t.len() && s.iter().all(|x| t.contains(x));
    let preferred: Vec<Labelling> = complete
        .iter()
        .filter(|l| !complete.iter().any(|m| strictly_within(&accepted(l), &accepted(m))))
        .cloned()
        .collect();
    assert!(same_set(&af.complete(), &complete));
    assert!(same_set(&af.stable(), &stable));
    assert!(same_set(&af.preferred(), &preferred));
}

#[test]
fn semantics_agree_with_brute_force() {
    check_against_brute_force(&[(0, 1), (1, 2), (2, 3), (3, 0)]);
    check_against_brute_force(&[(0, 1), (1, 0), (1, 2), (2, 3), (3, 4), (4, 2)]);
    check_against_brute_force(&[(0, 0), (0, 1), (1, 2), (2, 1), (3, 4), (4, 5), (5, 3)]);
    check_against_brute_force(&[(1, 7), (2, 0), (6, 0), (3, 4), (7, 3), (4, 1), (2, 5)]);
    check_against_brute_force(&[(0, 1), (0, 1), (1, 0), (2, 2), (2, 3)]);
}
