use af_sat::af::{Attack, AF};
use af_sat::sat::{CnfFormulaExtension, SAT};
use varisat::{CnfFormula, ExtendFormula, Lit};

fn formula(clauses: &[&[isize]]) -> CnfFormula {
    let mut f = CnfFormula::new();
    for c in clauses {
        let lits: Vec<Lit> = c.iter().map(|&d| Lit::from_dimacs(d)).collect();
        f.add_clause(&lits);
    }
    f
}

#[test]
fn enumerate_lists_each_model_once() {
    // x1 or x2
    let f = formula(&[&[1, 2]]);
    let models = SAT::enumerate(&f);
    assert_eq!(models.len(), 3);
    for m in [vec![true, false], vec![false, true], vec![true, true]] {
        assert!(models.contains(&m));
    }
    for i in 0..models.len() {
        for j in (i + 1)..models.len() {
            assert_ne!(models[i], models[j]);
        }
    }
}

#[test]
fn enumerate_of_unsatisfiable_formula_is_empty() {
    let f = formula(&[&[1], &[-1]]);
    assert!(SAT::enumerate(&f).is_empty());
    assert_eq!(SAT::solve(&f), None);
}

#[test]
fn solve_returns_a_model() {
    let f = formula(&[&[1, 2], &[-1], &[-2, 3]]);
    assert_eq!(SAT::solve(&f), Some(vec![false, true, true]));
}

#[test]
fn enumerate_of_empty_formula_is_the_empty_model() {
    let f = CnfFormula::new();
    assert_eq!(SAT::enumerate(&f), vec![Vec::<bool>::new()]);
}

#[test]
fn clone_copies_every_clause() {
    let f = formula(&[&[1, -2], &[3]]);
    let g = f.clone();
    assert_eq!(f, g);
}

#[test]
fn framework_formula_holds_three_variables_per_argument() {
    let af = AF::new(vec![Attack(0, 1), Attack(1, 2)]);
    let mut formula = af.create_formula();
    assert_eq!(formula.cnf.var_count(), 9);
    assert!(formula.cnf.is_empty());
    assert_eq!(formula.vars.i, vec![0, 1, 2]);
    assert_eq!(formula.vars.o, vec![3, 4, 5]);
    assert_eq!(formula.vars.u, vec![6, 7, 8]);
    af.add_complete_clauses(&mut formula);
    assert_eq!(formula.cnf.var_count(), 9);
    af.add_not_empty_clause(&mut formula);
    assert_eq!(formula.cnf.var_count(), 9);
}
