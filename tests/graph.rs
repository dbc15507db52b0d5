use af_sat::af::{Attack, AF};
use af_sat::graph::{color_by_acceptability, decimal_string, vis_labels};
use af_sat::semantics::Acceptability::{IN, OUT, UNDEC};
use af_sat::semantics::Labelling;

#[test]
fn colors_by_status() {
    assert_eq!(color_by_acceptability(&IN), "green");
    assert_eq!(color_by_acceptability(&OUT), "red");
    assert_eq!(color_by_acceptability(&UNDEC), "blue");
}

#[test]
fn decimal_numerals() {
    assert_eq!(decimal_string(0), "0");
    assert_eq!(decimal_string(7), "7");
    assert_eq!(decimal_string(42), "42");
    assert_eq!(decimal_string(1000), "1000");
    assert_eq!(decimal_string(usize::MAX), usize::MAX.to_string());
}

#[test]
fn vis_labels_of_named_framework() {
    let af = AF::new_named(vec![Attack(0, 1)], vec!["p".to_string(), "q".to_string()]);
    let l = Labelling(vec![IN, OUT]);
    let (labels, colors) = vis_labels(&af, Some(&l));
    assert_eq!(labels, vec!["p", "q"]);
    assert_eq!(colors, vec!["green", "red"]);
    let (_, colors) = vis_labels(&af, None);
    assert!(colors.is_empty());
    let longer = Labelling(vec![OUT, UNDEC, IN]);
    let (_, colors) = vis_labels(&af, Some(&longer));
    assert_eq!(colors, vec!["red", "blue"]);
}

#[test]
fn vis_labels_of_unnamed_framework() {
    let af = AF::new(vec![Attack(0, 11)]);
    let (labels, colors) = vis_labels(&af, None);
    assert_eq!(labels.len(), 12);
    assert_eq!(labels[0], "0");
    assert_eq!(labels[11], "11");
    assert!(colors.is_empty());
}
