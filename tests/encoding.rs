use af_sat::af::{Attack, AF};
use af_sat::encoding::Enconding;
use af_sat::semantics::Acceptability::{IN, OUT, UNDEC};
use af_sat::semantics::{Labelling, Semantics, SemanticsType};

fn s(x: &str) -> String {
    x.to_string()
}

#[test]
fn parse_simple_reads_args_and_attacks() {
    let text = s("arg(a).\narg(b).\narg(c).\natt(a,b).\natt(b,c).\n");
    assert_eq!(
        Enconding::parse_simple(text),
        Enconding::SIMPLE(vec![s("a"), s("b"), s("c")], vec![(s("a"), s("b")), (s("b"), s("c"))])
    );
}

#[test]
fn parse_simple_drops_comments_and_malformed_lines() {
    let text = s("# a comment\n\narg(x)\nfoo(y).\narg(z\natt(x,y,z).\natt(x).\n)(arg\natt(x,z).");
    assert_eq!(
        Enconding::parse_simple(text),
        Enconding::SIMPLE(vec![s("x")], vec![(s("x"), s("z"))])
    );
}

#[test]
fn parse_simple_keeps_text_inside_brackets() {
    let text = s("arg( spaced ).\r\natt(a ,b).");
    assert_eq!(
        Enconding::parse_simple(text),
        Enconding::SIMPLE(vec![s(" spaced ")], vec![(s("a "), s("b"))])
    );
}

#[test]
fn parse_simple_of_empty_text() {
    assert_eq!(Enconding::parse_simple(s("")), Enconding::SIMPLE(vec![], vec![]));
}

#[test]
fn from_encoding_indexes_labels_by_first_appearance() {
    let enc = Enconding::SIMPLE(
        vec![s("b"), s("a"), s("b"), s("c")],
        vec![(s("a"), s("b")), (s("b"), s("q")), (s("c"), s("a"))],
    );
    let af = AF::from(enc);
    assert_eq!(af.num_of_args(), 3);
    assert_eq!(af.names_by_index(), Some(vec!["b", "a", "c"]));
    assert_eq!(af.attacks(), &vec![Attack(1, 0), Attack(2, 1)]);
}

#[test]
fn from_error_is_empty() {
    let af = AF::from(Enconding::ERROR(s("unreadable")));
    assert_eq!(af.num_of_args(), 0);
    assert!(af.attacks().is_empty());
    assert_eq!(af.names_by_index(), None);
}

#[test]
fn text_to_labellings() {
    let text = s("arg(a).\narg(b).\narg(c).\narg(d).\natt(a,b).\natt(b,a).\natt(c,d).\natt(d,c).");
    let af = AF::from(Enconding::parse_simple(text));
    assert_eq!(af.num_of_args(), 4);
    assert_eq!(af.complete().len(), 9);
    assert_eq!(af.stable().len(), 4);
    assert_eq!(af.preferred().len(), 4);
}

#[test]
fn text_chain_grounded_like() {
    let af = AF::from(Enconding::parse_simple(s("arg(a).\narg(b).\narg(c).\natt(a,b).\natt(b,c).\n")));
    assert_eq!(af.complete(), vec![Labelling(vec![IN, OUT, IN])]);
}

#[test]
fn isolated_named_argument_is_accepted() {
    let af = AF::from(Enconding::parse_simple(s("arg(a).\narg(b).\natt(b,b).")));
    assert_eq!(af.complete(), vec![Labelling(vec![IN, UNDEC])]);
    assert_eq!(af.preferred(), vec![Labelling(vec![IN, UNDEC])]);
}

#[test]
fn semantics_names_round_trip() {
    for t in [SemanticsType::COMPLETE, SemanticsType::GROUNDED, SemanticsType::PREFERRED, SemanticsType::STABLE] {
        let name: String = t.into();
        assert_eq!(SemanticsType::from(name), t);
    }
    let name: String = SemanticsType::PREFERRED.into();
    assert_eq!(name, "Preferred");
    assert_eq!(SemanticsType::from(s("nonsense")), SemanticsType::STABLE);
    let i: usize = SemanticsType::PREFERRED.into();
    assert_eq!(i, 2);
    let i: usize = SemanticsType::COMPLETE.into();
    assert_eq!(i, 0);
}
