//! What a drawing of a framework shows: a label and, under a labelling, a
//! colour for each argument.

use crate::af::AF;
use crate::semantics::{Acceptability, Labelling};
use vstd::prelude::*;
use vstd::string::StringExecFns;

verus! {

/// The colour that shows a status.
pub open spec fn color_name(acc: Acceptability) -> Seq<char> {
    match acc {
        Acceptability::IN => "green"@,
        Acceptability::OUT => "red"@,
        Acceptability::UNDEC => "blue"@,
    }
}

/// The decimal numeral of digit `d`.
pub open spec fn digit_name(d: nat) -> Seq<char> {
    if d == 0 {
        "0"@
    } else if d == 1 {
        "1"@
    } else if d == 2 {
        "2"@
    } else if d == 3 {
        "3"@
    } else if d == 4 {
        "4"@
    } else if d == 5 {
        "5"@
    } else if d == 6 {
        "6"@
    } else if d == 7 {
        "7"@
    } else if d == 8 {
        "8"@
    } else {
        "9"@
    }
}

/// The decimal numeral of `i`.
pub open spec fn decimal(i: nat) -> Seq<char>
    decreases i,
{
    if i < 10 {
        digit_name(i)
    } else {
        decimal(i / 10) + digit_name(i % 10)
    }
}

/// The colour that shows status `acc`.
pub fn color_by_acceptability(acc: &Acceptability) -> (r: String)
    ensures
        r@ == color_name(*acc),
{
    match acc {
        Acceptability::IN => String::from_str("green"),
        Acceptability::OUT => String::from_str("red"),
        Acceptability::UNDEC => String::from_str("blue"),
    }
}

fn digit_string(d: usize) -> (r: String)
    requires
        d < 10,
    ensures
        r@ == digit_name(d as nat),
{
    let s = if d == 0 {
        "0"
    } else if d == 1 {
        "1"
    } else if d == 2 {
        "2"
    } else if d == 3 {
        "3"
    } else if d == 4 {
        "4"
    } else if d == 5 {
        "5"
    } else if d == 6 {
        "6"
    } else if d == 7 {
        "7"
    } else if d == 8 {
        "8"
    } else {
        "9"
    };
    String::from_str(s)
}

/// The decimal numeral of `i`.
pub fn decimal_string(i: usize) -> (r: String)
    ensures
        r@ == decimal(i as nat),
    decreases i,
{
    if i < 10 {
        digit_string(i)
    } else {
        let last = digit_string(i % 10);
        decimal_string(i / 10).concat(last.as_str())
    }
}

/// The label of each argument (its name, or its index when the framework
/// has no names) and, for a named framework drawn under a labelling, the
/// colour of each argument's status (statuses past the last argument are
/// not drawn).
pub fn vis_labels(af: &AF, labelling: Option<&Labelling>) -> (r: (Vec<String>, Vec<String>))
    requires
        labelling matches Some(l) ==> l@.len() >= af.arg_count(),
    ensures
        r.0@.len() == af.arg_count(),
        match af.name_seq() {
            Some(names) => {
                &&& forall|i: int| 0 <= i < af.arg_count() ==> (#[trigger] r.0@[i])@ == names[i]
                &&& match labelling {
                    Some(l) => r.1@.len() == af.arg_count() && forall|i: int|
                        0 <= i < af.arg_count() ==> (#[trigger] r.1@[i])@ == color_name(l@[i]),
                    None => r.1@.len() == 0,
                }
            },
            None => {
                &&& forall|i: int| 0 <= i < af.arg_count() ==> (#[trigger] r.0@[i])@ == decimal(i as nat)
                &&& r.1@.len() == 0
            },
        },
{
    let n = af.num_of_args();
    let mut labels: Vec<String> = Vec::new();
    let mut colors: Vec<String> = Vec::new();
    match af.names_by_index() {
        Some(names) => {
            let mut i: usize = 0;
            while i < names.len()
                invariant
                    i <= names@.len(),
                    n == af.arg_count(),
                    names@.len() == n,
                    af.name_seq() is Some,
                    forall|j: int| 0 <= j < n ==> (#[trigger] names@[j])@ == af.name_seq()->Some_0[j],
                    labelling matches Some(l) ==> l@.len() >= n,
                    labels@.len() == i,
                    forall|j: int| 0 <= j < i ==> (#[trigger] labels@[j])@ == af.name_seq()->Some_0[j],
                    labelling matches Some(l) ==> colors@.len() == i && forall|j: int|
                        0 <= j < i ==> (#[trigger] colors@[j])@ == color_name(l@[j]),
                    labelling is None ==> colors@.len() == 0,
                decreases names@.len() - i,
            {
                labels.push(String::from_str(names[i]));
                match labelling {
                    Some(l) => colors.push(color_by_acceptability(&l.0[i])),
                    None => {},
                }
                i = i + 1;
            }
        },
        None => {
            let mut i: usize = 0;
            while i < n
                invariant
                    i <= n,
                    n == af.arg_count(),
                    labels@.len() == i,
                    forall|j: int| 0 <= j < i ==> (#[trigger] labels@[j])@ == decimal(j as nat),
                    colors@.len() == 0,
                decreases n - i,
            {
                labels.push(decimal_string(i));
                i = i + 1;
            }
        },
    }
    (labels, colors)
}

} // verus!
