//! The line-based text format of frameworks: `arg(x).` declares argument
//! `x`, `att(x,y).` an attack of `x` on `y`; empty lines and lines that start
//! with `#` are comments, and any other line is dropped.

use vstd::prelude::*;
use vstd::std_specs::iter::IteratorSpec;
use vstd::string::StrSliceExecFns;

verus! {

broadcast use {vstd::string::axiom_spec_iter, vstd::string::next_postcondition};

/// A framework read from text: the labels of its arguments and its attacks
/// between labels, in the order of the text; or a reason why none could be
/// read.
#[derive(Debug, Clone, PartialEq, Eq)]
pub enum Enconding {
    SIMPLE(Vec<String>, Vec<(String, String)>),
    ERROR(String),
}

/// The index of the first `c` in `s`, or -1.
pub open spec fn first_index(s: Seq<char>, c: char) -> int
    decreases s.len(),
{
    if s.len() == 0 {
        -1
    } else if s[0] == c {
        0
    } else {
        let r = first_index(s.subrange(1, s.len() as int), c);
        if r < 0 { -1 } else { r + 1 }
    }
}

/// The label that line `l` declares, if it is `arg(label)` followed by
/// anything.
pub open spec fn line_label(l: Seq<char>) -> Option<Seq<char>> {
    let s = first_index(l, '(');
    let e = first_index(l, ')');
    if l.len() == 0 || l[0] == '#' || s < 0 || e < s {
        None
    } else if l.subrange(0, s) == seq!['a', 'r', 'g'] {
        Some(l.subrange(s + 1, e))
    } else {
        None
    }
}

/// The attack that line `l` declares, if it is `att(origin,target)` with
/// exactly one comma between the brackets, followed by anything.
pub open spec fn line_attack(l: Seq<char>) -> Option<(Seq<char>, Seq<char>)> {
    let s = first_index(l, '(');
    let e = first_index(l, ')');
    if l.len() == 0 || l[0] == '#' || s < 0 || e < s {
        None
    } else if l.subrange(0, s) == seq!['a', 't', 't'] {
        let center = l.subrange(s + 1, e);
        let c = first_index(center, ',');
        let rest = center.subrange(c + 1, center.len() as int);
        if c >= 0 && first_index(rest, ',') < 0 {
            Some((center.subrange(0, c), rest))
        } else {
            None
        }
    } else {
        None
    }
}

/// The labels that text `t` declares, line by line.
pub open spec fn text_labels(t: Seq<char>) -> Seq<Seq<char>>
    decreases t.len(),
{
    let k = first_index(t, '\n');
    let whole = k < 0 || k >= t.len();
    let here = match line_label(if whole { t } else { t.subrange(0, k) }) {
        Some(x) => seq![x],
        None => Seq::empty(),
    };
    if whole {
        here
    } else {
        here + text_labels(t.subrange(k + 1, t.len() as int))
    }
}

/// The attacks that text `t` declares, line by line.
pub open spec fn text_attacks(t: Seq<char>) -> Seq<(Seq<char>, Seq<char>)>
    decreases t.len(),
{
    let k = first_index(t, '\n');
    let whole = k < 0 || k >= t.len();
    let here = match line_attack(if whole { t } else { t.subrange(0, k) }) {
        Some(x) => seq![x],
        None => Seq::empty(),
    };
    if whole {
        here
    } else {
        here + text_attacks(t.subrange(k + 1, t.len() as int))
    }
}

/// The first index of `c` in `s` is `k` when no earlier position holds it.
proof fn lemma_first_index(s: Seq<char>, c: char, k: int)
    requires
        0 <= k <= s.len(),
        forall|j: int| 0 <= j < k ==> s[j] != c,
        k < s.len() ==> s[k] == c,
    ensures
        first_index(s, c) == if k < s.len() { k } else { -1 },
    decreases k,
{
    if k > 0 {
        let t = s.subrange(1, s.len() as int);
        assert forall|j: int| 0 <= j < k - 1 implies t[j] != c by {
            assert(t[j] == s[j + 1]);
        }
        if k < s.len() {
            assert(t[k - 1] == s[k]);
        }
        lemma_first_index(t, c, k - 1);
    }
}

/// The first position in `from..to` of `chars` that holds `c`, as an index
/// relative to `from`, or -1.
fn find_char(chars: &Vec<char>, from: usize, to: usize, c: char) -> (r: Option<usize>)
    requires
        from <= to <= chars@.len(),
    ensures
        match r {
            Some(k) => from <= k < to && chars@[k as int] == c && first_index(
                chars@.subrange(from as int, to as int),
                c,
            ) == k - from,
            None => first_index(chars@.subrange(from as int, to as int), c) == -1,
        },
{
    let ghost s = chars@.subrange(from as int, to as int);
    let mut k: usize = from;
    while k < to
        invariant
            from <= k <= to <= chars@.len(),
            s == chars@.subrange(from as int, to as int),
            forall|j: int| 0 <= j < k - from ==> s[j] != c,
        decreases to - k,
    {
        if chars[k] == c {
            proof {
                lemma_first_index(s, c, k - from);
            }
            return Some(k);
        }
        k = k + 1;
    }
    proof {
        lemma_first_index(s, c, s.len() as int);
    }
    None
}

/// The characters of `text`.
fn chars_of(text: &String) -> (r: Vec<char>)
    ensures
        r@ == text@,
{
    let mut chars: Vec<char> = Vec::new();
    let mut it = text.as_str().chars();
    loop
        invariant
            chars@ + it.remaining() == text@,
        ensures
            chars@ == text@,
        decreases text@.len() - chars@.len(),
    {
        match it.next() {
            Some(c) => chars.push(c),
            None => {
                assert(it.remaining().len() == 0);
                assert(chars@ =~= text@);
                break;
            },
        }
    }
    chars
}

/// The string of the characters `from..to` of `text`, whose characters are
/// `chars`.
fn text_slice(text: &str, chars: &Vec<char>, from: usize, to: usize) -> (r: String)
    requires
        chars@ == text@,
        from <= to <= chars@.len(),
    ensures
        r@ == chars@.subrange(from as int, to as int),
{
    text.substring_char(from, to).to_owned()
}

/// What the line `from..to` of `text` declares: a label, an attack, or
/// neither.
fn read_line(text: &str, chars: &Vec<char>, from: usize, to: usize) -> (r: (
    Option<String>,
    Option<(String, String)>,
))
    requires
        chars@ == text@,
        from <= to <= chars@.len(),
    ensures
        match line_label(chars@.subrange(from as int, to as int)) {
            Some(x) => r.0 matches Some(s) && s@ == x,
            None => r.0 is None,
        },
        match line_attack(chars@.subrange(from as int, to as int)) {
            Some(x) => r.1 matches Some(p) && p.0@ == x.0 && p.1@ == x.1,
            None => r.1 is None,
        },
{
    let ghost l = chars@.subrange(from as int, to as int);
    if from == to || chars[from] == '#' {
        return (None, None);
    }
    let (open, close) = match (find_char(chars, from, to, '('), find_char(chars, from, to, ')')) {
        (Some(open), Some(close)) => (open, close),
        _ => {
            return (None, None);
        },
    };
    if close < open {
        return (None, None);
    }
    let ghost before = l.subrange(0, open - from);
    assert(before =~= chars@.subrange(from as int, open as int));
    let ghost center = l.subrange(open - from + 1, close - from);
    assert(center =~= chars@.subrange(open + 1, close as int));
    if open - from == 3 && chars[from] == 'a' && chars[from + 1] == 'r' && chars[from + 2] == 'g' {
        assert(before =~= seq!['a', 'r', 'g']);
        let label = text_slice(text, chars, open + 1, close);
        return (Some(label), None);
    }
    if open - from == 3 && chars[from] == 'a' && chars[from + 1] == 't' && chars[from + 2] == 't' {
        assert(before =~= seq!['a', 't', 't']);
        assert(before != seq!['a', 'r', 'g']) by {
            assert(before[1] != seq!['a', 'r', 'g'][1]);
        }
        let comma = find_char(chars, open + 1, close, ',');
        match comma {
            Some(comma) => {
                let ghost rest = center.subrange(comma - open, center.len() as int);
                assert(rest =~= chars@.subrange(comma + 1, close as int));
                if find_char(chars, comma + 1, close, ',').is_none() {
                    let origin = text_slice(text, chars, open + 1, comma);
                    let target = text_slice(text, chars, comma + 1, close);
                    assert(center.subrange(0, comma - (open + 1)) =~= chars@.subrange(open + 1, comma as int));
                    return (None, Some((origin, target)));
                }
                return (None, None);
            },
            None => {
                assert(center.subrange(0, center.len() as int) =~= center);
                return (None, None);
            },
        }
    }
    proof {
        if open - from == 3 {
            if before == seq!['a', 'r', 'g'] {
                assert(chars[from as int] == before[0]);
                assert(chars[from + 1] == before[1]);
                assert(chars[from + 2] == before[2]);
            }
            if before == seq!['a', 't', 't'] {
                assert(chars[from as int] == before[0]);
                assert(chars[from + 1] == before[1]);
                assert(chars[from + 2] == before[2]);
            }
        }
    }
    (None, None)
}

impl Enconding {
    /// Reads the labels and the attacks that `text` declares, line by line,
    /// dropping every line that is neither.
    pub fn parse_simple(text: String) -> (r: Enconding)
        ensures
            r matches Enconding::SIMPLE(labels, attacks) && labels@.map_values(|s: String| s@)
                == text_labels(text@) && attacks@.map_values(|p: (String, String)| (p.0@, p.1@))
                == text_attacks(text@),
    {
        let chars = chars_of(&text);
        let len = chars.len();
        let mut labels: Vec<String> = Vec::new();
        let mut attacks: Vec<(String, String)> = Vec::new();
        let mut pos: usize = 0;
        assert(chars@.subrange(0, len as int) =~= text@);
        assert(labels@.map_values(|s: String| s@) =~= Seq::<Seq<char>>::empty());
        assert(attacks@.map_values(|p: (String, String)| (p.0@, p.1@)) =~= Seq::<(Seq<char>, Seq<char>)>::empty());
        assert(Seq::<Seq<char>>::empty() + text_labels(text@) =~= text_labels(text@));
        assert(Seq::<(Seq<char>, Seq<char>)>::empty() + text_attacks(text@) =~= text_attacks(text@));
        loop
            invariant_except_break
                labels@.map_values(|s: String| s@) + text_labels(chars@.subrange(pos as int, len as int))
                    == text_labels(text@),
                attacks@.map_values(|p: (String, String)| (p.0@, p.1@)) + text_attacks(
                    chars@.subrange(pos as int, len as int),
                ) == text_attacks(text@),
            invariant
                chars@ == text@,
                len == chars@.len(),
                pos <= len,
            ensures
                labels@.map_values(|s: String| s@) == text_labels(text@),
                attacks@.map_values(|p: (String, String)| (p.0@, p.1@)) == text_attacks(text@),
            decreases len - pos,
        {
            let ghost t = chars@.subrange(pos as int, len as int);
            let newline = find_char(&chars, pos, len, '\n');
            let end = match newline {
                Some(k) => k,
                None => len,
            };
            let ghost line = chars@.subrange(pos as int, end as int);
            let ghost old_labels = labels@.map_values(|s: String| s@);
            let ghost old_attacks = attacks@.map_values(|p: (String, String)| (p.0@, p.1@));
            let (label, attack) = read_line(text.as_str(), &chars, pos, end);
            match label {
                Some(x) => labels.push(x),
                None => {},
            }
            match attack {
                Some(x) => attacks.push(x),
                None => {},
            }
            let ghost here_labels = match line_label(line) {
                Some(x) => seq![x],
                None => Seq::<Seq<char>>::empty(),
            };
            let ghost here_attacks = match line_attack(line) {
                Some(x) => seq![x],
                None => Seq::<(Seq<char>, Seq<char>)>::empty(),
            };
            assert(labels@.map_values(|s: String| s@) =~= old_labels + here_labels);
            assert(attacks@.map_values(|p: (String, String)| (p.0@, p.1@)) =~= old_attacks + here_attacks);
            match newline {
                Some(k) => {
                    assert(t.subrange(0, k - pos) =~= line);
                    assert(t.subrange(k - pos + 1, t.len() as int) =~= chars@.subrange(k + 1, len as int));
                    assert(text_labels(t) == here_labels + text_labels(chars@.subrange(k + 1, len as int)));
                    assert(text_attacks(t) == here_attacks + text_attacks(chars@.subrange(k + 1, len as int)));
                    assert(old_labels + (here_labels + text_labels(chars@.subrange(k + 1, len as int))) =~= (
                    old_labels + here_labels) + text_labels(chars@.subrange(k + 1, len as int)));
                    assert(old_attacks + (here_attacks + text_attacks(chars@.subrange(k + 1, len as int)))
                        =~= (old_attacks + here_attacks) + text_attacks(chars@.subrange(k + 1, len as int)));
                    pos = k + 1;
                },
                None => {
                    assert(line =~= t);
                    assert(text_labels(t) == here_labels);
                    assert(text_attacks(t) == here_attacks);
                    break;
                },
            }
        }
        Enconding::SIMPLE(labels, attacks)
    }
}

} // verus!
