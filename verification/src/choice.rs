//! Choice lists: `{P 1:2 one "two words" ""}`.

use vstd::prelude::*;
use crate::chars::{
    all_in, ascii_space, is_ascii_space, is_blank, is_digit, is_digit_run, is_gap, is_space,
    is_span, is_upper, lemma_run_end, run_end, skip, space, upper, CharClass,
};
use crate::command::{canonical_digits, is_index, number_view};
use crate::text::{
    chars_of, decimal_digits, index_value, push_chars, push_decimal, read_index, string_of,
};

verus! {

/// A list of alternative texts, one of which a renderer picks by the value
/// of a parameter.
#[derive(Debug, PartialEq)]
pub struct ChoiceList {
    /// The kind of list: one upper-case letter.
    pub name: String,
    /// Which parameter decides, where the string says so.
    pub indexref: Option<usize>,
    /// Which part of that parameter decides, where the string says so.
    pub indexsubref: Option<usize>,
    /// The alternatives, in the order written.
    pub choices: Vec<String>,
}

/// What a `ChoiceList` holds, as plain values.
pub struct ChoiceView {
    pub name: Seq<char>,
    pub indexref: Option<nat>,
    pub indexsubref: Option<nat>,
    pub choices: Seq<Seq<char>>,
}

/// The characters of each string of a list.
pub open spec fn texts(v: Seq<String>) -> Seq<Seq<char>> {
    Seq::new(v.len(), |i: int| v[i]@)
}

impl View for ChoiceList {
    type V = ChoiceView;

    open spec fn view(&self) -> ChoiceView {
        ChoiceView {
            name: self.name@,
            indexref: number_view(self.indexref),
            indexsubref: number_view(self.indexsubref),
            choices: texts(self.choices@),
        }
    }
}

/// One choice as a span writes it: the whitespace before it, its text, and
/// whether the text stands in quotes.
pub struct ChoiceItem {
    pub gap: Seq<char>,
    pub text: Seq<char>,
    pub quoted: bool,
}

/// The index reference and the sub-index as a span writes them: the
/// whitespace before the digits, the digits, and the digits behind the
/// colon where there is one.
pub struct ChoiceRef {
    pub gap: Seq<char>,
    pub digits: Seq<char>,
    pub subdigits: Option<Seq<char>>,
}

/// A choice as the grammar admits it: behind whitespace, and either in
/// quotes and without a double quote in it, or bare, not empty, and without
/// whitespace or a double quote in it.
pub open spec fn is_item(item: ChoiceItem) -> bool {
    &&& is_gap(item.gap)
    &&& item.quoted ==> all_in(item.text, 0, item.text.len() as int, CharClass::Unquoted)
    &&& !item.quoted ==> item.text.len() > 0 && all_in(
        item.text,
        0,
        item.text.len() as int,
        CharClass::Bare,
    )
}

/// Every choice is one that the grammar admits.
pub open spec fn are_items(items: Seq<ChoiceItem>) -> bool {
    forall|k: int| 0 <= k < items.len() ==> is_item(#[trigger] items[k])
}

/// An index reference and sub-index as the grammar admits them.
pub open spec fn is_ref(r: ChoiceRef) -> bool {
    &&& is_gap(r.gap)
    &&& is_digit_run(r.digits)
    &&& r.subdigits matches Some(d) ==> is_digit_run(d)
}

/// How a span writes one choice.
pub open spec fn item_span(item: ChoiceItem) -> Seq<char> {
    if item.quoted {
        item.gap + seq!['"'] + item.text + seq!['"']
    } else {
        item.gap + item.text
    }
}

/// How a span writes its choices, one behind the other.
pub open spec fn items_span(items: Seq<ChoiceItem>) -> Seq<char>
    decreases items.len(),
{
    if items.len() == 0 {
        Seq::empty()
    } else {
        item_span(items[0]) + items_span(items.drop_first())
    }
}

/// The texts of the choices.
pub open spec fn item_texts(items: Seq<ChoiceItem>) -> Seq<Seq<char>> {
    Seq::new(items.len(), |k: int| items[k].text)
}

/// How a span writes its index reference and sub-index.
pub open spec fn ref_span(r: Option<ChoiceRef>) -> Seq<char> {
    match r {
        Some(r) => r.gap + r.digits + match r.subdigits {
            Some(d) => seq![':'] + d,
            None => Seq::empty(),
        },
        None => Seq::empty(),
    }
}

/// The span that writes a choice list in these parts: `{`, the kind, the
/// index reference and sub-index, the choices, what stands behind the last
/// choice, `}`.
pub open spec fn choice_span(
    kind: Seq<char>,
    r: Option<ChoiceRef>,
    items: Seq<ChoiceItem>,
    trailing: Seq<char>,
) -> Seq<char> {
    seq!['{'] + kind + ref_span(r) + items_span(items) + trailing + seq!['}']
}

/// Parts that the choice-list grammar admits. Digits behind the kind are
/// always the index reference: without one, the first choice is in quotes
/// or does not open with a digit.
pub open spec fn is_choice_parts(
    kind: Seq<char>,
    r: Option<ChoiceRef>,
    items: Seq<ChoiceItem>,
    trailing: Seq<char>,
) -> bool {
    &&& kind.len() == 1
    &&& is_upper(kind[0])
    &&& r matches Some(x) ==> is_ref(x)
    &&& items.len() > 0
    &&& are_items(items)
    &&& is_blank(trailing)
    &&& r is None ==> items[0].quoted || !is_digit(items[0].text[0])
}

/// The choice list that parts of a span stand for.
pub open spec fn choice_from_parts(
    kind: Seq<char>,
    r: Option<ChoiceRef>,
    items: Seq<ChoiceItem>,
) -> ChoiceView {
    ChoiceView {
        name: kind,
        indexref: match r {
            Some(x) => index_value(x.digits),
            None => None,
        },
        indexsubref: match r {
            Some(ChoiceRef { subdigits: Some(d), .. }) => index_value(d),
            _ => None,
        },
        choices: item_texts(items),
    }
}

/// A choice that can be written: it holds no double quote.
pub open spec fn is_choice_item(c: Seq<char>) -> bool {
    all_in(c, 0, c.len() as int, CharClass::Unquoted)
}

/// A choice list that the grammar admits.
pub open spec fn is_choice(c: ChoiceView) -> bool {
    &&& c.name.len() == 1
    &&& is_upper(c.name[0])
    &&& is_index(c.indexref)
    &&& is_index(c.indexsubref)
    &&& c.choices.len() > 0
    &&& forall|i: int| 0 <= i < c.choices.len() ==> is_choice_item(#[trigger] c.choices[i])
}

/// Every choice is made of characters of `class`.
pub open spec fn choices_in(cs: Seq<Seq<char>>, class: CharClass) -> bool {
    forall|i: int| 0 <= i < cs.len() ==> all_in(#[trigger] cs[i], 0, cs[i].len() as int, class)
}

/// Where the digits of the index reference would start: behind the kind and
/// any whitespace.
pub open spec fn ref_start(s: Seq<char>) -> int {
    run_end(s, 2, s.len() - 1, CharClass::Space)
}

/// Where the digits of the index reference would end.
pub open spec fn ref_end(s: Seq<char>) -> int {
    run_end(s, ref_start(s), s.len() - 1, CharClass::Digit)
}

/// The span has an index reference: whitespace, then digits, behind the kind.
pub open spec fn has_ref(s: Seq<char>) -> bool {
    2 < ref_start(s) < ref_end(s)
}

/// Where the digits of the sub-index would end, if a colon follows the index
/// reference.
pub open spec fn subref_end(s: Seq<char>) -> int {
    run_end(s, ref_end(s) + 1, s.len() - 1, CharClass::Digit)
}

/// The span has a sub-index: a colon and digits right behind the index
/// reference.
pub open spec fn has_subref(s: Seq<char>) -> bool {
    has_ref(s) && ref_end(s) < s.len() - 1 && s[ref_end(s)] == ':' && ref_end(s) + 1 < subref_end(s)
}

/// Where the choices start: behind the kind, the index reference and the
/// sub-index, as far as the span has them.
pub open spec fn choices_start(s: Seq<char>) -> int {
    if has_subref(s) {
        subref_end(s)
    } else if has_ref(s) {
        ref_end(s)
    } else {
        2
    }
}

/// Where `s[from..to]` ends once the whitespace at its end is cut off.
pub open spec fn trimmed_end(s: Seq<char>, from: int, to: int) -> int
    decreases to - from,
{
    if from < to && is_space(s[to - 1]) {
        trimmed_end(s, from, to - 1)
    } else {
        to
    }
}

/// A list with one more item in front, where there is a list.
pub open spec fn with_first(first: Seq<char>, rest: Option<Seq<Seq<char>>>) -> Option<
    Seq<Seq<char>>,
> {
    match rest {
        Some(r) => Some(seq![first] + r),
        None => None,
    }
}

/// The choices that `s[from..to]` writes, if it is a list of choices. Each
/// choice stands behind whitespace, and is either the text between two
/// double quotes, taken as it is, or a run of characters that are neither
/// whitespace nor a double quote.
pub open spec fn tokens_of(s: Seq<char>, from: int, to: int) -> Option<Seq<Seq<char>>>
    decreases to - from,
{
    let a = run_end(s, from, to, CharClass::Space);
    if from >= to {
        Some(Seq::empty())
    } else if a <= from || a >= to {
        None
    } else if s[a] == '"' {
        let c = run_end(s, a + 1, to, CharClass::Unquoted);
        proof {
            lemma_run_end(s, a + 1, to, CharClass::Unquoted);
        }
        if c >= to {
            None
        } else {
            with_first(s.subrange(a + 1, c), tokens_of(s, c + 1, to))
        }
    } else {
        let b = run_end(s, a, to, CharClass::Bare);
        proof {
            lemma_run_end(s, a, to, CharClass::Bare);
        }
        with_first(s.subrange(a, b), tokens_of(s, b, to))
    }
}

/// The choice list that a span writes, if it writes one. It does if and
/// only if it falls into parts that the grammar admits: `{`, an upper-case
/// letter, then an index reference (whitespace and digits) or nothing, then,
/// only behind an index reference, a sub-index (a colon and digits) or
/// nothing, then one or more choices, whitespace or none, and `}`. Digits
/// behind the kind and its whitespace are always taken as the index
/// reference. Digits that do not fit a `usize` leave their number absent.
pub open spec fn choice_of(s: Seq<char>) -> Option<ChoiceView> {
    let end = s.len() - 1;
    let h = choices_start(s);
    let t = trimmed_end(s, h, end);
    if is_span(s) && s.len() >= 3 && is_upper(s[1]) && h < t {
        match tokens_of(s, h, t) {
            Some(choices) => Some(
                ChoiceView {
                    name: s.subrange(1, 2),
                    indexref: if has_ref(s) {
                        index_value(s.subrange(ref_start(s), ref_end(s)))
                    } else {
                        None
                    },
                    indexsubref: if has_subref(s) {
                        index_value(s.subrange(ref_end(s) + 1, subref_end(s)))
                    } else {
                        None
                    },
                    choices,
                },
            ),
            None => None,
        }
    } else {
        None
    }
}

/// A choice is written in quotes where it is empty or holds ASCII whitespace.
pub open spec fn needs_quotes(c: Seq<char>) -> bool {
    c.len() == 0 || exists|i: int| 0 <= i < c.len() && is_ascii_space(#[trigger] c[i])
}

/// How one choice is written: a space, then the choice, bare or in quotes.
pub open spec fn choice_item_text(c: Seq<char>) -> Seq<char> {
    if needs_quotes(c) {
        seq![' ', '"'] + c + seq!['"']
    } else {
        seq![' '] + c
    }
}

/// How the choices are written, one behind the other.
pub open spec fn choices_text(choices: Seq<Seq<char>>) -> Seq<char>
    decreases choices.len(),
{
    if choices.len() == 0 {
        Seq::empty()
    } else {
        choice_item_text(choices[0]) + choices_text(choices.drop_first())
    }
}

/// How the index reference and the sub-index are written. Without an index
/// reference nothing is written.
pub open spec fn ref_text(indexref: Option<nat>, indexsubref: Option<nat>) -> Seq<char> {
    match indexref {
        Some(i) => seq![' '] + decimal_digits(i) + match indexsubref {
            Some(j) => seq![':'] + decimal_digits(j),
            None => Seq::empty(),
        },
        None => Seq::empty(),
    }
}

/// The canonical text of a choice list.
pub open spec fn choice_text(c: ChoiceView) -> Seq<char> {
    seq!['{'] + c.name + ref_text(c.indexref, c.indexsubref) + choices_text(c.choices) + seq!['}']
}

/// The index reference and the sub-index as the canonical text has them:
/// behind one space, in decimal.
pub open spec fn canonical_ref(indexref: Option<nat>, indexsubref: Option<nat>) -> Option<
    ChoiceRef,
> {
    match indexref {
        Some(i) => Some(
            ChoiceRef {
                gap: seq![' '],
                digits: decimal_digits(i),
                subdigits: canonical_digits(indexsubref),
            },
        ),
        None => None,
    }
}

/// The choices as the canonical text has them: each behind one space, and
/// in quotes only where it has to be.
pub open spec fn canonical_items(choices: Seq<Seq<char>>) -> Seq<ChoiceItem> {
    Seq::new(
        choices.len(),
        |k: int| ChoiceItem { gap: seq![' '], text: choices[k], quoted: needs_quotes(choices[k]) },
    )
}

/// The list has a sub-index and no index reference. Its text leaves the
/// sub-index out.
pub open spec fn drops_subref(c: ChoiceView) -> bool {
    c.indexref is None && c.indexsubref is Some
}

/// The list has no index reference, and its first choice is written bare
/// and opens with a digit. In its text those digits stand where an index
/// reference would.
pub open spec fn opens_with_digit(c: ChoiceView) -> bool {
    c.indexref is None && c.choices.len() > 0 && !needs_quotes(c.choices[0]) && is_digit(
        c.choices[0][0],
    )
}

/// Writing one more choice at the end appends its text.
pub proof fn lemma_choices_text_push(choices: Seq<Seq<char>>, c: Seq<char>)
    ensures
        choices_text(choices.push(c)) == choices_text(choices) + choice_item_text(c),
    decreases choices.len(),
{
    if choices.len() == 0 {
        assert(choices.push(c).drop_first() =~= Seq::<Seq<char>>::empty());
        assert(choices_text(Seq::<Seq<char>>::empty()) =~= Seq::<char>::empty());
        assert(choices_text(choices.push(c)) =~= choice_item_text(c));
    } else {
        lemma_choices_text_push(choices.drop_first(), c);
        assert(choices.push(c).drop_first() =~= choices.drop_first().push(c));
        assert(choices_text(choices.push(c)) =~= choices_text(choices) + choice_item_text(c));
    }
}

/// Whether a choice has to stand in quotes.
pub fn quoted(c: &str) -> (b: bool)
    ensures
        b == needs_quotes(c@),
{
    let mut found = false;
    let mut empty = true;
    for ch in it: c.chars()
        invariant
            it.seq() == c@,
            empty == (it.index() == 0),
            found == exists|i: int| 0 <= i < it.index() && is_ascii_space(#[trigger] c@[i]),
    {
        empty = false;
        if ascii_space(ch) {
            found = true;
        }
    }
    empty || found
}

impl ChoiceList {
    /// Reads a whole span as a choice list.
    pub fn parse(string: &str) -> (r: Option<ChoiceList>)
        ensures
            match r {
                Some(c) => choice_of(string@) == Some(c@),
                None => choice_of(string@) is None,
            },
    {
        let s = chars_of(string);
        ChoiceList::from_chars(s.as_slice())
    }

    /// Reads a whole span, given as characters, as a choice list.
    #[verifier::loop_isolation(false)]
    pub fn from_chars(s: &[char]) -> (r: Option<ChoiceList>)
        ensures
            match r {
                Some(c) => choice_of(s@) == Some(c@),
                None => choice_of(s@) is None,
            },
    {
        let n = s.len();
        if n < 3 || s[0] != '{' || s[n - 1] != '}' || !upper(s[1]) {
            return None;
        }
        let end = n - 1;
        let mut indexref: Option<usize> = None;
        let mut indexsubref: Option<usize> = None;
        let mut h: usize = 2;
        let a = skip(s, 2, end, CharClass::Space);
        let d = skip(s, a, end, CharClass::Digit);
        if 2 < a && a < d {
            proof {
                lemma_run_end(s@, a as int, end as int, CharClass::Digit);
            }
            indexref = read_index(s, a, d);
            h = d;
            if d < end && s[d] == ':' {
                let e = skip(s, d + 1, end, CharClass::Digit);
                if d + 1 < e {
                    proof {
                        lemma_run_end(s@, d + 1, end as int, CharClass::Digit);
                    }
                    indexsubref = read_index(s, d + 1, e);
                    h = e;
                }
            }
        }
        let mut t: usize = end;
        while h < t && space(s[t - 1])
            invariant
                h <= t <= end,
                end < s@.len(),
                trimmed_end(s@, h as int, end as int) == trimmed_end(s@, h as int, t as int),
            decreases t,
        {
            t -= 1;
        }
        if h >= t {
            return None;
        }
        let mut choices: Vec<String> = Vec::new();
        let mut pos: usize = h;
        while pos < t
            invariant
                h <= pos <= t <= end,
                end < s@.len(),
                tokens_of(s@, h as int, t as int) == match tokens_of(s@, pos as int, t as int) {
                    Some(rest) => Some(texts(choices@) + rest),
                    None => None,
                },
            decreases t - pos,
        {
            let a = skip(s, pos, t, CharClass::Space);
            if a <= pos || a >= t {
                return None;
            }
            let ghost before = texts(choices@);
            if s[a] == '"' {
                let c = skip(s, a + 1, t, CharClass::Unquoted);
                if c >= t {
                    return None;
                }
                choices.push(string_of(s, a + 1, c));
                proof {
                    let first = s@.subrange(a + 1, c as int);
                    assert(texts(choices@) =~= before.push(first));
                    assert forall|rest: Seq<Seq<char>>|
                        before + (seq![first] + rest) == #[trigger] (before.push(first) + rest) by {
                        assert(before + (seq![first] + rest) =~= before.push(first) + rest);
                    }
                }
                pos = c + 1;
            } else {
                let b = skip(s, a, t, CharClass::Bare);
                choices.push(string_of(s, a, b));
                proof {
                    let first = s@.subrange(a as int, b as int);
                    assert(texts(choices@) =~= before.push(first));
                    assert forall|rest: Seq<Seq<char>>|
                        before + (seq![first] + rest) == #[trigger] (before.push(first) + rest) by {
                        assert(before + (seq![first] + rest) =~= before.push(first) + rest);
                    }
                }
                pos = b;
            }
        }
        assert(texts(choices@) + Seq::<Seq<char>>::empty() =~= texts(choices@));
        Some(ChoiceList { name: string_of(s, 1, 2), indexref, indexsubref, choices })
    }

    /// Writes the choice list in its canonical form.
    pub fn compile(&self) -> (r: String)
        ensures
            r@ == choice_text(self@),
    {
        let mut r = String::new();
        r.push('{');
        push_chars(&mut r, self.name.as_str());
        if let Some(i) = self.indexref {
            r.push(' ');
            push_decimal(&mut r, i);
            if let Some(j) = self.indexsubref {
                r.push(':');
                push_decimal(&mut r, j);
            }
        }
        let ghost head = r@;
        assert(head =~= seq!['{'] + self@.name + ref_text(self@.indexref, self@.indexsubref));
        let mut k: usize = 0;
        while k < self.choices.len()
            invariant
                k <= self.choices@.len(),
                r@ == head + choices_text(texts(self.choices@).take(k as int)),
            decreases self.choices@.len() - k,
        {
            let c = self.choices[k].as_str();
            let ghost before = r@;
            r.push(' ');
            if quoted(c) {
                r.push('"');
                push_chars(&mut r, c);
                r.push('"');
            } else {
                push_chars(&mut r, c);
            }
            proof {
                let done = texts(self.choices@).take(k as int);
                assert(r@ =~= before + choice_item_text(c@));
                lemma_choices_text_push(done, c@);
                assert(texts(self.choices@).take(k + 1) =~= done.push(c@));
            }
            k += 1;
        }
        assert(texts(self.choices@).take(k as int) =~= texts(self.choices@));
        r.push('}');
        assert(r@ =~= choice_text(self@));
        r
    }
}

} // verus!
