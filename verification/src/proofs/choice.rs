//! The choice-list grammar: the spans it takes, and what it reads from
//! them.

use vstd::prelude::*;
use crate::chars::{
    all_in, is_ascii_space, is_digit, is_space, is_unit, lemma_run_end, lemma_run_end_is,
    run_end, CharClass,
};
use crate::choice::{
    are_items, canonical_items, canonical_ref, choice_from_parts, choice_item_text, choice_of,
    choice_span, choice_text, choices_in, choices_start, choices_text, drops_subref, has_ref,
    has_subref, is_choice, is_choice_item, is_choice_parts, is_item, is_ref, item_span,
    item_texts, items_span, needs_quotes, opens_with_digit, ref_end, ref_span, ref_start,
    ref_text, subref_end, tokens_of, trimmed_end, ChoiceItem, ChoiceRef, ChoiceView,
};
use crate::command::command_of;
use crate::text::lemma_decimal_digits;

verus! {

/// What is cut off the end is whitespace, and what stands before it is not.
pub proof fn lemma_trimmed_end(s: Seq<char>, from: int, to: int)
    requires
        from <= to,
    ensures
        from <= trimmed_end(s, from, to) <= to,
        all_in(s, trimmed_end(s, from, to), to, CharClass::Space),
        from < trimmed_end(s, from, to) ==> !is_space(s[trimmed_end(s, from, to) - 1]),
    decreases to - from,
{
    if from < to && is_space(s[to - 1]) {
        lemma_trimmed_end(s, from, to - 1);
    }
}

/// The end behind which all is whitespace, and before which stands none, is
/// where the cut is made.
pub proof fn lemma_trimmed_end_is(s: Seq<char>, from: int, to: int, t: int)
    requires
        from <= t <= to,
        all_in(s, t, to, CharClass::Space),
        from < t ==> !is_space(s[t - 1]),
    ensures
        trimmed_end(s, from, to) == t,
    decreases to - t,
{
    if t < to {
        assert(CharClass::Space.holds(s[to - 1]));
        lemma_trimmed_end_is(s, from, to - 1, t);
    }
}

/// All but the first of choices that the grammar admits are choices that
/// the grammar admits.
pub proof fn lemma_items_tail(items: Seq<ChoiceItem>)
    requires
        items.len() > 0,
        are_items(items),
    ensures
        is_item(items[0]),
        are_items(items.drop_first()),
{
    assert forall|k: int| 0 <= k < items.drop_first().len() implies is_item(
        #[trigger] items.drop_first()[k],
    ) by {
        assert(items.drop_first()[k] == items[k + 1]);
    }
}

/// How a span writes one choice: the whitespace, then something that is no
/// whitespace, and no whitespace at the end.
pub proof fn lemma_item_shape(item: ChoiceItem)
    requires
        is_item(item),
    ensures
        item_span(item).len() > item.gap.len(),
        forall|k: int| 0 <= k < item.gap.len() ==> item_span(item)[k] == item.gap[k],
        item_span(item)[item.gap.len() as int] == if item.quoted {
            '"'
        } else {
            item.text[0]
        },
        !is_space(item_span(item)[item.gap.len() as int]),
        !is_space(item_span(item).last()),
{
    if !item.quoted {
        assert(CharClass::Bare.holds(item.text[0]));
        assert(CharClass::Bare.holds(item.text[item.text.len() - 1]));
    }
}

/// How a span writes one or more choices: whitespace, then the opening quote
/// or the first character of the first choice, and no whitespace at the end.
pub proof fn lemma_items_shape(items: Seq<ChoiceItem>)
    requires
        items.len() > 0,
        are_items(items),
    ensures
        items_span(items).len() > items[0].gap.len(),
        all_in(items_span(items), 0, items[0].gap.len() as int, CharClass::Space),
        items_span(items)[items[0].gap.len() as int] == if items[0].quoted {
            '"'
        } else {
            items[0].text[0]
        },
        !is_space(items_span(items)[items[0].gap.len() as int]),
        !is_space(items_span(items).last()),
    decreases items.len(),
{
    let first = item_span(items[0]);
    let rest = items_span(items.drop_first());
    lemma_items_tail(items);
    lemma_item_shape(items[0]);
    assert(items_span(items) == first + rest);
    assert forall|k: int| 0 <= k < items[0].gap.len() implies CharClass::Space.holds(
        #[trigger] items_span(items)[k],
    ) by {
        assert(items_span(items)[k] == first[k]);
        assert(CharClass::Space.holds(items[0].gap[k]));
    }
    assert(items_span(items)[items[0].gap.len() as int] == first[items[0].gap.len() as int]);
    if items.len() > 1 {
        lemma_items_shape(items.drop_first());
        assert(items_span(items).last() == rest.last());
    } else {
        assert(rest.len() == 0);
        assert(items_span(items).last() == first.last());
    }
}

/// Where `s[from..to]` opens with one choice as a span writes it, and the
/// choice is followed by whitespace or by nothing, the choices read from it
/// are that choice and those read behind it.
proof fn lemma_item_step(s: Seq<char>, from: int, to: int, item: ChoiceItem)
    requires
        0 <= from,
        from + item_span(item).len() <= to <= s.len(),
        is_item(item),
        s.subrange(from, from + item_span(item).len()) == item_span(item),
        from + item_span(item).len() < to ==> is_space(s[from + item_span(item).len()]),
    ensures
        tokens_of(s, from, to) == match tokens_of(s, from + item_span(item).len(), to) {
            Some(rest) => Some(seq![item.text] + rest),
            None => None,
        },
{
    let unit = item_span(item);
    let next: int = from + unit.len();
    let a: int = from + item.gap.len();
    lemma_item_shape(item);
    assert forall|k: int| 0 <= k < unit.len() implies s[from + k] == unit[k] by {
        assert(s.subrange(from, next)[k] == s[from + k]);
    }
    assert forall|i: int| from <= i < a implies CharClass::Space.holds(#[trigger] s[i]) by {
        assert(s[i] == unit[i - from]);
        assert(CharClass::Space.holds(item.gap[i - from]));
    }
    assert(s[a] == unit[item.gap.len() as int]);
    lemma_run_end_is(s, from, to, CharClass::Space, a);
    if item.quoted {
        let close: int = next - 1;
        assert forall|i: int| a + 1 <= i < close implies CharClass::Unquoted.holds(
            #[trigger] s[i],
        ) by {
            assert(s[i] == unit[i - from]);
            assert(unit[i - from] == item.text[i - a - 1]);
        }
        assert(s[close] == '"') by {
            assert(s[close] == unit[unit.len() - 1]);
        }
        lemma_run_end_is(s, a + 1, to, CharClass::Unquoted, close);
        assert(s.subrange(a + 1, close) =~= item.text) by {
            assert forall|k: int| 0 <= k < item.text.len() implies s[a + 1 + k] == item.text[k] by {
                assert(s[a + 1 + k] == unit[a + 1 + k - from]);
            }
        }
    } else {
        assert forall|i: int| a <= i < next implies CharClass::Bare.holds(#[trigger] s[i]) by {
            assert(s[i] == unit[i - from]);
            assert(unit[i - from] == item.text[i - a]);
        }
        lemma_run_end_is(s, a, to, CharClass::Bare, next);
        assert(s.subrange(a, next) =~= item.text) by {
            assert forall|k: int| 0 <= k < item.text.len() implies s[a + k] == item.text[k] by {
                assert(s[a + k] == unit[a + k - from]);
            }
        }
    }
}

/// Where `s[from..to]` is what a span writes for one or more choices, it
/// opens with what the span writes for the first, and goes on with what it
/// writes for the others.
proof fn lemma_items_split(s: Seq<char>, from: int, to: int, items: Seq<ChoiceItem>)
    requires
        0 <= from <= to <= s.len(),
        s.subrange(from, to) == items_span(items),
        items.len() > 0,
    ensures
        from + item_span(items[0]).len() <= to,
        s.subrange(from, from + item_span(items[0]).len()) == item_span(items[0]),
        s.subrange(from + item_span(items[0]).len(), to) == items_span(items.drop_first()),
{
    let text = items_span(items);
    let unit = item_span(items[0]);
    let rest = items_span(items.drop_first());
    assert(text == unit + rest);
    assert(text.len() == to - from);
    assert forall|k: int| 0 <= k < text.len() implies s[from + k] == text[k] by {
        assert(s.subrange(from, to)[k] == s[from + k]);
    }
    assert(s.subrange(from, from + unit.len()) =~= unit) by {
        assert forall|k: int| 0 <= k < unit.len() implies s[from + k] == unit[k] by {
            assert(text[k] == unit[k]);
        }
    }
    assert(s.subrange(from + unit.len(), to) =~= rest) by {
        assert forall|k: int| 0 <= k < rest.len() implies s[from + unit.len() + k] == rest[k] by {
            assert(text[unit.len() + k] == rest[k]);
        }
    }
}

/// What a span writes for choices that the grammar admits is read as the
/// texts of those choices.
pub proof fn lemma_items_span(s: Seq<char>, from: int, to: int, items: Seq<ChoiceItem>)
    requires
        0 <= from <= to <= s.len(),
        s.subrange(from, to) == items_span(items),
        are_items(items),
    ensures
        tokens_of(s, from, to) == Some(item_texts(items)),
    decreases items.len(),
{
    if items.len() == 0 {
        assert(items_span(items).len() == 0);
        assert(item_texts(items) =~= Seq::<Seq<char>>::empty());
    } else {
        let tail = items.drop_first();
        let next: int = from + item_span(items[0]).len();
        lemma_items_split(s, from, to, items);
        lemma_items_tail(items);
        lemma_items_span(s, next, to, tail);
        if next < to {
            assert(tail.len() > 0) by {
                if tail.len() == 0 {
                    assert(items_span(tail).len() == 0);
                }
            }
            lemma_items_shape(tail);
            assert(CharClass::Space.holds(items_span(tail)[0]));
            assert(s.subrange(next, to)[0] == s[next]);
        }
        lemma_item_step(s, from, to, items[0]);
        assert(seq![items[0].text] + item_texts(tail) =~= item_texts(items));
    }
}

/// The choices that are read from `s[from..to]`, as the span writes them:
/// they are choices that the grammar admits, `s[from..to]` is what a span
/// writes for them, and their texts are what is read.
pub proof fn lemma_tokens_parts(s: Seq<char>, from: int, to: int) -> (items: Seq<ChoiceItem>)
    requires
        0 <= from <= to <= s.len(),
        tokens_of(s, from, to) is Some,
    ensures
        are_items(items),
        from < to ==> items.len() > 0,
        items_span(items) == s.subrange(from, to),
        tokens_of(s, from, to) == Some(item_texts(items)),
    decreases to - from,
{
    if from >= to {
        let items = Seq::<ChoiceItem>::empty();
        assert(s.subrange(from, to) =~= Seq::<char>::empty());
        assert(item_texts(items) =~= Seq::<Seq<char>>::empty());
        items
    } else {
        let a = run_end(s, from, to, CharClass::Space);
        lemma_run_end(s, from, to, CharClass::Space);
        let gap = s.subrange(from, a);
        assert forall|k: int| 0 <= k < gap.len() implies CharClass::Space.holds(#[trigger] gap[k]) by {
            assert(gap[k] == s[from + k]);
        }
        let (first, next) = if s[a] == '"' {
            let c = run_end(s, a + 1, to, CharClass::Unquoted);
            lemma_run_end(s, a + 1, to, CharClass::Unquoted);
            let text = s.subrange(a + 1, c);
            assert forall|k: int| 0 <= k < text.len() implies CharClass::Unquoted.holds(
                #[trigger] text[k],
            ) by {
                assert(text[k] == s[a + 1 + k]);
            }
            (ChoiceItem { gap, text, quoted: true }, c + 1)
        } else {
            let b = run_end(s, a, to, CharClass::Bare);
            lemma_run_end(s, a, to, CharClass::Bare);
            let text = s.subrange(a, b);
            assert forall|k: int| 0 <= k < text.len() implies CharClass::Bare.holds(
                #[trigger] text[k],
            ) by {
                assert(text[k] == s[a + k]);
            }
            (ChoiceItem { gap, text, quoted: false }, b)
        };
        assert(is_item(first));
        assert(item_span(first) =~= s.subrange(from, next));
        let rest = lemma_tokens_parts(s, next, to);
        let items = seq![first] + rest;
        assert(items.drop_first() =~= rest);
        assert(items_span(items) =~= s.subrange(from, to)) by {
            assert(items_span(items) == item_span(first) + items_span(rest));
        }
        assert(item_texts(items) =~= seq![first.text] + item_texts(rest));
        assert forall|k: int| 0 <= k < items.len() implies is_item(#[trigger] items[k]) by {
            if k > 0 {
                assert(items[k] == rest[k - 1]);
            }
        }
        items
    }
}

/// Every choice read from `s[from..to]` is made of characters of `class`
/// where all of `s[from..to]` is.
pub proof fn lemma_tokens_in(s: Seq<char>, from: int, to: int, class: CharClass)
    requires
        0 <= from <= to <= s.len(),
        all_in(s, from, to, class),
    ensures
        tokens_of(s, from, to) matches Some(cs) ==> choices_in(cs, class),
    decreases to - from,
{
    if let Some(cs) = tokens_of(s, from, to) {
        if from < to {
            let a = run_end(s, from, to, CharClass::Space);
            lemma_run_end(s, from, to, CharClass::Space);
            let (first, next) = if s[a] == '"' {
                let c = run_end(s, a + 1, to, CharClass::Unquoted);
                lemma_run_end(s, a + 1, to, CharClass::Unquoted);
                (s.subrange(a + 1, c), c + 1)
            } else {
                let b = run_end(s, a, to, CharClass::Bare);
                lemma_run_end(s, a, to, CharClass::Bare);
                (s.subrange(a, b), b)
            };
            lemma_tokens_in(s, next, to, class);
            let rest = tokens_of(s, next, to)->Some_0;
            assert(cs == seq![first] + rest);
            assert(all_in(first, 0, first.len() as int, class));
            assert forall|i: int| 0 <= i < cs.len() implies all_in(
                #[trigger] cs[i],
                0,
                cs[i].len() as int,
                class,
            ) by {
                if i > 0 {
                    assert(cs[i] == rest[i - 1]);
                }
            }
        }
    }
}

/// How a span that writes a choice list is laid out: the brace, the kind,
/// the index reference and sub-index from position 2 to `h`, the choices
/// from `h` to `t`, what stands behind them, the brace.
pub proof fn lemma_choice_layout(
    kind: Seq<char>,
    r: Option<ChoiceRef>,
    items: Seq<ChoiceItem>,
    trailing: Seq<char>,
    h: int,
    t: int,
)
    requires
        kind.len() == 1,
        h == 2 + ref_span(r).len(),
        t == h + items_span(items).len(),
    ensures
        choice_span(kind, r, items, trailing).len() == t + trailing.len() + 1,
        choice_span(kind, r, items, trailing)[0] == '{',
        choice_span(kind, r, items, trailing)[1] == kind[0],
        choice_span(kind, r, items, trailing).last() == '}',
        choice_span(kind, r, items, trailing).subrange(1, 2) == kind,
        choice_span(kind, r, items, trailing).subrange(2, h) == ref_span(r),
        choice_span(kind, r, items, trailing).subrange(h, t) == items_span(items),
        choice_span(kind, r, items, trailing).subrange(t, t + trailing.len()) == trailing,
{
    let s = choice_span(kind, r, items, trailing);
    assert(s.subrange(1, 2) =~= kind);
    assert(s.subrange(2, h) =~= ref_span(r));
    assert(s.subrange(h, t) =~= items_span(items));
    assert(s.subrange(t, t + trailing.len()) =~= trailing);
}

/// Where what a span writes for an index reference and a sub-index stands
/// from position 2 to `h`, and whitespace follows it, the header is read as
/// that index reference and that sub-index, and ends at `h`.
pub proof fn lemma_ref_span(s: Seq<char>, r: ChoiceRef, h: int)
    requires
        is_ref(r),
        h == 2 + ref_span(Some(r)).len(),
        h < s.len() - 1,
        s.subrange(2, h) == ref_span(Some(r)),
        is_space(s[h]),
    ensures
        has_ref(s),
        choices_start(s) == h,
        s.subrange(ref_start(s), ref_end(s)) == r.digits,
        has_subref(s) == (r.subdigits is Some),
        has_subref(s) ==> s.subrange(ref_end(s) + 1, subref_end(s)) == r.subdigits->Some_0,
{
    let head = ref_span(Some(r));
    let end: int = s.len() - 1;
    let a: int = r.gap.len() as int + 2;
    let d: int = a + r.digits.len();
    assert forall|i: int| 0 <= i < head.len() implies s[2 + i] == head[i] by {
        assert(s.subrange(2, h)[i] == s[2 + i]);
    }
    assert forall|i: int| 2 <= i < a implies CharClass::Space.holds(#[trigger] s[i]) by {
        assert(s[i] == head[i - 2]);
        assert(CharClass::Space.holds(r.gap[i - 2]));
    }
    assert forall|i: int| a <= i < d implies CharClass::Digit.holds(#[trigger] s[i]) by {
        assert(s[i] == head[i - 2]);
        assert(CharClass::Digit.holds(r.digits[i - a]));
    }
    assert(CharClass::Digit.holds(s[a]));
    lemma_run_end_is(s, 2, end, CharClass::Space, a);
    assert(s.subrange(a, d) =~= r.digits) by {
        assert forall|k: int| 0 <= k < r.digits.len() implies s[a + k] == r.digits[k] by {
            assert(s[a + k] == head[a + k - 2]);
        }
    }
    match r.subdigits {
        Some(sub) => {
            assert(h == d + 1 + sub.len());
            assert(s[d] == ':') by {
                assert(s[d] == head[d - 2]);
            }
            lemma_run_end_is(s, a, end, CharClass::Digit, d);
            assert forall|i: int| d + 1 <= i < h implies CharClass::Digit.holds(#[trigger] s[i]) by {
                assert(s[i] == head[i - 2]);
                assert(CharClass::Digit.holds(sub[i - d - 1]));
            }
            lemma_run_end_is(s, d + 1, end, CharClass::Digit, h);
            assert(s.subrange(d + 1, h) =~= sub) by {
                assert forall|k: int| 0 <= k < sub.len() implies s[d + 1 + k] == sub[k] by {
                    assert(s[d + 1 + k] == head[d - 1 + k]);
                }
            }
        },
        None => {
            assert(d == h);
            lemma_run_end_is(s, a, end, CharClass::Digit, d);
        },
    }
}

/// Where whitespace stands from position 2 to `a`, and what follows is
/// neither whitespace nor a digit, the span has no index reference.
pub proof fn lemma_no_ref(s: Seq<char>, a: int)
    requires
        2 <= a < s.len() - 1,
        all_in(s, 2, a, CharClass::Space),
        !is_space(s[a]),
        !is_digit(s[a]),
    ensures
        !has_ref(s),
        !has_subref(s),
        choices_start(s) == 2,
{
    lemma_run_end_is(s, 2, s.len() - 1, CharClass::Space, a);
    lemma_run_end_is(s, a, s.len() - 1, CharClass::Digit, a);
}

/// What stands where in a span that writes a choice list in parts that the
/// grammar admits: whitespace at position 2, whitespace from `h` on up to
/// the first choice, no whitespace where that choice opens and where the
/// last one ends at `t`, and whitespace from there to the brace.
proof fn lemma_choice_span_shape(
    kind: Seq<char>,
    r: Option<ChoiceRef>,
    items: Seq<ChoiceItem>,
    trailing: Seq<char>,
    h: int,
    t: int,
)
    requires
        is_choice_parts(kind, r, items, trailing),
        h == 2 + ref_span(r).len(),
        t == h + items_span(items).len(),
    ensures
        h + items[0].gap.len() < t,
        is_space(choice_span(kind, r, items, trailing)[2]),
        all_in(choice_span(kind, r, items, trailing), h, h + items[0].gap.len(), CharClass::Space),
        !is_space(choice_span(kind, r, items, trailing)[h + items[0].gap.len()]),
        r is None ==> !is_digit(choice_span(kind, r, items, trailing)[h + items[0].gap.len()]),
        !is_space(choice_span(kind, r, items, trailing)[t - 1]),
        all_in(choice_span(kind, r, items, trailing), t, t + trailing.len(), CharClass::Space),
{
    let s = choice_span(kind, r, items, trailing);
    let body = items_span(items);
    let g: int = items[0].gap.len() as int;
    lemma_items_shape(items);
    lemma_choice_layout(kind, r, items, trailing, h, t);
    assert forall|k: int| 0 <= k < body.len() implies s[h + k] == body[k] by {
        assert(s.subrange(h, t)[k] == s[h + k]);
    }
    assert forall|i: int| h <= i < h + g implies CharClass::Space.holds(#[trigger] s[i]) by {
        assert(CharClass::Space.holds(body[i - h]));
    }
    assert(s[h + g] == body[g]);
    assert(s[t - 1] == body.last());
    assert forall|i: int| t <= i < t + trailing.len() implies CharClass::Space.holds(
        #[trigger] s[i],
    ) by {
        assert(s.subrange(t, t + trailing.len())[i - t] == s[i]);
        assert(CharClass::Space.holds(trailing[i - t]));
    }
    assert(is_space(s[2])) by {
        if let Some(x) = r {
            assert(s.subrange(2, h)[0] == s[2]);
            assert(CharClass::Space.holds(x.gap[0]));
        } else {
            assert(CharClass::Space.holds(s[h]));
        }
    }
}

/// A span that opens with an upper-case letter and whitespace is no
/// command: whitespace cannot follow a name.
pub proof fn lemma_spaced_is_no_command(s: Seq<char>)
    requires
        s.len() >= 4,
        CharClass::NameTail.holds(s[1]),
        !is_digit(s[1]),
        is_space(s[2]),
    ensures
        command_of(s) is None,
{
    lemma_run_end_is(s, 1, s.len() - 1, CharClass::Digit, 1);
    lemma_run_end_is(s, 1, s.len() - 1, CharClass::NameTail, 2);
}

/// A span in parts that the grammar admits is read as the choice list that
/// the parts stand for, and is no command.
pub proof fn lemma_choice_span(
    kind: Seq<char>,
    r: Option<ChoiceRef>,
    items: Seq<ChoiceItem>,
    trailing: Seq<char>,
)
    requires
        is_choice_parts(kind, r, items, trailing),
    ensures
        choice_of(choice_span(kind, r, items, trailing)) == Some(
            choice_from_parts(kind, r, items),
        ),
        command_of(choice_span(kind, r, items, trailing)) is None,
{
    let s = choice_span(kind, r, items, trailing);
    let end: int = s.len() - 1;
    let h: int = ref_span(r).len() as int + 2;
    let t: int = h + items_span(items).len();
    lemma_choice_layout(kind, r, items, trailing, h, t);
    lemma_choice_span_shape(kind, r, items, trailing, h, t);
    match r {
        Some(x) => {
            assert(CharClass::Space.holds(s[h]));
            lemma_ref_span(s, x, h);
        },
        None => {
            lemma_no_ref(s, items[0].gap.len() as int + 2);
        },
    }
    lemma_trimmed_end_is(s, h, end, t);
    lemma_items_span(s, h, t, items);
    lemma_spaced_is_no_command(s);
}

/// A span whose pieces are what a span writes for the parts is the span
/// that writes the parts.
proof fn lemma_choice_rebuilt(
    s: Seq<char>,
    kind: Seq<char>,
    r: Option<ChoiceRef>,
    items: Seq<ChoiceItem>,
    trailing: Seq<char>,
    h: int,
    t: int,
)
    requires
        2 <= h <= t <= s.len() - 1,
        s[0] == '{',
        s.last() == '}',
        s.subrange(1, 2) == kind,
        s.subrange(2, h) == ref_span(r),
        s.subrange(h, t) == items_span(items),
        s.subrange(t, s.len() - 1) == trailing,
    ensures
        s == choice_span(kind, r, items, trailing),
{
    let w = choice_span(kind, r, items, trailing);
    assert(kind.len() == 1);
    assert(ref_span(r).len() == h - 2);
    assert(items_span(items).len() == t - h);
    assert(trailing.len() == s.len() - 1 - t);
    lemma_choice_layout(kind, r, items, trailing, h, t);
    assert forall|i: int| 0 <= i < s.len() implies s[i] == w[i] by {
        if i == 1 {
            assert(s.subrange(1, 2)[0] == s[1]);
        } else if 2 <= i < h {
            assert(w.subrange(2, h)[i - 2] == w[i]);
            assert(s.subrange(2, h)[i - 2] == s[i]);
        } else if h <= i < t {
            assert(w.subrange(h, t)[i - h] == w[i]);
            assert(s.subrange(h, t)[i - h] == s[i]);
        } else if t <= i < s.len() - 1 {
            assert(w.subrange(t, t + trailing.len())[i - t] == w[i]);
            assert(s.subrange(t, s.len() - 1)[i - t] == s[i]);
        }
    }
    assert(s =~= w);
}

/// The index reference and the sub-index of a span, as the span writes
/// them.
proof fn lemma_ref_parts(s: Seq<char>) -> (r: Option<ChoiceRef>)
    requires
        s.len() >= 3,
    ensures
        r matches Some(x) ==> is_ref(x),
        2 <= choices_start(s) <= s.len() - 1,
        s.subrange(2, choices_start(s)) == ref_span(r),
        r is Some <==> has_ref(s),
        r matches Some(x) ==> x.digits == s.subrange(ref_start(s), ref_end(s)),
        r matches Some(x) ==> (x.subdigits is Some <==> has_subref(s)),
        r matches Some(ChoiceRef { subdigits: Some(d), .. }) ==> d == s.subrange(
            ref_end(s) + 1,
            subref_end(s),
        ),
{
    let end = s.len() - 1;
    let a = ref_start(s);
    let d = ref_end(s);
    let e = subref_end(s);
    lemma_run_end(s, 2, end, CharClass::Space);
    lemma_run_end(s, a, end, CharClass::Digit);
    if has_ref(s) {
        let gap = s.subrange(2, a);
        let digits = s.subrange(a, d);
        assert forall|k: int| 0 <= k < gap.len() implies CharClass::Space.holds(#[trigger] gap[k]) by {
            assert(gap[k] == s[2 + k]);
        }
        assert forall|k: int| 0 <= k < digits.len() implies CharClass::Digit.holds(
            #[trigger] digits[k],
        ) by {
            assert(digits[k] == s[a + k]);
        }
        if has_subref(s) {
            lemma_run_end(s, d + 1, end, CharClass::Digit);
            let sub = s.subrange(d + 1, e);
            assert forall|k: int| 0 <= k < sub.len() implies CharClass::Digit.holds(
                #[trigger] sub[k],
            ) by {
                assert(sub[k] == s[d + 1 + k]);
            }
            let r = Some(ChoiceRef { gap, digits, subdigits: Some(sub) });
            assert(s.subrange(2, e) =~= ref_span(r));
            r
        } else {
            let r = Some(ChoiceRef { gap, digits, subdigits: None });
            assert(s.subrange(2, d) =~= ref_span(r));
            r
        }
    } else {
        assert(s.subrange(2, 2) =~= ref_span(None));
        None
    }
}

/// Where a span has no index reference, its first choice is in quotes or
/// does not open with a digit.
proof fn lemma_first_choice_without_ref(s: Seq<char>, items: Seq<ChoiceItem>, t: int)
    requires
        !has_ref(s),
        2 < t <= s.len() - 1,
        items.len() > 0,
        are_items(items),
        s.subrange(2, t) == items_span(items),
    ensures
        items[0].quoted || !is_digit(items[0].text[0]),
{
    let end = s.len() - 1;
    let g: int = items[0].gap.len() as int;
    lemma_items_shape(items);
    assert forall|i: int| 2 <= i < 2 + g implies CharClass::Space.holds(#[trigger] s[i]) by {
        assert(s.subrange(2, t)[i - 2] == s[i]);
        assert(CharClass::Space.holds(items_span(items)[i - 2]));
    }
    assert(s[2 + g] == items_span(items)[g]) by {
        assert(s.subrange(2, t)[g] == s[2 + g]);
    }
    lemma_run_end_is(s, 2, end, CharClass::Space, 2 + g);
    if !items[0].quoted && is_digit(items[0].text[0]) {
        // Digits behind the kind and its whitespace would be an index reference.
        lemma_run_end(s, 3 + g, end, CharClass::Digit);
    }
}

/// A span that is read as a choice list falls into parts that the grammar
/// admits, and is read as the choice list that the parts stand for.
pub proof fn lemma_choice_parts(s: Seq<char>) -> (parts: (
    Seq<char>,
    Option<ChoiceRef>,
    Seq<ChoiceItem>,
    Seq<char>,
))
    requires
        choice_of(s) is Some,
    ensures
        is_choice_parts(parts.0, parts.1, parts.2, parts.3),
        s == choice_span(parts.0, parts.1, parts.2, parts.3),
        choice_of(s) == Some(choice_from_parts(parts.0, parts.1, parts.2)),
{
    let end = s.len() - 1;
    let h = choices_start(s);
    let t = trimmed_end(s, h, end);
    let kind = s.subrange(1, 2);
    let r = lemma_ref_parts(s);
    lemma_trimmed_end(s, h, end);
    let items = lemma_tokens_parts(s, h, t);
    let trailing = s.subrange(t, end);
    assert forall|k: int| 0 <= k < trailing.len() implies CharClass::Space.holds(
        #[trigger] trailing[k],
    ) by {
        assert(trailing[k] == s[t + k]);
    }
    if r is None {
        lemma_first_choice_without_ref(s, items, t);
    }
    lemma_choice_rebuilt(s, kind, r, items, trailing, h, t);
    (kind, r, items, trailing)
}

/// What is read as a choice list is one that the grammar admits, and its
/// choices are made of characters of `class` where all of the span between
/// the braces is.
pub proof fn lemma_choice_read(s: Seq<char>, class: CharClass)
    ensures
        choice_of(s) matches Some(c) ==> {
            &&& is_choice(c)
            &&& all_in(s, 1, s.len() - 1, class) ==> choices_in(c.choices, class)
        },
{
    if let Some(c) = choice_of(s) {
        let end = s.len() - 1;
        let h = choices_start(s);
        let t = trimmed_end(s, h, end);
        let parts = lemma_choice_parts(s);
        assert forall|i: int| 0 <= i < c.choices.len() implies is_choice_item(
            #[trigger] c.choices[i],
        ) by {
            assert(is_item(parts.2[i]));
            assert(c.choices[i] == parts.2[i].text);
        }
        lemma_run_end(s, 2, end, CharClass::Space);
        lemma_run_end(s, ref_start(s), end, CharClass::Digit);
        if has_ref(s) && ref_end(s) < end {
            lemma_run_end(s, ref_end(s) + 1, end, CharClass::Digit);
        }
        lemma_trimmed_end(s, h, end);
        if all_in(s, 1, s.len() - 1, class) {
            lemma_tokens_in(s, h, t, class);
        }
    }
}

/// The canonical text of choices is what a span writes for them, each
/// behind one space and in quotes only where it has to be.
pub proof fn lemma_choices_text_is_span(choices: Seq<Seq<char>>)
    ensures
        choices_text(choices) == items_span(canonical_items(choices)),
    decreases choices.len(),
{
    let items = canonical_items(choices);
    if choices.len() > 0 {
        lemma_choices_text_is_span(choices.drop_first());
        assert(items.drop_first() =~= canonical_items(choices.drop_first()));
        assert(item_span(items[0]) =~= choice_item_text(choices[0]));
    }
}

/// The canonical text of a choice list is the span in which the numbers
/// have their decimal digits, one space stands before the index reference
/// and before each choice, and a choice is in quotes only where it has to
/// be.
pub proof fn lemma_choice_text_is_span(c: ChoiceView)
    ensures
        choice_text(c) == choice_span(
            c.name,
            canonical_ref(c.indexref, c.indexsubref),
            canonical_items(c.choices),
            Seq::empty(),
        ),
{
    lemma_choices_text_is_span(c.choices);
    assert(ref_text(c.indexref, c.indexsubref) =~= ref_span(
        canonical_ref(c.indexref, c.indexsubref),
    ));
    assert(choice_text(c) =~= choice_span(
        c.name,
        canonical_ref(c.indexref, c.indexsubref),
        canonical_items(c.choices),
        Seq::empty(),
    ));
}

/// The choices of a list that the grammar admits, as the canonical text has
/// them, are choices that the grammar admits.
pub proof fn lemma_canonical_items(choices: Seq<Seq<char>>)
    requires
        forall|i: int| 0 <= i < choices.len() ==> is_choice_item(#[trigger] choices[i]),
    ensures
        are_items(canonical_items(choices)),
        item_texts(canonical_items(choices)) == choices,
{
    let items = canonical_items(choices);
    assert forall|k: int| 0 <= k < items.len() implies is_item(#[trigger] items[k]) by {
        let c = choices[k];
        assert(is_choice_item(c));
        if !needs_quotes(c) {
            assert forall|i: int| 0 <= i < c.len() implies CharClass::Bare.holds(#[trigger] c[i]) by {
                assert(!is_ascii_space(c[i]));
                assert(CharClass::Unquoted.holds(c[i]));
            }
        }
    }
    assert(item_texts(items) =~= choices);
}

/// The canonical text of a choice list that the grammar admits is read as
/// that list, and is no command, unless the text leaves a sub-index out or
/// the first choice opens with digits that stand where an index reference
/// would.
pub proof fn lemma_choice_written(c: ChoiceView)
    requires
        is_choice(c),
        !drops_subref(c),
        !opens_with_digit(c),
    ensures
        choice_of(choice_text(c)) == Some(c),
        command_of(choice_text(c)) is None,
{
    let r = canonical_ref(c.indexref, c.indexsubref);
    let items = canonical_items(c.choices);
    lemma_choice_text_is_span(c);
    lemma_canonical_items(c.choices);
    if let Some(i) = c.indexref {
        lemma_decimal_digits(i);
    }
    if let Some(j) = c.indexsubref {
        lemma_decimal_digits(j);
    }
    lemma_choice_span(c.name, r, items, Seq::empty());
}

/// The text of choices without a `}` holds no `}`.
pub proof fn lemma_choices_text_inside(cs: Seq<Seq<char>>)
    requires
        choices_in(cs, CharClass::Inside),
    ensures
        all_in(choices_text(cs), 0, choices_text(cs).len() as int, CharClass::Inside),
    decreases cs.len(),
{
    if cs.len() > 0 {
        let item = choice_item_text(cs[0]);
        let rest = choices_text(cs.drop_first());
        assert(all_in(cs[0], 0, cs[0].len() as int, CharClass::Inside));
        assert forall|i: int| 0 <= i < cs.drop_first().len() implies all_in(
            #[trigger] cs.drop_first()[i],
            0,
            cs.drop_first()[i].len() as int,
            CharClass::Inside,
        ) by {
            assert(cs.drop_first()[i] == cs[i + 1]);
        }
        lemma_choices_text_inside(cs.drop_first());
        assert forall|k: int| 0 <= k < item.len() implies CharClass::Inside.holds(
            #[trigger] item[k],
        ) by {
            if needs_quotes(cs[0]) {
                if 2 <= k < item.len() - 1 {
                    assert(item[k] == cs[0][k - 2]);
                }
            } else {
                if 1 <= k {
                    assert(item[k] == cs[0][k - 1]);
                }
            }
        }
        assert forall|k: int| 0 <= k < choices_text(cs).len() implies CharClass::Inside.holds(
            #[trigger] choices_text(cs)[k],
        ) by {
            if k < item.len() {
                assert(choices_text(cs)[k] == item[k]);
            } else {
                assert(choices_text(cs)[k] == rest[k - item.len()]);
            }
        }
    }
}

/// The canonical text of a choice list whose choices hold no `}` closes at
/// its first `}`.
pub proof fn lemma_choice_unit(c: ChoiceView)
    requires
        is_choice(c),
        choices_in(c.choices, CharClass::Inside),
    ensures
        is_unit(choice_text(c)),
{
    let s = choice_text(c);
    let r = canonical_ref(c.indexref, c.indexsubref);
    let head = ref_span(r);
    let h: int = head.len() as int + 2;
    let t: int = h + choices_text(c.choices).len();
    lemma_choice_text_is_span(c);
    lemma_choices_text_is_span(c.choices);
    lemma_choice_layout(c.name, r, canonical_items(c.choices), Seq::empty(), h, t);
    lemma_choices_text_inside(c.choices);
    assert forall|k: int| 0 <= k < head.len() implies CharClass::Inside.holds(
        #[trigger] head[k],
    ) by {
        let x = r->Some_0;
        lemma_decimal_digits(c.indexref->Some_0);
        if 1 <= k < 1 + x.digits.len() {
            assert(CharClass::Digit.holds(x.digits[k - 1]));
        } else if k > 1 + x.digits.len() {
            let sub = x.subdigits->Some_0;
            lemma_decimal_digits(c.indexsubref->Some_0);
            assert(head[k] == sub[k - 2 - x.digits.len()]);
            assert(CharClass::Digit.holds(sub[k - 2 - x.digits.len()]));
        }
    }
    assert forall|i: int| 0 <= i < s.len() - 1 implies CharClass::Inside.holds(#[trigger] s[i]) by {
        if 2 <= i < h {
            assert(s.subrange(2, h)[i - 2] == s[i]);
        } else if h <= i {
            assert(s.subrange(h, t)[i - h] == s[i]);
        }
    }
}

/// Where a span has an index reference, the choices read behind the kind
/// are not the choices read behind the header.
proof fn lemma_ref_takes_choice(s: Seq<char>)
    requires
        s.len() >= 3,
        has_ref(s),
        tokens_of(s, 2, s.len() - 1) is Some,
    ensures
        tokens_of(s, 2, s.len() - 1) != tokens_of(s, choices_start(s), s.len() - 1),
{
    let end = s.len() - 1;
    let a = ref_start(s);
    let d = ref_end(s);
    let h = choices_start(s);
    lemma_run_end(s, 2, end, CharClass::Space);
    lemma_run_end(s, a, end, CharClass::Digit);
    if has_subref(s) {
        lemma_run_end(s, d + 1, end, CharClass::Digit);
    }
    // From the first digit up to the end of the header all is digits and a colon.
    assert(CharClass::Digit.holds(s[a]));
    assert forall|i: int| a <= i < h implies CharClass::Bare.holds(#[trigger] s[i]) by {
        if i < d {
            assert(CharClass::Digit.holds(s[i]));
        } else if i > d {
            assert(CharClass::Digit.holds(s[i]));
        }
    }
    let b = run_end(s, a, end, CharClass::Bare);
    lemma_run_end(s, a, end, CharClass::Bare);
    if b < h {
        assert(CharClass::Bare.holds(s[b]));
    }
    if b > h {
        // The first choice goes on behind the header: no whitespace stands there.
        assert(CharClass::Bare.holds(s[h]));
        lemma_run_end_is(s, h, end, CharClass::Space, h);
        assert(tokens_of(s, h, end) is None);
    } else {
        let rest = tokens_of(s, h, end)->Some_0;
        assert(tokens_of(s, 2, end) == Some(seq![s.subrange(a, b)] + rest));
        assert((seq![s.subrange(a, b)] + rest).len() == rest.len() + 1);
    }
}

/// The canonical text of a choice list that leaves a sub-index out, or whose
/// first choice opens with digits where an index reference would stand, is
/// not read as that list.
pub proof fn lemma_choice_not_reread(c: ChoiceView)
    requires
        is_choice(c),
        drops_subref(c) || opens_with_digit(c),
    ensures
        choice_of(choice_text(c)) != Some(c),
{
    let s = choice_text(c);
    let items = canonical_items(c.choices);
    let end: int = s.len() - 1;
    lemma_choice_text_is_span(c);
    lemma_canonical_items(c.choices);
    lemma_items_shape(items);
    lemma_choice_layout(c.name, None, items, Seq::empty(), 2, end);
    assert(s[2] == items_span(items)[0] && s[3] == items_span(items)[1] && s[end - 1]
        == items_span(items).last()) by {
        assert(s.subrange(2, end)[0] == s[2]);
        assert(s.subrange(2, end)[1] == s[3]);
        assert(s.subrange(2, end)[end - 3] == s[end - 1]);
    }
    assert(CharClass::Space.holds(s[2]));
    lemma_run_end_is(s, 2, end, CharClass::Space, 3);
    lemma_items_span(s, 2, end, items);
    if has_ref(s) {
        lemma_ref_takes_choice(s);
        let h = choices_start(s);
        assert(h <= end) by {
            lemma_run_end(s, 3, end, CharClass::Digit);
            if has_subref(s) {
                lemma_run_end(s, ref_end(s) + 1, end, CharClass::Digit);
            }
        }
        assert(trimmed_end(s, h, end) == end);
    } else if opens_with_digit(c) {
        // The digit with which the first choice opens is an index reference.
        assert(is_digit(s[3]));
        lemma_run_end(s, 4, end, CharClass::Digit);
    }
}

} // verus!
