//! What holds of parsing and writing together.

use vstd::prelude::*;
use crate::chars::{is_digit_run, lemma_run_end_is, CharClass};
use crate::choice::{
    choice_from_parts, choice_of, choice_span, is_choice_parts, ChoiceItem, ChoiceRef, ChoiceView,
};
use crate::command::{
    command_from_parts, command_of, command_span, is_command_parts, CommandView,
};
use crate::fragment::{
    content_of, content_text, invalid_message, is_content, rereads, written, ContentView,
    FragmentView,
};
use crate::gender::{gender_of, gender_span, is_gender_parts, GenderView};
use crate::parser::{
    all_reread, compiled, contents, covers, is_sequence, lemma_fragments_cover, parsed, ErrorView,
};
use crate::proofs::choice::{lemma_choice_parts, lemma_choice_span};
use crate::proofs::command::{lemma_command_parts, lemma_command_span};
use crate::proofs::content::lemma_rereads_exactly;
use crate::proofs::gender::{lemma_gender_parts, lemma_gender_span};
use crate::proofs::scanner::{lemma_fragments_read, lemma_fragments_written};

verus! {

/// A span is read as a command if and only if it falls into parts that the
/// command grammar admits, and then as the command that the parts stand
/// for: `{`, digits and a colon or nothing, a name, a dot and word
/// characters or nothing, `}`.
pub proof fn law_command_grammar(s: Seq<char>, c: CommandView)
    ensures
        command_of(s) == Some(c) <==> exists|
            digits: Option<Seq<char>>,
            name: Seq<char>,
            case: Option<Seq<char>>,
        |
            is_command_parts(digits, name, case) && s == #[trigger] command_span(
                digits,
                name,
                case,
            ) && c == command_from_parts(digits, name, case),
{
    if command_of(s) == Some(c) {
        let parts = lemma_command_parts(s);
        assert(is_command_parts(parts.0, parts.1, parts.2) && s == command_span(
            parts.0,
            parts.1,
            parts.2,
        ) && c == command_from_parts(parts.0, parts.1, parts.2));
    }
    if exists|digits: Option<Seq<char>>, name: Seq<char>, case: Option<Seq<char>>|
        is_command_parts(digits, name, case) && s == #[trigger] command_span(digits, name, case)
            && c == command_from_parts(digits, name, case) {
        let (digits, name, case) = choose|
            digits: Option<Seq<char>>,
            name: Seq<char>,
            case: Option<Seq<char>>,
        |
            is_command_parts(digits, name, case) && s == #[trigger] command_span(
                digits,
                name,
                case,
            ) && c == command_from_parts(digits, name, case);
        lemma_command_span(digits, name, case);
    }
}

/// A span is read as a gender definition if and only if it falls into parts
/// that the gender grammar admits, and then as the definition with that
/// tag: `{G`, whitespace or none, `=`, whitespace or none, word characters,
/// `}`.
pub proof fn law_gender_grammar(s: Seq<char>, g: GenderView)
    ensures
        gender_of(s) == Some(g) <==> exists|before: Seq<char>, after: Seq<char>|
            is_gender_parts(before, after, g.gender) && s == #[trigger] gender_span(
                before,
                after,
                g.gender,
            ),
{
    if gender_of(s) == Some(g) {
        let parts = lemma_gender_parts(s);
        assert(is_gender_parts(parts.0, parts.1, g.gender) && s == gender_span(
            parts.0,
            parts.1,
            g.gender,
        ));
    }
    if exists|before: Seq<char>, after: Seq<char>|
        is_gender_parts(before, after, g.gender) && s == #[trigger] gender_span(
            before,
            after,
            g.gender,
        ) {
        let (before, after) = choose|before: Seq<char>, after: Seq<char>|
            is_gender_parts(before, after, g.gender) && s == #[trigger] gender_span(
                before,
                after,
                g.gender,
            );
        lemma_gender_span(before, after, g.gender);
    }
}

/// A span is read as a choice list if and only if it falls into parts that
/// the choice-list grammar admits, and then as the list that the parts
/// stand for: `{`, an upper-case letter, an index reference with or without
/// a sub-index or nothing, one or more choices, whitespace or none, `}`.
pub proof fn law_choice_grammar(s: Seq<char>, c: ChoiceView)
    ensures
        choice_of(s) == Some(c) <==> exists|
            kind: Seq<char>,
            r: Option<ChoiceRef>,
            items: Seq<ChoiceItem>,
            trailing: Seq<char>,
        |
            is_choice_parts(kind, r, items, trailing) && s == #[trigger] choice_span(
                kind,
                r,
                items,
                trailing,
            ) && c == choice_from_parts(kind, r, items),
{
    if choice_of(s) == Some(c) {
        let parts = lemma_choice_parts(s);
        assert(is_choice_parts(parts.0, parts.1, parts.2, parts.3) && s == choice_span(
            parts.0,
            parts.1,
            parts.2,
            parts.3,
        ) && c == choice_from_parts(parts.0, parts.1, parts.2));
    }
    if exists|kind: Seq<char>, r: Option<ChoiceRef>, items: Seq<ChoiceItem>, trailing: Seq<char>|
        is_choice_parts(kind, r, items, trailing) && s == #[trigger] choice_span(
            kind,
            r,
            items,
            trailing,
        ) && c == choice_from_parts(kind, r, items) {
        let (kind, r, items, trailing) = choose|
            kind: Seq<char>,
            r: Option<ChoiceRef>,
            items: Seq<ChoiceItem>,
            trailing: Seq<char>,
        |
            is_choice_parts(kind, r, items, trailing) && s == #[trigger] choice_span(
                kind,
                r,
                items,
                trailing,
            ) && c == choice_from_parts(kind, r, items);
        lemma_choice_span(kind, r, items, trailing);
    }
}

/// Of what a fragment can hold, a command, a gender definition or a choice
/// list is read again as itself from its canonical text, except for three
/// kinds of choice list, and those are not: one with a sub-index and no
/// index reference; one without an index reference whose first choice is
/// written bare and opens with a digit; and one whose text is a gender
/// definition.
pub proof fn law_content_rereads(c: ContentView)
    requires
        is_content(c),
        !(c is Text),
    ensures
        rereads(c) <==> content_of(content_text(c)) == Some(c),
{
    lemma_rereads_exactly(c);
}

/// The string is in canonical form: it is the text of what a parsed string
/// can hold, each content of which is read again as itself.
pub open spec fn is_canonical(s: Seq<char>) -> bool {
    exists|cs: Seq<ContentView>| is_sequence(cs) && all_reread(cs) && s == #[trigger] written(cs)
}

/// The fragments of a parsed string lie one behind the other, none is
/// empty, the first begins at 0 and the last ends at the length of the
/// string, counted in characters.
pub proof fn law_fragments_cover(s: Seq<char>)
    requires
        parsed(s) is Ok,
    ensures
        covers(parsed(s)->Ok_0, 0, s.len()),
{
    lemma_fragments_cover(s, 0);
}

/// The strings in canonical form are exactly those that parse and are
/// written again as they were.
pub proof fn law_canonical_is_kept(s: Seq<char>)
    ensures
        is_canonical(s) <==> parsed(s) is Ok && compiled(parsed(s)->Ok_0) == s,
{
    assert(s.subrange(0, s.len() as int) =~= s);
    if is_canonical(s) {
        let cs = choose|cs: Seq<ContentView>|
            is_sequence(cs) && all_reread(cs) && s == #[trigger] written(cs);
        lemma_fragments_written(s, 0, cs);
    }
    if parsed(s) is Ok && compiled(parsed(s)->Ok_0) == s {
        let cs = contents(parsed(s)->Ok_0);
        lemma_fragments_read(s, 0);
        lemma_fragments_written(s, 0, cs);
        assert(s == written(cs));
    }
}

/// What was parsed, written and parsed again holds what it held, if and
/// only if each content is read again as itself. The positions may differ,
/// since writing may shorten a span.
pub proof fn law_written_reparses(s: Seq<char>)
    requires
        parsed(s) is Ok,
    ensures
        all_reread(contents(parsed(s)->Ok_0)) <==> parsed(compiled(parsed(s)->Ok_0)) is Ok
            && contents(parsed(compiled(parsed(s)->Ok_0))->Ok_0) == contents(parsed(s)->Ok_0),
{
    let cs = contents(parsed(s)->Ok_0);
    let t = written(cs);
    lemma_fragments_read(s, 0);
    assert(t.subrange(0, t.len() as int) =~= t);
    lemma_fragments_written(t, 0, cs);
}

/// What was written from a parsed string is in canonical form, as long as
/// each content is read again as itself: writing it once more changes
/// nothing.
pub proof fn law_written_is_canonical(s: Seq<char>)
    requires
        parsed(s) is Ok,
        all_reread(contents(parsed(s)->Ok_0)),
    ensures
        is_canonical(compiled(parsed(s)->Ok_0)),
{
    lemma_fragments_read(s, 0);
    assert(compiled(parsed(s)->Ok_0) == written(contents(parsed(s)->Ok_0)));
}

/// Digits alone between the braces are taken by no grammar, and a string
/// that is such a span fails to parse, with an error that covers the span
/// and quotes it.
pub proof fn law_digits_alone_are_invalid(digits: Seq<char>)
    requires
        is_digit_run(digits),
    ensures
        content_of(seq!['{'] + digits + seq!['}']) is None,
        parsed(seq!['{'] + digits + seq!['}']) == Err::<Seq<FragmentView>, ErrorView>(
            ErrorView {
                pos_begin: 0,
                pos_end: Some(digits.len() + 2),
                message: invalid_message(seq!['{'] + digits + seq!['}']),
            },
        ),
{
    let s = seq!['{'] + digits + seq!['}'];
    let end: int = s.len() - 1;
    assert(s[0] == '{' && s[end] == '}');
    assert forall|i: int| 1 <= i < end implies CharClass::Digit.holds(#[trigger] s[i]) by {
        assert(s[i] == digits[i - 1]);
    }
    assert(CharClass::Digit.holds(s[1]));
    lemma_run_end_is(s, 1, end, CharClass::Digit, end);
    assert(content_of(s) is None);
    lemma_run_end_is(s, 0, s.len() as int, CharClass::Literal, 0);
    assert forall|i: int| 0 <= i < end implies CharClass::Inside.holds(#[trigger] s[i]) by {
        if i > 0 {
            assert(CharClass::Digit.holds(s[i]));
        }
    }
    lemma_run_end_is(s, 0, s.len() as int, CharClass::Inside, end);
    assert(s.subrange(0, end + 1) =~= s);
}

} // verus!
