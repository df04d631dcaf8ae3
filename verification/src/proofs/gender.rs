//! The gender grammar: the spans it takes, and what it reads from them.

use vstd::prelude::*;
use crate::chars::{is_unit, lemma_run_end, lemma_run_end_is, CharClass};
use crate::command::command_of;
use crate::gender::{
    gender_equals_at, gender_of, gender_span, gender_tag_start, gender_text, is_gender,
    is_gender_parts, GenderView,
};

verus! {

/// A span in parts that the grammar admits is read as the gender definition
/// with that tag, is no command, and closes at its first `}`.
pub proof fn lemma_gender_span(before: Seq<char>, after: Seq<char>, tag: Seq<char>)
    requires
        is_gender_parts(before, after, tag),
    ensures
        gender_of(gender_span(before, after, tag)) == Some(GenderView { gender: tag }),
        command_of(gender_span(before, after, tag)) is None,
        is_unit(gender_span(before, after, tag)),
{
    let s = gender_span(before, after, tag);
    let end: int = s.len() - 1;
    let a: int = before.len() as int + 2;
    let b: int = a + 1 + after.len();
    assert(s.len() == 4 + before.len() + after.len() + tag.len());
    assert(s[0] == '{' && s[1] == 'G' && s[a] == '=' && s[end] == '}');
    assert forall|i: int| 2 <= i < a implies CharClass::White.holds(#[trigger] s[i]) by {
        assert(s[i] == before[i - 2]);
    }
    assert forall|i: int| a + 1 <= i < b implies CharClass::White.holds(#[trigger] s[i]) by {
        assert(s[i] == after[i - a - 1]);
    }
    assert forall|i: int| b <= i < end implies CharClass::Word.holds(#[trigger] s[i]) by {
        assert(s[i] == tag[i - b]);
    }
    assert(CharClass::Word.holds(s[b]));
    lemma_run_end_is(s, 2, end, CharClass::White, a);
    lemma_run_end_is(s, a + 1, end, CharClass::White, b);
    lemma_run_end_is(s, b, end, CharClass::Word, end);
    assert(s.subrange(b, end) =~= tag);
    // As a command the span would have the name `G`, and neither whitespace
    // nor `=` can follow a name.
    lemma_run_end_is(s, 1, end, CharClass::Digit, 1);
    lemma_run_end_is(s, 1, end, CharClass::NameTail, 2);
    assert forall|i: int| 0 <= i < end implies CharClass::Inside.holds(#[trigger] s[i]) by {
        if 2 <= i < a {
            assert(CharClass::White.holds(s[i]));
        } else if a + 1 <= i < b {
            assert(CharClass::White.holds(s[i]));
        } else if b <= i {
            assert(CharClass::Word.holds(s[i]));
        }
    }
}

/// A span that is read as a gender definition falls into parts that the
/// grammar admits, and is read as the gender definition with that tag.
pub proof fn lemma_gender_parts(s: Seq<char>) -> (parts: (Seq<char>, Seq<char>, Seq<char>))
    requires
        gender_of(s) is Some,
    ensures
        is_gender_parts(parts.0, parts.1, parts.2),
        s == gender_span(parts.0, parts.1, parts.2),
        gender_of(s) == Some(GenderView { gender: parts.2 }),
{
    let end = s.len() - 1;
    let a = gender_equals_at(s);
    let b = gender_tag_start(s);
    let before = s.subrange(2, a);
    let after = s.subrange(a + 1, b);
    let tag = s.subrange(b, end);
    lemma_run_end(s, 2, end, CharClass::White);
    lemma_run_end(s, a + 1, end, CharClass::White);
    lemma_run_end(s, b, end, CharClass::Word);
    assert forall|i: int| 0 <= i < before.len() implies CharClass::White.holds(
        #[trigger] before[i],
    ) by {
        assert(before[i] == s[2 + i]);
    }
    assert forall|i: int| 0 <= i < after.len() implies CharClass::White.holds(
        #[trigger] after[i],
    ) by {
        assert(after[i] == s[a + 1 + i]);
    }
    assert forall|i: int| 0 <= i < tag.len() implies CharClass::Word.holds(#[trigger] tag[i]) by {
        assert(tag[i] == s[b + i]);
    }
    assert(s =~= gender_span(before, after, tag));
    (before, after, tag)
}

/// What is read as a gender definition is one that the grammar admits.
pub proof fn lemma_gender_read(s: Seq<char>)
    ensures
        gender_of(s) matches Some(g) ==> is_gender(g),
{
    if gender_of(s) is Some {
        let parts = lemma_gender_parts(s);
    }
}

/// The canonical text of a gender definition that the grammar admits is
/// read as that definition, is no command, and closes at its first `}`.
pub proof fn lemma_gender_written(g: GenderView)
    requires
        is_gender(g),
    ensures
        gender_of(gender_text(g)) == Some(g),
        command_of(gender_text(g)) is None,
        is_unit(gender_text(g)),
{
    assert(gender_text(g) =~= gender_span(Seq::empty(), Seq::empty(), g.gender));
    lemma_gender_span(Seq::empty(), Seq::empty(), g.gender);
}

} // verus!
