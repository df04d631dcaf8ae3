//! The three grammars together: what a span is read as, and what the text
//! of a content is read as.

use vstd::prelude::*;
use crate::chars::{all_in, is_unit, CharClass};
use crate::fragment::{content_of, content_text, is_content, reread, rereads, ContentView};
use crate::proofs::choice::{
    lemma_choice_not_reread, lemma_choice_read, lemma_choice_unit, lemma_choice_written,
};
use crate::proofs::command::{lemma_command_read, lemma_command_written};
use crate::proofs::gender::{lemma_gender_read, lemma_gender_written};

verus! {

/// What is read from a span that holds no `}` but the last is something
/// that a fragment can hold, and no literal text.
pub proof fn lemma_content_read(s: Seq<char>)
    requires
        all_in(s, 1, s.len() - 1, CharClass::Inside),
    ensures
        content_of(s) matches Some(c) ==> is_content(c) && !(c is Text),
{
    lemma_command_read(s);
    lemma_gender_read(s);
    lemma_choice_read(s, CharClass::Inside);
}

/// The canonical text of a command, a gender definition or a choice list
/// that a fragment can hold is one span that closes at its first `}`.
pub proof fn lemma_content_unit(c: ContentView)
    requires
        is_content(c),
        !(c is Text),
    ensures
        is_unit(content_text(c)),
{
    match c {
        ContentView::Text(_) => {},
        ContentView::Command(c) => {
            lemma_command_written(c);
        },
        ContentView::Gender(g) => {
            lemma_gender_written(g);
        },
        ContentView::Choice(c) => {
            lemma_choice_unit(c);
        },
    }
}

/// The contents that are read again as themselves are exactly those whose
/// canonical text is read as the same content.
pub proof fn lemma_rereads_exactly(c: ContentView)
    requires
        is_content(c),
    ensures
        rereads(c) <==> reread(c) == Some(c),
{
    match c {
        ContentView::Text(_) => {},
        ContentView::Command(c) => {
            lemma_command_written(c);
        },
        ContentView::Gender(g) => {
            lemma_gender_written(g);
        },
        ContentView::Choice(c) => {
            if rereads(ContentView::Choice(c)) {
                lemma_choice_written(c);
            } else if reread(ContentView::Choice(c)) == Some(ContentView::Choice(c)) {
                lemma_choice_not_reread(c);
            }
        },
    }
}

} // verus!
