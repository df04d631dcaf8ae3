//! What a fragment of a string holds, and the choice between the three
//! grammars of a bracketed span.

use vstd::prelude::*;
use crate::chars::{all_in, CharClass};
use crate::choice::{
    choice_of, choice_text, choices_in, drops_subref, is_choice, opens_with_digit, ChoiceList,
    ChoiceView,
};
use crate::command::{command_of, command_text, is_command, CommandView, StringCommand};
use crate::gender::{gender_of, gender_text, is_gender, GenderDefinition, GenderView};
use crate::text::{chars_of, push_chars, push_range};

verus! {

/// What one fragment of a string holds.
#[derive(Debug, PartialEq)]
pub enum FragmentContent {
    /// Literal text.
    Text(String),
    /// A command reference.
    Command(StringCommand),
    /// A gender definition.
    Gender(GenderDefinition),
    /// A choice list.
    Choice(ChoiceList),
}

/// What a `FragmentContent` holds, as plain values.
pub enum ContentView {
    Text(Seq<char>),
    Command(CommandView),
    Gender(GenderView),
    Choice(ChoiceView),
}

impl View for FragmentContent {
    type V = ContentView;

    open spec fn view(&self) -> ContentView {
        match self {
            FragmentContent::Text(t) => ContentView::Text(t@),
            FragmentContent::Command(c) => ContentView::Command(c@),
            FragmentContent::Gender(g) => ContentView::Gender(g@),
            FragmentContent::Choice(c) => ContentView::Choice(c@),
        }
    }
}

/// One piece of a parsed string: what it holds and where it stood.
#[derive(Debug, PartialEq)]
pub struct StringFragment {
    /// The position of its first character.
    pub pos_begin: usize,
    /// The position behind its last character.
    pub pos_end: usize,
    /// What it holds.
    pub content: FragmentContent,
}

/// What a `StringFragment` holds, as plain values.
pub struct FragmentView {
    pub pos_begin: nat,
    pub pos_end: nat,
    pub content: ContentView,
}

impl View for StringFragment {
    type V = FragmentView;

    open spec fn view(&self) -> FragmentView {
        FragmentView {
            pos_begin: self.pos_begin as nat,
            pos_end: self.pos_end as nat,
            content: self.content@,
        }
    }
}

/// What a bracketed span writes, if it writes anything. The three grammars
/// are tried in a fixed order, and the first that takes the whole span
/// decides: command, then gender definition, then choice list.
pub open spec fn content_of(s: Seq<char>) -> Option<ContentView> {
    match command_of(s) {
        Some(c) => Some(ContentView::Command(c)),
        None => match gender_of(s) {
            Some(g) => Some(ContentView::Gender(g)),
            None => match choice_of(s) {
                Some(c) => Some(ContentView::Choice(c)),
                None => None,
            },
        },
    }
}

/// What is said of a span that none of the grammars takes.
pub open spec fn invalid_message(s: Seq<char>) -> Seq<char> {
    "Invalid string command: '"@ + s + "'"@
}

/// The canonical text of a fragment's content. Literal text is written as it
/// is.
pub open spec fn content_text(c: ContentView) -> Seq<char> {
    match c {
        ContentView::Text(t) => t,
        ContentView::Command(c) => command_text(c),
        ContentView::Gender(g) => gender_text(g),
        ContentView::Choice(c) => choice_text(c),
    }
}

impl FragmentContent {
    /// Reads a whole bracketed span. Fails, with a message that quotes the
    /// span, where no grammar takes it.
    pub fn parse(string: &str) -> (r: Result<FragmentContent, String>)
        ensures
            match r {
                Ok(c) => content_of(string@) == Some(c@),
                Err(m) => content_of(string@) is None && m@ == invalid_message(string@),
            },
    {
        let s = chars_of(string);
        FragmentContent::from_chars(s.as_slice())
    }

    /// Reads a whole bracketed span, given as characters.
    pub fn from_chars(s: &[char]) -> (r: Result<FragmentContent, String>)
        ensures
            match r {
                Ok(c) => content_of(s@) == Some(c@),
                Err(m) => content_of(s@) is None && m@ == invalid_message(s@),
            },
    {
        if let Some(command) = StringCommand::from_chars(s) {
            Ok(FragmentContent::Command(command))
        } else if let Some(gender) = GenderDefinition::from_chars(s) {
            Ok(FragmentContent::Gender(gender))
        } else if let Some(choice) = ChoiceList::from_chars(s) {
            Ok(FragmentContent::Choice(choice))
        } else {
            let mut m = String::new();
            push_chars(&mut m, "Invalid string command: '");
            push_range(&mut m, s, 0, s.len());
            push_chars(&mut m, "'");
            assert(m@ =~= invalid_message(s@));
            Err(m)
        }
    }

    /// Writes the content in its canonical form.
    pub fn compile(&self) -> (r: String)
        ensures
            r@ == content_text(self@),
    {
        match self {
            FragmentContent::Text(s) => s.clone(),
            FragmentContent::Command(command) => command.compile(),
            FragmentContent::Gender(gender) => gender.compile(),
            FragmentContent::Choice(choice) => choice.compile(),
        }
    }
}

/// The text that contents write, one behind the other.
pub open spec fn written(cs: Seq<ContentView>) -> Seq<char>
    decreases cs.len(),
{
    if cs.len() == 0 {
        Seq::empty()
    } else {
        content_text(cs[0]) + written(cs.drop_first())
    }
}

/// Writing one more content at the end appends its text.
pub proof fn lemma_written_push(cs: Seq<ContentView>, c: ContentView)
    ensures
        written(cs.push(c)) == written(cs) + content_text(c),
    decreases cs.len(),
{
    if cs.len() == 0 {
        assert(cs.push(c).drop_first() =~= Seq::<ContentView>::empty());
        assert(written(Seq::<ContentView>::empty()) =~= Seq::<char>::empty());
        assert(written(cs.push(c)) =~= content_text(c));
    } else {
        lemma_written_push(cs.drop_first(), c);
        assert(cs.push(c).drop_first() =~= cs.drop_first().push(c));
        assert(written(cs.push(c)) =~= written(cs) + content_text(c));
    }
}

/// What a fragment of a parsed string can hold: literal text that is not
/// empty and holds no `{`, or a command, a gender definition or a choice
/// list that its grammar admits and that holds no `}`.
pub open spec fn is_content(c: ContentView) -> bool {
    match c {
        ContentView::Text(t) => t.len() > 0 && all_in(t, 0, t.len() as int, CharClass::Literal),
        ContentView::Command(c) => is_command(c),
        ContentView::Gender(g) => is_gender(g),
        ContentView::Choice(c) => is_choice(c) && choices_in(c.choices, CharClass::Inside),
    }
}

/// The canonical text of the content is read as the same content again.
/// This fails of three kinds of choice list only: one with a sub-index and
/// no index reference, whose text leaves the sub-index out; one without an
/// index reference whose first choice is written bare and opens with a
/// digit, which is read as an index reference; and one whose text is a
/// gender definition, such as `{G =x}`.
pub open spec fn rereads(c: ContentView) -> bool {
    match c {
        ContentView::Choice(c) => !drops_subref(c) && !opens_with_digit(c) && gender_of(
            choice_text(c),
        ) is None,
        _ => true,
    }
}

/// What the canonical text of the content is read as. Literal text is read
/// as itself.
pub open spec fn reread(c: ContentView) -> Option<ContentView> {
    match c {
        ContentView::Text(_) => Some(c),
        _ => content_of(content_text(c)),
    }
}

} // verus!
