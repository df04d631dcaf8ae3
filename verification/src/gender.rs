//! Gender definitions: `{G=tag}`.

use vstd::prelude::*;
use crate::chars::{is_span, is_white_run, is_word_run, run_end, skip, CharClass};
use crate::text::{chars_of, push_chars, string_of};

verus! {

/// Declares the grammatical gender of the string it stands in.
#[derive(Debug, PartialEq)]
pub struct GenderDefinition {
    /// The tag of the gender: one or more word characters.
    pub gender: String,
}

/// What a `GenderDefinition` holds, as plain values.
pub struct GenderView {
    pub gender: Seq<char>,
}

impl View for GenderDefinition {
    type V = GenderView;

    open spec fn view(&self) -> GenderView {
        GenderView { gender: self.gender@ }
    }
}

/// The span that writes a gender definition in these parts: `{G`, what
/// stands before the `=`, the `=`, what stands behind it, the tag, `}`.
pub open spec fn gender_span(before: Seq<char>, after: Seq<char>, tag: Seq<char>) -> Seq<char> {
    seq!['{', 'G'] + before + seq!['='] + after + tag + seq!['}']
}

/// Parts that the gender grammar admits.
pub open spec fn is_gender_parts(before: Seq<char>, after: Seq<char>, tag: Seq<char>) -> bool {
    is_white_run(before) && is_white_run(after) && is_word_run(tag)
}

/// A gender definition that the grammar admits.
pub open spec fn is_gender(g: GenderView) -> bool {
    is_word_run(g.gender)
}

/// Where the `=` of a gender definition must stand: behind `{G` and any
/// whitespace.
pub open spec fn gender_equals_at(s: Seq<char>) -> int {
    run_end(s, 2, s.len() - 1, CharClass::White)
}

/// Where the tag of a gender definition starts: behind the `=` and any
/// whitespace.
pub open spec fn gender_tag_start(s: Seq<char>) -> int {
    run_end(s, gender_equals_at(s) + 1, s.len() - 1, CharClass::White)
}

/// The gender definition that a span writes, if it writes one. It does if
/// and only if it falls into parts that the grammar admits: `{G`, whitespace
/// or none, `=`, whitespace or none, one or more word characters, `}`.
pub open spec fn gender_of(s: Seq<char>) -> Option<GenderView> {
    let end = s.len() - 1;
    let a = gender_equals_at(s);
    let b = gender_tag_start(s);
    if is_span(s) && s.len() >= 3 && s[1] == 'G' && a < end && s[a] == '=' && b < end && run_end(
        s,
        b,
        end,
        CharClass::Word,
    ) == end {
        Some(GenderView { gender: s.subrange(b, end) })
    } else {
        None
    }
}

/// The canonical text of a gender definition.
pub open spec fn gender_text(g: GenderView) -> Seq<char> {
    seq!['{', 'G', '='] + g.gender + seq!['}']
}

impl GenderDefinition {
    /// Reads a whole span as a gender definition.
    pub fn parse(string: &str) -> (r: Option<GenderDefinition>)
        ensures
            match r {
                Some(g) => gender_of(string@) == Some(g@),
                None => gender_of(string@) is None,
            },
    {
        let s = chars_of(string);
        GenderDefinition::from_chars(s.as_slice())
    }

    /// Reads a whole span, given as characters, as a gender definition.
    pub fn from_chars(s: &[char]) -> (r: Option<GenderDefinition>)
        ensures
            match r {
                Some(g) => gender_of(s@) == Some(g@),
                None => gender_of(s@) is None,
            },
    {
        let n = s.len();
        if n < 3 || s[0] != '{' || s[n - 1] != '}' || s[1] != 'G' {
            return None;
        }
        let end = n - 1;
        let a = skip(s, 2, end, CharClass::White);
        if a >= end || s[a] != '=' {
            return None;
        }
        let b = skip(s, a + 1, end, CharClass::White);
        if b < end && skip(s, b, end, CharClass::Word) == end {
            Some(GenderDefinition { gender: string_of(s, b, end) })
        } else {
            None
        }
    }

    /// Writes the gender definition in its canonical form.
    pub fn compile(&self) -> (r: String)
        ensures
            r@ == gender_text(self@),
    {
        let mut r = String::new();
        r.push('{');
        r.push('G');
        r.push('=');
        push_chars(&mut r, self.gender.as_str());
        r.push('}');
        assert(r@ =~= gender_text(self@));
        r
    }
}

} // verus!
