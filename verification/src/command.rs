//! Command references: `{NAME}`, `{2:NAME}`, `{NAME.case}`, `{}` and the
//! escaped brace `{{}`.

use vstd::prelude::*;
use crate::chars::{
    all_in, is_digit_run, is_span, is_upper, is_word_run, lemma_run_end, run_end, skip, upper,
    CharClass,
};
use crate::text::{
    chars_of, decimal_digits, index_value, push_chars, push_decimal, read_index, string_of,
};

verus! {

/// A reference to a parameter or a formatting command.
#[derive(Debug, PartialEq)]
pub struct StringCommand {
    /// Which parameter is meant, where the string says so.
    pub index: Option<usize>,
    /// Empty, `{`, or an upper-case identifier.
    pub name: String,
    /// The grammatical case asked for, where the string says so.
    pub case: Option<String>,
}

/// What a `StringCommand` holds, as plain values.
pub struct CommandView {
    pub index: Option<nat>,
    pub name: Seq<char>,
    pub case: Option<Seq<char>>,
}

/// An optional number as a natural number.
pub open spec fn number_view(n: Option<usize>) -> Option<nat> {
    match n {
        Some(n) => Some(n as nat),
        None => None,
    }
}

/// An optional string as its characters.
pub open spec fn text_view(t: Option<String>) -> Option<Seq<char>> {
    match t {
        Some(t) => Some(t@),
        None => None,
    }
}

impl View for StringCommand {
    type V = CommandView;

    open spec fn view(&self) -> CommandView {
        CommandView { index: number_view(self.index), name: self.name@, case: text_view(self.case) }
    }
}

/// The span that writes a command in these parts: `{`, the digits of the
/// index and a colon where there are digits, the name, a dot and the case
/// where there is a case, `}`.
pub open spec fn command_span(
    digits: Option<Seq<char>>,
    name: Seq<char>,
    case: Option<Seq<char>>,
) -> Seq<char> {
    seq!['{'] + match digits {
        Some(d) => d.push(':'),
        None => Seq::empty(),
    } + name + case_text(case) + seq!['}']
}

/// Parts that the command grammar admits.
pub open spec fn is_command_parts(
    digits: Option<Seq<char>>,
    name: Seq<char>,
    case: Option<Seq<char>>,
) -> bool {
    &&& digits matches Some(d) ==> is_digit_run(d)
    &&& is_name(name)
    &&& case matches Some(t) ==> is_word_run(t)
}

/// The command that parts of a span stand for.
pub open spec fn command_from_parts(
    digits: Option<Seq<char>>,
    name: Seq<char>,
    case: Option<Seq<char>>,
) -> CommandView {
    CommandView {
        index: match digits {
            Some(d) => index_value(d),
            None => None,
        },
        name,
        case,
    }
}

/// A number that an index can hold.
pub open spec fn is_index(index: Option<nat>) -> bool {
    index matches Some(n) ==> n <= usize::MAX
}

/// A name that the grammar admits: empty, `{` alone, or an upper-case
/// letter followed by any of `A-Z`, `0-9` and `_`.
pub open spec fn is_name(name: Seq<char>) -> bool {
    ||| name.len() == 0
    ||| name.len() == 1 && name[0] == '{'
    ||| is_upper(name[0]) && all_in(name, 0, name.len() as int, CharClass::NameTail)
}

/// A command that the grammar admits.
pub open spec fn is_command(c: CommandView) -> bool {
    &&& is_index(c.index)
    &&& is_name(c.name)
    &&& c.case matches Some(t) ==> is_word_run(t)
}

/// Where the name of a command starts: behind `digits:` where the span
/// opens with that, else right behind the brace.
pub open spec fn command_name_start(s: Seq<char>) -> int {
    let d = run_end(s, 1, s.len() - 1, CharClass::Digit);
    if 1 < d < s.len() - 1 && s[d] == ':' {
        d + 1
    } else {
        1
    }
}

/// Where the name of a command ends. The name is `{` alone, or an upper-case
/// letter and all of `A-Z`, `0-9`, `_` that follows it, or empty.
pub open spec fn command_name_end(s: Seq<char>) -> int {
    let p = command_name_start(s);
    if p < s.len() - 1 && s[p] == '{' {
        p + 1
    } else if p < s.len() - 1 && is_upper(s[p]) {
        run_end(s, p, s.len() - 1, CharClass::NameTail)
    } else {
        p
    }
}

/// The command that a span writes, if it writes one. It does if and only if
/// it falls into parts that the grammar admits: `{`, then digits and a colon
/// or nothing, then the name, then a dot and one or more word characters or
/// nothing, then `}`. Digits that do not fit a `usize` leave the index
/// absent.
pub open spec fn command_of(s: Seq<char>) -> Option<CommandView> {
    let end = s.len() - 1;
    let p = command_name_start(s);
    let q = command_name_end(s);
    let index = if p > 1 {
        index_value(s.subrange(1, p - 1))
    } else {
        None
    };
    if !is_span(s) {
        None
    } else if q == end {
        Some(CommandView { index, name: s.subrange(p, q), case: None })
    } else if s[q] == '.' && q + 1 < end && run_end(s, q + 1, end, CharClass::Word) == end {
        Some(CommandView { index, name: s.subrange(p, q), case: Some(s.subrange(q + 1, end)) })
    } else {
        None
    }
}

/// The digits of an index as the canonical text has them: in decimal,
/// without leading zeros.
pub open spec fn canonical_digits(index: Option<nat>) -> Option<Seq<char>> {
    match index {
        Some(n) => Some(decimal_digits(n)),
        None => None,
    }
}

/// How an optional index is written in front of a command's name.
pub open spec fn index_text(index: Option<nat>) -> Seq<char> {
    match index {
        Some(n) => decimal_digits(n).push(':'),
        None => Seq::empty(),
    }
}

/// How an optional case is written behind a command's name.
pub open spec fn case_text(case: Option<Seq<char>>) -> Seq<char> {
    match case {
        Some(c) => seq!['.'] + c,
        None => Seq::empty(),
    }
}

/// The canonical text of a command.
pub open spec fn command_text(c: CommandView) -> Seq<char> {
    seq!['{'] + index_text(c.index) + c.name + case_text(c.case) + seq!['}']
}

impl StringCommand {
    /// Reads a whole span as a command.
    pub fn parse(string: &str) -> (r: Option<StringCommand>)
        ensures
            match r {
                Some(c) => command_of(string@) == Some(c@),
                None => command_of(string@) is None,
            },
    {
        let s = chars_of(string);
        StringCommand::from_chars(s.as_slice())
    }

    /// Reads a whole span, given as characters, as a command.
    pub fn from_chars(s: &[char]) -> (r: Option<StringCommand>)
        ensures
            match r {
                Some(c) => command_of(s@) == Some(c@),
                None => command_of(s@) is None,
            },
    {
        let n = s.len();
        if n < 2 || s[0] != '{' || s[n - 1] != '}' {
            return None;
        }
        let end = n - 1;
        let d = skip(s, 1, end, CharClass::Digit);
        let mut index: Option<usize> = None;
        let mut p: usize = 1;
        if d > 1 && d < end && s[d] == ':' {
            proof {
                lemma_run_end(s@, 1, end as int, CharClass::Digit);
            }
            index = read_index(s, 1, d);
            p = d + 1;
        }
        let q = if p < end && s[p] == '{' {
            p + 1
        } else if p < end && upper(s[p]) {
            skip(s, p, end, CharClass::NameTail)
        } else {
            p
        };
        if q == end {
            Some(StringCommand { index, name: string_of(s, p, q), case: None })
        } else if s[q] == '.' && q + 1 < end && skip(s, q + 1, end, CharClass::Word) == end {
            Some(
                StringCommand {
                    index,
                    name: string_of(s, p, q),
                    case: Some(string_of(s, q + 1, end)),
                },
            )
        } else {
            None
        }
    }

    /// Writes the command in its canonical form.
    pub fn compile(&self) -> (r: String)
        ensures
            r@ == command_text(self@),
    {
        let mut r = String::new();
        r.push('{');
        if let Some(i) = self.index {
            push_decimal(&mut r, i);
            r.push(':');
        }
        push_chars(&mut r, self.name.as_str());
        if let Some(c) = &self.case {
            r.push('.');
            push_chars(&mut r, c.as_str());
        }
        r.push('}');
        assert(r@ =~= command_text(self@));
        r
    }
}

} // verus!
