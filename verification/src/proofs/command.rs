//! The command grammar: the spans it takes, and what it reads from them.

use vstd::prelude::*;
use crate::chars::{is_unit, is_upper, lemma_run_end, lemma_run_end_is, CharClass};
use crate::command::{
    canonical_digits, case_text, command_from_parts, command_name_end, command_name_start, command_of,
    command_span, command_text, is_command, is_command_parts, CommandView,
};
use crate::text::lemma_decimal_digits;

verus! {

/// How a span that writes a command is laid out: the brace, the digits and
/// the colon up to `p`, the name from `p` to `q`, the dot and the case, the
/// brace.
proof fn lemma_command_layout(
    digits: Option<Seq<char>>,
    name: Seq<char>,
    case: Option<Seq<char>>,
    p: int,
    q: int,
)
    requires
        p == match digits {
            Some(d) => d.len() as int + 2,
            None => 1,
        },
        q == p + name.len(),
    ensures
        command_span(digits, name, case).len() == q + case_text(case).len() + 1,
        command_span(digits, name, case)[0] == '{',
        command_span(digits, name, case).last() == '}',
        digits matches Some(d) ==> command_span(digits, name, case).subrange(1, p - 1) == d
            && command_span(digits, name, case)[p - 1] == ':',
        command_span(digits, name, case).subrange(p, q) == name,
        case matches Some(t) ==> command_span(digits, name, case)[q] == '.' && command_span(
            digits,
            name,
            case,
        ).subrange(q + 1, q + 1 + t.len()) == t,
{
    let s = command_span(digits, name, case);
    if let Some(d) = digits {
        assert(s.subrange(1, p - 1) =~= d);
    }
    assert(s.subrange(p, q) =~= name);
    if let Some(t) = case {
        assert(s.subrange(q + 1, q + 1 + t.len()) =~= t);
    }
}

/// A span in parts that the grammar admits closes at its first `}`.
proof fn lemma_command_span_unit(
    digits: Option<Seq<char>>,
    name: Seq<char>,
    case: Option<Seq<char>>,
)
    requires
        is_command_parts(digits, name, case),
    ensures
        is_unit(command_span(digits, name, case)),
{
    let s = command_span(digits, name, case);
    let p: int = match digits {
        Some(d) => d.len() as int + 2,
        None => 1,
    };
    let q: int = p + name.len();
    lemma_command_layout(digits, name, case, p, q);
    assert forall|i: int| 0 <= i < s.len() - 1 implies CharClass::Inside.holds(#[trigger] s[i]) by {
        if 1 <= i < p - 1 {
            assert(s.subrange(1, p - 1)[i - 1] == s[i]);
            assert(CharClass::Digit.holds((digits->Some_0)[i - 1]));
        } else if p <= i < q {
            assert(s.subrange(p, q)[i - p] == s[i]);
            assert(name[i - p] == '{' || CharClass::NameTail.holds(name[i - p]));
        } else if q < i {
            let t = case->Some_0;
            assert(s.subrange(q + 1, q + 1 + t.len())[i - q - 1] == s[i]);
            assert(CharClass::Word.holds(t[i - q - 1]));
        }
    }
}

/// A span in parts that the grammar admits is read as the command that the
/// parts stand for, and closes at its first `}`.
pub proof fn lemma_command_span(
    digits: Option<Seq<char>>,
    name: Seq<char>,
    case: Option<Seq<char>>,
)
    requires
        is_command_parts(digits, name, case),
    ensures
        command_of(command_span(digits, name, case)) == Some(
            command_from_parts(digits, name, case),
        ),
        is_unit(command_span(digits, name, case)),
{
    let s = command_span(digits, name, case);
    let end: int = s.len() - 1;
    let p: int = match digits {
        Some(d) => d.len() as int + 2,
        None => 1,
    };
    let q: int = p + name.len();
    lemma_command_layout(digits, name, case, p, q);
    lemma_command_span_unit(digits, name, case);
    assert forall|i: int| 0 <= i < name.len() implies s[p + i] == name[i] by {
        assert(s.subrange(p, q)[i] == s[p + i]);
    }
    // Where the name starts.
    match digits {
        Some(d) => {
            assert forall|i: int| 1 <= i < p - 1 implies CharClass::Digit.holds(#[trigger] s[i]) by {
                assert(s.subrange(1, p - 1)[i - 1] == s[i]);
                assert(CharClass::Digit.holds(d[i - 1]));
            }
            lemma_run_end_is(s, 1, end, CharClass::Digit, p - 1);
        },
        None => {
            assert(!CharClass::Digit.holds(s[1])) by {
                if name.len() > 0 {
                    assert(s[1] == name[0]);
                }
            }
            lemma_run_end_is(s, 1, end, CharClass::Digit, 1);
        },
    }
    assert(command_name_start(s) == p);
    // Where the name ends.
    if name.len() == 0 {
    } else if name.len() == 1 && name[0] == '{' {
        assert(s[p] == name[0]);
    } else {
        assert(s[p] == name[0]);
        assert forall|i: int| p <= i < q implies CharClass::NameTail.holds(#[trigger] s[i]) by {
            assert(s[i] == name[i - p]);
        }
        lemma_run_end_is(s, p, end, CharClass::NameTail, q);
    }
    assert(command_name_end(s) == q);
    if let Some(t) = case {
        assert forall|i: int| q + 1 <= i < end implies CharClass::Word.holds(#[trigger] s[i]) by {
            assert(s.subrange(q + 1, q + 1 + t.len())[i - q - 1] == s[i]);
            assert(CharClass::Word.holds(t[i - q - 1]));
        }
        lemma_run_end_is(s, q + 1, end, CharClass::Word, end);
    }
}

/// A span that is read as a command falls into parts that the grammar
/// admits, and is read as the command that the parts stand for.
pub proof fn lemma_command_parts(s: Seq<char>) -> (parts: (
    Option<Seq<char>>,
    Seq<char>,
    Option<Seq<char>>,
))
    requires
        command_of(s) is Some,
    ensures
        is_command_parts(parts.0, parts.1, parts.2),
        s == command_span(parts.0, parts.1, parts.2),
        command_of(s) == Some(command_from_parts(parts.0, parts.1, parts.2)),
{
    let end = s.len() - 1;
    let p = command_name_start(s);
    let q = command_name_end(s);
    let digits = if p > 1 {
        Some(s.subrange(1, p - 1))
    } else {
        None
    };
    let name = s.subrange(p, q);
    let case = if q == end {
        None
    } else {
        Some(s.subrange(q + 1, end))
    };
    lemma_run_end(s, 1, end, CharClass::Digit);
    lemma_run_end(s, p, end, CharClass::NameTail);
    if p > 1 {
        let d = s.subrange(1, p - 1);
        assert forall|i: int| 0 <= i < d.len() implies CharClass::Digit.holds(#[trigger] d[i]) by {
            assert(d[i] == s[1 + i]);
        }
    }
    if p < end && s[p] == '{' {
    } else if p < end && is_upper(s[p]) {
        assert(name[0] == s[p]);
        assert forall|i: int| 0 <= i < name.len() implies CharClass::NameTail.holds(
            #[trigger] name[i],
        ) by {
            assert(name[i] == s[p + i]);
        }
    } else {
    }
    if q != end {
        let t = s.subrange(q + 1, end);
        lemma_run_end(s, q + 1, end, CharClass::Word);
        assert forall|i: int| 0 <= i < t.len() implies CharClass::Word.holds(#[trigger] t[i]) by {
            assert(t[i] == s[q + 1 + i]);
        }
    }
    assert(s =~= command_span(digits, name, case));
    (digits, name, case)
}

/// What is read as a command is a command that the grammar admits.
pub proof fn lemma_command_read(s: Seq<char>)
    ensures
        command_of(s) matches Some(c) ==> is_command(c),
{
    if command_of(s) is Some {
        let parts = lemma_command_parts(s);
    }
}

/// The canonical text of a command that the grammar admits is read as that
/// command, and closes at its first `}`.
pub proof fn lemma_command_written(c: CommandView)
    requires
        is_command(c),
    ensures
        command_of(command_text(c)) == Some(c),
        is_unit(command_text(c)),
{
    if let Some(n) = c.index {
        lemma_decimal_digits(n);
    }
    assert(command_text(c) =~= command_span(canonical_digits(c.index), c.name, c.case));
    lemma_command_span(canonical_digits(c.index), c.name, c.case);
}

} // verus!
