//! Character classes of the grammars, runs of a class, and bracketed spans.

use vstd::prelude::*;
use regex::Regex;

verus! {

/// Whether the pattern, taken as a regular expression, matches the string
/// that is made of the one character. A pattern that is no regular
/// expression matches nothing.
pub uninterp spec fn class_takes(pattern: Seq<char>, c: char) -> bool;

/// Taken on trust of the `regex` crate: compiles the pattern with
/// `Regex::new` and asks `Regex::is_match` whether it matches the string
/// made of the one character. The answer depends on the pattern and the
/// character alone; it is `false` where the pattern does not compile.
/// Nothing else is claimed of the answer. The grammars ask it of characters
/// outside ASCII only.
#[verifier::external_body]
fn class_test(pattern: &str, c: char) -> (b: bool)
    ensures
        b == class_takes(pattern@, c),
{
    let mut buf = [0u8; 4];
    match Regex::new(pattern) {
        Ok(re) => re.is_match(c.encode_utf8(&mut buf)),
        Err(_) => false,
    }
}

/// The character classes that the grammar distinguishes.
#[derive(Clone, Copy, Debug)]
pub enum CharClass {
    /// A decimal digit of any script.
    Digit,
    /// A word character of any script.
    Word,
    /// What separates choices: space, tab, carriage return or line feed.
    Space,
    /// Whitespace of any script.
    White,
    /// What may follow the first letter of a command name: `A-Z`, `0-9`, or `_`.
    NameTail,
    /// What an unquoted choice is made of: anything but `Space` and `"`.
    Bare,
    /// What a quoted choice is made of: anything but `"`.
    Unquoted,
    /// What literal text is made of: anything but `{`.
    Literal,
    /// What stands inside a bracketed span: anything but `}`.
    Inside,
}

/// One of the 128 characters of ASCII.
pub open spec fn is_ascii(c: char) -> bool {
    c <= '\x7f'
}

/// A decimal digit of ASCII, `0` to `9`.
pub open spec fn is_decimal(c: char) -> bool {
    '0' <= c <= '9'
}

/// A decimal digit: `0` to `9`, or a character outside ASCII that the
/// pattern `\d` takes.
pub open spec fn is_digit(c: char) -> bool {
    if is_ascii(c) {
        is_decimal(c)
    } else {
        class_takes("^\\d$"@, c)
    }
}

/// An upper-case letter, `A` to `Z`.
pub open spec fn is_upper(c: char) -> bool {
    'A' <= c <= 'Z'
}

/// A word character: a letter `A-Z` or `a-z`, a digit `0` to `9`, `_`, or
/// a character outside ASCII that the pattern `\w` takes.
pub open spec fn is_word(c: char) -> bool {
    if is_ascii(c) {
        is_decimal(c) || is_upper(c) || 'a' <= c <= 'z' || c == '_'
    } else {
        class_takes("^\\w$"@, c)
    }
}

/// What separates choices: space, tab, carriage return or line feed.
pub open spec fn is_space(c: char) -> bool {
    c == ' ' || c == '\t' || c == '\r' || c == '\n'
}

/// Whitespace: space, tab, line feed, vertical tab, form feed, carriage
/// return, or a character outside ASCII that the pattern `\s` takes and
/// that is no word character. The last clause keeps whitespace and word
/// characters apart whatever the two patterns take, so that a run of word
/// characters never opens with whitespace.
pub open spec fn is_white(c: char) -> bool {
    if is_ascii(c) {
        is_space(c) || c == '\x0B' || c == '\x0C'
    } else {
        class_takes("^\\s$"@, c) && !is_word(c)
    }
}

/// ASCII whitespace as the quoting rule counts it: space, tab, line feed,
/// form feed, carriage return. A choice that holds one of these is written
/// in quotes.
pub open spec fn is_ascii_space(c: char) -> bool {
    is_space(c) || c == '\x0C'
}

impl CharClass {
    /// The character is in the class.
    pub open spec fn holds(self, c: char) -> bool {
        match self {
            CharClass::Digit => is_digit(c),
            CharClass::Word => is_word(c),
            CharClass::Space => is_space(c),
            CharClass::White => is_white(c),
            CharClass::NameTail => is_upper(c) || is_decimal(c) || c == '_',
            CharClass::Bare => !is_space(c) && c != '"',
            CharClass::Unquoted => c != '"',
            CharClass::Literal => c != '{',
            CharClass::Inside => c != '}',
        }
    }

    /// Whether the character is in the class.
    pub fn test(self, c: char) -> (b: bool)
        ensures
            b == self.holds(c),
    {
        match self {
            CharClass::Digit => digit(c),
            CharClass::Word => word(c),
            CharClass::Space => space(c),
            CharClass::White => white(c),
            CharClass::NameTail => upper(c) || decimal(c) || c == '_',
            CharClass::Bare => !space(c) && c != '"',
            CharClass::Unquoted => c != '"',
            CharClass::Literal => c != '{',
            CharClass::Inside => c != '}',
        }
    }
}

/// Whether the character is a decimal digit of ASCII.
pub fn decimal(c: char) -> (b: bool)
    ensures
        b == is_decimal(c),
{
    '0' <= c && c <= '9'
}

/// Whether the character is a decimal digit.
pub fn digit(c: char) -> (b: bool)
    ensures
        b == is_digit(c),
{
    if c <= '\x7f' {
        decimal(c)
    } else {
        class_test("^\\d$", c)
    }
}

/// Whether the character is a word character.
pub fn word(c: char) -> (b: bool)
    ensures
        b == is_word(c),
{
    if c <= '\x7f' {
        decimal(c) || upper(c) || ('a' <= c && c <= 'z') || c == '_'
    } else {
        class_test("^\\w$", c)
    }
}

/// Whether the character is an upper-case letter.
pub fn upper(c: char) -> (b: bool)
    ensures
        b == is_upper(c),
{
    'A' <= c && c <= 'Z'
}

/// Whether the character separates choices.
pub fn space(c: char) -> (b: bool)
    ensures
        b == is_space(c),
{
    c == ' ' || c == '\t' || c == '\r' || c == '\n'
}

/// Whether the character is whitespace.
pub fn white(c: char) -> (b: bool)
    ensures
        b == is_white(c),
{
    if c <= '\x7f' {
        space(c) || c == '\x0B' || c == '\x0C'
    } else {
        class_test("^\\s$", c) && !word(c)
    }
}

/// Whether the character is ASCII whitespace.
pub fn ascii_space(c: char) -> (b: bool)
    ensures
        b == is_ascii_space(c),
{
    space(c) || c == '\x0C'
}

/// Every character of `s[from..to]` is in `class`.
pub open spec fn all_in(s: Seq<char>, from: int, to: int, class: CharClass) -> bool {
    forall|i: int| from <= i < to ==> class.holds(#[trigger] s[i])
}

/// One or more decimal digits.
pub open spec fn is_digit_run(d: Seq<char>) -> bool {
    d.len() > 0 && all_in(d, 0, d.len() as int, CharClass::Digit)
}

/// One or more word characters.
pub open spec fn is_word_run(t: Seq<char>) -> bool {
    t.len() > 0 && all_in(t, 0, t.len() as int, CharClass::Word)
}

/// Whitespace, or nothing.
pub open spec fn is_white_run(w: Seq<char>) -> bool {
    all_in(w, 0, w.len() as int, CharClass::White)
}

/// Separators of choices, or nothing.
pub open spec fn is_blank(w: Seq<char>) -> bool {
    all_in(w, 0, w.len() as int, CharClass::Space)
}

/// One or more separators of choices.
pub open spec fn is_gap(w: Seq<char>) -> bool {
    w.len() > 0 && is_blank(w)
}

/// A bracketed span: it opens with `{` and closes with `}`.
pub open spec fn is_span(s: Seq<char>) -> bool {
    s.len() >= 2 && s[0] == '{' && s.last() == '}'
}

/// A bracketed span that closes at its first `}`.
pub open spec fn is_unit(s: Seq<char>) -> bool {
    is_span(s) && all_in(s, 0, s.len() - 1, CharClass::Inside)
}

/// Where the longest run of `class` that starts at `from` and stays below
/// `to` ends: the first position in `from..to` whose character is outside
/// `class`, or `to` if there is none.
pub open spec fn run_end(s: Seq<char>, from: int, to: int, class: CharClass) -> int
    decreases to - from,
{
    if from < to && class.holds(s[from]) {
        run_end(s, from + 1, to, class)
    } else {
        from
    }
}

/// `run_end` is the one position that closes a run: all before it is in the
/// class, and it is the bound or a character outside the class.
pub proof fn lemma_run_end(s: Seq<char>, from: int, to: int, class: CharClass)
    requires
        from <= to,
    ensures
        from <= run_end(s, from, to, class) <= to,
        all_in(s, from, run_end(s, from, to, class), class),
        run_end(s, from, to, class) < to ==> !class.holds(s[run_end(s, from, to, class)]),
    decreases to - from,
{
    if from < to && class.holds(s[from]) {
        lemma_run_end(s, from + 1, to, class);
    }
}

/// A position that closes a run is `run_end`.
pub proof fn lemma_run_end_is(s: Seq<char>, from: int, to: int, class: CharClass, e: int)
    requires
        from <= e <= to,
        all_in(s, from, e, class),
        e < to ==> !class.holds(s[e]),
    ensures
        run_end(s, from, to, class) == e,
    decreases e - from,
{
    if from < e {
        assert(class.holds(s[from]));
        lemma_run_end_is(s, from + 1, to, class, e);
    }
}

/// Skips the longest run of `class` in `s[from..to]`.
pub fn skip(s: &[char], from: usize, to: usize, class: CharClass) -> (e: usize)
    requires
        from <= to <= s@.len(),
    ensures
        e == run_end(s@, from as int, to as int, class),
        from <= e <= to,
{
    let mut e: usize = from;
    while e < to && class.test(s[e])
        invariant
            from <= e <= to <= s@.len(),
            run_end(s@, from as int, to as int, class) == run_end(s@, e as int, to as int, class),
        decreases to - e,
    {
        e += 1;
    }
    e
}

} // verus!
