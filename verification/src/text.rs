//! Strings as sequences of characters, and decimal numbers in them.

use vstd::prelude::*;
use crate::chars::{decimal, is_decimal, is_digit_run};

verus! {

/// Taken on trust of the standard library: `String::push` appends the given
/// character to the end of the string and changes nothing else of it.
pub assume_specification[ String::push ](s: &mut String, c: char)
    ensures
        final(s)@ == old(s)@.push(c),
;

/// The characters of `s`, in order.
pub fn chars_of(s: &str) -> (v: Vec<char>)
    ensures
        v@ == s@,
{
    let mut v: Vec<char> = Vec::new();
    for c in it: s.chars()
        invariant
            it.seq() == s@,
            v@ == s@.take(it.index() as int),
    {
        v.push(c);
    }
    v
}

/// Appends the characters `t[from..to]` to `s`.
pub fn push_range(s: &mut String, t: &[char], from: usize, to: usize)
    requires
        from <= to <= t@.len(),
    ensures
        final(s)@ == old(s)@ + t@.subrange(from as int, to as int),
{
    let mut i: usize = from;
    while i < to
        invariant
            from <= i <= to <= t@.len(),
            s@ == old(s)@ + t@.subrange(from as int, i as int),
        decreases to - i,
    {
        s.push(t[i]);
        i += 1;
        assert(s@ =~= old(s)@ + t@.subrange(from as int, i as int));
    }
}

/// The string made of the characters `s[from..to]`.
pub fn string_of(s: &[char], from: usize, to: usize) -> (r: String)
    requires
        from <= to <= s@.len(),
    ensures
        r@ == s@.subrange(from as int, to as int),
{
    let mut r = String::new();
    push_range(&mut r, s, from, to);
    r
}

/// Appends the characters of `t` to `s`.
pub fn push_chars(s: &mut String, t: &str)
    ensures
        final(s)@ == old(s)@ + t@,
{
    for c in it: t.chars()
        invariant
            it.seq() == t@,
            s@ == old(s)@ + t@.take(it.index() as int),
    {
        s.push(c);
    }
}

/// What a decimal digit of ASCII counts for.
pub open spec fn digit_value(c: char) -> nat
    recommends
        is_decimal(c),
{
    (c as int - '0' as int) as nat
}

/// Every character is a decimal digit of ASCII.
pub open spec fn all_decimal(d: Seq<char>) -> bool {
    forall|i: int| 0 <= i < d.len() ==> is_decimal(#[trigger] d[i])
}

/// The number that a run of decimal digits of ASCII writes, most
/// significant digit first. Leading zeros count for nothing; the empty run
/// writes 0.
pub open spec fn decimal_value(d: Seq<char>) -> nat
    decreases d.len(),
{
    if d.len() == 0 {
        0
    } else {
        decimal_value(d.drop_last()) * 10 + digit_value(d.last())
    }
}

/// The number that a run of digits stands for as an index: its value where
/// all of them are digits of ASCII and the value fits the machine's `usize`,
/// and nothing where a digit of another script is among them or the value
/// does not fit.
pub open spec fn index_value(d: Seq<char>) -> Option<nat> {
    if all_decimal(d) && decimal_value(d) <= usize::MAX {
        Some(decimal_value(d))
    } else {
        None
    }
}

/// The decimal digit for `d`.
pub open spec fn digit_char(d: nat) -> char
    recommends
        d < 10,
{
    ((d + 48) as u8) as char
}

/// `n` in decimal, without leading zeros.
pub open spec fn decimal_digits(n: nat) -> Seq<char>
    decreases n,
{
    if n < 10 {
        seq![digit_char(n)]
    } else {
        decimal_digits(n / 10).push(digit_char(n % 10))
    }
}

/// A longer run of digits writes no smaller number than its prefixes.
pub proof fn lemma_decimal_value_grows(d: Seq<char>, k: int)
    requires
        0 <= k <= d.len(),
    ensures
        decimal_value(d.take(k)) <= decimal_value(d),
    decreases d.len() - k,
{
    if k < d.len() {
        lemma_decimal_value_grows(d.drop_last(), k);
        assert(d.drop_last().take(k) =~= d.take(k));
    } else {
        assert(d.take(k) =~= d);
    }
}

/// Reads the digits `s[from..to]` as an index.
pub fn read_index(s: &[char], from: usize, to: usize) -> (r: Option<usize>)
    requires
        from <= to <= s@.len(),
    ensures
        match r {
            Some(n) => index_value(s@.subrange(from as int, to as int)) == Some(n as nat),
            None => index_value(s@.subrange(from as int, to as int)) is None,
        },
{
    let ghost d = s@.subrange(from as int, to as int);
    let mut n: usize = 0;
    let mut i: usize = from;
    while i < to
        invariant
            from <= i <= to <= s@.len(),
            d == s@.subrange(from as int, to as int),
            all_decimal(d.take(i - from)),
            n == decimal_value(d.take(i - from)),
        decreases to - i,
    {
        let c = s[i];
        assert(d[i - from] == c);
        if !decimal(c) {
            return None;
        }
        let v: usize = (c as u32 - '0' as u32) as usize;
        proof {
            assert(d.take(i + 1 - from).drop_last() =~= d.take(i - from));
            assert(d.take(i + 1 - from).last() == c);
            lemma_decimal_value_grows(d, i + 1 - from);
            assert forall|k: int| 0 <= k < i + 1 - from implies is_decimal(
                #[trigger] d.take(i + 1 - from)[k],
            ) by {
                if k < i - from {
                    assert(d.take(i - from)[k] == d.take(i + 1 - from)[k]);
                }
            }
        }
        match n.checked_mul(10) {
            None => {
                return None;
            },
            Some(m) => match m.checked_add(v) {
                None => {
                    return None;
                },
                Some(k) => {
                    n = k;
                },
            },
        }
        i += 1;
    }
    assert(d.take(to - from) =~= d);
    Some(n)
}

/// Appends `n` in decimal to `s`.
pub fn push_decimal(s: &mut String, n: usize)
    ensures
        final(s)@ == old(s)@ + decimal_digits(n as nat),
    decreases n,
{
    if n >= 10 {
        push_decimal(s, n / 10);
    }
    let d: u8 = (n % 10) as u8;
    s.push((d + 48) as char);
    assert(final(s)@ =~= old(s)@ + decimal_digits(n as nat));
}

/// The decimal form of a number is one or more digits of ASCII that write
/// that number, and is read as that number where it fits an index.
pub proof fn lemma_decimal_digits(n: nat)
    ensures
        is_digit_run(decimal_digits(n)),
        all_decimal(decimal_digits(n)),
        decimal_value(decimal_digits(n)) == n,
        n <= usize::MAX ==> index_value(decimal_digits(n)) == Some(n),
    decreases n,
{
    let d = decimal_digits(n);
    if n < 10 {
        assert(d.drop_last() =~= Seq::<char>::empty());
        assert(decimal_value(d.drop_last()) == 0);
        assert(is_decimal(digit_char(n)));
        assert(digit_value(digit_char(n)) == n);
    } else {
        lemma_decimal_digits(n / 10);
        assert(d.drop_last() =~= decimal_digits(n / 10));
        assert(is_decimal(digit_char(n % 10)));
        assert(digit_value(digit_char(n % 10)) == n % 10);
        assert forall|i: int| 0 <= i < d.len() implies is_decimal(#[trigger] d[i]) by {
            if i < d.len() - 1 {
                assert(d[i] == decimal_digits(n / 10)[i]);
            }
        }
    }
}

} // verus!
