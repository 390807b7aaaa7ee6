//! Character classes, text/number conversions and small string helpers that
//! the parsers and the planner share.
//!
//! All path and name handling in this crate works on plain strings; a path is
//! its text, viewed as a `Seq<char>`.

use vstd::prelude::*;
use vstd::string::StrSliceExecFns;

verus! {

// ---------------------------------------------------------------------------
// Character classes
// ---------------------------------------------------------------------------

/// An ASCII decimal digit `0` ..= `9`.
pub open spec fn is_ascii_digit(c: char) -> bool {
    48 <= c as u32 && c as u32 <= 57
}

/// The numeric value of an ASCII digit.
pub open spec fn digit_value(c: char) -> int {
    c as u32 - 48
}

/// ASCII whitespace, the class that token splitting and the episode marker
/// grammar treat as blank space.
pub open spec fn is_space_char(c: char) -> bool {
    c == ' ' || c == '\t' || c == '\n' || c == '\r' || c == '\u{0B}' || c == '\u{0C}'
}

/// A word character: ASCII letter, digit or underscore.  Word boundaries in
/// the episode grammar are defined against this class.
pub open spec fn is_word_char(c: char) -> bool {
    is_ascii_digit(c) || (65 <= c as u32 && c as u32 <= 90) || (97 <= c as u32 && c as u32
        <= 122) || c == '_'
}

/// ASCII lower-casing of a single character; anything outside `A` ..= `Z` is
/// left unchanged.
pub open spec fn lower_char(c: char) -> char {
    if 65 <= c as u32 && c as u32 <= 90 {
        ((c as u8) + 32) as char
    } else {
        c
    }
}

pub fn ch_is_digit(c: char) -> (r: bool)
    ensures
        r == is_ascii_digit(c),
{
    (c as u32) >= 48 && (c as u32) <= 57
}

pub fn ch_is_space(c: char) -> (r: bool)
    ensures
        r == is_space_char(c),
{
    c == ' ' || c == '\t' || c == '\n' || c == '\r' || c == '\u{0B}' || c == '\u{0C}'
}

pub fn ch_is_word(c: char) -> (r: bool)
    ensures
        r == is_word_char(c),
{
    ch_is_digit(c) || ((c as u32) >= 65 && (c as u32) <= 90) || ((c as u32) >= 97 && (c as u32)
        <= 122) || c == '_'
}

pub fn ch_lower(c: char) -> (r: char)
    ensures
        r == lower_char(c),
{
    if (c as u32) >= 65 && (c as u32) <= 90 {
        ((c as u8) + 32) as char
    } else {
        c
    }
}

// ---------------------------------------------------------------------------
// Strings as character vectors
// ---------------------------------------------------------------------------

/// Collects the characters of a string slice into a vector with the same view.
pub fn to_chars(s: &str) -> (v: Vec<char>)
    ensures
        v@ == s@,
{
    let n = s.unicode_len();
    let mut v: Vec<char> = Vec::new();
    let mut i: usize = 0;
    while i < n
        invariant
            i <= n,
            n == s@.len(),
            v@ == s@.subrange(0, i as int),
        decreases n - i,
    {
        v.push(s.get_char(i));
        proof {
            assert(v@ =~= s@.subrange(0, i + 1 as int));
        }
        i = i + 1;
    }
    proof {
        assert(v@ =~= s@);
    }
    v
}

/// Relies on `String::push` from std: appends one character to the string.
#[verifier::external_body]
pub(crate) fn push_char(s: &mut String, c: char)
    ensures
        final(s)@ == old(s)@.push(c),
{
    s.push(c)
}

/// Collects a character vector back into a string with the same view.
pub fn chars_to_string(v: &Vec<char>) -> (s: String)
    ensures
        s@ == v@,
{
    let n = v.len();
    let mut s = String::new();
    let mut i: usize = 0;
    while i < n
        invariant
            i <= n,
            n == v@.len(),
            s@ == v@.subrange(0, i as int),
        decreases n - i,
    {
        push_char(&mut s, v[i]);
        proof {
            assert(s@ =~= v@.subrange(0, i + 1 as int));
        }
        i = i + 1;
    }
    proof {
        assert(s@ =~= v@);
    }
    s
}

/// Tests whether a character vector spells exactly the given string.
pub fn chars_eq_str(v: &Vec<char>, s: &str) -> (r: bool)
    ensures
        r == (v@ == s@),
{
    let n = s.unicode_len();
    if v.len() != n {
        proof {
            assert(v@ != s@);
        }
        return false;
    }
    let mut i: usize = 0;
    while i < n
        invariant
            i <= n,
            n == s@.len(),
            v@.len() == n,
            forall|j: int| 0 <= j < i ==> v@[j] == s@[j],
        decreases n - i,
    {
        if v[i] != s.get_char(i) {
            return false;
        }
        i = i + 1;
    }
    proof {
        assert(v@ =~= s@);
    }
    true
}

/// Tests two string slices for equality of their text.
pub fn str_eq(a: &str, b: &str) -> (r: bool)
    ensures
        r == (a@ == b@),
{
    let n = a.unicode_len();
    let m = b.unicode_len();
    if n != m {
        proof {
            assert(a@ != b@);
        }
        return false;
    }
    let mut i: usize = 0;
    while i < n
        invariant
            i <= n,
            n == a@.len(),
            n == b@.len(),
            forall|j: int| 0 <= j < i ==> a@[j] == b@[j],
        decreases n - i,
    {
        if a.get_char(i) != b.get_char(i) {
            return false;
        }
        i = i + 1;
    }
    proof {
        assert(a@ =~= b@);
    }
    true
}

// ---------------------------------------------------------------------------
// Decimal numbers
// ---------------------------------------------------------------------------

/// The digit character for a value in `0` ..= `9`.
pub open spec fn decimal_digit(d: int) -> char {
    if d == 0 {
        '0'
    } else if d == 1 {
        '1'
    } else if d == 2 {
        '2'
    } else if d == 3 {
        '3'
    } else if d == 4 {
        '4'
    } else if d == 5 {
        '5'
    } else if d == 6 {
        '6'
    } else if d == 7 {
        '7'
    } else if d == 8 {
        '8'
    } else {
        '9'
    }
}

/// The decimal digit string of `n`, empty when `n <= 0`.
pub open spec fn decimal_seq(n: int) -> Seq<char>
    decreases n,
{
    if n <= 0 {
        Seq::empty()
    } else {
        decimal_seq(n / 10).push(decimal_digit(n % 10))
    }
}

/// `n` rendered in decimal, with `0` rendered as `"0"`.
pub open spec fn decimal_str(n: int) -> Seq<char> {
    if n == 0 {
        seq!['0']
    } else {
        decimal_seq(n)
    }
}

/// `n` rendered in decimal and zero-padded on the left to width two, the
/// season/episode number format.  Numbers of three or more digits keep all
/// their digits.
pub open spec fn padded2(n: int) -> Seq<char> {
    if n < 10 {
        seq!['0', decimal_digit(n)]
    } else {
        decimal_seq(n)
    }
}

fn exec_decimal_digit(d: i32) -> (c: char)
    requires
        0 <= d < 10,
    ensures
        c == decimal_digit(d as int),
{
    if d == 0 {
        '0'
    } else if d == 1 {
        '1'
    } else if d == 2 {
        '2'
    } else if d == 3 {
        '3'
    } else if d == 4 {
        '4'
    } else if d == 5 {
        '5'
    } else if d == 6 {
        '6'
    } else if d == 7 {
        '7'
    } else if d == 8 {
        '8'
    } else {
        '9'
    }
}

/// Appends the decimal digits of a positive number.
pub fn push_decimal(out: &mut String, n: i32)
    requires
        n >= 1,
    ensures
        final(out)@ == old(out)@ + decimal_seq(n as int),
    decreases n,
{
    if n >= 10 {
        push_decimal(out, n / 10);
    }
    let d = exec_decimal_digit(n % 10);
    push_char(out, d);
    proof {
        if n < 10 {
            reveal_with_fuel(decimal_seq, 2);
            assert(decimal_seq(n as int) =~= Seq::empty().push(decimal_digit(n as int)));
            assert(old(out)@ + decimal_seq(n as int) =~= old(out)@.push(decimal_digit(n as int)));
        } else {
            assert(old(out)@ + decimal_seq(n as int) =~= (old(out)@ + decimal_seq(
                n as int / 10,
            )).push(decimal_digit(n as int % 10)));
        }
    }
}

/// Appends `n` in decimal, rendering `0` as `"0"`.
pub fn push_number(out: &mut String, n: i32)
    requires
        n >= 0,
    ensures
        final(out)@ == old(out)@ + decimal_str(n as int),
{
    if n == 0 {
        push_char(out, '0');
        proof {
            assert(old(out)@ + decimal_str(0) =~= old(out)@.push('0'));
        }
    } else {
        push_decimal(out, n);
    }
}

/// Appends `n` zero-padded to two digits, the season/episode number format.
pub fn push_padded2(out: &mut String, n: i32)
    requires
        n >= 0,
    ensures
        final(out)@ == old(out)@ + padded2(n as int),
{
    if n < 10 {
        push_char(out, '0');
        let d = exec_decimal_digit(n);
        push_char(out, d);
        proof {
            assert(old(out)@ + padded2(n as int) =~= old(out)@.push('0').push(
                decimal_digit(n as int),
            ));
        }
    } else {
        push_decimal(out, n);
    }
}

/// Every character of `s` is an ASCII digit.
pub open spec fn all_ascii_digits(s: Seq<char>) -> bool {
    forall|j: int| 0 <= j < s.len() ==> is_ascii_digit(#[trigger] s[j])
}

/// Appends the decimal digits of a positive count.
pub fn push_decimal_usize(out: &mut String, n: usize)
    requires
        n >= 1,
    ensures
        final(out)@ == old(out)@ + decimal_seq(n as int),
    decreases n,
{
    if n >= 10 {
        push_decimal_usize(out, n / 10);
    }
    let d = exec_decimal_digit((n % 10) as i32);
    push_char(out, d);
    proof {
        if n < 10 {
            reveal_with_fuel(decimal_seq, 2);
            assert(decimal_seq(n as int) =~= Seq::empty().push(decimal_digit(n as int)));
            assert(old(out)@ + decimal_seq(n as int) =~= old(out)@.push(decimal_digit(n as int)));
        } else {
            assert(old(out)@ + decimal_seq(n as int) =~= (old(out)@ + decimal_seq(
                n as int / 10,
            )).push(decimal_digit(n as int % 10)));
        }
    }
}

/// Appends a count in decimal, rendering `0` as `"0"`.
pub fn push_count(out: &mut String, n: usize)
    ensures
        final(out)@ == old(out)@ + decimal_str(n as int),
{
    if n == 0 {
        push_char(out, '0');
        proof {
            assert(old(out)@ + decimal_str(0) =~= old(out)@.push('0'));
        }
    } else {
        push_decimal_usize(out, n);
    }
}

/// The numeric value of the digit run `s[from .. to]`, most significant digit
/// first.
pub open spec fn digits_value(s: Seq<char>, from: int, to: int) -> int
    decreases to - from,
{
    if from >= to {
        0
    } else {
        digits_value(s, from, to - 1) * 10 + digit_value(s[to - 1])
    }
}

} // verus!
