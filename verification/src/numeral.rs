//! Numerals: which texts denote a 64-bit signed integer, and with what value,
//! and which texts are well-formed floating-point literals.

use vstd::prelude::*;
use crate::chars::{digit, is_digit};

verus! {

/// Whether every character of `s` is a decimal digit.
pub open spec fn all_digits(s: Seq<char>) -> bool {
    forall|i: int| 0 <= i < s.len() ==> digit(#[trigger] s[i])
}

/// The number that the decimal digits `s` denote; zero for the empty text.
pub open spec fn digits_value(s: Seq<char>) -> int
    decreases s.len(),
{
    if s.len() == 0 {
        0
    } else {
        10 * digits_value(s.drop_last()) + (s.last() as int - '0' as int)
    }
}

/// Where the unsigned part of `s` begins: behind a leading `+` or `-`.
pub open spec fn sign_len(s: Seq<char>) -> int {
    if s.len() > 0 && (s[0] == '+' || s[0] == '-') {
        1
    } else {
        0
    }
}

/// An integer literal is an optional sign followed by one or more digits.
pub open spec fn integer_literal(s: Seq<char>) -> bool {
    sign_len(s) < s.len() && all_digits(s.skip(sign_len(s)))
}

/// The value of an integer literal.
pub open spec fn integer_value(s: Seq<char>) -> int {
    if s.len() > 0 && s[0] == '-' {
        -digits_value(s.skip(1))
    } else {
        digits_value(s.skip(sign_len(s)))
    }
}

/// The 64-bit signed integer that `s` denotes: `s` is an integer literal
/// whose value fits.
pub open spec fn i64_of(s: Seq<char>) -> Option<i64> {
    if integer_literal(s) && i64::MIN <= integer_value(s) <= i64::MAX {
        Some(integer_value(s) as i64)
    } else {
        None
    }
}

/// The end of the run of digits of `s` that begins at `from`.
pub open spec fn digits_end(s: Seq<char>, from: int) -> int
    decreases s.len() - from,
{
    if 0 <= from < s.len() && digit(s[from]) {
        digits_end(s, from + 1)
    } else {
        from
    }
}

/// Whether `c` is the lower-case letter `l` or its upper-case form.
pub open spec fn letter(c: char, l: char) -> bool {
    c == l || c as u32 + 32 == l as u32
}

/// Whether `s[from..]` spells the lower-case word `w`, in any mix of cases.
pub open spec fn spells(s: Seq<char>, from: int, w: Seq<char>) -> bool {
    &&& s.len() - from == w.len()
    &&& forall|i: int| 0 <= i < w.len() ==> letter(#[trigger] s[from + i], w[i])
}

/// `inf`, `infinity` or `nan`, in any mix of cases.
pub open spec fn special_float(s: Seq<char>, from: int) -> bool {
    ||| spells(s, from, seq!['i', 'n', 'f'])
    ||| spells(s, from, seq!['i', 'n', 'f', 'i', 'n', 'i', 't', 'y'])
    ||| spells(s, from, seq!['n', 'a', 'n'])
}

/// An exponent at `at`: `e` or `E`, an optional sign, one or more digits, and
/// then the end of the text.
pub open spec fn exponent(s: Seq<char>, at: int) -> bool {
    let digits = if at + 1 < s.len() && (s[at + 1] == '+' || s[at + 1] == '-') {
        at + 2
    } else {
        at + 1
    };
    &&& 0 <= at < s.len()
    &&& (s[at] == 'e' || s[at] == 'E')
    &&& digits < s.len()
    &&& digits_end(s, digits) == s.len()
}

/// A decimal number from `from` on: digits with at most one point among them,
/// at least one digit in all, and optionally an exponent.
pub open spec fn decimal_number(s: Seq<char>, from: int) -> bool {
    let whole_end = digits_end(s, from);
    let point = whole_end < s.len() && s[whole_end] == '.';
    let mantissa_end = if point {
        digits_end(s, whole_end + 1)
    } else {
        whole_end
    };
    let mantissa_digits = if point {
        mantissa_end - from - 1
    } else {
        mantissa_end - from
    };
    &&& mantissa_digits > 0
    &&& (mantissa_end == s.len() || exponent(s, mantissa_end))
}

/// A floating-point literal is an optional sign followed by a decimal number
/// or by one of the words `inf`, `infinity`, `nan`.
pub open spec fn float_literal(s: Seq<char>) -> bool {
    special_float(s, sign_len(s)) || decimal_number(s, sign_len(s))
}

/// A longer run of digits denotes no smaller a number than its beginning.
proof fn lemma_digits_value_grows(s: Seq<char>, k: int)
    requires
        all_digits(s),
        0 <= k <= s.len(),
    ensures
        0 <= digits_value(s.take(k)) <= digits_value(s),
    decreases s.len(),
{
    if s.len() == 0 {
        assert(s.take(k) =~= s);
    } else if k == s.len() {
        assert(s.take(k) =~= s);
        lemma_digits_value_grows(s.drop_last(), k - 1);
        assert(digit(s[s.len() - 1]));
    } else {
        lemma_digits_value_grows(s.drop_last(), k);
        assert(s.drop_last().take(k) =~= s.take(k));
        assert(digit(s[s.len() - 1]));
    }
}

/// The 64-bit signed integer that `chars` denotes, if it denotes one.
pub fn parse_i64(chars: &[char]) -> (r: Option<i64>)
    ensures
        r == i64_of(chars@),
{
    let n: usize = chars.len();
    let start: usize = if n > 0 && (chars[0] == '+' || chars[0] == '-') {
        1
    } else {
        0
    };
    let negative: bool = n > 0 && chars[0] == '-';
    if start >= n {
        return None;
    }
    let ghost body = chars@.skip(start as int);
    let limit: u128 = 0x8000_0000_0000_0000;
    let mut magnitude: u128 = 0;
    let mut i: usize = start;
    while i < n
        invariant
            start <= i <= n == chars.len(),
            start == sign_len(chars@),
            body == chars@.skip(start as int),
            all_digits(body.take(i - start)),
            magnitude == digits_value(body.take(i - start)),
            magnitude <= limit,
            limit == 0x8000_0000_0000_0000,
        decreases n - i,
    {
        let c: char = chars[i];
        if !is_digit(c) {
            assert(!digit(body[i - start]));
            return None;
        }
        proof {
            assert(body.take(i - start + 1).drop_last() =~= body.take(i - start));
            assert(body.take(i - start + 1).last() == c);
        }
        magnitude = magnitude * 10 + (c as u128 - '0' as u128);
        if magnitude > limit {
            proof {
                if all_digits(body) {
                    lemma_digits_value_grows(body, i - start + 1);
                }
            }
            return None;
        }
        i += 1;
    }
    assert(body.take(n - start) =~= body);
    if negative {
        if magnitude == limit {
            Some(i64::MIN)
        } else {
            Some(-(magnitude as i64))
        }
    } else if magnitude == limit {
        None
    } else {
        Some(magnitude as i64)
    }
}

/// The end of the run of digits of `chars` that begins at `from`.
fn scan_digits(chars: &[char], from: usize) -> (end: usize)
    requires
        from <= chars.len(),
    ensures
        end == digits_end(chars@, from as int),
        from <= end <= chars.len(),
{
    let mut i: usize = from;
    while i < chars.len() && is_digit(chars[i])
        invariant
            from <= i <= chars.len(),
            digits_end(chars@, i as int) == digits_end(chars@, from as int),
        decreases chars.len() - i,
    {
        i += 1;
    }
    i
}

/// Whether `c` is the lower-case letter `l` or its upper-case form.
fn is_letter(c: char, l: char) -> (b: bool)
    ensures
        b == letter(c, l),
{
    c == l || (c as u32 <= 0x10FFFF && c as u32 + 32 == l as u32)
}

/// Whether `chars[from..]` is `inf`, `infinity` or `nan`, in any mix of cases.
fn is_special_float(chars: &[char], from: usize) -> (b: bool)
    requires
        from <= chars.len(),
    ensures
        b == special_float(chars@, from as int),
{
    let n: usize = chars.len() - from;
    if n == 3 {
        let inf: bool = is_letter(chars[from], 'i') && is_letter(chars[from + 1], 'n') && is_letter(
            chars[from + 2],
            'f',
        );
        let nan: bool = is_letter(chars[from], 'n') && is_letter(chars[from + 1], 'a') && is_letter(
            chars[from + 2],
            'n',
        );
        proof {
            let s = chars@;
            let f = from as int;
            assert(spells(s, f, seq!['i', 'n', 'f']) ==> letter(s[f + 0], 'i') && letter(
                s[f + 1],
                'n',
            ) && letter(s[f + 2], 'f'));
            assert(spells(s, f, seq!['n', 'a', 'n']) ==> letter(s[f + 0], 'n') && letter(
                s[f + 1],
                'a',
            ) && letter(s[f + 2], 'n'));
        }
        inf || nan
    } else if n == 8 {
        let b: bool = is_letter(chars[from], 'i') && is_letter(chars[from + 1], 'n') && is_letter(
            chars[from + 2],
            'f',
        ) && is_letter(chars[from + 3], 'i') && is_letter(chars[from + 4], 'n') && is_letter(
            chars[from + 5],
            'i',
        ) && is_letter(chars[from + 6], 't') && is_letter(chars[from + 7], 'y');
        proof {
            let s = chars@;
            let f = from as int;
            let w = seq!['i', 'n', 'f', 'i', 'n', 'i', 't', 'y'];
            assert(spells(s, f, w) ==> letter(s[f + 0], w[0]) && letter(s[f + 1], w[1]) && letter(
                s[f + 2],
                w[2],
            ) && letter(s[f + 3], w[3]) && letter(s[f + 4], w[4]) && letter(s[f + 5], w[5])
                && letter(s[f + 6], w[6]) && letter(s[f + 7], w[7]));
        }
        b
    } else {
        false
    }
}

/// Whether an exponent stands at `at` and reaches to the end.
fn is_exponent(chars: &[char], at: usize) -> (b: bool)
    requires
        at < chars.len(),
    ensures
        b == exponent(chars@, at as int),
{
    let n: usize = chars.len();
    if chars[at] != 'e' && chars[at] != 'E' {
        return false;
    }
    let digits: usize = if at + 1 < n && (chars[at + 1] == '+' || chars[at + 1] == '-') {
        at + 2
    } else {
        at + 1
    };
    if digits >= n {
        return false;
    }
    scan_digits(chars, digits) == n
}

/// Whether `chars[from..]` is a decimal number.
fn is_decimal_number(chars: &[char], from: usize) -> (b: bool)
    requires
        from <= chars.len(),
    ensures
        b == decimal_number(chars@, from as int),
{
    let n: usize = chars.len();
    let whole_end: usize = scan_digits(chars, from);
    let point: bool = whole_end < n && chars[whole_end] == '.';
    let mantissa_end: usize = if point {
        scan_digits(chars, whole_end + 1)
    } else {
        whole_end
    };
    let mantissa_digits: usize = if point {
        mantissa_end - from - 1
    } else {
        mantissa_end - from
    };
    if mantissa_digits == 0 {
        return false;
    }
    mantissa_end == n || is_exponent(chars, mantissa_end)
}

/// Whether `chars` is a well-formed floating-point literal.
pub fn is_float_literal(chars: &[char]) -> (b: bool)
    ensures
        b == float_literal(chars@),
{
    let n: usize = chars.len();
    let start: usize = if n > 0 && (chars[0] == '+' || chars[0] == '-') {
        1
    } else {
        0
    };
    is_special_float(chars, start) || is_decimal_number(chars, start)
}

} // verus!
