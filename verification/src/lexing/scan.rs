//! Finding where a run of bytes ends.

use crate::lexing::chars::{
    continuation_end, digit_value, digits_end, digits_value, is_digit_of,
    is_symbol_part, line_end, symbol_end, whitespace_end, whitespace_len,
};
use vstd::prelude::*;

verus! {

/// Where the comment that was opened with `/*` closes: the place of the `*`
/// of the first `*/` at or behind `i`, or the end of the text if there is
/// none.
pub open spec fn comment_close(s: Seq<u8>, i: int) -> int
    decreases s.len() - i,
{
    if 0 <= i && i + 1 < s.len() {
        if s[i] == 0x2a && s[i + 1] == 0x2f {
            i
        } else {
            comment_close(s, i + 1)
        }
    } else {
        s.len() as int
    }
}

/// Where the quoted text that goes on at `i` closes: the place of the first
/// `"` that no backslash stands before, or the end of the text if there is
/// none. A backslash takes the byte behind it along.
pub open spec fn quote_close(s: Seq<u8>, i: int) -> int
    decreases s.len() - i,
{
    if !(0 <= i < s.len()) {
        s.len() as int
    } else if s[i] == 0x22 {
        i
    } else if s[i] == 0x5c {
        if i + 1 < s.len() {
            quote_close(s, i + 2)
        } else {
            s.len() as int
        }
    } else {
        quote_close(s, i + 1)
    }
}

/// Whether the byte at `i` is a sign.
pub open spec fn is_sign_at(s: Seq<u8>, i: int) -> bool {
    0 <= i < s.len() && (s[i] == 0x2b || s[i] == 0x2d)
}

/// Whether the byte at `i` is `e` or `E`.
pub open spec fn is_exponent_mark_at(s: Seq<u8>, i: int) -> bool {
    0 <= i < s.len() && (s[i] == 0x65 || s[i] == 0x45)
}

/// Behind a sign, if there is one at `i`.
pub open spec fn past_sign(s: Seq<u8>, i: int) -> int {
    if is_sign_at(s, i) {
        i + 1
    } else {
        i
    }
}

/// Where the digits before the point of the floating-point number that
/// starts at `i` end. The number may start with a sign.
pub open spec fn float_whole_end(s: Seq<u8>, i: int) -> int {
    digits_end(s, past_sign(s, i), 10)
}

/// Where the fraction ends that may follow at `i`: a point and at least one
/// digit. `i` if there is no fraction.
pub open spec fn float_fraction_end(s: Seq<u8>, i: int) -> int {
    if 0 <= i < s.len() && s[i] == 0x2e && digits_end(s, i + 1, 10) > i + 1 {
        digits_end(s, i + 1, 10)
    } else {
        i
    }
}

/// Where the exponent ends that may follow at `i`: `e`, a sign or none, and
/// at least one digit. `i` if there is no exponent.
pub open spec fn float_exponent_end(s: Seq<u8>, i: int) -> int {
    if is_exponent_mark_at(s, i) && digits_end(s, past_sign(s, i + 1), 10) > past_sign(s, i + 1) {
        digits_end(s, past_sign(s, i + 1), 10)
    } else {
        i
    }
}

/// Whether a floating-point number starts at `i`: a sign or none, and at
/// least one digit.
pub open spec fn is_float_at(s: Seq<u8>, i: int) -> bool {
    float_whole_end(s, i) > past_sign(s, i)
}

/// Where the floating-point number that starts at `i` ends: behind its
/// digits, its fraction if it has one, and its exponent if it has one.
pub open spec fn float_end(s: Seq<u8>, i: int) -> int {
    float_exponent_end(s, float_fraction_end(s, float_whole_end(s, i)))
}

/// A run of digits ends within the text, at or behind its start, and all of
/// it are digits.
pub proof fn lemma_digits_end(s: Seq<u8>, i: int, radix: int)
    requires
        0 <= i <= s.len(),
    ensures
        i <= digits_end(s, i, radix) <= s.len(),
        forall|j: int| i <= j < digits_end(s, i, radix) ==> is_digit_of(#[trigger] s[j], radix),
    decreases s.len() - i,
{
    if i < s.len() && is_digit_of(s[i], radix) {
        lemma_digits_end(s, i + 1, radix);
    }
}

/// A number does not get smaller as digits are added to it.
pub proof fn lemma_digits_value_grows(s: Seq<u8>, from: int, mid: int, to: int, radix: int)
    requires
        from <= mid <= to,
        radix >= 1,
    ensures
        0 <= digits_value(s, from, mid, radix) <= digits_value(s, from, to, radix),
    decreases to - mid,
{
    if mid < to {
        lemma_digits_value_grows(s, from, mid, to - 1, radix);
        let v = digits_value(s, from, to - 1, radix);
        assert(v * radix >= v) by (nonlinear_arith)
            requires
                v >= 0,
                radix >= 1,
        ;
    } else {
        lemma_digits_value_nonnegative(s, from, to, radix);
    }
}

/// No number is negative.
pub proof fn lemma_digits_value_nonnegative(s: Seq<u8>, from: int, to: int, radix: int)
    requires
        radix >= 1,
    ensures
        0 <= digits_value(s, from, to, radix),
    decreases to - from,
{
    if from < to {
        lemma_digits_value_nonnegative(s, from, to - 1, radix);
        let v = digits_value(s, from, to - 1, radix);
        assert(v * radix >= 0) by (nonlinear_arith)
            requires
                v >= 0,
                radix >= 1,
        ;
    }
}

/// The value of a digit in the given base, or 36 if the byte is none.
pub fn value_of_digit(b: u8) -> (value: u8)
    ensures
        value <= 36,
        forall|radix: int| value < radix ==> #[trigger] digit_value(b, radix) == Some(value as int),
        forall|radix: int| value >= radix ==> (#[trigger] digit_value(b, radix)) is None,
{
    if 0x30 <= b && b <= 0x39 {
        b - 0x30
    } else if 0x61 <= b && b <= 0x7a {
        b - 0x61 + 10
    } else if 0x41 <= b && b <= 0x5a {
        b - 0x41 + 10
    } else {
        36
    }
}

/// Where the digits of base `radix` that start at `i` end.
pub fn scan_digits(bytes: &[u8], i: usize, radix: u8) -> (end: usize)
    requires
        i <= bytes@.len(),
    ensures
        end == digits_end(bytes@, i as int, radix as int),
        i <= end <= bytes@.len(),
{
    let n: usize = bytes.len();
    let mut j: usize = i;
    while j < n && value_of_digit(bytes[j]) < radix
        invariant
            n == bytes@.len(),
            i <= j <= n,
            digits_end(bytes@, i as int, radix as int) == digits_end(bytes@, j as int, radix as int),
        decreases n - j,
    {
        j += 1;
    }
    j
}

/// The number that the digits `from..to` spell in base `radix`, if it is no
/// larger than the largest `i64`.
pub fn parse_digits(bytes: &[u8], from: usize, to: usize, radix: u8) -> (value: Option<i64>)
    requires
        from <= to <= bytes@.len(),
        2 <= radix <= 36,
        forall|j: int| from <= j < to ==> is_digit_of(#[trigger] bytes@[j], radix as int),
    ensures
        match value {
            Some(v) => v == digits_value(bytes@, from as int, to as int, radix as int),
            None => digits_value(bytes@, from as int, to as int, radix as int) > i64::MAX,
        },
{
    let mut value: u64 = 0;
    let mut j: usize = from;
    while j < to
        invariant
            from <= j <= to <= bytes@.len(),
            2 <= radix <= 36,
            forall|x: int| from <= x < to ==> is_digit_of(#[trigger] bytes@[x], radix as int),
            value == digits_value(bytes@, from as int, j as int, radix as int),
            value <= i64::MAX,
        decreases to - j,
    {
        let digit: u8 = value_of_digit(bytes[j]);
        proof {
            assert(is_digit_of(bytes@[j as int], radix as int));
        }
        assert(value * radix <= 0x7fff_ffff_ffff_ffff * 36) by (nonlinear_arith)
            requires
                value <= 0x7fff_ffff_ffff_ffff,
                radix <= 36,
        ;
        let next: u128 = (value as u128) * (radix as u128) + (digit as u128);
        if next > 0x7fff_ffff_ffff_ffff {
            proof {
                lemma_digits_value_grows(bytes@, from as int, j + 1, to as int, radix as int);
            }
            return None;
        }
        value = next as u64;
        j += 1;
    }
    Some(value as i64)
}

/// Where the bytes of a symbol that start at `i` end.
pub fn scan_symbol(bytes: &[u8], i: usize) -> (end: usize)
    requires
        i <= bytes@.len(),
    ensures
        end == symbol_end(bytes@, i as int),
        i <= end <= bytes@.len(),
        forall|j: int| i <= j < end ==> (#[trigger] bytes@[j]) < 0x80,
{
    let n: usize = bytes.len();
    let mut j: usize = i;
    while j < n && is_symbol_byte(bytes[j])
        invariant
            n == bytes@.len(),
            i <= j <= n,
            symbol_end(bytes@, i as int) == symbol_end(bytes@, j as int),
            forall|x: int| i <= x < j ==> (#[trigger] bytes@[x]) < 0x80,
        decreases n - j,
    {
        j += 1;
    }
    j
}

/// Whether a symbol may hold the byte.
pub fn is_symbol_byte(b: u8) -> (yes: bool)
    ensures
        yes == is_symbol_part(b),
{
    (0x61 <= b && b <= 0x7a) || (0x41 <= b && b <= 0x5a) || b == 0x5f || b == 0x2e || b == 0x24
        || (0x30 <= b && b <= 0x39)
}

/// Where the line that holds byte `i` ends.
pub fn scan_line(bytes: &[u8], i: usize) -> (end: usize)
    requires
        i <= bytes@.len(),
    ensures
        end == line_end(bytes@, i as int),
        i <= end <= bytes@.len(),
        end < bytes@.len() ==> bytes@[end as int] == 0x0a,
{
    let n: usize = bytes.len();
    let mut j: usize = i;
    while j < n && bytes[j] != 0x0a
        invariant
            n == bytes@.len(),
            i <= j <= n,
            line_end(bytes@, i as int) == line_end(bytes@, j as int),
        decreases n - j,
    {
        j += 1;
    }
    j
}

/// Where the continuation bytes that start at `i` end.
pub fn scan_continuation(bytes: &[u8], i: usize) -> (end: usize)
    requires
        i <= bytes@.len(),
    ensures
        end == continuation_end(bytes@, i as int),
        i <= end <= bytes@.len(),
{
    let n: usize = bytes.len();
    let mut j: usize = i;
    while j < n && 0x80 <= bytes[j] && bytes[j] <= 0xbf
        invariant
            n == bytes@.len(),
            i <= j <= n,
            continuation_end(bytes@, i as int) == continuation_end(bytes@, j as int),
        decreases n - j,
    {
        j += 1;
    }
    j
}

/// How many bytes the whitespace character at `i` takes, or 0.
pub fn whitespace_at(bytes: &[u8], i: usize) -> (len: usize)
    requires
        i <= bytes@.len(),
    ensures
        len == whitespace_len(bytes@, i as int),
        len <= 3,
        i + len <= bytes@.len(),
{
    let n: usize = bytes.len();
    if i >= n {
        return 0;
    }
    let b: u8 = bytes[i];
    if b == 0x09 || b == 0x0b || b == 0x0c || b == 0x20 {
        return 1;
    }
    if n - i >= 2 && b == 0xc2 && (bytes[i + 1] == 0x85 || bytes[i + 1] == 0xa0) {
        return 2;
    }
    if n - i >= 3 {
        let c: u8 = bytes[i + 1];
        let d: u8 = bytes[i + 2];
        if b == 0xe1 && c == 0x9a && d == 0x80 {
            return 3;
        }
        if b == 0xe2 && c == 0x80 && ((0x80 <= d && d <= 0x8a) || d == 0xa8 || d == 0xa9 || d
            == 0xaf) {
            return 3;
        }
        if b == 0xe2 && c == 0x81 && d == 0x9f {
            return 3;
        }
        if b == 0xe3 && c == 0x80 && d == 0x80 {
            return 3;
        }
    }
    0
}

/// Where the whitespace that starts at `i` ends.
pub fn scan_whitespace(bytes: &[u8], i: usize) -> (end: usize)
    requires
        i <= bytes@.len(),
    ensures
        end == whitespace_end(bytes@, i as int),
        i <= end <= bytes@.len(),
{
    let n: usize = bytes.len();
    let mut j: usize = i;
    loop
        invariant
            n == bytes@.len(),
            i <= j <= n,
            whitespace_end(bytes@, i as int) == whitespace_end(bytes@, j as int),
        ensures
            whitespace_len(bytes@, j as int) == 0,
        decreases n - j,
    {
        let len = whitespace_at(bytes, j);
        if len == 0 {
            break ;
        }
        j += len;
    }
    j
}

/// Where the comment closes that goes on at `i`, or the length of the text.
pub fn find_comment_close(bytes: &[u8], i: usize) -> (at: usize)
    requires
        i <= bytes@.len(),
    ensures
        at == comment_close(bytes@, i as int),
        i <= at <= bytes@.len(),
        at < bytes@.len() ==> at + 1 < bytes@.len() && bytes@[at as int] == 0x2a && bytes@[at + 1]
            == 0x2f,
{
    let n: usize = bytes.len();
    let mut j: usize = i;
    while n - j >= 2
        invariant
            n == bytes@.len(),
            i <= j <= n,
            comment_close(bytes@, i as int) == comment_close(bytes@, j as int),
        decreases n - j,
    {
        if bytes[j] == 0x2a && bytes[j + 1] == 0x2f {
            return j;
        }
        j += 1;
    }
    n
}

/// Where the quoted text closes that goes on at `i`, or the length of the
/// text.
pub fn find_quote_close(bytes: &[u8], i: usize) -> (at: usize)
    requires
        i <= bytes@.len(),
    ensures
        at == quote_close(bytes@, i as int),
        i <= at <= bytes@.len(),
        at < bytes@.len() ==> bytes@[at as int] == 0x22,
{
    let n: usize = bytes.len();
    let mut j: usize = i;
    while j < n
        invariant
            n == bytes@.len(),
            i <= j <= n,
            quote_close(bytes@, i as int) == quote_close(bytes@, j as int),
        decreases n - j,
    {
        if bytes[j] == 0x22 {
            return j;
        }
        if bytes[j] == 0x5c {
            if n - j < 2 {
                return n;
            }
            j += 2;
        } else {
            j += 1;
        }
    }
    n
}

/// Behind a sign, if there is one at `i`.
pub fn skip_sign(bytes: &[u8], i: usize) -> (end: usize)
    requires
        i <= bytes@.len(),
    ensures
        end == past_sign(bytes@, i as int),
        i <= end <= bytes@.len(),
{
    if i < bytes.len() && (bytes[i] == 0x2b || bytes[i] == 0x2d) {
        i + 1
    } else {
        i
    }
}

/// Where the floating-point number that starts at `i` ends, if one starts
/// there.
pub fn scan_float(bytes: &[u8], i: usize) -> (end: Option<usize>)
    requires
        i <= bytes@.len(),
    ensures
        match end {
            Some(e) => is_float_at(bytes@, i as int) && e == float_end(bytes@, i as int) && i < e
                <= bytes@.len() && forall|j: int| i <= j < e ==> (#[trigger] bytes@[j]) < 0x80,
            None => !is_float_at(bytes@, i as int),
        },
{
    let n: usize = bytes.len();
    let start = skip_sign(bytes, i);
    let whole = scan_digits(bytes, start, 10);
    if whole == start {
        return None;
    }
    proof {
        lemma_digits_end(bytes@, start as int, 10);
    }
    let mut end: usize = whole;
    if whole < n && bytes[whole] == 0x2e {
        let fraction = scan_digits(bytes, whole + 1, 10);
        proof {
            lemma_digits_end(bytes@, whole + 1, 10);
        }
        if fraction > whole + 1 {
            end = fraction;
        }
    }
    let ghost past_fraction = end;
    if end < n && (bytes[end] == 0x65 || bytes[end] == 0x45) {
        let sign = skip_sign(bytes, end + 1);
        let exponent = scan_digits(bytes, sign, 10);
        proof {
            lemma_digits_end(bytes@, sign as int, 10);
        }
        if exponent > sign {
            end = exponent;
        }
    }
    proof {
        assert(past_fraction == float_fraction_end(bytes@, whole as int));
        assert(end == float_exponent_end(bytes@, past_fraction as int));
        assert forall|j: int| i <= j < end implies (#[trigger] bytes@[j]) < 0x80 by {
            if is_digit_of(bytes@[j], 10) {
            }
        }
    }
    Some(end)
}

} // verus!
