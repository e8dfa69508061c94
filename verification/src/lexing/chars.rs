//! Bytes and runs of bytes: the classes of characters that the token rules
//! speak of, and the cutting of a text at given bytes.

use vstd::prelude::*;
use vstd::string::StringSliceAdditionalSpecFns;
use vstd::utf8::{encode_utf8, is_char_boundary, valid_utf8};

verus! {

/// `0` to `9`.
pub open spec fn is_digit(b: u8) -> bool {
    0x30 <= b <= 0x39
}

/// `a` to `z`, `A` to `Z`, `_`, `.` and `$`: what a symbol may start with.
pub open spec fn is_symbol_start(b: u8) -> bool {
    (0x61 <= b <= 0x7a) || (0x41 <= b <= 0x5a) || b == 0x5f || b == 0x2e || b == 0x24
}

/// What a symbol may go on with: what it may start with, and digits.
pub open spec fn is_symbol_part(b: u8) -> bool {
    is_symbol_start(b) || is_digit(b)
}

/// A byte within a character of several bytes, but not its first.
pub open spec fn is_continuation(b: u8) -> bool {
    0x80 <= b <= 0xbf
}

/// A letter in lower case; any other byte as it is.
pub open spec fn lower_byte(b: u8) -> u8 {
    if 0x41 <= b <= 0x5a {
        (b + 0x20) as u8
    } else {
        b
    }
}

/// The bytes with their ASCII letters in lower case.
pub open spec fn lowercase(bytes: Seq<u8>) -> Seq<u8> {
    bytes.map_values(|b: u8| lower_byte(b))
}

/// The value of a digit in a number of the given base, if it is one. Letters
/// count from ten, in either case.
pub open spec fn digit_value(b: u8, radix: int) -> Option<int> {
    let value: int = if 0x30 <= b <= 0x39 {
        b - 0x30
    } else if 0x61 <= b <= 0x7a {
        b - 0x61 + 10
    } else if 0x41 <= b <= 0x5a {
        b - 0x41 + 10
    } else {
        36
    };
    if value < radix {
        Some(value)
    } else {
        None
    }
}

/// Whether the byte is a digit of a number of the given base.
pub open spec fn is_digit_of(b: u8, radix: int) -> bool {
    digit_value(b, radix) is Some
}

/// Where the digits of base `radix` that start at `i` end.
pub open spec fn digits_end(s: Seq<u8>, i: int, radix: int) -> int
    decreases s.len() - i,
{
    if 0 <= i < s.len() && is_digit_of(s[i], radix) {
        digits_end(s, i + 1, radix)
    } else {
        i
    }
}

/// The number that the digits `from..to` spell in base `radix`.
pub open spec fn digits_value(s: Seq<u8>, from: int, to: int, radix: int) -> int
    decreases to - from,
{
    if from >= to {
        0
    } else {
        digits_value(s, from, to - 1, radix) * radix + match digit_value(s[to - 1], radix) {
            Some(d) => d,
            None => 0,
        }
    }
}

/// Where the bytes of a symbol that start at `i` end.
pub open spec fn symbol_end(s: Seq<u8>, i: int) -> int
    decreases s.len() - i,
{
    if 0 <= i < s.len() && is_symbol_part(s[i]) {
        symbol_end(s, i + 1)
    } else {
        i
    }
}

/// Where the line that holds byte `i` ends: at its line feed, or at the end
/// of the text.
pub open spec fn line_end(s: Seq<u8>, i: int) -> int
    decreases s.len() - i,
{
    if 0 <= i < s.len() && s[i] != 0x0a {
        line_end(s, i + 1)
    } else {
        i
    }
}

/// Where the character that starts at `i` ends: before the next byte that
/// starts a character.
pub open spec fn char_end(s: Seq<u8>, i: int) -> int {
    continuation_end(s, i + 1)
}

/// Where the continuation bytes that start at `i` end.
pub open spec fn continuation_end(s: Seq<u8>, i: int) -> int
    decreases s.len() - i,
{
    if 0 <= i < s.len() && is_continuation(s[i]) {
        continuation_end(s, i + 1)
    } else {
        i
    }
}

/// How many bytes the whitespace character at `i` takes, or 0 if there is
/// none. Line feed and carriage return do not count as whitespace.
pub open spec fn whitespace_len(s: Seq<u8>, i: int) -> int {
    if !(0 <= i < s.len()) {
        0
    } else if s[i] == 0x09 || s[i] == 0x0b || s[i] == 0x0c || s[i] == 0x20 {
        1
    } else if i + 1 < s.len() && s[i] == 0xc2 && (s[i + 1] == 0x85 || s[i + 1] == 0xa0) {
        2
    } else if i + 2 < s.len() && s[i] == 0xe1 && s[i + 1] == 0x9a && s[i + 2] == 0x80 {
        3
    } else if i + 2 < s.len() && s[i] == 0xe2 && s[i + 1] == 0x80 && (0x80 <= s[i + 2] <= 0x8a
        || s[i + 2] == 0xa8 || s[i + 2] == 0xa9 || s[i + 2] == 0xaf) {
        3
    } else if i + 2 < s.len() && s[i] == 0xe2 && s[i + 1] == 0x81 && s[i + 2] == 0x9f {
        3
    } else if i + 2 < s.len() && s[i] == 0xe3 && s[i + 1] == 0x80 && s[i + 2] == 0x80 {
        3
    } else {
        0
    }
}

/// Where the whitespace that starts at `i` ends.
pub open spec fn whitespace_end(s: Seq<u8>, i: int) -> int
    decreases s.len() - i,
{
    if whitespace_len(s, i) > 0 {
        whitespace_end(s, i + whitespace_len(s, i))
    } else {
        i
    }
}

/// Whether a text can be cut at byte `i`: at its ends, at an ASCII byte, or
/// behind one.
pub open spec fn can_cut(s: Seq<u8>, i: int) -> bool {
    i == 0 || i == s.len() || (0 < i < s.len() && (s[i] < 0x80 || s[i - 1] < 0x80))
}

/// Behind an ASCII byte a new character starts.
pub proof fn lemma_boundary_after_ascii(bytes: Seq<u8>, i: int)
    requires
        valid_utf8(bytes),
        0 <= i < bytes.len(),
        bytes[i] < 0x80,
    ensures
        is_char_boundary(bytes, i),
        is_char_boundary(bytes, i + 1),
{
    vstd::utf8::is_char_boundary_iff_not_is_continuation_byte(bytes, i);
    vstd::utf8::valid_utf8_split(bytes, i);
    let tail = bytes.subrange(i, bytes.len() as int);
    assert(tail[0] == bytes[i]);
    assert(is_char_boundary(tail, 1)) by {
        reveal_with_fuel(vstd::utf8::is_char_boundary, 2);
        reveal_with_fuel(vstd::utf8::valid_utf8, 2);
    }
    if i + 1 < bytes.len() {
        vstd::utf8::is_char_boundary_iff_not_is_continuation_byte(tail, 1);
        assert(tail[1] == bytes[i + 1]);
        vstd::utf8::is_char_boundary_iff_not_is_continuation_byte(bytes, i + 1);
    } else {
        vstd::utf8::is_char_boundary_start_end_of_seq(bytes);
    }
}

/// Where a text can be cut, a character starts or the text ends.
pub proof fn lemma_can_cut(bytes: Seq<u8>, i: int)
    requires
        valid_utf8(bytes),
        0 <= i <= bytes.len(),
        can_cut(bytes, i),
    ensures
        is_char_boundary(bytes, i),
{
    vstd::utf8::is_char_boundary_start_end_of_seq(bytes);
    if 0 < i < bytes.len() {
        if bytes[i] < 0x80 {
            lemma_boundary_after_ascii(bytes, i);
        } else {
            lemma_boundary_after_ascii(bytes, i - 1);
        }
    }
}

/// The part of a text from byte `from` up to byte `to`.
pub fn slice<'a>(s: &'a str, from: usize, to: usize) -> (part: &'a str)
    requires
        from <= to <= s.spec_bytes().len(),
        can_cut(s.spec_bytes(), from as int),
        can_cut(s.spec_bytes(), to as int),
    ensures
        part.spec_bytes() == s.spec_bytes().subrange(from as int, to as int),
{
    broadcast use vstd::utf8::encode_utf8_valid_utf8;

    let ghost bytes = s.spec_bytes();
    proof {
        lemma_can_cut(bytes, from as int);
        lemma_can_cut(bytes, to as int);
    }
    let (head, _) = s.split_at(to);
    proof {
        let front = head.spec_bytes();
        assert(front =~= bytes.subrange(0, to as int));
        vstd::utf8::is_char_boundary_start_end_of_seq(front);
        if 0 < from < to {
            vstd::utf8::is_char_boundary_iff_not_is_continuation_byte(bytes, from as int);
            assert(front[from as int] == bytes[from as int]);
            vstd::utf8::is_char_boundary_iff_not_is_continuation_byte(front, from as int);
        }
    }
    let (_, part) = head.split_at(from);
    proof {
        assert(part.spec_bytes() =~= bytes.subrange(from as int, to as int));
    }
    part
}

/// `str::to_ascii_lowercase` of the standard library: a copy of the text in
/// which the ASCII letters `A` to `Z` are `a` to `z` and every other byte is
/// as it was.
pub assume_specification[ str::to_ascii_lowercase ](s: &str) -> (lower: String)
    ensures
        encode_utf8(lower@) == lowercase(s.spec_bytes()),
;

} // verus!
