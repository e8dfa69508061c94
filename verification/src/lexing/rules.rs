//! The token rules: which token starts at a byte of a text, and where it
//! ends. Of the lexemes that can start at a byte the longest is the token.

use crate::lexing::chars::{
    can_cut, char_end, digits_end, digits_value, is_digit, is_symbol_start, line_end, lowercase,
    slice, symbol_end, whitespace_end, whitespace_len,
};
use crate::lexing::scan::{
    comment_close, find_comment_close, find_quote_close, float_end, is_float_at, lemma_digits_end,
    parse_digits, quote_close, scan_continuation, scan_digits, scan_float, scan_line, scan_symbol,
    scan_whitespace, whitespace_at,
};
use crate::token::{numeric, plain, spanned_views, textual, Token, TokenKind, TokenView};
use std::ops::Range;
use vstd::prelude::*;
use vstd::string::StringSliceAdditionalSpecFns;

verus! {

/// The byte at `i`, or -1 where the text has none.
pub open spec fn byte_at(s: Seq<u8>, i: int) -> int {
    if 0 <= i < s.len() {
        s[i] as int
    } else {
        -1
    }
}

/// A token that holds nothing, and where it ends.
pub open spec fn lexeme(kind: TokenKind, end: int) -> (TokenView, int) {
    (plain(kind), end)
}

/// What starts at `i` with nothing that starts a token: an error of one
/// character.
pub open spec fn error_at(s: Seq<u8>, i: int) -> (TokenView, int) {
    lexeme(TokenKind::Error, char_end(s, i))
}

/// The comment that `@` at `i` starts: the rest of the line.
pub open spec fn line_comment_at(s: Seq<u8>, i: int, body: int) -> (TokenView, int) {
    (textual(TokenKind::Comment, s.subrange(body, line_end(s, body))), line_end(s, body))
}

/// What `/` at `i` starts: a comment up to `*/`, a comment up to the end of
/// the line, or a division. `/*` that nothing closes is a division.
pub open spec fn slash_at(s: Seq<u8>, i: int) -> (TokenView, int) {
    if byte_at(s, i + 1) == 0x2a && comment_close(s, i + 2) < s.len() {
        (
            textual(TokenKind::Comment, s.subrange(i + 2, comment_close(s, i + 2))),
            comment_close(s, i + 2) + 2,
        )
    } else if byte_at(s, i + 1) == 0x2f {
        line_comment_at(s, i, i + 2)
    } else {
        lexeme(TokenKind::Divide, i + 1)
    }
}

/// The symbol that starts at `i`, in lower case. Where labels are told from
/// symbols, a symbol with a colon right behind it is a label, and the colon
/// is part of the token.
pub open spec fn symbol_at(s: Seq<u8>, i: int, labels: bool) -> (TokenView, int) {
    let end = symbol_end(s, i);
    let text = lowercase(s.subrange(i, end));
    if labels && byte_at(s, end) == 0x3a {
        (textual(TokenKind::Label, text), end + 1)
    } else {
        (textual(TokenKind::Symbol, text), end)
    }
}

/// The quoted symbol that `"` at `i` starts: the text between the quotes, in
/// lower case. A quote that nothing closes is an error.
pub open spec fn quoted_at(s: Seq<u8>, i: int, labels: bool) -> (TokenView, int) {
    let close = quote_close(s, i + 1);
    let text = lowercase(s.subrange(i + 1, close));
    if close >= s.len() {
        lexeme(TokenKind::Error, i + 1)
    } else if labels && byte_at(s, close + 1) == 0x3a {
        (textual(TokenKind::Label, text), close + 2)
    } else {
        (textual(TokenKind::Symbol, text), close + 1)
    }
}

/// The integer that the digits `from..to` spell; an error if it is larger
/// than the largest `i64`.
pub open spec fn integer_of(s: Seq<u8>, from: int, to: int, radix: int) -> TokenView {
    if digits_value(s, from, to, radix) <= i64::MAX {
        numeric(TokenKind::Integer, digits_value(s, from, to, radix))
    } else {
        plain(TokenKind::Error)
    }
}

/// The number that starts with `0` at `i`: a floating-point number behind
/// `0e`, a binary number behind `0b`, a hexadecimal number behind `0x`, an
/// octal number, or zero.
pub open spec fn zero_at(s: Seq<u8>, i: int) -> (TokenView, int) {
    let next = byte_at(s, i + 1);
    if (next == 0x65 || next == 0x45) && is_float_at(s, i + 2) {
        (
            textual(TokenKind::FloatingPoint, lowercase(s.subrange(i + 2, float_end(s, i + 2)))),
            float_end(s, i + 2),
        )
    } else if (next == 0x62 || next == 0x42) && digits_end(s, i + 2, 2) > i + 2 {
        (integer_of(s, i + 2, digits_end(s, i + 2, 2), 2), digits_end(s, i + 2, 2))
    } else if (next == 0x78 || next == 0x58) && digits_end(s, i + 2, 16) > i + 2 {
        (integer_of(s, i + 2, digits_end(s, i + 2, 16), 16), digits_end(s, i + 2, 16))
    } else if digits_end(s, i + 1, 8) > i + 1 {
        (integer_of(s, i + 1, digits_end(s, i + 1, 8), 8), digits_end(s, i + 1, 8))
    } else {
        (numeric(TokenKind::Integer, 0), i + 1)
    }
}

/// The number that starts at `i`.
pub open spec fn number_at(s: Seq<u8>, i: int) -> (TokenView, int) {
    if s[i] == 0x30 {
        zero_at(s, i)
    } else {
        (integer_of(s, i, digits_end(s, i, 10), 10), digits_end(s, i, 10))
    }
}

/// The character in single quotes that starts at `i`: one character, or a
/// backslash and one character, between two quotes. The token holds the
/// quotes too. A quote that starts no character is an error.
pub open spec fn character_at(s: Seq<u8>, i: int) -> (TokenView, int) {
    if byte_at(s, i + 1) == 0x5c && i + 2 < s.len() && byte_at(s, char_end(s, i + 2)) == 0x27 {
        (
            textual(TokenKind::Character, s.subrange(i, char_end(s, i + 2) + 1)),
            char_end(s, i + 2) + 1,
        )
    } else if i + 1 < s.len() && byte_at(s, char_end(s, i + 1)) == 0x27 {
        (
            textual(TokenKind::Character, s.subrange(i, char_end(s, i + 1) + 1)),
            char_end(s, i + 1) + 1,
        )
    } else {
        lexeme(TokenKind::Error, i + 1)
    }
}

/// The operator or punctuation mark that starts at `i`; an error where none
/// starts.
pub open spec fn operator_at(s: Seq<u8>, i: int) -> (TokenView, int) {
    let b = s[i];
    let next = byte_at(s, i + 1);
    if b == 0x2c {
        lexeme(TokenKind::Comma, i + 1)
    } else if b == 0x3a {
        lexeme(TokenKind::Colon, i + 1)
    } else if b == 0x28 {
        lexeme(TokenKind::LParen, i + 1)
    } else if b == 0x29 {
        lexeme(TokenKind::RParen, i + 1)
    } else if b == 0x5b {
        lexeme(TokenKind::LBracket, i + 1)
    } else if b == 0x5d {
        lexeme(TokenKind::RBracket, i + 1)
    } else if b == 0x23 {
        lexeme(TokenKind::Hash, i + 1)
    } else if b == 0x2a {
        lexeme(TokenKind::Multiply, i + 1)
    } else if b == 0x25 {
        lexeme(TokenKind::Remainder, i + 1)
    } else if b == 0x7e {
        lexeme(TokenKind::BitwiseNot, i + 1)
    } else if b == 0x5e {
        lexeme(TokenKind::BitwiseXor, i + 1)
    } else if b == 0x2b {
        lexeme(TokenKind::Plus, i + 1)
    } else if b == 0x2d {
        lexeme(TokenKind::Minus, i + 1)
    } else if b == 0x3c {
        if next == 0x3c {
            lexeme(TokenKind::ShiftLeft, i + 2)
        } else if next == 0x3d {
            lexeme(TokenKind::LessThanOrEquals, i + 2)
        } else if next == 0x3e {
            lexeme(TokenKind::NotEquals, i + 2)
        } else {
            lexeme(TokenKind::LessThan, i + 1)
        }
    } else if b == 0x3e {
        if next == 0x3e {
            lexeme(TokenKind::ShiftRight, i + 2)
        } else if next == 0x3d {
            lexeme(TokenKind::GreaterThanOrEquals, i + 2)
        } else {
            lexeme(TokenKind::GreaterThan, i + 1)
        }
    } else if b == 0x26 {
        if next == 0x26 {
            lexeme(TokenKind::LogicalAnd, i + 2)
        } else {
            lexeme(TokenKind::BitwiseAnd, i + 1)
        }
    } else if b == 0x7c {
        if next == 0x7c {
            lexeme(TokenKind::LogicalOr, i + 2)
        } else {
            lexeme(TokenKind::BitwiseOr, i + 1)
        }
    } else if b == 0x21 {
        if next == 0x3d {
            lexeme(TokenKind::NotEquals, i + 2)
        } else {
            lexeme(TokenKind::BitwiseOrNot, i + 1)
        }
    } else if b == 0x3d && next == 0x3d {
        lexeme(TokenKind::Equals, i + 2)
    } else {
        error_at(s, i)
    }
}

/// The token that starts at byte `i` of a text, and where it ends.
pub open spec fn token_at(s: Seq<u8>, i: int, labels: bool) -> (TokenView, int) {
    let b = s[i];
    if b == 0x0a || b == 0x3b {
        lexeme(TokenKind::Newline, i + 1)
    } else if b == 0x0d {
        lexeme(
            TokenKind::Newline,
            if byte_at(s, i + 1) == 0x0a {
                i + 2
            } else {
                i + 1
            },
        )
    } else if whitespace_len(s, i) > 0 {
        lexeme(TokenKind::Whitespace, whitespace_end(s, i))
    } else if b == 0x40 {
        line_comment_at(s, i, i + 1)
    } else if b == 0x2f {
        slash_at(s, i)
    } else if is_symbol_start(b) {
        symbol_at(s, i, labels)
    } else if b == 0x22 {
        quoted_at(s, i, labels)
    } else if is_digit(b) {
        number_at(s, i)
    } else if b == 0x27 {
        character_at(s, i)
    } else {
        operator_at(s, i)
    }
}

/// The tokens of a text from byte `i` on, each with the bytes it covers.
pub open spec fn lexed_from(s: Seq<u8>, i: int, labels: bool) -> Seq<(TokenView, Range<usize>)>
    decreases s.len() - i,
{
    if 0 <= i < s.len() {
        let found = token_at(s, i, labels);
        if i < found.1 <= s.len() {
            seq![(found.0, Range { start: i as usize, end: found.1 as usize })] + lexed_from(
                s,
                found.1,
                labels,
            )
        } else {
            Seq::empty()
        }
    } else {
        Seq::empty()
    }
}

/// The tokens of a text.
pub open spec fn lexed(s: Seq<u8>, labels: bool) -> Seq<(TokenView, Range<usize>)> {
    lexed_from(s, 0, labels)
}

/// The tokens follow each other without a gap, and none is empty: the first
/// starts where the lexing starts, and each next one where the one before
/// ends.
pub proof fn lemma_lexed_tiles(s: Seq<u8>, i: int, labels: bool)
    requires
        0 <= i <= s.len() <= usize::MAX,
    ensures
        lexed_from(s, i, labels).len() > 0 ==> lexed_from(s, i, labels)[0].1.start == i,
        forall|j: int|
            0 <= j < lexed_from(s, i, labels).len() ==> i <= (#[trigger] lexed_from(
                s,
                i,
                labels,
            )[j]).1.start < lexed_from(s, i, labels)[j].1.end <= s.len(),
        forall|j: int|
            0 < j < lexed_from(s, i, labels).len() ==> (#[trigger] lexed_from(
                s,
                i,
                labels,
            )[j]).1.start == lexed_from(s, i, labels)[j - 1].1.end,
    decreases s.len() - i,
{
    if i < s.len() {
        let found = token_at(s, i, labels);
        if i < found.1 <= s.len() {
            lemma_lexed_tiles(s, found.1, labels);
            let rest = lexed_from(s, found.1, labels);
            let all = lexed_from(s, i, labels);
            assert forall|j: int| 0 <= j < all.len() implies i <= (#[trigger] all[j]).1.start
                < all[j].1.end <= s.len() by {
                if j > 0 {
                    assert(all[j] == rest[j - 1]);
                }
            }
            assert forall|j: int| 0 < j < all.len() implies (#[trigger] all[j]).1.start == all[j
                - 1].1.end by {
                assert(all[j] == rest[j - 1]);
                if j > 1 {
                    assert(all[j - 1] == rest[j - 2]);
                }
            }
        }
    }
}

/// The tokens stand in the order of the text.
pub proof fn lemma_lexed_ordered(s: Seq<u8>, i: int, labels: bool)
    requires
        0 <= i <= s.len() <= usize::MAX,
    ensures
        crate::sequences::ordered(lexed_from(s, i, labels)),
    decreases s.len() - i,
{
    if i < s.len() {
        let found = token_at(s, i, labels);
        if i < found.1 <= s.len() {
            lemma_lexed_ordered(s, found.1, labels);
            lemma_lexed_tiles(s, found.1, labels);
            let rest = lexed_from(s, found.1, labels);
            let all = lexed_from(s, i, labels);
            assert forall|a: int, b: int| 0 <= a < b < all.len() implies (#[trigger] all[a]).1.start
                < (#[trigger] all[b]).1.start && all[a].1.end < all[b].1.end by {
                assert(all[b] == rest[b - 1]);
                if a > 0 {
                    assert(all[a] == rest[a - 1]);
                    assert(rest[a - 1].1.start < rest[b - 1].1.start);
                } else {
                    assert(found.1 <= rest[b - 1].1.start);
                }
            }
        }
    }
}

/// The part `from..to` of a text, in lower case.
fn lower_text(s: &str, from: usize, to: usize) -> (text: String)
    requires
        from <= to <= s.spec_bytes().len(),
        can_cut(s.spec_bytes(), from as int),
        can_cut(s.spec_bytes(), to as int),
    ensures
        vstd::utf8::encode_utf8(text@) == lowercase(
            s.spec_bytes().subrange(from as int, to as int),
        ),
{
    slice(s, from, to).to_ascii_lowercase()
}

/// The integer that the digits `from..to` spell, or an error.
fn integer_token<'a>(bytes: &[u8], from: usize, to: usize, radix: u8) -> (token: Token<'a>)
    requires
        from <= to <= bytes@.len(),
        2 <= radix <= 36,
        to == digits_end(bytes@, from as int, radix as int),
    ensures
        token@ == integer_of(bytes@, from as int, to as int, radix as int),
{
    proof {
        lemma_digits_end(bytes@, from as int, radix as int);
    }
    match parse_digits(bytes, from, to, radix) {
        Some(value) => Token::Integer(value),
        None => Token::Error,
    }
}

/// The error that starts at `i`.
fn lex_error<'a>(bytes: &[u8], i: usize) -> (found: (Token<'a>, usize))
    requires
        i < bytes@.len(),
    ensures
        (found.0@, found.1 as int) == error_at(bytes@, i as int),
        i < found.1 <= bytes@.len(),
{
    let n: usize = bytes.len();
    (Token::Error, scan_continuation(bytes, i + 1))
}

/// The comment that runs from `body` to the end of the line.
fn lex_line_comment<'a>(s: &'a str, bytes: &[u8], i: usize, body: usize) -> (found: (
    Token<'a>,
    usize,
))
    requires
        bytes@ == s.spec_bytes(),
        i < body <= bytes@.len(),
        bytes@[body - 1] < 0x80,
    ensures
        (found.0@, found.1 as int) == line_comment_at(bytes@, i as int, body as int),
        i < found.1 <= bytes@.len(),
{
    let end = scan_line(bytes, body);
    (Token::Comment(slice(s, body, end)), end)
}

/// What `/` at `i` starts.
fn lex_slash<'a>(s: &'a str, bytes: &[u8], i: usize) -> (found: (Token<'a>, usize))
    requires
        bytes@ == s.spec_bytes(),
        i < bytes@.len(),
        bytes@[i as int] == 0x2f,
    ensures
        (found.0@, found.1 as int) == slash_at(bytes@, i as int),
        i < found.1 <= bytes@.len(),
{
    let n: usize = bytes.len();
    if n - i >= 2 && bytes[i + 1] == 0x2a {
        let close = find_comment_close(bytes, i + 2);
        if close < n {
            return (Token::Comment(slice(s, i + 2, close)), close + 2);
        }
    }
    if n - i >= 2 && bytes[i + 1] == 0x2f {
        return lex_line_comment(s, bytes, i, i + 2);
    }
    (Token::Divide, i + 1)
}

/// The symbol or label that starts at `i`.
fn lex_symbol<'a>(s: &'a str, bytes: &[u8], i: usize, labels: bool) -> (found: (Token<'a>, usize))
    requires
        bytes@ == s.spec_bytes(),
        i < bytes@.len(),
        is_symbol_start(bytes@[i as int]),
    ensures
        (found.0@, found.1 as int) == symbol_at(bytes@, i as int, labels),
        i < found.1 <= bytes@.len(),
{
    let n: usize = bytes.len();
    let end = scan_symbol(bytes, i + 1);
    proof {
        assert(symbol_end(bytes@, i as int) == symbol_end(bytes@, i + 1));
        assert(bytes@[end - 1] < 0x80);
    }
    let text = lower_text(s, i, end);
    if labels && end < bytes.len() && bytes[end] == 0x3a {
        (Token::Label(text), end + 1)
    } else {
        (Token::Symbol(text), end)
    }
}

/// The quoted symbol or label that starts at `i`.
fn lex_quoted<'a>(s: &'a str, bytes: &[u8], i: usize, labels: bool) -> (found: (Token<'a>, usize))
    requires
        bytes@ == s.spec_bytes(),
        i < bytes@.len(),
        bytes@[i as int] == 0x22,
    ensures
        (found.0@, found.1 as int) == quoted_at(bytes@, i as int, labels),
        i < found.1 <= bytes@.len(),
{
    let n: usize = bytes.len();
    let close = find_quote_close(bytes, i + 1);
    if close >= n {
        return (Token::Error, i + 1);
    }
    let text = lower_text(s, i + 1, close);
    if labels && n - close >= 2 && bytes[close + 1] == 0x3a {
        (Token::Label(text), close + 2)
    } else {
        (Token::Symbol(text), close + 1)
    }
}

/// The number that starts with `0` at `i`.
fn lex_zero<'a>(s: &'a str, bytes: &[u8], i: usize) -> (found: (Token<'a>, usize))
    requires
        bytes@ == s.spec_bytes(),
        i < bytes@.len(),
        bytes@[i as int] == 0x30,
    ensures
        (found.0@, found.1 as int) == zero_at(bytes@, i as int),
        i < found.1 <= bytes@.len(),
{
    let n: usize = bytes.len();
    if n - i >= 2 {
        let next: u8 = bytes[i + 1];
        if next == 0x65 || next == 0x45 {
            match scan_float(bytes, i + 2) {
                Some(end) => {
                    proof {
                        assert(bytes@[end - 1] < 0x80);
                    }
                    return (Token::FloatingPoint(lower_text(s, i + 2, end)), end);
                },
                None => {},
            }
        }
        if next == 0x62 || next == 0x42 {
            let end = scan_digits(bytes, i + 2, 2);
            if end > i + 2 {
                return (integer_token(bytes, i + 2, end, 2), end);
            }
        }
        if next == 0x78 || next == 0x58 {
            let end = scan_digits(bytes, i + 2, 16);
            if end > i + 2 {
                return (integer_token(bytes, i + 2, end, 16), end);
            }
        }
    }
    let end = scan_digits(bytes, i + 1, 8);
    if end > i + 1 {
        return (integer_token(bytes, i + 1, end, 8), end);
    }
    (Token::Integer(0), i + 1)
}

/// The character in single quotes that starts at `i`.
fn lex_character<'a>(s: &'a str, bytes: &[u8], i: usize) -> (found: (Token<'a>, usize))
    requires
        bytes@ == s.spec_bytes(),
        i < bytes@.len(),
        bytes@[i as int] == 0x27,
    ensures
        (found.0@, found.1 as int) == character_at(bytes@, i as int),
        i < found.1 <= bytes@.len(),
{
    let n: usize = bytes.len();
    if n - i >= 3 && bytes[i + 1] == 0x5c {
        let end = scan_continuation(bytes, i + 3);
        if end < n && bytes[end] == 0x27 {
            return (Token::Character(slice(s, i, end + 1)), end + 1);
        }
    }
    if n - i >= 2 {
        let end = scan_continuation(bytes, i + 2);
        if end < n && bytes[end] == 0x27 {
            return (Token::Character(slice(s, i, end + 1)), end + 1);
        }
    }
    (Token::Error, i + 1)
}

/// The operator or punctuation mark that starts at `i`.
fn lex_operator<'a>(bytes: &[u8], i: usize) -> (found: (Token<'a>, usize))
    requires
        i < bytes@.len(),
    ensures
        (found.0@, found.1 as int) == operator_at(bytes@, i as int),
        i < found.1 <= bytes@.len(),
{
    let n: usize = bytes.len();
    let b: u8 = bytes[i];
    let next: u8 = if n - i >= 2 {
        bytes[i + 1]
    } else {
        0
    };
    if b == 0x2c {
        (Token::Comma, i + 1)
    } else if b == 0x3a {
        (Token::Colon, i + 1)
    } else if b == 0x28 {
        (Token::LParen, i + 1)
    } else if b == 0x29 {
        (Token::RParen, i + 1)
    } else if b == 0x5b {
        (Token::LBracket, i + 1)
    } else if b == 0x5d {
        (Token::RBracket, i + 1)
    } else if b == 0x23 {
        (Token::Hash, i + 1)
    } else if b == 0x2a {
        (Token::Multiply, i + 1)
    } else if b == 0x25 {
        (Token::Remainder, i + 1)
    } else if b == 0x7e {
        (Token::BitwiseNot, i + 1)
    } else if b == 0x5e {
        (Token::BitwiseXor, i + 1)
    } else if b == 0x2b {
        (Token::Plus, i + 1)
    } else if b == 0x2d {
        (Token::Minus, i + 1)
    } else if b == 0x3c {
        if next == 0x3c {
            (Token::ShiftLeft, i + 2)
        } else if next == 0x3d {
            (Token::LessThanOrEquals, i + 2)
        } else if next == 0x3e {
            (Token::NotEquals, i + 2)
        } else {
            (Token::LessThan, i + 1)
        }
    } else if b == 0x3e {
        if next == 0x3e {
            (Token::ShiftRight, i + 2)
        } else if next == 0x3d {
            (Token::GreaterThanOrEquals, i + 2)
        } else {
            (Token::GreaterThan, i + 1)
        }
    } else if b == 0x26 {
        if next == 0x26 {
            (Token::LogicalAnd, i + 2)
        } else {
            (Token::BitwiseAnd, i + 1)
        }
    } else if b == 0x7c {
        if next == 0x7c {
            (Token::LogicalOr, i + 2)
        } else {
            (Token::BitwiseOr, i + 1)
        }
    } else if b == 0x21 {
        if next == 0x3d {
            (Token::NotEquals, i + 2)
        } else {
            (Token::BitwiseOrNot, i + 1)
        }
    } else if b == 0x3d && next == 0x3d {
        (Token::Equals, i + 2)
    } else {
        lex_error(bytes, i)
    }
}

/// The token that starts at byte `i`, and where it ends.
fn next_token<'a>(s: &'a str, bytes: &[u8], i: usize, labels: bool) -> (found: (Token<'a>, usize))
    requires
        bytes@ == s.spec_bytes(),
        i < bytes@.len(),
    ensures
        (found.0@, found.1 as int) == token_at(bytes@, i as int, labels),
        i < found.1 <= bytes@.len(),
{
    let n: usize = bytes.len();
    let b: u8 = bytes[i];
    if b == 0x0a || b == 0x3b {
        return (Token::Newline, i + 1);
    }
    if b == 0x0d {
        if n - i >= 2 && bytes[i + 1] == 0x0a {
            return (Token::Newline, i + 2);
        }
        return (Token::Newline, i + 1);
    }
    let blank = whitespace_at(bytes, i);
    if blank > 0 {
        return (Token::Whitespace, scan_whitespace(bytes, i + blank));
    }
    if b == 0x40 {
        return lex_line_comment(s, bytes, i, i + 1);
    }
    if b == 0x2f {
        return lex_slash(s, bytes, i);
    }
    if (0x61 <= b && b <= 0x7a) || (0x41 <= b && b <= 0x5a) || b == 0x5f || b == 0x2e || b == 0x24 {
        return lex_symbol(s, bytes, i, labels);
    }
    if b == 0x22 {
        return lex_quoted(s, bytes, i, labels);
    }
    if 0x30 <= b && b <= 0x39 {
        if b == 0x30 {
            return lex_zero(s, bytes, i);
        }
        let end = scan_digits(bytes, i + 1, 10);
        proof {
            assert(digits_end(bytes@, i as int, 10) == digits_end(bytes@, i + 1, 10));
        }
        return (integer_token(bytes, i, end, 10), end);
    }
    if b == 0x27 {
        return lex_character(s, bytes, i);
    }
    lex_operator(bytes, i)
}

/// Cuts a text into tokens. With `labels`, a symbol with a colon right
/// behind it is one token, a label.
pub fn lex_tokens<'a>(s: &'a str, labels: bool) -> (tokens: Vec<(Token<'a>, Range<usize>)>)
    ensures
        spanned_views(tokens@) == lexed(s.spec_bytes(), labels),
{
    let bytes = s.as_bytes();
    let n: usize = bytes.len();
    let mut tokens: Vec<(Token<'a>, Range<usize>)> = Vec::new();
    let mut i: usize = 0;
    proof {
        assert(spanned_views(tokens@) + lexed_from(bytes@, 0, labels) =~= lexed(bytes@, labels));
    }
    while i < n
        invariant
            bytes@ == s.spec_bytes(),
            n == bytes@.len(),
            i <= n,
            spanned_views(tokens@) + lexed_from(bytes@, i as int, labels) == lexed(bytes@, labels),
        decreases n - i,
    {
        let (token, end) = next_token(s, bytes, i, labels);
        let ghost before = tokens@;
        let ghost view = token@;
        tokens.push((token, i..end));
        proof {
            assert(spanned_views(tokens@) =~= spanned_views(before).push(
                (view, Range { start: i, end: end }),
            ));
            assert(spanned_views(tokens@) + lexed_from(bytes@, end as int, labels) =~= spanned_views(
                before,
            ) + lexed_from(bytes@, i as int, labels));
        }
        i = end;
    }
    proof {
        assert(spanned_views(tokens@) + lexed_from(bytes@, n as int, labels) =~= spanned_views(
            tokens@,
        ));
    }
    tokens
}

} // verus!
