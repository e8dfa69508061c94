//! The tokens of GNU ARM assembly.

use crate::hashing::{fx_digest, hash_words};
use std::ops::Range;
use vstd::prelude::*;
use vstd::utf8::encode_utf8;

verus! {

/// The kinds of tokens, without what the tokens hold.
#[derive(Debug, Clone, Copy, PartialEq, Eq, Structural, Hash)]
pub enum TokenKind {
    /// A lexeme that is no token.
    Error,
    /// All whitespace except for newlines.
    Whitespace,
    /// The end of a statement: a line break or `;`.
    Newline,
    /// A comment, without its delimiters.
    Comment,
    /// An identifier, a register, or a quoted string: its text in lower case.
    Symbol,
    /// A symbol that a colon follows at once, without the colon.
    Label,
    /// The instruction or directive of a statement.
    KeySymbol,
    /// A symbol, named by the number of tokens since it last occurred, or 0.
    RelativeSymbol,
    /// `:`
    Colon,
    /// A binary, octal, decimal or hexadecimal number.
    Integer,
    /// A floating-point number, as it is written behind `0e`.
    FloatingPoint,
    /// A character in single quotes, with the quotes.
    Character,
    /// `,`
    Comma,
    /// `(`
    LParen,
    /// `)`
    RParen,
    /// `*`
    Multiply,
    /// `/`
    Divide,
    /// `%`
    Remainder,
    /// `<<`
    ShiftLeft,
    /// `>>`
    ShiftRight,
    /// `~`
    BitwiseNot,
    /// `&`
    BitwiseAnd,
    /// `|`
    BitwiseOr,
    /// `^`
    BitwiseXor,
    /// `!`
    BitwiseOrNot,
    /// `+`
    Plus,
    /// `-`
    Minus,
    /// `==`
    Equals,
    /// `!=` or `<>`
    NotEquals,
    /// `<`
    LessThan,
    /// `>`
    GreaterThan,
    /// `<=`
    LessThanOrEquals,
    /// `>=`
    GreaterThanOrEquals,
    /// `&&`
    LogicalAnd,
    /// `||`
    LogicalOr,
    /// `[`
    LBracket,
    /// `]`
    RBracket,
    /// `#`
    Hash,
}

/// A token of GNU ARM assembly.
#[derive(Debug, PartialEq, Eq, Hash)]
pub enum Token<'source> {
    /// A lexeme that is no token.
    Error,
    /// All whitespace except for newlines.
    Whitespace,
    /// The end of a statement: a line break or `;`.
    Newline,
    /// A comment, without its delimiters.
    Comment(&'source str),
    /// An identifier, a register, or a quoted string: its text in lower case.
    Symbol(String),
    /// A symbol that a colon follows at once, without the colon.
    Label(String),
    /// The instruction or directive of a statement.
    KeySymbol(String),
    /// A symbol, named by the number of tokens since it last occurred, or 0.
    RelativeSymbol(usize),
    /// `:`
    Colon,
    /// A binary, octal, decimal or hexadecimal number.
    Integer(i64),
    /// A floating-point number, as it is written behind `0e`.
    FloatingPoint(String),
    /// A character in single quotes, with the quotes.
    Character(&'source str),
    /// `,`
    Comma,
    /// `(`
    LParen,
    /// `)`
    RParen,
    /// `*`
    Multiply,
    /// `/`
    Divide,
    /// `%`
    Remainder,
    /// `<<`
    ShiftLeft,
    /// `>>`
    ShiftRight,
    /// `~`
    BitwiseNot,
    /// `&`
    BitwiseAnd,
    /// `|`
    BitwiseOr,
    /// `^`
    BitwiseXor,
    /// `!`
    BitwiseOrNot,
    /// `+`
    Plus,
    /// `-`
    Minus,
    /// `==`
    Equals,
    /// `!=` or `<>`
    NotEquals,
    /// `<`
    LessThan,
    /// `>`
    GreaterThan,
    /// `<=`
    LessThanOrEquals,
    /// `>=`
    GreaterThanOrEquals,
    /// `&&`
    LogicalAnd,
    /// `||`
    LogicalOr,
    /// `[`
    LBracket,
    /// `]`
    RBracket,
    /// `#`
    Hash,
}

/// What a token is, in plain values: its kind, the bytes of its text, and its
/// number. A token without text has none, a token without number has 0.
pub struct TokenView {
    pub kind: TokenKind,
    pub text: Seq<u8>,
    pub number: int,
}

impl<'source> View for Token<'source> {
    type V = TokenView;

    open spec fn view(&self) -> TokenView {
        match *self {
            Token::Error => plain(TokenKind::Error),
            Token::Whitespace => plain(TokenKind::Whitespace),
            Token::Newline => plain(TokenKind::Newline),
            Token::Comment(text) => TokenView { kind: TokenKind::Comment, text: encode_utf8(text@), number: 0 },
            Token::Symbol(text) => TokenView { kind: TokenKind::Symbol, text: encode_utf8(text@), number: 0 },
            Token::Label(text) => TokenView { kind: TokenKind::Label, text: encode_utf8(text@), number: 0 },
            Token::KeySymbol(text) => TokenView { kind: TokenKind::KeySymbol, text: encode_utf8(text@), number: 0 },
            Token::RelativeSymbol(number) => TokenView { kind: TokenKind::RelativeSymbol, text: Seq::empty(), number: number as int },
            Token::Colon => plain(TokenKind::Colon),
            Token::Integer(number) => TokenView { kind: TokenKind::Integer, text: Seq::empty(), number: number as int },
            Token::FloatingPoint(text) => TokenView { kind: TokenKind::FloatingPoint, text: encode_utf8(text@), number: 0 },
            Token::Character(text) => TokenView { kind: TokenKind::Character, text: encode_utf8(text@), number: 0 },
            Token::Comma => plain(TokenKind::Comma),
            Token::LParen => plain(TokenKind::LParen),
            Token::RParen => plain(TokenKind::RParen),
            Token::Multiply => plain(TokenKind::Multiply),
            Token::Divide => plain(TokenKind::Divide),
            Token::Remainder => plain(TokenKind::Remainder),
            Token::ShiftLeft => plain(TokenKind::ShiftLeft),
            Token::ShiftRight => plain(TokenKind::ShiftRight),
            Token::BitwiseNot => plain(TokenKind::BitwiseNot),
            Token::BitwiseAnd => plain(TokenKind::BitwiseAnd),
            Token::BitwiseOr => plain(TokenKind::BitwiseOr),
            Token::BitwiseXor => plain(TokenKind::BitwiseXor),
            Token::BitwiseOrNot => plain(TokenKind::BitwiseOrNot),
            Token::Plus => plain(TokenKind::Plus),
            Token::Minus => plain(TokenKind::Minus),
            Token::Equals => plain(TokenKind::Equals),
            Token::NotEquals => plain(TokenKind::NotEquals),
            Token::LessThan => plain(TokenKind::LessThan),
            Token::GreaterThan => plain(TokenKind::GreaterThan),
            Token::LessThanOrEquals => plain(TokenKind::LessThanOrEquals),
            Token::GreaterThanOrEquals => plain(TokenKind::GreaterThanOrEquals),
            Token::LogicalAnd => plain(TokenKind::LogicalAnd),
            Token::LogicalOr => plain(TokenKind::LogicalOr),
            Token::LBracket => plain(TokenKind::LBracket),
            Token::RBracket => plain(TokenKind::RBracket),
            Token::Hash => plain(TokenKind::Hash),
        }
    }
}

/// The view of a token that holds nothing.
pub open spec fn plain(kind: TokenKind) -> TokenView {
    TokenView { kind, text: Seq::empty(), number: 0 }
}

/// The view of a token that holds text.
pub open spec fn textual(kind: TokenKind, text: Seq<u8>) -> TokenView {
    TokenView { kind, text, number: 0 }
}

/// The view of a token that holds a number.
pub open spec fn numeric(kind: TokenKind, number: int) -> TokenView {
    TokenView { kind, text: Seq::empty(), number }
}

/// Tokens with their spans, as plain values.
pub open spec fn spanned_views(tokens: Seq<(Token, Range<usize>)>) -> Seq<(TokenView, Range<usize>)> {
    tokens.map_values(|t: (Token, Range<usize>)| (t.0@, t.1))
}

/// Whether a token of this kind is whitespace, a newline or a comment.
pub open spec fn is_trivia(kind: TokenKind) -> bool {
    kind == TokenKind::Whitespace || kind == TokenKind::Newline || kind == TokenKind::Comment
}

/// The number under which a kind of token is hashed.
pub open spec fn kind_code(kind: TokenKind) -> u64 {
    match kind {
        TokenKind::Error => 0,
        TokenKind::Whitespace => 1,
        TokenKind::Newline => 2,
        TokenKind::Comment => 3,
        TokenKind::Symbol => 4,
        TokenKind::Label => 5,
        TokenKind::KeySymbol => 6,
        TokenKind::RelativeSymbol => 7,
        TokenKind::Colon => 8,
        TokenKind::Integer => 9,
        TokenKind::FloatingPoint => 10,
        TokenKind::Character => 11,
        TokenKind::Comma => 12,
        TokenKind::LParen => 13,
        TokenKind::RParen => 14,
        TokenKind::Multiply => 15,
        TokenKind::Divide => 16,
        TokenKind::Remainder => 17,
        TokenKind::ShiftLeft => 18,
        TokenKind::ShiftRight => 19,
        TokenKind::BitwiseNot => 20,
        TokenKind::BitwiseAnd => 21,
        TokenKind::BitwiseOr => 22,
        TokenKind::BitwiseXor => 23,
        TokenKind::BitwiseOrNot => 24,
        TokenKind::Plus => 25,
        TokenKind::Minus => 26,
        TokenKind::Equals => 27,
        TokenKind::NotEquals => 28,
        TokenKind::LessThan => 29,
        TokenKind::GreaterThan => 30,
        TokenKind::LessThanOrEquals => 31,
        TokenKind::GreaterThanOrEquals => 32,
        TokenKind::LogicalAnd => 33,
        TokenKind::LogicalOr => 34,
        TokenKind::LBracket => 35,
        TokenKind::RBracket => 36,
        TokenKind::Hash => 37,
    }
}

/// A number as a word: as it is if it is not negative, else counted down from
/// the largest word.
pub open spec fn number_word(number: int) -> u64 {
    if number >= 0 {
        number as u64
    } else {
        (0x1_0000_0000_0000_0000 + number) as u64
    }
}

/// The words that are hashed for a token: the code of its kind, its number,
/// and the bytes of its text.
pub open spec fn token_words(token: TokenView) -> Seq<u64> {
    seq![kind_code(token.kind), number_word(token.number)] + token.text.map_values(
        |b: u8| b as u64,
    )
}

/// The 64-bit code of a token.
pub open spec fn token_code(token: TokenView) -> u64 {
    fx_digest(token_words(token))
}

impl<'source> Token<'source> {
    /// The kind of this token.
    pub fn kind(&self) -> (kind: TokenKind)
        ensures
            kind == self@.kind,
    {
        match self {
            Token::Error => TokenKind::Error,
            Token::Whitespace => TokenKind::Whitespace,
            Token::Newline => TokenKind::Newline,
            Token::Comment(_) => TokenKind::Comment,
            Token::Symbol(_) => TokenKind::Symbol,
            Token::Label(_) => TokenKind::Label,
            Token::KeySymbol(_) => TokenKind::KeySymbol,
            Token::RelativeSymbol(_) => TokenKind::RelativeSymbol,
            Token::Colon => TokenKind::Colon,
            Token::Integer(_) => TokenKind::Integer,
            Token::FloatingPoint(_) => TokenKind::FloatingPoint,
            Token::Character(_) => TokenKind::Character,
            Token::Comma => TokenKind::Comma,
            Token::LParen => TokenKind::LParen,
            Token::RParen => TokenKind::RParen,
            Token::Multiply => TokenKind::Multiply,
            Token::Divide => TokenKind::Divide,
            Token::Remainder => TokenKind::Remainder,
            Token::ShiftLeft => TokenKind::ShiftLeft,
            Token::ShiftRight => TokenKind::ShiftRight,
            Token::BitwiseNot => TokenKind::BitwiseNot,
            Token::BitwiseAnd => TokenKind::BitwiseAnd,
            Token::BitwiseOr => TokenKind::BitwiseOr,
            Token::BitwiseXor => TokenKind::BitwiseXor,
            Token::BitwiseOrNot => TokenKind::BitwiseOrNot,
            Token::Plus => TokenKind::Plus,
            Token::Minus => TokenKind::Minus,
            Token::Equals => TokenKind::Equals,
            Token::NotEquals => TokenKind::NotEquals,
            Token::LessThan => TokenKind::LessThan,
            Token::GreaterThan => TokenKind::GreaterThan,
            Token::LessThanOrEquals => TokenKind::LessThanOrEquals,
            Token::GreaterThanOrEquals => TokenKind::GreaterThanOrEquals,
            Token::LogicalAnd => TokenKind::LogicalAnd,
            Token::LogicalOr => TokenKind::LogicalOr,
            Token::LBracket => TokenKind::LBracket,
            Token::RBracket => TokenKind::RBracket,
            Token::Hash => TokenKind::Hash,
        }
    }

    /// Whether this token is whitespace, a newline or a comment.
    pub fn is_trivia(&self) -> (trivia: bool)
        ensures
            trivia == is_trivia(self@.kind),
    {
        match self {
            Token::Whitespace | Token::Newline | Token::Comment(_) => true,
            _ => false,
        }
    }

    /// The bytes of the text of this token.
    fn text_bytes(&self) -> (bytes: &[u8])
        ensures
            bytes@ == self@.text,
    {
        match self {
            Token::Comment(text) | Token::Character(text) => text.as_bytes(),
            Token::Symbol(text)
            | Token::Label(text)
            | Token::KeySymbol(text)
            | Token::FloatingPoint(text) => text.as_str().as_bytes(),
            _ => {
                let empty: &[u8] = &[];
                proof {
                    assert(empty@ =~= Seq::<u8>::empty());
                }
                empty
            },
        }
    }

    /// The number of this token as a word.
    fn number_word(&self) -> (word: u64)
        ensures
            word == number_word(self@.number),
    {
        match self {
            Token::RelativeSymbol(offset) => *offset as u64,
            Token::Integer(value) => {
                if *value >= 0 {
                    *value as u64
                } else {
                    u64::MAX - ((-(*value + 1)) as u64)
                }
            },
            _ => 0,
        }
    }
}

/// The number under which a kind of token is hashed.
pub fn code_of_kind(kind: TokenKind) -> (code: u64)
    ensures
        code == kind_code(kind),
{
    match kind {
        TokenKind::Error => 0,
        TokenKind::Whitespace => 1,
        TokenKind::Newline => 2,
        TokenKind::Comment => 3,
        TokenKind::Symbol => 4,
        TokenKind::Label => 5,
        TokenKind::KeySymbol => 6,
        TokenKind::RelativeSymbol => 7,
        TokenKind::Colon => 8,
        TokenKind::Integer => 9,
        TokenKind::FloatingPoint => 10,
        TokenKind::Character => 11,
        TokenKind::Comma => 12,
        TokenKind::LParen => 13,
        TokenKind::RParen => 14,
        TokenKind::Multiply => 15,
        TokenKind::Divide => 16,
        TokenKind::Remainder => 17,
        TokenKind::ShiftLeft => 18,
        TokenKind::ShiftRight => 19,
        TokenKind::BitwiseNot => 20,
        TokenKind::BitwiseAnd => 21,
        TokenKind::BitwiseOr => 22,
        TokenKind::BitwiseXor => 23,
        TokenKind::BitwiseOrNot => 24,
        TokenKind::Plus => 25,
        TokenKind::Minus => 26,
        TokenKind::Equals => 27,
        TokenKind::NotEquals => 28,
        TokenKind::LessThan => 29,
        TokenKind::GreaterThan => 30,
        TokenKind::LessThanOrEquals => 31,
        TokenKind::GreaterThanOrEquals => 32,
        TokenKind::LogicalAnd => 33,
        TokenKind::LogicalOr => 34,
        TokenKind::LBracket => 35,
        TokenKind::RBracket => 36,
        TokenKind::Hash => 37,
    }
}

/// Hashes a token with a hasher of its own.
pub fn hash_token(token: &Token) -> (code: u64)
    ensures
        code == token_code(token@),
{
    let text = token.text_bytes();
    let n: usize = text.len();
    let mut words: Vec<u64> = Vec::new();
    words.push(code_of_kind(token.kind()));
    words.push(token.number_word());
    let ghost head = words@;
    let ghost tail = token@.text.map_values(|b: u8| b as u64);
    let mut i: usize = 0;
    proof {
        assert(head =~= seq![kind_code(token@.kind), number_word(token@.number)]);
        assert(head + tail.take(0) =~= head);
    }
    while i < n
        invariant
            n == text@.len(),
            i <= n,
            text@ == token@.text,
            tail == token@.text.map_values(|b: u8| b as u64),
            words@ == head + tail.take(i as int),
        decreases n - i,
    {
        words.push(text[i] as u64);
        proof {
            assert(head + tail.take(i + 1) =~= (head + tail.take(i as int)).push(tail[i as int]));
        }
        i += 1;
    }
    proof {
        assert(tail.take(n as int) =~= tail);
    }
    hash_words(words.as_slice())
}

/// Tokens of different kinds, numbers or texts are hashed from different
/// words: two tokens that hash equally are equal, or the hasher has failed to
/// tell two sequences of words apart.
pub proof fn lemma_token_words_injective(a: TokenView, b: TokenView)
    requires
        -0x8000_0000_0000_0000 <= a.number < 0x1_0000_0000_0000_0000,
        -0x8000_0000_0000_0000 <= b.number < 0x1_0000_0000_0000_0000,
        a.number < 0 ==> a.kind == TokenKind::Integer,
        b.number < 0 ==> b.kind == TokenKind::Integer,
        a.kind == TokenKind::Integer ==> a.number < 0x8000_0000_0000_0000,
        b.kind == TokenKind::Integer ==> b.number < 0x8000_0000_0000_0000,
        token_words(a) == token_words(b),
    ensures
        a == b,
{
    let wa = token_words(a);
    let wb = token_words(b);
    assert(wa[0] == kind_code(a.kind) && wb[0] == kind_code(b.kind));
    assert(wa[1] == number_word(a.number) && wb[1] == number_word(b.number));
    assert(a.kind == b.kind);
    assert(a.number == b.number);
    assert(a.text =~= b.text) by {
        assert(a.text.len() == wa.len() - 2);
        assert(b.text.len() == wb.len() - 2);
        assert forall|i: int| 0 <= i < a.text.len() implies a.text[i] == b.text[i] by {
            assert(wa[i + 2] == a.text[i] as u64);
            assert(wb[i + 2] == b.text[i] as u64);
        }
    }
}

} // verus!
