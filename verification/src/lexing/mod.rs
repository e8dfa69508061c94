//! From the text of a file to its stream of hashed tokens.

pub mod chars;
pub mod naive;
pub mod preprocessing;
pub mod relative;
pub mod rules;
pub mod scan;

use crate::hashing::{fx_digest, hash_word};
use crate::lexing::preprocessing::whitespace_removal::{
    all_adjusted, remove_whitespace_naive, remove_whitespace_relative, stays, without_trivia,
    without_trivia_relative,
};
use crate::lexing::relative::parser::parsed;
use crate::lexing::rules::{lemma_lexed_ordered, lexed};
use crate::sequences::{lemma_filter_ordered, lemma_same_spans_ordered, ordered};
use crate::token::{hash_token, numeric, spanned_views, token_code, Token, TokenKind, TokenView};
use std::ops::Range;
use vstd::prelude::*;
use vstd::string::StringSliceAdditionalSpecFns;

verus! {

/// How the text of a file is cut into tokens.
#[derive(Debug, Clone, Copy, PartialEq, Eq, Structural)]
pub enum TokenizingStrategy {
    /// Do not tokenize the input. Instead, process the input as a sequence of bytes.
    Bytes,
    /// Tokenize the input using a best-effort, naive GNU ARMv7 assembly tokenizer.
    Naive,
    /// Tokenize the input using a more conservative and transformation-resistant GNU ARM assembly tokenizer.
    ///
    /// This tokenizer represents symbols using relative offsets from their last occurrence in the token sequence.
    /// This requires an additional pass over the input to compute the offsets and identify key symbols
    /// (i.e. instructions and directives).
    Relative,
}

/// The stream of a text in which every byte is a token of its own.
pub open spec fn hashed_bytes(bytes: Seq<u8>) -> Seq<(u64, Range<usize>)> {
    Seq::new(
        bytes.len(),
        |i: int| (fx_digest(seq![bytes[i] as u64]), Range { start: i as usize, end: (i + 1) as usize }),
    )
}

/// A token as it is hashed: a relative symbol whose offset is larger than
/// `max_token_offset` counts as a first use, with offset 0.
pub open spec fn limited(token: TokenView, max_token_offset: int) -> TokenView {
    if token.kind == TokenKind::RelativeSymbol && token.number > max_token_offset {
        numeric(TokenKind::RelativeSymbol, 0)
    } else {
        token
    }
}

/// The tokens hashed one by one, each with its span.
pub open spec fn hashed_tokens(tokens: Seq<(TokenView, Range<usize>)>, max_token_offset: int) -> Seq<
    (u64, Range<usize>),
> {
    tokens.map_values(
        |t: (TokenView, Range<usize>)| (token_code(limited(t.0, max_token_offset)), t.1),
    )
}

/// The tokens of a text as the naive strategy sees them.
pub open spec fn naive_tokens(bytes: Seq<u8>, ignore_whitespace: bool) -> Seq<
    (TokenView, Range<usize>),
> {
    if ignore_whitespace {
        without_trivia(lexed(bytes, true))
    } else {
        lexed(bytes, true)
    }
}

/// The tokens of a text as the relative strategy sees them.
pub open spec fn relative_tokens(bytes: Seq<u8>, ignore_whitespace: bool) -> Seq<
    (TokenView, Range<usize>),
> {
    if ignore_whitespace {
        without_trivia_relative(parsed(lexed(bytes, false)))
    } else {
        parsed(lexed(bytes, false))
    }
}

/// The stream of hashed tokens of a text. Bytes are never dropped as
/// whitespace, and only relative symbols have an offset to limit.
pub open spec fn hashed_stream(
    bytes: Seq<u8>,
    tokenizing_strategy: TokenizingStrategy,
    ignore_whitespace: bool,
    max_token_offset: int,
) -> Seq<(u64, Range<usize>)> {
    match tokenizing_strategy {
        TokenizingStrategy::Bytes => hashed_bytes(bytes),
        TokenizingStrategy::Naive => hashed_tokens(
            naive_tokens(bytes, ignore_whitespace),
            max_token_offset,
        ),
        TokenizingStrategy::Relative => hashed_tokens(
            relative_tokens(bytes, ignore_whitespace),
            max_token_offset,
        ),
    }
}

/// Hashes every token with a hasher of its own.
fn hash_tokens(tokens: &Vec<(Token, Range<usize>)>, max_token_offset: usize) -> (hashes: Vec<
    (u64, Range<usize>),
>)
    ensures
        hashes@ == hashed_tokens(spanned_views(tokens@), max_token_offset as int),
{
    let n: usize = tokens.len();
    let ghost expected = hashed_tokens(spanned_views(tokens@), max_token_offset as int);
    let mut hashes: Vec<(u64, Range<usize>)> = Vec::new();
    let mut i: usize = 0;
    while i < n
        invariant
            n == tokens@.len(),
            i <= n,
            expected == hashed_tokens(spanned_views(tokens@), max_token_offset as int),
            hashes@.len() == i,
            forall|j: int| 0 <= j < i ==> hashes@[j] == expected[j],
        decreases n - i,
    {
        let far: bool = match tokens[i].0 {
            Token::RelativeSymbol(offset) => offset > max_token_offset,
            _ => false,
        };
        let code: u64 = if far {
            hash_token(&Token::RelativeSymbol(0))
        } else {
            hash_token(&tokens[i].0)
        };
        hashes.push((code, tokens[i].1.start..tokens[i].1.end));
        i += 1;
    }
    proof {
        assert(hashes@ =~= expected);
    }
    hashes
}

/// Cuts a text into tokens and hashes each of them, keeping the bytes that
/// each token covers.
pub fn tokenize_and_hash(
    string: &str,
    tokenizing_strategy: TokenizingStrategy,
    ignore_whitespace: bool,
    max_token_offset: usize,
) -> (hashes: Vec<(u64, Range<usize>)>)
    ensures
        hashes@ == hashed_stream(
            string.spec_bytes(),
            tokenizing_strategy,
            ignore_whitespace,
            max_token_offset as int,
        ),
{
    match tokenizing_strategy {
        TokenizingStrategy::Bytes => {
            // Use bytes instead of chars since it shouldn't affect the result and is faster.
            let characters = string.as_bytes();
            let n: usize = characters.len();
            let mut hashes: Vec<(u64, Range<usize>)> = Vec::new();
            let mut i: usize = 0;
            while i < n
                invariant
                    n == characters@.len(),
                    i <= n,
                    hashes@.len() == i,
                    forall|j: int| 0 <= j < i ==> hashes@[j] == hashed_bytes(characters@)[j],
                decreases n - i,
            {
                let code = hash_word(characters[i] as u64);
                hashes.push((code, i..i + 1));
                i += 1;
            }
            proof {
                assert(hashes@ =~= hashed_bytes(characters@));
            }
            hashes
        },
        TokenizingStrategy::Naive => {
            let mut tokens = naive::lex(string);
            if ignore_whitespace {
                tokens = remove_whitespace_naive(tokens);
            }
            hash_tokens(&tokens, max_token_offset)
        },
        TokenizingStrategy::Relative => {
            let mut tokens = relative::lex(string);
            if ignore_whitespace {
                tokens = remove_whitespace_relative(tokens);
            }
            hash_tokens(&tokens, max_token_offset)
        },
    }
}

/// The hashed tokens of a text stand in the order of the text, whatever the
/// strategy: each starts behind the start and ends behind the end of the one
/// before, so that no two of them cover the same bytes.
pub proof fn lemma_hashed_stream_ordered(
    bytes: Seq<u8>,
    tokenizing_strategy: TokenizingStrategy,
    ignore_whitespace: bool,
    max_token_offset: int,
)
    requires
        bytes.len() <= usize::MAX,
    ensures
        ordered(hashed_stream(bytes, tokenizing_strategy, ignore_whitespace, max_token_offset)),
{
    match tokenizing_strategy {
        TokenizingStrategy::Bytes => {},
        TokenizingStrategy::Naive => {
            let tokens = lexed(bytes, true);
            lemma_lexed_ordered(bytes, 0, true);
            lemma_filter_ordered(tokens, |t: (TokenView, Range<usize>)| stays(t));
            let seen = naive_tokens(bytes, ignore_whitespace);
            lemma_same_spans_ordered(seen, hashed_tokens(seen, max_token_offset));
        },
        TokenizingStrategy::Relative => {
            let tokens = lexed(bytes, false);
            lemma_lexed_ordered(bytes, 0, false);
            lemma_same_spans_ordered(tokens, parsed(tokens));
            lemma_same_spans_ordered(parsed(tokens), all_adjusted(parsed(tokens)));
            lemma_filter_ordered(
                all_adjusted(parsed(tokens)),
                |t: (TokenView, Range<usize>)| stays(t),
            );
            let seen = relative_tokens(bytes, ignore_whitespace);
            lemma_same_spans_ordered(seen, hashed_tokens(seen, max_token_offset));
        },
    }
}

} // verus!
