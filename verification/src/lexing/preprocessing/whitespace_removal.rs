//! Dropping whitespace, newlines and comments from a stream of tokens.

use crate::token::{is_trivia, numeric, spanned_views, Token, TokenKind, TokenView};
use std::ops::Range;
use vstd::prelude::*;

verus! {

/// Whether a token stays when whitespace, newlines and comments go.
pub open spec fn stays(token: (TokenView, Range<usize>)) -> bool {
    !is_trivia(token.0.kind)
}

/// The tokens without whitespace, newlines and comments.
pub open spec fn without_trivia(tokens: Seq<(TokenView, Range<usize>)>) -> Seq<
    (TokenView, Range<usize>),
> {
    tokens.filter(|t: (TokenView, Range<usize>)| stays(t))
}

/// How many of the first `i` tokens are whitespace, newlines or comments.
pub open spec fn trivia_before(tokens: Seq<(TokenView, Range<usize>)>, i: int) -> nat
    decreases i,
{
    if i <= 0 {
        0
    } else {
        let one: nat = if is_trivia(tokens[i - 1].0.kind) {
            1
        } else {
            0
        };
        trivia_before(tokens, i - 1) + one
    }
}

/// How many of the `n` tokens just before token `i` are whitespace, newlines
/// or comments. Where fewer than `n` tokens stand before token `i`, all of
/// them are looked at.
pub open spec fn trivia_in_last(tokens: Seq<(TokenView, Range<usize>)>, i: int, n: int) -> int {
    trivia_before(tokens, i) - trivia_before(
        tokens,
        if n >= i {
            0
        } else {
            i - n
        },
    )
}

/// Token `i` as it is once the tokens before it have gone: the offset of a
/// relative symbol no longer counts the tokens that went, among the tokens
/// between it and where it points. An offset of 0 stays 0.
pub open spec fn adjusted(tokens: Seq<(TokenView, Range<usize>)>, i: int) -> (
    TokenView,
    Range<usize>,
) {
    let token = tokens[i];
    if token.0.kind == TokenKind::RelativeSymbol && token.0.number > 0 {
        (
            numeric(
                TokenKind::RelativeSymbol,
                token.0.number - trivia_in_last(tokens, i, token.0.number - 1),
            ),
            token.1,
        )
    } else {
        token
    }
}

/// All tokens with their offsets adjusted.
pub open spec fn all_adjusted(tokens: Seq<(TokenView, Range<usize>)>) -> Seq<
    (TokenView, Range<usize>),
> {
    Seq::new(tokens.len(), |i: int| adjusted(tokens, i))
}

/// The tokens without whitespace, newlines and comments, the offsets of the
/// relative symbols adjusted to what is left.
pub open spec fn without_trivia_relative(tokens: Seq<(TokenView, Range<usize>)>) -> Seq<
    (TokenView, Range<usize>),
> {
    without_trivia(all_adjusted(tokens))
}

/// Between two places there are no more tokens to drop than there are
/// tokens.
pub proof fn lemma_trivia_before(tokens: Seq<(TokenView, Range<usize>)>, from: int, to: int)
    requires
        0 <= from <= to,
    ensures
        trivia_before(tokens, from) <= trivia_before(tokens, to),
        trivia_before(tokens, to) - trivia_before(tokens, from) <= to - from,
    decreases to - from,
{
    if from < to {
        lemma_trivia_before(tokens, from, to - 1);
    }
}

/// Removes whitespace, comments, and newline tokens from the given token
/// stream, updating the offsets of `RelativeSymbol` tokens as necessary.
pub fn remove_whitespace_relative<'source>(tokens: Vec<(Token<'source>, Range<usize>)>) -> (kept: Vec<
    (Token<'source>, Range<usize>),
>)
    ensures
        spanned_views(kept@) == without_trivia_relative(spanned_views(tokens@)),
{
    let ghost before = spanned_views(tokens@);
    let ghost all = all_adjusted(before);
    let ghost staying = |t: (TokenView, Range<usize>)| stays(t);
    // For each index in tokens, the number of tokens removed before it.
    let mut removed: Vec<usize> = Vec::new();
    let mut count: usize = 0;
    let mut kept: Vec<(Token<'source>, Range<usize>)> = Vec::new();
    let mut at: usize = 0;
    let n: usize = tokens.len();
    proof {
        assert(all.take(0) =~= Seq::empty());
        assert(all.take(0).filter(staying) =~= Seq::empty());
        assert(spanned_views(kept@) =~= Seq::empty());
    }
    for item in it: tokens
        invariant
            at == it.index(),
            n == it.seq().len(),
            before == spanned_views(it.seq()),
            all == all_adjusted(before),
            staying == |t: (TokenView, Range<usize>)| stays(t),
            removed@.len() == at,
            forall|j: int| 0 <= j < at ==> (#[trigger] removed@[j]) == trivia_before(before, j),
            count == trivia_before(before, at as int),
            count <= at,
            spanned_views(kept@) == all.take(at as int).filter(staying),
    {
        let ghost i = at as int;
        let ghost old_kept = kept@;
        proof {
            assert(before[i] == (item.0@, item.1));
            all.take(i).lemma_filter_push(all[i], staying);
            assert(all.take(i + 1) =~= all.take(i).push(all[i]));
        }
        removed.push(count);
        let (token, range) = item;
        match token {
            // Remove whitespace, comments, and newline tokens
            Token::Whitespace | Token::Newline | Token::Comment(_) => {
                count += 1;
            },
            // Adjust offset of RelativeSymbol tokens
            Token::RelativeSymbol(offset) => {
                let tokens_removed: usize = if offset == 0 {
                    0
                } else {
                    let from: usize = if offset - 1 >= at {
                        0
                    } else {
                        at - (offset - 1)
                    };
                    proof {
                        lemma_trivia_before(before, from as int, i);
                    }
                    count - removed[from]
                };
                kept.push((Token::RelativeSymbol(offset - tokens_removed), range));
                proof {
                    assert(spanned_views(kept@) =~= spanned_views(old_kept).push(all[i]));
                }
            },
            // Keep other tokens as is
            _ => {
                kept.push((token, range));
                proof {
                    assert(spanned_views(kept@) =~= spanned_views(old_kept).push(all[i]));
                }
            },
        }
        at += 1;
    }
    proof {
        assert(all.take(at as int) =~= all);
    }
    kept
}

/// Removes whitespace, comments, and newline tokens from the given token
/// stream.
pub fn remove_whitespace_naive<'source>(tokens: Vec<(Token<'source>, Range<usize>)>) -> (kept: Vec<
    (Token<'source>, Range<usize>),
>)
    ensures
        spanned_views(kept@) == without_trivia(spanned_views(tokens@)),
{
    let ghost before = spanned_views(tokens@);
    let ghost staying = |t: (TokenView, Range<usize>)| stays(t);
    let mut kept: Vec<(Token<'source>, Range<usize>)> = Vec::new();
    proof {
        assert(before.take(0) =~= Seq::empty());
        assert(before.take(0).filter(staying) =~= Seq::empty());
        assert(spanned_views(kept@) =~= Seq::empty());
    }
    for item in it: tokens
        invariant
            before == spanned_views(it.seq()),
            staying == |t: (TokenView, Range<usize>)| stays(t),
            spanned_views(kept@) == before.take(it.index() as int).filter(staying),
    {
        let ghost i = it.index() as int;
        let ghost old_kept = kept@;
        proof {
            assert(before[i] == (item.0@, item.1));
            before.take(i).lemma_filter_push(before[i], staying);
            assert(before.take(i + 1) =~= before.take(i).push(before[i]));
        }
        if !item.0.is_trivia() {
            kept.push(item);
            proof {
                assert(spanned_views(kept@) =~= spanned_views(old_kept).push(before[i]));
            }
        }
    }
    proof {
        assert(before.take(before.len() as int) =~= before);
    }
    kept
}

} // verus!
