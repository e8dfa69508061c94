//! The second pass of the relative tokenizer. It goes through the tokens
//! statement by statement. The first symbol of a statement that is no label
//! is its key symbol; every other symbol becomes a relative symbol.

use crate::text::lemma_bytes_of_injective;
use crate::token::{numeric, spanned_views, textual, Token, TokenKind, TokenView};
use std::ops::Range;
use vstd::prelude::*;
use vstd::utf8::encode_utf8;

verus! {

/// Whether a colon follows token `i` at once.
pub open spec fn next_is_colon(tokens: Seq<(TokenView, Range<usize>)>, i: int) -> bool {
    i + 1 < tokens.len() && tokens[i + 1].0.kind == TokenKind::Colon
}

/// Whether token `i` stands behind the key symbol of its statement. A
/// statement ends with a newline; its key symbol is its first symbol that no
/// colon follows at once.
pub open spec fn in_tail(tokens: Seq<(TokenView, Range<usize>)>, i: int) -> bool
    decreases i,
{
    if i <= 0 {
        false
    } else if tokens[i - 1].0.kind == TokenKind::Newline {
        false
    } else if tokens[i - 1].0.kind == TokenKind::Symbol && !in_tail(tokens, i - 1)
        && !next_is_colon(tokens, i - 1) {
        true
    } else {
        in_tail(tokens, i - 1)
    }
}

/// Whether token `i` is the key symbol of its statement: the first symbol of
/// the statement that is no label. A symbol is a label if a colon follows it
/// at once.
pub open spec fn is_key(tokens: Seq<(TokenView, Range<usize>)>, i: int) -> bool {
    tokens[i].0.kind == TokenKind::Symbol && !in_tail(tokens, i) && !next_is_colon(tokens, i)
}

/// Whether token `i` is a symbol that becomes a relative symbol: a label, or
/// a symbol behind the key symbol of its statement.
pub open spec fn is_relative(tokens: Seq<(TokenView, Range<usize>)>, i: int) -> bool {
    tokens[i].0.kind == TokenKind::Symbol && !is_key(tokens, i)
}

/// The last token before token `i` that is a relative symbol of the given
/// text, or -1 if there is none.
pub open spec fn previous_use(tokens: Seq<(TokenView, Range<usize>)>, i: int, text: Seq<u8>) -> int
    decreases i,
{
    if i <= 0 {
        -1
    } else if is_relative(tokens, i - 1) && tokens[i - 1].0.text == text {
        i - 1
    } else {
        previous_use(tokens, i - 1, text)
    }
}

/// The number of tokens from the last use of the text of token `i` to token
/// `i`, or 0 if it was never used before.
pub open spec fn offset_at(tokens: Seq<(TokenView, Range<usize>)>, i: int) -> int {
    let last = previous_use(tokens, i, tokens[i].0.text);
    if last >= 0 {
        i - last
    } else {
        0
    }
}

/// Token `i` after the second pass.
pub open spec fn rewritten(tokens: Seq<(TokenView, Range<usize>)>, i: int) -> (
    TokenView,
    Range<usize>,
) {
    let token = tokens[i];
    if is_key(tokens, i) {
        (textual(TokenKind::KeySymbol, token.0.text), token.1)
    } else if is_relative(tokens, i) {
        (numeric(TokenKind::RelativeSymbol, offset_at(tokens, i)), token.1)
    } else {
        token
    }
}

/// The tokens after the second pass.
pub open spec fn parsed(tokens: Seq<(TokenView, Range<usize>)>) -> Seq<(TokenView, Range<usize>)> {
    Seq::new(tokens.len(), |i: int| rewritten(tokens, i))
}

/// Whether the table of uses is right for the tokens before token `at`: it
/// holds every text that a relative symbol before `at` has, once, with the
/// place of its last use.
#[verifier::opaque]
pub open spec fn tracks(
    uses: Seq<(String, usize)>,
    tokens: Seq<(TokenView, Range<usize>)>,
    at: int,
) -> bool {
    &&& forall|a: int|
        0 <= a < uses.len() ==> previous_use(tokens, at, encode_utf8((#[trigger] uses[a]).0@))
            == uses[a].1
    &&& forall|a: int, b: int|
        0 <= a < b < uses.len() ==> (#[trigger] uses[a]).0@ != (#[trigger] uses[b]).0@
    &&& forall|text: Seq<u8>|
        #[trigger] previous_use(tokens, at, text) >= 0 ==> exists|a: int|
            0 <= a < uses.len() && encode_utf8((#[trigger] uses[a]).0@) == text
}

/// A token that is no relative symbol leaves the table of uses right.
pub proof fn lemma_tracks_skip(
    uses: Seq<(String, usize)>,
    tokens: Seq<(TokenView, Range<usize>)>,
    at: int,
)
    requires
        0 <= at < tokens.len(),
        tracks(uses, tokens, at),
        !is_relative(tokens, at),
    ensures
        tracks(uses, tokens, at + 1),
{
    reveal(tracks);
    assert forall|text: Seq<u8>| #[trigger]
        previous_use(tokens, at + 1, text) >= 0 implies exists|a: int|
        0 <= a < uses.len() && encode_utf8((#[trigger] uses[a]).0@) == text by {
        assert(previous_use(tokens, at + 1, text) == previous_use(tokens, at, text));
    }
    assert forall|a: int| 0 <= a < uses.len() implies previous_use(
        tokens,
        at + 1,
        encode_utf8((#[trigger] uses[a]).0@),
    ) == uses[a].1 by {
        assert(previous_use(tokens, at + 1, encode_utf8(uses[a].0@)) == previous_use(
            tokens,
            at,
            encode_utf8(uses[a].0@),
        ));
    }
}

/// Before the first token nothing was used.
pub proof fn lemma_tracks_start(tokens: Seq<(TokenView, Range<usize>)>)
    ensures
        tracks(Seq::empty(), tokens, 0),
{
    reveal(tracks);
}

/// The place of `symbol` in the table of uses, or the length of the table.
fn find_symbol(symbol_occurrences: &Vec<(String, usize)>, symbol: &String) -> (at: usize)
    ensures
        at <= symbol_occurrences@.len(),
        at < symbol_occurrences@.len() ==> symbol_occurrences@[at as int].0@ == symbol@,
        forall|b: int| 0 <= b < at ==> (#[trigger] symbol_occurrences@[b]).0@ != symbol@,
{
    let n: usize = symbol_occurrences.len();
    let mut a: usize = 0;
    while a < n
        invariant
            n == symbol_occurrences@.len(),
            a <= n,
            forall|b: int| 0 <= b < a ==> (#[trigger] symbol_occurrences@[b]).0@ != symbol@,
        decreases n - a,
    {
        if symbol_occurrences[a].0 == *symbol {
            return a;
        }
        a += 1;
    }
    n
}

/// Gives the relative symbol for a symbol at token `at`: the number of tokens
/// since the symbol was last used, or 0 if this is its first use. Notes the
/// use.
fn relative_symbol<'source>(
    symbol_occurrences: &mut Vec<(String, usize)>,
    symbol: String,
    at: usize,
    Ghost(tokens): Ghost<Seq<(TokenView, Range<usize>)>>,
) -> (token: Token<'source>)
    requires
        at < tokens.len(),
        tracks(old(symbol_occurrences)@, tokens, at as int),
        is_relative(tokens, at as int),
        tokens[at as int].0.text == encode_utf8(symbol@),
    ensures
        tracks(final(symbol_occurrences)@, tokens, at + 1),
        token@ == numeric(TokenKind::RelativeSymbol, offset_at(tokens, at as int)),
{
    reveal(tracks);
    let ghost text = encode_utf8(symbol@);
    let ghost before = symbol_occurrences@;
    let n: usize = symbol_occurrences.len();
    let a = find_symbol(symbol_occurrences, &symbol);
    if a < n {
        let last: usize = symbol_occurrences[a].1;
        proof {
            assert(before[a as int].0@ == symbol@);
            assert(previous_use(tokens, at as int, text) == last);
            lemma_previous_use_before(tokens, at as int, text);
        }
        symbol_occurrences[a].1 = at;
        proof {
            let after = symbol_occurrences@;
            assert(after[a as int].0@ == symbol@);
            assert forall|b: int| 0 <= b < after.len() implies previous_use(
                tokens,
                at + 1,
                encode_utf8((#[trigger] after[b]).0@),
            ) == after[b].1 by {
                if b != a {
                    assert(after[b] == before[b]);
                    if b < a {
                        assert(before[b].0@ != before[a as int].0@);
                    } else {
                        assert(before[a as int].0@ != before[b].0@);
                    }
                    lemma_bytes_of_injective(before[b].0@, symbol@);
                    assert(previous_use(tokens, at + 1, encode_utf8(before[b].0@)) == previous_use(
                        tokens,
                        at as int,
                        encode_utf8(before[b].0@),
                    ));
                }
            }
            assert forall|x: int, y: int| 0 <= x < y < after.len() implies (#[trigger] after[x]).0@
                != (#[trigger] after[y]).0@ by {
                assert(after[x].0@ == before[x].0@);
                assert(after[y].0@ == before[y].0@);
            }
            assert forall|other: Seq<u8>| #[trigger]
                previous_use(tokens, at + 1, other) >= 0 implies exists|b: int|
                0 <= b < after.len() && encode_utf8((#[trigger] after[b]).0@) == other by {
                if other == text {
                    assert(encode_utf8(after[a as int].0@) == other);
                } else {
                    assert(previous_use(tokens, at + 1, other) == previous_use(
                        tokens,
                        at as int,
                        other,
                    ));
                    let b = choose|b: int|
                        0 <= b < before.len() && encode_utf8((#[trigger] before[b]).0@) == other;
                    assert(encode_utf8(after[b].0@) == other);
                }
            }
        }
        Token::RelativeSymbol(at - last)
    } else {
        proof {
            if previous_use(tokens, at as int, text) >= 0 {
                let b = choose|b: int|
                    0 <= b < before.len() && encode_utf8((#[trigger] before[b]).0@) == text;
                lemma_bytes_of_injective(before[b].0@, symbol@);
                assert(before[b].0@ != symbol@);
            }
            lemma_previous_use_before(tokens, at as int, text);
        }
        symbol_occurrences.push((symbol, at));
        proof {
            let after = symbol_occurrences@;
            assert forall|b: int| 0 <= b < after.len() implies previous_use(
                tokens,
                at + 1,
                encode_utf8((#[trigger] after[b]).0@),
            ) == after[b].1 by {
                if b < before.len() {
                    assert(after[b] == before[b]);
                    lemma_bytes_of_injective(before[b].0@, symbol@);
                    assert(previous_use(tokens, at + 1, encode_utf8(before[b].0@)) == previous_use(
                        tokens,
                        at as int,
                        encode_utf8(before[b].0@),
                    ));
                }
            }
            assert forall|x: int, y: int| 0 <= x < y < after.len() implies (#[trigger] after[x]).0@
                != (#[trigger] after[y]).0@ by {
                if y < before.len() {
                    assert(before[x].0@ != before[y].0@);
                } else {
                    assert(after[x] == before[x]);
                }
            }
            assert forall|other: Seq<u8>| #[trigger]
                previous_use(tokens, at + 1, other) >= 0 implies exists|b: int|
                0 <= b < after.len() && encode_utf8((#[trigger] after[b]).0@) == other by {
                if other == text {
                    assert(encode_utf8(after[after.len() - 1].0@) == other);
                } else {
                    assert(previous_use(tokens, at + 1, other) == previous_use(
                        tokens,
                        at as int,
                        other,
                    ));
                    let b = choose|b: int|
                        0 <= b < before.len() && encode_utf8((#[trigger] before[b]).0@) == other;
                    assert(encode_utf8(after[b].0@) == other);
                }
            }
        }
        Token::RelativeSymbol(0)
    }
}

/// The last use of a text stands before the token that asks for it.
pub proof fn lemma_previous_use_before(
    tokens: Seq<(TokenView, Range<usize>)>,
    i: int,
    text: Seq<u8>,
)
    ensures
        -1 <= previous_use(tokens, i, text),
        previous_use(tokens, i, text) < i || i <= 0,
    decreases i,
{
    if i > 0 {
        lemma_previous_use_before(tokens, i - 1, text);
    }
}

/// Replaces the instruction or directive of every statement by a key symbol
/// and every other symbol by a relative symbol.
///
/// Each statement, delimited by newlines, begins with zero or more labels,
/// followed by its key symbol. Empty statements are allowed, and all tokens
/// but symbols are left as they are.
pub fn parse<'source>(tokens: Vec<(Token<'source>, Range<usize>)>) -> (result: Vec<
    (Token<'source>, Range<usize>),
>)
    ensures
        spanned_views(result@) == parsed(spanned_views(tokens@)),
{
    let ghost before = spanned_views(tokens@);
    let n: usize = tokens.len();
    let mut colons: Vec<bool> = Vec::new();
    let mut j: usize = 0;
    while j < n
        invariant
            n == tokens@.len(),
            j <= n,
            before == spanned_views(tokens@),
            colons@.len() == j,
            forall|x: int|
                0 <= x < j ==> (#[trigger] colons@[x]) == (before[x].0.kind == TokenKind::Colon),
        decreases n - j,
    {
        let colon: bool = match tokens[j].0 {
            Token::Colon => true,
            _ => false,
        };
        colons.push(colon);
        j += 1;
    }
    let mut result: Vec<(Token<'source>, Range<usize>)> = Vec::new();
    // Maps symbol names to the last token index at which they were encountered
    let mut symbol_occurrences: Vec<(String, usize)> = Vec::new();
    let mut behind_key: bool = false;
    let mut at: usize = 0;
    proof {
        assert(parsed(before).take(0) =~= Seq::empty());
        assert(spanned_views(result@) =~= Seq::empty());
        lemma_tracks_start(before);
    }
    for item in it: tokens
        invariant
            at == it.index(),
            n == it.seq().len(),
            before == spanned_views(it.seq()),
            colons@.len() == n,
            forall|x: int|
                0 <= x < n ==> (#[trigger] colons@[x]) == (before[x].0.kind == TokenKind::Colon),
            behind_key == in_tail(before, at as int),
            tracks(symbol_occurrences@, before, at as int),
            spanned_views(result@) == parsed(before).take(at as int),
    {
        let ghost i = at as int;
        let ghost done = result@;
        proof {
            assert(before[i] == (item.0@, item.1));
            assert(parsed(before).take(i + 1) =~= parsed(before).take(i).push(rewritten(before, i)));
        }
        let label: bool = n - at >= 2 && colons[at + 1];
        let (token, span) = item;
        match token {
            Token::Newline => {
                proof {
                    lemma_tracks_skip(symbol_occurrences@, before, i);
                }
                behind_key = false;
                result.push((Token::Newline, span));
            },
            Token::Symbol(s) => {
                if !behind_key && !label {
                    // This is a key symbol
                    proof {
                        lemma_tracks_skip(symbol_occurrences@, before, i);
                    }
                    behind_key = true;
                    result.push((Token::KeySymbol(s), span));
                } else {
                    let relative = relative_symbol(&mut symbol_occurrences, s, at, Ghost(before));
                    result.push((relative, span));
                }
            },
            // All other tokens, even syntactically invalid ones, are returned as they are
            other => {
                proof {
                    lemma_tracks_skip(symbol_occurrences@, before, i);
                }
                result.push((other, span));
            },
        }
        proof {
            assert(spanned_views(result@) =~= spanned_views(done).push(rewritten(before, i)));
        }
        at += 1;
    }
    proof {
        assert(parsed(before).take(n as int) =~= parsed(before));
    }
    result
}

} // verus!
