//! The relative tokenizer: symbols are named by how far back they last
//! occurred, so that renaming them changes nothing.

pub mod parser;

use crate::lexing::relative::parser::{parse, parsed};
use crate::lexing::rules::{lex_tokens, lexed};
use crate::token::spanned_views;
pub use crate::token::Token;
use std::ops::Range;
use vstd::prelude::*;
use vstd::string::StringSliceAdditionalSpecFns;

verus! {

/// Cuts a text into tokens and replaces every symbol by a key symbol or a
/// relative symbol.
#[must_use]
pub fn lex(s: &str) -> (tokens: Vec<(Token, Range<usize>)>)
    ensures
        spanned_views(tokens@) == parsed(lexed(s.spec_bytes(), false)),
{
    let tokens = lex_tokens(s, false);

    // Perform a simple parsing pass, replacing `Symbol`s with `KeySymbol`s and `RelativeSymbol`s
    parse(tokens)
}

} // verus!
