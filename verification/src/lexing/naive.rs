//! The naive tokenizer: the tokens as they stand in the text.

use crate::lexing::rules::{lex_tokens, lexed};
use crate::token::spanned_views;
pub use crate::token::Token;
use std::ops::Range;
use vstd::prelude::*;
use vstd::string::StringSliceAdditionalSpecFns;

verus! {

/// Cuts a text into tokens. A symbol with a colon right behind it is a label.
#[must_use]
pub fn lex(s: &str) -> (tokens: Vec<(Token, Range<usize>)>)
    ensures
        spanned_views(tokens@) == lexed(s.spec_bytes(), true),
{
    lex_tokens(s, true)
}

} // verus!
