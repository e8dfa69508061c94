//! What is done to the tokens of a file before they are hashed.

pub mod whitespace_removal;
