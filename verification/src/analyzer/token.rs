use vstd::prelude::*;

use crate::types::Position;

verus! {

/// A piece of text cut out of an input, before normalization.
#[derive(Debug, Clone)]
pub struct RawToken {
    pub text: String,
    pub position: Position,
    pub start_byte: usize,
    pub end_byte: usize,
}

/// A normalized piece of text with where it was found.
#[derive(Debug, Clone)]
pub struct Token {
    pub text: String,
    pub position: Position,
    pub start_byte: usize,
    pub end_byte: usize,
}

} // verus!
