//! Tokens: classified, positioned slices of a source.

use vstd::prelude::*;
use crate::token_type::TokenType;

verus! {

/// A classified, positioned slice of the source.
///
/// `indices` is the half-open byte range of the token in the source;
/// `column_indices` is the half-open range of 1-based columns it covers on
/// its line. A token owns no text: its text is the source between `indices`.
#[derive(Debug, PartialEq, Eq, Clone, Copy)]
pub struct Token {
    pub token_type: TokenType,
    pub line_number: usize,
    pub indices: (usize, usize),
    pub column_indices: (usize, usize),
}

impl Token {
    pub fn new(
        token_type: TokenType,
        line_number: usize,
        indices: (usize, usize),
        column_indices: (usize, usize),
    ) -> (token: Self)
        ensures
            token == (Token { token_type, line_number, indices, column_indices }),
    {
        Self { token_type, line_number, indices, column_indices }
    }
}

} // verus!
