//! The failures of the lexer.

use vstd::prelude::*;

verus! {

/// Why a lexeme is none.
#[derive(Debug, PartialEq, Eq, Clone, Copy, Structural)]
pub enum LexerError {
    UnknownCharacter,
    UnterminatedString,
    UnterminatedFractionalNumber,
    InvalidExponent,
    InvalidNumber,
}

impl LexerError {
    /// The failure in words.
    pub open spec fn message(self) -> Seq<char> {
        match self {
            LexerError::UnknownCharacter => "Unknown Character"@,
            LexerError::UnterminatedString => "Unterminated String"@,
            LexerError::UnterminatedFractionalNumber => "Unterminated Fractional Number"@,
            LexerError::InvalidExponent => "Invalid Exponent"@,
            LexerError::InvalidNumber => "Invalid Number"@,
        }
    }

    pub fn to_string(&self) -> (shown: String)
        ensures
            shown@ == self.message(),
    {
        match self {
            LexerError::UnknownCharacter => String::from_str("Unknown Character"),
            LexerError::UnterminatedString => String::from_str("Unterminated String"),
            LexerError::UnterminatedFractionalNumber => String::from_str(
                "Unterminated Fractional Number",
            ),
            LexerError::InvalidExponent => String::from_str("Invalid Exponent"),
            LexerError::InvalidNumber => String::from_str("Invalid Number"),
        }
    }
}

} // verus!
