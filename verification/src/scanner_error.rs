//! The failures of the scanner, each with its preview.

use vstd::prelude::*;
use crate::scanner_error_update::ErrorType;

verus! {

/// Why a source is no sequence of tokens. Each failure carries the preview
/// of the source at the place where it was found.
#[derive(Debug, PartialEq)]
pub enum ScannerError {
    EmptySource { error: String },
    UnknownCharacter { error: String },
    UnknownLiteral { error: String },
    UnterminatedString { error: String },
    UnterminatedFractionalNumber { error: String },
    LeadingZeros { error: String },
    InvalidExponent { error: String },
    InvalidNumber { error: String },
    InvalidEscapeSequence { error: String },
    InvalidUnicodeSequence { error: String },
}

impl ScannerError {
    /// Which failure this is.
    pub open spec fn error_type(self) -> ErrorType {
        match self {
            ScannerError::EmptySource { .. } => ErrorType::EmptySource,
            ScannerError::UnknownCharacter { .. } => ErrorType::UnknownCharacter,
            ScannerError::UnknownLiteral { .. } => ErrorType::UnknownLiteral,
            ScannerError::UnterminatedString { .. } => ErrorType::UnterminatedString,
            ScannerError::UnterminatedFractionalNumber { .. } =>
                ErrorType::UnterminatedFractionalNumber,
            ScannerError::LeadingZeros { .. } => ErrorType::LeadingZeros,
            ScannerError::InvalidExponent { .. } => ErrorType::InvalidExponent,
            ScannerError::InvalidNumber { .. } => ErrorType::InvalidNumber,
            ScannerError::InvalidEscapeSequence { .. } => ErrorType::InvalidEscapeSequence,
            ScannerError::InvalidUnicodeSequence { .. } => ErrorType::InvalidUnicodeSequence,
        }
    }

    /// The preview that the failure carries.
    pub open spec fn preview(self) -> Seq<char> {
        match self {
            ScannerError::EmptySource { error } => error@,
            ScannerError::UnknownCharacter { error } => error@,
            ScannerError::UnknownLiteral { error } => error@,
            ScannerError::UnterminatedString { error } => error@,
            ScannerError::UnterminatedFractionalNumber { error } => error@,
            ScannerError::LeadingZeros { error } => error@,
            ScannerError::InvalidExponent { error } => error@,
            ScannerError::InvalidNumber { error } => error@,
            ScannerError::InvalidEscapeSequence { error } => error@,
            ScannerError::InvalidUnicodeSequence { error } => error@,
        }
    }

    /// The failure in words: its name, then its preview.
    pub open spec fn message(self) -> Seq<char> {
        self.error_type().text() + seq![' '] + self.preview()
    }

    /// The failure of the given type with the given preview.
    pub fn of(error_type: ErrorType, error: String) -> (failure: Self)
        ensures
            failure.error_type() == error_type,
            failure.preview() == error@,
    {
        match error_type {
            ErrorType::EmptySource => ScannerError::EmptySource { error },
            ErrorType::UnknownCharacter => ScannerError::UnknownCharacter { error },
            ErrorType::UnknownLiteral => ScannerError::UnknownLiteral { error },
            ErrorType::UnterminatedString => ScannerError::UnterminatedString { error },
            ErrorType::UnterminatedFractionalNumber => ScannerError::UnterminatedFractionalNumber {
                error,
            },
            ErrorType::LeadingZeros => ScannerError::LeadingZeros { error },
            ErrorType::InvalidExponent => ScannerError::InvalidExponent { error },
            ErrorType::InvalidNumber => ScannerError::InvalidNumber { error },
            ErrorType::InvalidEscapeSequence => ScannerError::InvalidEscapeSequence { error },
            ErrorType::InvalidUnicodeSequence => ScannerError::InvalidUnicodeSequence { error },
        }
    }

    pub fn to_string(&self) -> (shown: String)
        ensures
            shown@ == self.message(),
    {
        proof {
            reveal_strlit(" ");
        }
        let (mut shown, error) = match self {
            ScannerError::EmptySource { error } => (String::from_str("Empty source"), error),
            ScannerError::UnknownCharacter { error } => (
                String::from_str("Unknown character"),
                error,
            ),
            ScannerError::UnknownLiteral { error } => (String::from_str("Unknown literal"), error),
            ScannerError::UnterminatedString { error } => (
                String::from_str("Unterminated string"),
                error,
            ),
            ScannerError::UnterminatedFractionalNumber { error } => (
                String::from_str("Unterminated fractional number"),
                error,
            ),
            ScannerError::LeadingZeros { error } => (String::from_str("Leading zeros"), error),
            ScannerError::InvalidExponent { error } => (
                String::from_str("Invalid exponent"),
                error,
            ),
            ScannerError::InvalidNumber { error } => (String::from_str("Invalid number"), error),
            ScannerError::InvalidEscapeSequence { error } => (
                String::from_str("Invalid escape sequence"),
                error,
            ),
            ScannerError::InvalidUnicodeSequence { error } => (
                String::from_str("Invalid unicode sequence"),
                error,
            ),
        };
        shown.append(" ");
        shown.append(error.as_str());
        assert(shown@ =~= self.message());
        shown
    }
}

} // verus!
