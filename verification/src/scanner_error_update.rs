//! Failures of the scanner by their type, with a display and a hint.

use vstd::prelude::*;
use vstd::string::StringSliceAdditionalSpecFns;
use vstd::utf8::*;
use crate::error_display::{display_text, ErrorDisplay};

verus! {

/// A place in a source, from which its display can be rendered.
#[derive(Debug, PartialEq)]
pub struct Preview<'a> {
    pub source: &'a str,
    pub start: usize,
    pub column_start: usize,
    pub line: usize,
}

impl<'source> Preview<'source> {
    pub fn new(source: &'source str, start: usize, column_start: usize, line: usize) -> (place:
        Self)
        ensures
            place == (Preview { source, start, column_start, line }),
    {
        Self { source, start, column_start, line }
    }

    /// The display of the source at this place.
    pub fn preview(&'source self) -> (shown: String)
        requires
            is_char_boundary(self.source.spec_bytes(), self.start as int),
        ensures
            shown@ == display_text(self.source.spec_bytes(), self.start as int, self.line as nat),
    {
        let error_display = ErrorDisplay;
        error_display.preview(self.source, self.start, self.column_start, self.line)
    }
}

/// The ways in which a source can fail to be a sequence of tokens.
#[derive(Debug, PartialEq, Eq, Clone, Copy, Structural)]
pub enum ErrorType {
    EmptySource,
    UnknownCharacter,
    UnknownLiteral,
    UnterminatedString,
    UnterminatedFractionalNumber,
    LeadingZeros,
    InvalidExponent,
    InvalidNumber,
    InvalidEscapeSequence,
    InvalidUnicodeSequence,
}

impl ErrorType {
    /// The words by which a failure is named to the user.
    pub open spec fn text(self) -> Seq<char> {
        match self {
            ErrorType::EmptySource => "Empty source"@,
            ErrorType::UnknownCharacter => "Unknown character"@,
            ErrorType::UnknownLiteral => "Unknown literal"@,
            ErrorType::UnterminatedString => "Unterminated string"@,
            ErrorType::UnterminatedFractionalNumber => "Unterminated fractional number"@,
            ErrorType::LeadingZeros => "Leading zeros"@,
            ErrorType::InvalidExponent => "Invalid exponent"@,
            ErrorType::InvalidNumber => "Invalid number"@,
            ErrorType::InvalidEscapeSequence => "Invalid escape sequence"@,
            ErrorType::InvalidUnicodeSequence => "Invalid unicode sequence"@,
        }
    }

    pub fn to_string(&self) -> (shown: String)
        ensures
            shown@ == self.text(),
    {
        match self {
            ErrorType::EmptySource => String::from_str("Empty source"),
            ErrorType::UnknownCharacter => String::from_str("Unknown character"),
            ErrorType::UnknownLiteral => String::from_str("Unknown literal"),
            ErrorType::UnterminatedString => String::from_str("Unterminated string"),
            ErrorType::UnterminatedFractionalNumber => String::from_str(
                "Unterminated fractional number",
            ),
            ErrorType::LeadingZeros => String::from_str("Leading zeros"),
            ErrorType::InvalidExponent => String::from_str("Invalid exponent"),
            ErrorType::InvalidNumber => String::from_str("Invalid number"),
            ErrorType::InvalidEscapeSequence => String::from_str("Invalid escape sequence"),
            ErrorType::InvalidUnicodeSequence => String::from_str("Invalid unicode sequence"),
        }
    }
}

/// A failure with its display and, where there is one, a hint at the remedy.
#[derive(Debug, PartialEq)]
pub struct ScannerError {
    pub error_type: ErrorType,
    pub preview: String,
    pub hint: Option<String>,
}

impl ScannerError {
    pub fn new(error_type: ErrorType, preview: String, hint: Option<String>) -> (error: Self)
        ensures
            error == (ScannerError { error_type, preview, hint }),
    {
        Self { error_type, preview, hint }
    }

    /// The failure in words: its name, its display and then, on a line of
    /// its own, the hint.
    pub open spec fn message(self) -> Seq<char> {
        self.error_type.text() + seq![' '] + self.preview@ + seq![' '] + match self.hint {
            Some(hint) => "\n✨ "@ + hint@,
            None => Seq::empty(),
        }
    }

    pub fn to_string(&self) -> (shown: String)
        ensures
            shown@ == self.message(),
    {
        proof {
            reveal_strlit(" ");
        }
        let mut shown = self.error_type.to_string();
        shown.append(" ");
        shown.append(self.preview.as_str());
        shown.append(" ");
        match &self.hint {
            Some(hint) => {
                shown.append("\n✨ ");
                shown.append(hint.as_str());
            },
            None => {},
        }
        assert(shown@ =~= self.message());
        shown
    }
}

} // verus!
