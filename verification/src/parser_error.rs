//! The failures of the parser.

use vstd::prelude::*;
use vstd::std_specs::convert::FromSpecImpl;
use crate::scanner_error::ScannerError;

verus! {

/// Why a source is no JSON value.
///
/// Either the scanner has failed, or a property has the key of an earlier
/// one of its object, or a token is not the one the grammar expects. For
/// an unexpected token, `expected` says what the grammar asked for and
/// `found` what the token is; `error_preview` shows the source at the
/// place.
#[derive(Debug, PartialEq)]
pub enum ParserError {
    ScannerError(ScannerError),
    DuplicateProperty { property: String, error_preview: String },
    UnexpectedToken { expected: String, found: String, error_preview: String },
}

impl From<ScannerError> for ParserError {
    fn from(scanner_error: ScannerError) -> (error: Self) {
        ParserError::ScannerError(scanner_error)
    }
}

impl FromSpecImpl<ScannerError> for ParserError {
    open spec fn obeys_from_spec() -> bool {
        true
    }

    open spec fn from_spec(scanner_error: ScannerError) -> Self {
        ParserError::ScannerError(scanner_error)
    }
}

impl ParserError {
    /// The failure in words.
    pub open spec fn message(self) -> Seq<char> {
        match self {
            ParserError::ScannerError(_) => "Scanner error"@,
            ParserError::DuplicateProperty { property, error_preview } => "Duplicate property "@
                + property@ + seq![' '] + error_preview@,
            ParserError::UnexpectedToken { expected, found, error_preview } => "Expected "@
                + expected@ + " found "@ + found@ + seq![' '] + error_preview@,
        }
    }

    pub fn to_string(&self) -> (shown: String)
        ensures
            shown@ == self.message(),
    {
        proof {
            reveal_strlit(" ");
        }
        match self {
            ParserError::ScannerError(_) => String::from_str("Scanner error"),
            ParserError::DuplicateProperty { property, error_preview } => {
                let mut shown = String::from_str("Duplicate property ");
                shown.append(property.as_str());
                shown.append(" ");
                shown.append(error_preview.as_str());
                assert(shown@ =~= self.message());
                shown
            },
            ParserError::UnexpectedToken { expected, found, error_preview } => {
                let mut shown = String::from_str("Expected ");
                shown.append(expected.as_str());
                shown.append(" found ");
                shown.append(found.as_str());
                shown.append(" ");
                shown.append(error_preview.as_str());
                assert(shown@ =~= self.message());
                shown
            },
        }
    }
}

} // verus!
