use jtools::lexer_error::LexerError;
use jtools::scanner_error::ScannerError;
use jtools::scanner_error_update::{ErrorType, Preview};

#[test]
fn expect_invaild_unicode_sequence_message() {
    assert_eq!(
        "Invalid unicode sequence \"\\uaaaa\"",
        ScannerError::InvalidUnicodeSequence {
            error: "\"\\uaaaa\"".to_string()
        }
        .to_string()
    );
}

#[test]
fn expect_invaild_escape_sequence_message() {
    assert_eq!(
        "Invalid escape sequence \"\\\\e\"",
        ScannerError::InvalidEscapeSequence {
            error: "\"\\\\e\"".to_string()
        }
        .to_string()
    );
}

#[test]
fn expect_invalid_number_message() {
    assert_eq!(
        "Invalid number 0.2e",
        ScannerError::InvalidNumber {
            error: "0.2e".to_string()
        }
        .to_string()
    );
}

#[test]
fn expect_invalid_exponent_message() {
    assert_eq!(
        "Invalid exponent 20Ee",
        ScannerError::InvalidExponent {
            error: "20Ee".to_string()
        }
        .to_string()
    );
}

#[test]
fn expect_leading_zeros_message() {
    assert_eq!(
        "Leading zeros 00.42",
        ScannerError::LeadingZeros {
            error: "00.42".to_string()
        }
        .to_string()
    );
}

#[test]
fn expect_unterminated_fractional_number_message() {
    assert_eq!(
        "Unterminated fractional number 100.",
        ScannerError::UnterminatedFractionalNumber {
            error: "100.".to_string()
        }
        .to_string()
    );
}

#[test]
fn expect_unterminated_string_message() {
    assert_eq!(
        "Unterminated string \"hello",
        ScannerError::UnterminatedString {
            error: "\"hello".to_string()
        }
        .to_string()
    );
}

#[test]
fn expect_unknown_literal_message() {
    assert_eq!(
        "Unknown literal hello",
        ScannerError::UnknownLiteral {
            error: "hello".to_string()
        }
        .to_string()
    );
}

#[test]
fn expect_unknown_character_message() {
    assert_eq!(
        "Unknown character @",
        ScannerError::UnknownCharacter {
            error: "@".to_string()
        }
        .to_string()
    );
}

#[test]
fn expect_empty_source_message() {
    assert_eq!(
        "Empty source ",
        ScannerError::EmptySource {
            error: "".to_string()
        }
        .to_string()
    );
}

#[test]
fn expected_invalid_number_message() {
    assert_eq!("Invalid Number", LexerError::InvalidNumber.to_string())
}

#[test]
fn expected_invalid_exponent_message() {
    assert_eq!("Invalid Exponent", LexerError::InvalidExponent.to_string())
}

#[test]
fn expected_fractional_number_message() {
    assert_eq!(
        "Unterminated Fractional Number",
        LexerError::UnterminatedFractionalNumber.to_string()
    )
}

#[test]
fn expected_unterminated_string_message() {
    assert_eq!(
        "Unterminated String",
        LexerError::UnterminatedString.to_string()
    )
}

#[test]
fn expected_unknown_character_message() {
    assert_eq!(
        "Unknown Character",
        LexerError::UnknownCharacter.to_string()
    )
}

#[test]
fn scanner_error_is_made_for_each_type() {
    let types = [
        (ErrorType::EmptySource, "Empty source"),
        (ErrorType::UnknownCharacter, "Unknown character"),
        (ErrorType::UnknownLiteral, "Unknown literal"),
        (ErrorType::UnterminatedString, "Unterminated string"),
        (
            ErrorType::UnterminatedFractionalNumber,
            "Unterminated fractional number",
        ),
        (ErrorType::LeadingZeros, "Leading zeros"),
        (ErrorType::InvalidExponent, "Invalid exponent"),
        (ErrorType::InvalidNumber, "Invalid number"),
        (ErrorType::InvalidEscapeSequence, "Invalid escape sequence"),
        (ErrorType::InvalidUnicodeSequence, "Invalid unicode sequence"),
    ];

    for (error_type, text) in types {
        assert_eq!(text, error_type.to_string());
        assert_eq!(
            format!("{} here", text),
            ScannerError::of(error_type, "here".to_string()).to_string()
        );
    }
}

#[test]
fn error_with_hint_is_shown_on_two_lines() {
    let error = jtools::scanner_error_update::ScannerError::new(
        ErrorType::LeadingZeros,
        "007".to_string(),
        Some("remove the zeros".to_string()),
    );

    assert_eq!(ErrorType::LeadingZeros, error.error_type);
    assert_eq!("Leading zeros 007 \n✨ remove the zeros", error.to_string());
}

#[test]
fn error_without_hint_ends_with_a_space() {
    let error = jtools::scanner_error_update::ScannerError::new(
        ErrorType::UnknownCharacter,
        "@".to_string(),
        None,
    );

    assert_eq!("Unknown character @ ", error.to_string());
}

#[test]
fn preview_of_a_place_is_its_display() {
    let place = Preview::new("{ \"error\": bad }", 11, 12, 1);

    assert_eq!("{ \"error\": bad }", place.source);
    assert_eq!(11, place.start);
    assert_eq!(12, place.column_start);
    assert_eq!(1, place.line);
    assert_eq!(
        "\n  |\n  |\n1 |{ \"error\": bad }\n  |           ^___\n  |",
        place.preview()
    );
}
