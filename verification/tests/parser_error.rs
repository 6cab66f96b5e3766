use jtools::parser_error::ParserError;
use jtools::scanner_error::ScannerError;

#[test]
fn duplicate_property_message() {
    assert_eq!(
        "Duplicate property \"hello\" error preview",
        ParserError::DuplicateProperty {
            property: "\"hello\"".to_string(),
            error_preview: "error preview".to_string()
        }
        .to_string()
    );
}

#[test]
fn unexpected_token_message() {
    assert_eq!(
        "Expected string found , error preview",
        ParserError::UnexpectedToken {
            expected: "string".to_string(),
            found: ",".to_string(),
            error_preview: "error preview".to_string()
        }
        .to_string()
    );
}

#[test]
fn scanner_error_becomes_a_parser_error() {
    let error = ParserError::from(ScannerError::EmptySource {
        error: "preview".to_string(),
    });

    assert_eq!(
        ParserError::ScannerError(ScannerError::EmptySource {
            error: "preview".to_string()
        }),
        error
    );
    assert_eq!("Scanner error", error.to_string());
}
