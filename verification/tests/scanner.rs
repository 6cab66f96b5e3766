use jtools::scanner::Scanner;
use jtools::scanner_error::ScannerError;
use jtools::token::Token;
use jtools::token_type::TokenType;

#[test]
fn ignore_and_consume_spaces() {
    let mut scanner = Scanner::new("    {  \n\t \t},");

    assert_eq!(Ok(TokenType::LeftBrace), scanner.eval());
    assert_eq!(Ok(TokenType::RightBrace), scanner.eval());
    assert_eq!(Ok(TokenType::Comma), scanner.eval());
}

#[test]
fn evaluate() {
    let mut scanner = Scanner::new("{}");

    assert_eq!(Ok(TokenType::LeftBrace), scanner.eval());
    assert_eq!(Ok(TokenType::RightBrace), scanner.eval());
}

#[test]
fn starting_position() {
    let mut scanner = Scanner::new("[]");

    assert_eq!(0, scanner.start_position);
    let _ = scanner.eval();

    let _ = scanner.eval();
    assert_eq!(1, scanner.start_position);
}

#[test]
fn peek_character() {
    let mut scanner = Scanner::new("Hi 🌎!");

    assert_eq!(Some(&'H'), scanner.peek());
    assert_eq!(0, scanner.current_position);

    assert_eq!(Some(&'H'), scanner.peek());
    assert_eq!(0, scanner.current_position);

    scanner.next();

    assert_eq!(Some(&'i'), scanner.peek());
    assert_eq!(1, scanner.current_position);
}

#[test]
fn get_next_character() {
    let mut scanner = Scanner::new("Hi 🌎!");

    assert_eq!(Some(&'H'), scanner.next());
    assert_eq!(1, scanner.current_position);

    assert_eq!(Some(&'i'), scanner.next());
    assert_eq!(2, scanner.current_position);

    assert_eq!(Some(&' '), scanner.next());
    assert_eq!(3, scanner.current_position);

    assert_eq!(Some(&'🌎'), scanner.next());
    assert_eq!(4, scanner.current_position);

    assert_eq!(Some(&'!'), scanner.next());
    assert_eq!(5, scanner.current_position);
}

#[test]
fn error_preview() {
    let source = "@";
    let mut s = Scanner::new(source);

    assert_eq!(true, s.scan().is_err())
}

#[test]
fn ignore_spacing_and_maintain_display_column() {
    assert_eq!(
        Ok(vec![
            Token::new(TokenType::LeftBracket, 1, (0, 1), (1, 2)),
            Token::new(TokenType::RightBracket, 1, (2, 3), (3, 4)),
            Token::new(TokenType::Eof, 1, (3, 3), (4, 4))
        ]),
        Scanner::new("[ ]").scan()
    );
}

#[test]
fn invalid_exponents() {
    assert_eq!(true, Scanner::new("27e").scan().is_err());

    assert_eq!(true, Scanner::new("92.3eE").scan().is_err());

    assert_eq!(true, Scanner::new("83e-").scan().is_err());

    assert_eq!(true, Scanner::new("83E+").scan().is_err());
}

#[test]
fn valid_exponents() {
    assert_eq!(
        Ok(vec![
            Token::new(TokenType::Number, 1, (0, 5), (1, 6)),
            Token::new(TokenType::Eof, 1, (5, 5), (6, 6)),
        ]),
        Scanner::new("360e2").scan()
    );

    assert_eq!(
        Ok(vec![
            Token::new(TokenType::Number, 1, (0, 4), (1, 5)),
            Token::new(TokenType::Eof, 1, (4, 4), (5, 5)),
        ]),
        Scanner::new("29E8").scan()
    );

    assert_eq!(
        Ok(vec![
            Token::new(TokenType::Number, 1, (0, 7), (1, 8)),
            Token::new(TokenType::Eof, 1, (7, 7), (8, 8)),
        ]),
        Scanner::new("29e+100").scan()
    );

    assert_eq!(
        Ok(vec![
            Token::new(TokenType::Number, 1, (0, 5), (1, 6)),
            Token::new(TokenType::Eof, 1, (5, 5), (6, 6)),
        ]),
        Scanner::new("29e-2").scan()
    );
}

#[test]
fn do_not_allow_leading_zeros_in_number() {
    assert_eq!(true, Scanner::new("000.23432").scan().is_err());
    assert_eq!(true, Scanner::new("00202").scan().is_err());
}

#[test]
fn scan_valid_numbers() {
    assert_eq!(
        Ok(vec![
            Token::new(TokenType::Number, 1, (0, 1), (1, 2)),
            Token::new(TokenType::Eof, 1, (1, 1), (2, 2))
        ]),
        Scanner::new("0").scan()
    );

    assert_eq!(
        Ok(vec![
            Token::new(TokenType::Number, 1, (0, 3), (1, 4)),
            Token::new(TokenType::Eof, 1, (3, 3), (4, 4))
        ]),
        Scanner::new("360").scan()
    );

    assert_eq!(
        Ok(vec![
            Token::new(TokenType::Number, 1, (0, 7), (1, 8)),
            Token::new(TokenType::Eof, 1, (7, 7), (8, 8))
        ]),
        Scanner::new("360.360").scan()
    );

    assert_eq!(
        Ok(vec![
            Token::new(TokenType::Number, 1, (0, 5), (1, 6)),
            Token::new(TokenType::Eof, 1, (5, 5), (6, 6))
        ]),
        Scanner::new("-1066").scan()
    );
}

#[test]
fn scan_unterminated_string() {
    assert_eq!(true, Scanner::new("\"").scan().is_err());

    assert_eq!(true, Scanner::new("\"language").scan().is_err());
}

// Graphemes take up 1 display column
#[test]
fn scan_valid_string_with_graphemes() {
    assert_eq!(
        Ok(vec![
            Token::new(TokenType::String, 1, (0, 10), (1, 5)),
            Token::new(TokenType::Eof, 1, (10, 10), (5, 5))
        ]),
        Scanner::new("\"🌎🚀\"").scan()
    );

    assert_eq!(
        Ok(vec![
            Token::new(TokenType::String, 1, (0, 10), (1, 5)),
            Token::new(TokenType::Eof, 1, (10, 10), (5, 5))
        ]),
        Scanner::new("\"🌎🚀\"").scan()
    );
}

#[test]
fn valid_escape_sequence() {
    assert_eq!(
        Ok(vec![
            Token::new(TokenType::String, 1, (0, 19), (1, 20)),
            Token::new(TokenType::Eof, 1, (19, 19), (20, 20))
        ]),
        Scanner::new(r#""hello\u0020world!""#).scan(),
    );

    assert_eq!(
        Ok(vec![
            Token::new(TokenType::String, 1, (0, 14), (1, 15)),
            Token::new(TokenType::Eof, 1, (14, 14), (15, 15))
        ]),
        Scanner::new(r#""\uD83D\uDE00""#).scan(),
    );

    assert_eq!(
        Ok(vec![
            Token::new(TokenType::String, 1, (0, 10), (1, 11)),
            Token::new(TokenType::Eof, 1, (10, 10), (11, 11))
        ]),
        Scanner::new(r#""\\\uaaaa""#).scan(),
    );
}

#[test]
fn invalid_escape_sequence() {
    assert_eq!(true, Scanner::new(r#""hello\\\world!""#).scan().is_err(),);
    assert_eq!(true, Scanner::new(r#""\t\e bad""#).scan().is_err(),);
    assert_eq!(true, Scanner::new(r#""\u01AG""#).scan().is_err(),);
}

#[test]
fn scan_valid_strings() {
    assert_eq!(
        Ok(vec![
            Token::new(TokenType::String, 1, (0, 15), (1, 16)),
            Token::new(TokenType::Eof, 1, (15, 15), (16, 16))
        ]),
        Scanner::new("\"hello, world!\"").scan()
    );

    assert_eq!(
        Ok(vec![
            Token::new(TokenType::String, 1, (0, 2), (1, 3)),
            Token::new(TokenType::Eof, 1, (2, 2), (3, 3))
        ]),
        Scanner::new("\"\"").scan()
    );
}

#[test]
fn scan_invalid_words() {
    assert_eq!(true, Scanner::new("hello").scan().is_err());

    assert_eq!(true, Scanner::new("unknown").scan().is_err());
}

#[test]
fn scan_valid_keywords() {
    assert_eq!(
        Ok(vec![
            Token::new(TokenType::True, 1, (0, 4), (1, 5)),
            Token::new(TokenType::Eof, 1, (4, 4), (5, 5))
        ]),
        Scanner::new("true").scan()
    );

    assert_eq!(
        Ok(vec![
            Token::new(TokenType::False, 1, (0, 5), (1, 6)),
            Token::new(TokenType::Eof, 1, (5, 5), (6, 6))
        ]),
        Scanner::new("false").scan()
    );

    assert_eq!(
        Ok(vec![
            Token::new(TokenType::Null, 1, (0, 4), (1, 5)),
            Token::new(TokenType::Eof, 1, (4, 4), (5, 5))
        ]),
        Scanner::new("null").scan()
    );
}

#[test]
fn tokenize_primary_json_chars() {
    let mut s = Scanner::new("{}[]:,");

    let res = s.scan();

    assert_eq!(
        Ok(vec![
            Token::new(TokenType::LeftBrace, 1, (0, 1), (1, 2)),
            Token::new(TokenType::RightBrace, 1, (1, 2), (2, 3)),
            Token::new(TokenType::LeftBracket, 1, (2, 3), (3, 4)),
            Token::new(TokenType::RightBracket, 1, (3, 4), (4, 5)),
            Token::new(TokenType::Colon, 1, (4, 5), (5, 6)),
            Token::new(TokenType::Comma, 1, (5, 6), (6, 7)),
            Token::new(TokenType::Eof, 1, (6, 6), (7, 7)),
        ]),
        res
    );
}

#[test]
fn new_line_defaults() {
    let mut s = Scanner::new("[\n,\n]");
    let _ = s.scan();

    assert_eq!(3, s.line);
}

#[test]
fn increment_current_after_each_ascii_char() {
    let mut s = Scanner::new("[]");
    let _ = s.scan();

    assert_eq!(2, s.current)
}

#[test]
fn scan_gives_error_if_source_is_empty() {
    let mut s = Scanner::new("");

    assert_eq!(true, s.scan().is_err())
}

fn preview(line: &str, spaces: usize, column: usize) -> String {
    format!(
        "\n  |\n  |\n1 |{}\n  |{}^---Column={}\n  |",
        line,
        " ".repeat(spaces),
        column
    )
}

#[test]
fn scan_documented_example() {
    assert_eq!(
        Ok(vec![
            Token::new(TokenType::LeftBrace, 1, (0, 1), (1, 2)),
            Token::new(TokenType::String, 1, (2, 8), (3, 9)),
            Token::new(TokenType::Colon, 1, (8, 9), (9, 10)),
            Token::new(TokenType::LeftBracket, 1, (10, 11), (11, 12)),
            Token::new(TokenType::Number, 1, (11, 12), (12, 13)),
            Token::new(TokenType::RightBracket, 1, (12, 13), (13, 14)),
            Token::new(TokenType::RightBrace, 1, (14, 15), (15, 16)),
            Token::new(TokenType::Eof, 1, (15, 15), (16, 16)),
        ]),
        Scanner::new("{ \"data\": [1] }").scan()
    );
}

#[test]
fn scan_counts_lines_and_starts_columns_anew() {
    assert_eq!(
        Ok(vec![
            Token::new(TokenType::LeftBracket, 1, (0, 1), (1, 2)),
            Token::new(TokenType::String, 2, (4, 8), (3, 6)),
            Token::new(TokenType::Comma, 2, (8, 9), (6, 7)),
            Token::new(TokenType::True, 3, (12, 16), (2, 6)),
            Token::new(TokenType::RightBracket, 4, (18, 19), (1, 2)),
            Token::new(TokenType::Eof, 4, (19, 19), (2, 2)),
        ]),
        Scanner::new("[\n  \"é\",\r\n\ttrue\r\n]").scan()
    );
}

#[test]
fn scan_empty_source_is_an_error_of_its_own() {
    assert_eq!(
        Err(ScannerError::EmptySource {
            error: preview("", 0, 1)
        }),
        Scanner::new("").scan()
    );
}

#[test]
fn scan_blank_source_is_the_end_of_input() {
    assert_eq!(
        Ok(vec![Token::new(TokenType::Eof, 2, (3, 3), (2, 2))]),
        Scanner::new(" \n ").scan()
    );
}

#[test]
fn scan_unknown_character() {
    assert_eq!(
        Err(ScannerError::UnknownCharacter {
            error: preview("[@]", 1, 2)
        }),
        Scanner::new("[@]").scan()
    );
    assert_eq!(
        Err(ScannerError::UnknownCharacter {
            error: preview("[é]", 1, 2)
        }),
        Scanner::new("[é]").scan()
    );
    assert_eq!(
        Err(ScannerError::UnknownCharacter {
            error: preview("+1", 0, 1)
        }),
        Scanner::new("+1").scan()
    );
}

#[test]
fn scan_unknown_literal() {
    assert_eq!(
        Err(ScannerError::UnknownLiteral {
            error: preview("[truely]", 1, 2)
        }),
        Scanner::new("[truely]").scan()
    );
    assert_eq!(
        Err(ScannerError::UnknownLiteral {
            error: preview("True", 0, 1)
        }),
        Scanner::new("True").scan()
    );
    assert_eq!(
        Err(ScannerError::UnknownLiteral {
            error: preview("nul", 0, 1)
        }),
        Scanner::new("nul").scan()
    );
}

#[test]
fn scan_keyword_ends_where_the_letters_end() {
    assert_eq!(
        Ok(vec![
            Token::new(TokenType::True, 1, (0, 4), (1, 5)),
            Token::new(TokenType::Number, 1, (4, 5), (5, 6)),
            Token::new(TokenType::Eof, 1, (5, 5), (6, 6)),
        ]),
        Scanner::new("true1").scan()
    );
}

#[test]
fn scan_unterminated_string_at_the_end_and_at_a_line_end() {
    assert_eq!(
        Err(ScannerError::UnterminatedString {
            error: preview("\"unterminated", 0, 1)
        }),
        Scanner::new("\"unterminated").scan()
    );
    assert_eq!(
        Err(ScannerError::UnterminatedString {
            error: "\n  |\n  |\n1 |[\"a\n  | ^---Column=2\n +|".to_string()
        }),
        Scanner::new("[\"a\nb\"]").scan()
    );
    assert_eq!(
        Err(ScannerError::UnterminatedString {
            error: preview("\"a\\\"", 0, 1)
        }),
        Scanner::new("\"a\\\"").scan()
    );
}

#[test]
fn scan_invalid_escape_points_at_the_backslash() {
    assert_eq!(
        Err(ScannerError::InvalidEscapeSequence {
            error: preview("\"é\\e\"", 2, 3)
        }),
        Scanner::new("\"é\\e\"").scan()
    );
    assert_eq!(
        Err(ScannerError::InvalidEscapeSequence {
            error: preview("\"\\", 1, 2)
        }),
        Scanner::new("\"\\").scan()
    );
}

#[test]
fn scan_invalid_unicode_points_at_the_backslash() {
    assert_eq!(
        Err(ScannerError::InvalidUnicodeSequence {
            error: preview("\"ab\\u12g4\"", 3, 4)
        }),
        Scanner::new("\"ab\\u12g4\"").scan()
    );
    assert_eq!(
        Err(ScannerError::InvalidUnicodeSequence {
            error: preview("\"\\u12", 1, 2)
        }),
        Scanner::new("\"\\u12").scan()
    );
}

#[test]
fn scan_every_simple_escape() {
    let source = r#""\" \\ \/ \b \f \n \r \t""#;

    assert_eq!(
        Ok(vec![
            Token::new(TokenType::String, 1, (0, 25), (1, 26)),
            Token::new(TokenType::Eof, 1, (25, 25), (26, 26)),
        ]),
        Scanner::new(source).scan()
    );
}

#[test]
fn scan_leading_zeros() {
    assert_eq!(
        Err(ScannerError::LeadingZeros {
            error: preview("007", 0, 1)
        }),
        Scanner::new("007").scan()
    );
    assert_eq!(
        Err(ScannerError::LeadingZeros {
            error: preview("[-01]", 1, 2)
        }),
        Scanner::new("[-01]").scan()
    );
}

#[test]
fn scan_zero_before_point_and_exponent() {
    for source in ["0.5", "0e1", "-0", "-0.0E-0"] {
        assert_eq!(
            Ok(vec![
                Token::new(TokenType::Number, 1, (0, source.len()), (1, source.len() + 1)),
                Token::new(
                    TokenType::Eof,
                    1,
                    (source.len(), source.len()),
                    (source.len() + 1, source.len() + 1)
                ),
            ]),
            Scanner::new(source).scan()
        );
    }
}

#[test]
fn scan_fraction_without_digit() {
    assert_eq!(
        Err(ScannerError::UnterminatedFractionalNumber {
            error: preview("[1.]", 1, 2)
        }),
        Scanner::new("[1.]").scan()
    );
    assert_eq!(
        Err(ScannerError::UnterminatedFractionalNumber {
            error: preview("1.", 0, 1)
        }),
        Scanner::new("1.").scan()
    );
    assert_eq!(
        Err(ScannerError::UnterminatedFractionalNumber {
            error: preview("-.e5", 0, 1)
        }),
        Scanner::new("-.e5").scan()
    );
}

#[test]
fn scan_invalid_exponent_points_at_the_exponent() {
    assert_eq!(
        Err(ScannerError::InvalidExponent {
            error: preview("[12.5e+]", 5, 6)
        }),
        Scanner::new("[12.5e+]").scan()
    );
    assert_eq!(
        Err(ScannerError::InvalidExponent {
            error: preview("27E", 2, 3)
        }),
        Scanner::new("27E").scan()
    );
}

#[test]
fn scan_number_without_digit_in_its_mantissa() {
    assert_eq!(
        Err(ScannerError::InvalidNumber {
            error: preview("[-]", 1, 2)
        }),
        Scanner::new("[-]").scan()
    );
    assert_eq!(
        Err(ScannerError::InvalidNumber {
            error: preview("-e5", 0, 1)
        }),
        Scanner::new("-e5").scan()
    );
    assert_eq!(
        Ok(vec![
            Token::new(TokenType::Number, 1, (0, 3), (1, 4)),
            Token::new(TokenType::Eof, 1, (3, 3), (4, 4)),
        ]),
        Scanner::new("-.5").scan()
    );
}

#[test]
fn scan_failure_at_the_first_column_of_a_later_line() {
    assert_eq!(
        Err(ScannerError::UnknownCharacter {
            error: "\n +|\n  |\n3 |@\n  |^---Column=1\n +|".to_string()
        }),
        Scanner::new("[\n1,\n@\n]").scan()
    );
}

#[test]
fn scan_stops_at_the_first_failure() {
    assert_eq!(
        Err(ScannerError::UnknownLiteral {
            error: preview("[nil, @, 007]", 1, 2)
        }),
        Scanner::new("[nil, @, 007]").scan()
    );
}

#[test]
fn scan_leaves_the_cursor_at_the_failure() {
    let mut s = Scanner::new("[\n 12e]");
    let _ = s.scan();

    assert_eq!(3, s.start);
    assert_eq!(5, s.current);
    assert_eq!(2, s.line);
    assert_eq!(3, s.column_start);
    assert_eq!(4, s.column_end);
}

#[test]
fn scan_leaves_the_start_at_what_it_read_last() {
    let mut s = Scanner::new("[12] ");
    let _ = s.scan();
    assert_eq!(4, s.start);
    assert_eq!(5, s.current);

    let mut s = Scanner::new("[12, true");
    let _ = s.scan();
    assert_eq!(5, s.start);

    let mut s = Scanner::new("");
    let _ = s.scan();
    assert_eq!(0, s.start);
}

#[test]
fn get_token_reads_one_token_of_one_character() {
    let mut s = Scanner::new(" \t[ x");

    assert_eq!(
        Ok(Token::new(TokenType::LeftBracket, 1, (0, 1), (1, 2))),
        s.get_token()
    );
    assert_eq!(2, s.start_position);
    assert_eq!(3, s.current_position);
    assert_eq!(
        Err(ScannerError::UnknownCharacter {
            error: "".to_string()
        }),
        s.get_token()
    );
    assert_eq!(
        Ok(Token::new(TokenType::Eof, 1, (0, 1), (1, 2))),
        s.get_token()
    );
    assert_eq!(5, s.start_position);
    assert_eq!(6, s.current_position);
}
