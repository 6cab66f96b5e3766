use jtools::lexer::Lexer;
use jtools::lexer_error::LexerError;

#[test]
fn is_valid_exponent() {
    let mut l = Lexer::new("123456789e100");
    assert_eq!(Ok("123456789e100".to_string()), l.scan_number());

    let mut l = Lexer::new("123456789E4");
    assert_eq!(Ok("123456789E4".to_string()), l.scan_number());

    let mut l = Lexer::new("123456789e-20");
    assert_eq!(Ok("123456789e-20".to_string()), l.scan_number());

    let mut l = Lexer::new("123456789e+3");
    assert_eq!(Ok("123456789e+3".to_string()), l.scan_number());
}

#[test]
fn is_invalid_exponent() {
    let mut l = Lexer::new("123456789e");
    assert_eq!(Err(LexerError::InvalidExponent), l.scan_number());

    let mut l = Lexer::new("123456789e+");
    assert_eq!(Err(LexerError::InvalidExponent), l.scan_number());

    let mut l = Lexer::new("123456789e-nope");
    assert_eq!(Err(LexerError::InvalidExponent), l.scan_number());

    let mut l = Lexer::new("123456789Eee");
    assert_eq!(Err(LexerError::InvalidExponent), l.scan_number());
}

#[test]
fn scan_invalid_fractional_number() {
    let mut l = Lexer::new("123456789.nope");

    assert_eq!(
        Err(LexerError::UnterminatedFractionalNumber),
        l.scan_number()
    );
}

#[test]
fn scan_unterminated_fractional_number() {
    let mut l = Lexer::new("123456789.");

    assert_eq!(
        Err(LexerError::UnterminatedFractionalNumber),
        l.scan_number()
    );
}

#[test]
fn scan_fractional_number() {
    let mut l = Lexer::new("123456789.0123456789");

    assert_eq!(Ok("123456789.0123456789".to_string()), l.scan_number());
}

#[test]
fn scan_number() {
    let mut l = Lexer::new("123456789");

    assert_eq!(Ok("123456789".to_string()), l.scan_number());
}

#[test]
fn expect_unterminated_string() {
    let mut l = Lexer::new("terminator");

    assert_eq!(Err(LexerError::UnterminatedString), l.scan_string());
}

#[test]
fn scan_string() {
    let mut l = Lexer::new("🌎Hello, World🌎\"");

    assert_eq!(Ok("🌎Hello, World🌎\""), l.scan_string());
}

#[test]
fn scan_alphabetical() {
    let mut l = Lexer::new("true");

    assert_eq!("true", l.scan_alphabetic());
}

#[test]
fn lexer_number_without_digit_is_invalid() {
    assert_eq!(Err(LexerError::InvalidNumber), Lexer::new("").scan_number());
    assert_eq!(Err(LexerError::InvalidNumber), Lexer::new("x").scan_number());
    assert_eq!(Err(LexerError::InvalidNumber), Lexer::new("e5").scan_number());
    assert_eq!(Ok(".5".to_string()), Lexer::new(".5").scan_number());
    assert_eq!(Ok("1e999".to_string()), Lexer::new("1e999").scan_number());
}

#[test]
fn lexer_number_ends_where_it_cannot_go_on() {
    assert_eq!(Ok("12".to_string()), Lexer::new("12,3").scan_number());
    assert_eq!(Ok("1.5e-3".to_string()), Lexer::new("1.5e-3.2").scan_number());
}

#[test]
fn lexer_alphabetic_run_holds_letters_of_any_script() {
    assert_eq!("héllo", Lexer::new("héllo wörld").scan_alphabetic());
    assert_eq!("", Lexer::new("1a").scan_alphabetic());
}

#[test]
fn lexer_reads_a_source_without_keeping_tokens() {
    assert_eq!(Ok(vec![]), Lexer::new("").scan());
    assert_eq!(Ok(vec![]), Lexer::new("true").scan());
    assert_eq!(Ok(vec![]), Lexer::new("ab12\"x y\"cd").scan());
    assert_eq!(Ok(vec![]), Lexer::new("12.5e3").scan());
}

#[test]
fn lexer_fails_at_the_first_lexeme_that_is_none() {
    assert_eq!(Err(LexerError::UnknownCharacter), Lexer::new("true false").scan());
    assert_eq!(Err(LexerError::UnknownCharacter), Lexer::new("[").scan());
    assert_eq!(Err(LexerError::UnterminatedString), Lexer::new("ab\"cd").scan());
    assert_eq!(Err(LexerError::InvalidNumber), Lexer::new("5").scan());
    assert_eq!(Err(LexerError::InvalidNumber), Lexer::new("a12").scan());
    assert_eq!(Err(LexerError::InvalidExponent), Lexer::new("12e").scan());
    assert_eq!(
        Err(LexerError::UnterminatedFractionalNumber),
        Lexer::new("12.").scan()
    );
}

#[test]
fn float_text_is_what_the_standard_library_reads() {
    for text in [
        "", "1", "-1", "+1", "1.", ".1", ".", "-.", "1.5", "1e5", "1E5", "1e+5", "1e-5", "1e",
        "1e+", "e5", ".e5", "1.e5", ".5e5", "1.5e5x", " 1", "1 ", "inf", "-inf", "+INF", "Infinity",
        "-iNfInItY", "infinit", "infinityy", "nan", "NaN", "-nan", "+NAN", "na", "nane", "--1",
        "+-1", "1..2", "1.2.3", "1e5e5", "1e5.5", "0x10", "١", "1_000", "12345678901234567890",
        "in", "i", "n", "infx", "xinf", "+", "-", "+e", "5e-", "5e+-1", "５",
    ] {
        let characters: Vec<char> = text.chars().collect();
        assert_eq!(
            text.parse::<f64>().is_ok(),
            Lexer::is_float(&characters, 0, characters.len()),
            "{:?}",
            text
        );
        let framed: Vec<char> = format!("[{}]", text).chars().collect();
        assert_eq!(
            text.parse::<f64>().is_ok(),
            Lexer::is_float(&framed, 1, framed.len() - 1),
            "{:?}",
            text
        );
    }
}
