use jtools::number::exceeds_binary64;
use jtools::scanner::Scanner;
use jtools::scanner_error::ScannerError;
use jtools::token_type::TokenType;

// 2^1024 - 2^970
const LIMIT: &str = "179769313486231580793728971405303415079934132710037826936173778980444968292764750946649017977587207096330286416692887910946555547851940402630657488671505820681908902000708383676273854845817711531764475730270069855571366959622842914819860834936475292719074168444365510704342711559699508093042880177904174497792";

// 2^1024 - 2^970 - 1
const BELOW_LIMIT: &str = "179769313486231580793728971405303415079934132710037826936173778980444968292764750946649017977587207096330286416692887910946555547851940402630657488671505820681908902000708383676273854845817711531764475730270069855571366959622842914819860834936475292719074168444365510704342711559699508093042880177904174497791";

fn is_number(source: &str) -> bool {
    match Scanner::new(source).scan() {
        Ok(tokens) => {
            assert_eq!(2, tokens.len());
            assert_eq!(TokenType::Number, tokens[0].token_type);
            assert_eq!((0, source.len()), tokens[0].indices);
            true
        }
        Err(ScannerError::InvalidNumber { .. }) => false,
        Err(other) => panic!("{}: {:?}", source, other),
    }
}

fn is_finite(source: &str) -> bool {
    match source.parse::<f64>() {
        Ok(value) => value.is_finite(),
        Err(_) => false,
    }
}

fn agree(source: &str) {
    assert_eq!(is_finite(source), is_number(source), "{}", source);
}

#[test]
fn number_at_the_limit_is_invalid() {
    assert_eq!(309, LIMIT.len());
    assert_eq!(false, is_number(LIMIT));
    assert_eq!(true, is_number(BELOW_LIMIT));
    agree(LIMIT);
    agree(BELOW_LIMIT);
}

#[test]
fn number_beyond_the_greatest_finite_one_is_invalid() {
    assert_eq!(true, is_number("1.7976931348623157e308"));
    assert_eq!(true, is_number("1.7976931348623158e308"));
    assert_eq!(false, is_number("1.7976931348623159e308"));
    assert_eq!(true, is_number("-1.7976931348623157e308"));
    assert_eq!(false, is_number("-1.7976931348623159e308"));
    assert_eq!(true, is_number("1e308"));
    assert_eq!(false, is_number("1e309"));
    assert_eq!(false, is_number("-1e309"));
    assert_eq!(false, is_number("1e999"));
}

#[test]
fn number_with_any_exponent_is_valid_if_it_is_small() {
    assert_eq!(true, is_number("1e-999"));
    assert_eq!(true, is_number("0e999"));
    assert_eq!(true, is_number("0.0e99999999999999999999999999999999999999"));
    assert_eq!(true, is_number("5e-99999999999999999999999999999999999999"));
    assert_eq!(false, is_number("5e99999999999999999999999999999999999999"));
    assert_eq!(true, is_number("1e0000000000000000000000000000000000000308"));
    assert_eq!(false, is_number("1e0000000000000000000000000000000000000309"));
    assert_eq!(false, is_number("1e10000000000000000000000000"));
    assert_eq!(true, is_number("1e-10000000000000000000000000"));
    assert_eq!(false, is_number("1e9999999999999999999999999"));
}

#[test]
fn number_agrees_with_floating_point_round_the_limit() {
    for point in 0..=LIMIT.len() {
        for text in [LIMIT, BELOW_LIMIT] {
            let (integral, fraction) = text.split_at(point);
            let integral = if integral.is_empty() { "0" } else { integral };
            let written = if fraction.is_empty() {
                format!("{}e{}", integral, LIMIT.len() - point)
            } else {
                format!("{}.{}e{}", integral, fraction, LIMIT.len() - point)
            };
            agree(&written);
            agree(&format!("-{}", written));
            agree(&format!("{}0", written));
            if !fraction.is_empty() {
                let more = format!("{}.{}0001E+{}", integral, fraction, LIMIT.len() - point);
                agree(&more);
            }
        }
    }
}

#[test]
fn number_agrees_with_floating_point_for_each_digit_of_the_limit() {
    for at in 0..LIMIT.len() {
        let digit = LIMIT.as_bytes()[at] - b'0';
        for other in [digit.wrapping_sub(1), digit + 1] {
            if other > 9 || (at == 0 && other == 0) {
                continue;
            }
            let changed = format!("{}{}{}", &LIMIT[..at], other, &LIMIT[at + 1..]);
            assert_eq!(other < digit, is_number(&changed), "{}", changed);
            agree(&changed);
        }
    }
}

#[test]
fn number_agrees_with_floating_point_for_long_and_scaled_mantissas() {
    for digits in [1usize, 2, 17, 18, 19, 36, 300, 307, 308, 309, 310, 311, 400] {
        for first in ["1", "17", "18", "9", "179769313486231580793", "179769313486231580794"] {
            let mut mantissa = first.to_string();
            while mantissa.len() < digits {
                mantissa.push('0');
            }
            agree(&mantissa);
            for exponent in [-400i64, -310, -309, -308, -1, 0, 1, 2, 290, 307, 308, 309, 310, 400] {
                agree(&format!("{}e{}", mantissa, exponent));
                agree(&format!("0.{}e{}", mantissa, exponent));
                agree(&format!("0.000{}e{}", mantissa, exponent));
                agree(&format!("{}.{}E{}", mantissa, mantissa, exponent));
                agree(&format!("-{}.5e{}", mantissa, exponent));
            }
        }
    }
}

#[test]
fn number_without_digit_in_the_mantissa_agrees_with_floating_point() {
    for source in ["-", "-e5", "-.5", "-.5e3", "-0", "-0.0", "-1"] {
        agree(source);
    }
}

#[test]
fn exceeds_binary64_reads_the_digits_at_the_given_places() {
    let source = "[12.5e+3, 1e400, 0.001e311, 0.001e312]";
    let bytes = source.as_bytes();

    assert_eq!(false, exceeds_binary64(bytes, (1, 3), (4, 5), (7, 8), false));
    assert_eq!(true, exceeds_binary64(bytes, (10, 11), (11, 11), (12, 15), false));
    assert_eq!(false, exceeds_binary64(bytes, (10, 11), (11, 11), (12, 15), true));
    assert_eq!(false, exceeds_binary64(bytes, (17, 18), (19, 22), (23, 26), false));
    assert_eq!(true, exceeds_binary64(bytes, (28, 29), (30, 33), (34, 37), false));
}
