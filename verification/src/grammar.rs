//! The lexical grammar of JSON over the bytes of a source: what scanning a
//! source gives.

use vstd::prelude::*;
use vstd::utf8::is_continuation_byte;
use crate::number::{digits_value, rounds_to_infinity, signed_value};
use crate::scanner_error_update::ErrorType;
use crate::token::Token;
use crate::token_type::TokenType;

verus! {

// The bytes of ASCII that the grammar names.

pub const TAB: u8 = 0x09;

pub const LINE_FEED: u8 = 0x0a;

pub const CARRIAGE_RETURN: u8 = 0x0d;

pub const SPACE: u8 = 0x20;

pub const QUOTE: u8 = 0x22;

pub const PLUS: u8 = 0x2b;

pub const COMMA: u8 = 0x2c;

pub const MINUS: u8 = 0x2d;

pub const POINT: u8 = 0x2e;

pub const SLASH: u8 = 0x2f;

pub const DIGIT_0: u8 = 0x30;

pub const DIGIT_9: u8 = 0x39;

pub const COLON: u8 = 0x3a;

pub const UPPER_A: u8 = 0x41;

pub const UPPER_E: u8 = 0x45;

pub const UPPER_F: u8 = 0x46;

pub const UPPER_Z: u8 = 0x5a;

pub const LEFT_BRACKET: u8 = 0x5b;

pub const BACKSLASH: u8 = 0x5c;

pub const RIGHT_BRACKET: u8 = 0x5d;

pub const LOWER_A: u8 = 0x61;

pub const LOWER_B: u8 = 0x62;

pub const LOWER_E: u8 = 0x65;

pub const LOWER_F: u8 = 0x66;

pub const LOWER_L: u8 = 0x6c;

pub const LOWER_N: u8 = 0x6e;

pub const LOWER_R: u8 = 0x72;

pub const LOWER_S: u8 = 0x73;

pub const LOWER_T: u8 = 0x74;

pub const LOWER_U: u8 = 0x75;

pub const LOWER_Z: u8 = 0x7a;

pub const LEFT_BRACE: u8 = 0x7b;

pub const RIGHT_BRACE: u8 = 0x7d;

pub open spec fn is_digit(byte: u8) -> bool {
    DIGIT_0 <= byte <= DIGIT_9
}

pub open spec fn is_letter(byte: u8) -> bool {
    LOWER_A <= byte <= LOWER_Z || UPPER_A <= byte <= UPPER_Z
}

pub open spec fn is_hex_digit(byte: u8) -> bool {
    is_digit(byte) || LOWER_A <= byte <= LOWER_F || UPPER_A <= byte <= UPPER_F
}

/// Space, tab, carriage return and line feed: what may stand between
/// tokens.
pub open spec fn is_blank(byte: u8) -> bool {
    byte == SPACE || byte == TAB || byte == CARRIAGE_RETURN || byte == LINE_FEED
}

/// The characters that may follow a backslash in a string, but for `u`.
pub open spec fn is_simple_escape(byte: u8) -> bool {
    byte == QUOTE || byte == BACKSLASH || byte == SLASH || byte == LOWER_B || byte == LOWER_F
        || byte == LOWER_N || byte == LOWER_R || byte == LOWER_T
}

/// The number of the line on which the byte at `at` stands: one more than
/// the line feeds before it.
pub open spec fn line_of(source: Seq<u8>, at: int) -> int
    decreases at,
{
    if at <= 0 {
        1
    } else if source[at - 1] == LINE_FEED {
        line_of(source, at - 1) + 1
    } else {
        line_of(source, at - 1)
    }
}

/// The column of the character that begins at `at`: one more than the
/// characters before it on its line. A character counts where its first
/// byte stands.
pub open spec fn column_of(source: Seq<u8>, at: int) -> int
    decreases at,
{
    if at <= 0 {
        1
    } else if source[at - 1] == LINE_FEED {
        1
    } else if is_continuation_byte(source[at - 1]) {
        column_of(source, at - 1)
    } else {
        column_of(source, at - 1) + 1
    }
}

/// The token of the given type that the source holds from `start` to
/// `end`, with the line and the columns that belong to those places.
pub open spec fn token_at(source: Seq<u8>, token_type: TokenType, start: int, end: int) -> Token {
    Token {
        token_type,
        line_number: line_of(source, start) as usize,
        indices: (start as usize, end as usize),
        column_indices: (column_of(source, start) as usize, column_of(source, end) as usize),
    }
}

/// What stands at a place of the source where a token has to begin:
/// a token that ends at the given place, or a failure found at the given
/// place.
pub enum Lexeme {
    Token(TokenType, int),
    Failure(ErrorType, int),
}

/// Where the run of digits that begins at `from` ends.
pub open spec fn digits_end(source: Seq<u8>, from: int) -> int
    decreases source.len() - from,
{
    if 0 <= from < source.len() && is_digit(source[from]) {
        digits_end(source, from + 1)
    } else {
        from
    }
}

/// Where the run of letters that begins at `from` ends.
pub open spec fn letters_end(source: Seq<u8>, from: int) -> int
    decreases source.len() - from,
{
    if 0 <= from < source.len() && is_letter(source[from]) {
        letters_end(source, from + 1)
    } else {
        from
    }
}

pub open spec fn word_true() -> Seq<u8> {
    seq![LOWER_T, LOWER_R, LOWER_U, LOWER_E]
}

pub open spec fn word_false() -> Seq<u8> {
    seq![LOWER_F, LOWER_A, LOWER_L, LOWER_S, LOWER_E]
}

pub open spec fn word_null() -> Seq<u8> {
    seq![LOWER_N, LOWER_U, LOWER_L, LOWER_L]
}

/// The keyword that begins at `start`: the longest run of letters there
/// has to be `true`, `false` or `null`.
pub open spec fn keyword_lexeme(source: Seq<u8>, start: int) -> Lexeme {
    let end = letters_end(source, start);
    let word = source.subrange(start, end);
    if word == word_true() {
        Lexeme::Token(TokenType::True, end)
    } else if word == word_false() {
        Lexeme::Token(TokenType::False, end)
    } else if word == word_null() {
        Lexeme::Token(TokenType::Null, end)
    } else {
        Lexeme::Failure(ErrorType::UnknownLiteral, start)
    }
}

/// Whether four hexadecimal digits stand at `at`.
pub open spec fn four_hex_digits(source: Seq<u8>, at: int) -> bool {
    &&& at + 4 <= source.len()
    &&& is_hex_digit(source[at])
    &&& is_hex_digit(source[at + 1])
    &&& is_hex_digit(source[at + 2])
    &&& is_hex_digit(source[at + 3])
}

/// The string whose opening quote stands at `start`, read from `at` on:
/// it ends with the next quote that no backslash escapes, on the same
/// line. A backslash is followed by one of `" \ / b f n r t`, or by `u`
/// and four hexadecimal digits.
pub open spec fn string_lexeme(source: Seq<u8>, start: int, at: int) -> Lexeme
    decreases source.len() - at,
{
    if at < 0 || at >= source.len() {
        Lexeme::Failure(ErrorType::UnterminatedString, start)
    } else if source[at] == QUOTE {
        Lexeme::Token(TokenType::String, at + 1)
    } else if source[at] == LINE_FEED {
        Lexeme::Failure(ErrorType::UnterminatedString, start)
    } else if source[at] == BACKSLASH {
        if at + 1 < source.len() && source[at + 1] == LOWER_U {
            if four_hex_digits(source, at + 2) {
                string_lexeme(source, start, at + 6)
            } else {
                Lexeme::Failure(ErrorType::InvalidUnicodeSequence, at)
            }
        } else if at + 1 < source.len() && is_simple_escape(source[at + 1]) {
            string_lexeme(source, start, at + 2)
        } else {
            Lexeme::Failure(ErrorType::InvalidEscapeSequence, at)
        }
    } else {
        string_lexeme(source, start, at + 1)
    }
}

/// Where the digits of the number at `start` begin: behind its sign.
pub open spec fn number_digits(source: Seq<u8>, start: int) -> int {
    if source[start] == MINUS {
        start + 1
    } else {
        start
    }
}

/// Where the integral digits of the number at `start` end.
pub open spec fn number_point(source: Seq<u8>, start: int) -> int {
    digits_end(source, number_digits(source, start))
}

/// Whether a point follows the integral digits of the number at `start`.
pub open spec fn has_fraction(source: Seq<u8>, start: int) -> bool {
    let point = number_point(source, start);
    point < source.len() && source[point] == POINT
}

/// Where the mantissa of the number at `start` ends: behind the digits of
/// its fraction, if it has one.
pub open spec fn fraction_end(source: Seq<u8>, start: int) -> int {
    if has_fraction(source, start) {
        digits_end(source, number_point(source, start) + 1)
    } else {
        number_point(source, start)
    }
}

/// Whether `e` or `E` follows the mantissa of the number at `start`.
pub open spec fn has_exponent(source: Seq<u8>, start: int) -> bool {
    let at = fraction_end(source, start);
    at < source.len() && (source[at] == LOWER_E || source[at] == UPPER_E)
}

/// Whether the exponent of the number at `start` has the sign `-`.
pub open spec fn exponent_is_negative(source: Seq<u8>, start: int) -> bool {
    let at = fraction_end(source, start) + 1;
    at < source.len() && source[at] == MINUS
}

/// Where the digits of the exponent of the number at `start` begin: behind
/// the `e` and the sign.
pub open spec fn exponent_digits(source: Seq<u8>, start: int) -> int {
    let at = fraction_end(source, start) + 1;
    if at < source.len() && (source[at] == PLUS || source[at] == MINUS) {
        at + 1
    } else {
        at
    }
}

/// Where the number at `start` ends.
pub open spec fn number_end(source: Seq<u8>, start: int) -> int {
    if has_exponent(source, start) {
        digits_end(source, exponent_digits(source, start))
    } else {
        fraction_end(source, start)
    }
}

/// Where the digits of the fraction of the number at `start` begin:
/// behind the point, if it has one.
pub open spec fn fraction_digits(source: Seq<u8>, start: int) -> int {
    if has_fraction(source, start) {
        number_point(source, start) + 1
    } else {
        number_point(source, start)
    }
}

/// The digits of the mantissa of the number at `start`, those of the
/// fraction behind the integral ones.
pub open spec fn mantissa(source: Seq<u8>, start: int) -> Seq<u8> {
    source.subrange(number_digits(source, start), number_point(source, start))
        + source.subrange(fraction_digits(source, start), fraction_end(source, start))
}

/// The exponent of the number at `start`, zero where none is written.
pub open spec fn exponent_value(source: Seq<u8>, start: int) -> int {
    if has_exponent(source, start) {
        signed_value(
            source.subrange(exponent_digits(source, start), number_end(source, start)),
            exponent_is_negative(source, start),
        )
    } else {
        0
    }
}

/// The power of ten by which the mantissa of the number at `start`, read
/// as a whole number, is to be multiplied: the exponent less the number of
/// digits of the fraction.
pub open spec fn scale(source: Seq<u8>, start: int) -> int {
    exponent_value(source, start) - (fraction_end(source, start) - fraction_digits(
        source,
        start,
    ))
}

/// The number that begins at `start`, where a `-` or a digit stands: an
/// optional `-`; digits, of which a `0` is not followed by another digit;
/// optionally a point and one digit or more; optionally `e` or `E`, a sign
/// and one digit or more. Its mantissa has a digit, and its value is one
/// that a binary64 floating-point number can hold.
pub open spec fn number_lexeme(source: Seq<u8>, start: int) -> Lexeme {
    let digits = number_digits(source, start);
    let point = number_point(source, start);
    if digits + 1 < source.len() && source[digits] == DIGIT_0 && is_digit(source[digits + 1]) {
        Lexeme::Failure(ErrorType::LeadingZeros, start)
    } else if has_fraction(source, start) && !(point + 1 < source.len() && is_digit(
        source[point + 1],
    )) {
        Lexeme::Failure(ErrorType::UnterminatedFractionalNumber, start)
    } else if has_exponent(source, start) && !(exponent_digits(source, start) < source.len()
        && is_digit(source[exponent_digits(source, start)])) {
        Lexeme::Failure(ErrorType::InvalidExponent, fraction_end(source, start))
    } else if mantissa(source, start).len() == 0 || rounds_to_infinity(
        digits_value(mantissa(source, start)),
        scale(source, start),
    ) {
        Lexeme::Failure(ErrorType::InvalidNumber, start)
    } else {
        Lexeme::Token(TokenType::Number, number_end(source, start))
    }
}

/// What stands at `at`, where the source holds a byte that is not blank.
pub open spec fn lexeme_at(source: Seq<u8>, at: int) -> Lexeme {
    let byte = source[at];
    if byte == LEFT_BRACE {
        Lexeme::Token(TokenType::LeftBrace, at + 1)
    } else if byte == RIGHT_BRACE {
        Lexeme::Token(TokenType::RightBrace, at + 1)
    } else if byte == LEFT_BRACKET {
        Lexeme::Token(TokenType::LeftBracket, at + 1)
    } else if byte == RIGHT_BRACKET {
        Lexeme::Token(TokenType::RightBracket, at + 1)
    } else if byte == COLON {
        Lexeme::Token(TokenType::Colon, at + 1)
    } else if byte == COMMA {
        Lexeme::Token(TokenType::Comma, at + 1)
    } else if byte == QUOTE {
        string_lexeme(source, at, at + 1)
    } else if byte == MINUS || is_digit(byte) {
        number_lexeme(source, at)
    } else if is_letter(byte) {
        keyword_lexeme(source, at)
    } else {
        Lexeme::Failure(ErrorType::UnknownCharacter, at)
    }
}

/// A failure of the scanner: what went wrong, and the byte offset at which
/// the preview of the failure points.
pub struct Failure {
    pub error_type: ErrorType,
    pub at: int,
}

/// The tokens that the source holds from `at` on, with the token that ends
/// the input as the last, or the first failure.
pub open spec fn tokens_from(source: Seq<u8>, at: int) -> Result<Seq<Token>, Failure>
    decreases source.len() - at,
    via tokens_from_decreases
{
    if at < 0 || at >= source.len() {
        Ok(seq![token_at(source, TokenType::Eof, source.len() as int, source.len() as int)])
    } else if is_blank(source[at]) {
        tokens_from(source, at + 1)
    } else {
        match lexeme_at(source, at) {
            Lexeme::Token(token_type, end) => match tokens_from(source, end) {
                Ok(rest) => Ok(seq![token_at(source, token_type, at, end)] + rest),
                Err(failure) => Err(failure),
            },
            Lexeme::Failure(error_type, place) => Err(Failure { error_type, at: place }),
        }
    }
}

/// Where the last lexeme or blank begins that scanning from `at` on reads,
/// or `start` where it reads none.
pub open spec fn last_start(source: Seq<u8>, at: int, start: int) -> int
    decreases source.len() - at,
    via last_start_decreases
{
    if at < 0 || at >= source.len() {
        start
    } else if is_blank(source[at]) {
        last_start(source, at + 1, at)
    } else {
        match lexeme_at(source, at) {
            Lexeme::Token(_, end) => last_start(source, end, at),
            Lexeme::Failure(_, _) => at,
        }
    }
}

#[via_fn]
proof fn last_start_decreases(source: Seq<u8>, at: int, start: int) {
    if 0 <= at < source.len() && !is_blank(source[at]) {
        lemma_lexeme_bounds(source, at);
    }
}

#[via_fn]
proof fn tokens_from_decreases(source: Seq<u8>, at: int) {
    if 0 <= at < source.len() && !is_blank(source[at]) {
        lemma_lexeme_bounds(source, at);
    }
}

/// What scanning the source gives: its tokens, or its first failure. An
/// empty source is a failure of its own.
pub open spec fn scan_result(source: Seq<u8>) -> Result<Seq<Token>, Failure> {
    if source.len() == 0 {
        Err(Failure { error_type: ErrorType::EmptySource, at: 0 })
    } else {
        tokens_from(source, 0)
    }
}

pub proof fn lemma_digits_end(source: Seq<u8>, from: int)
    requires
        0 <= from <= source.len(),
    ensures
        from <= digits_end(source, from) <= source.len(),
        forall|i: int| from <= i < digits_end(source, from) ==> is_digit(#[trigger] source[i]),
        digits_end(source, from) < source.len() ==> !is_digit(source[digits_end(source, from)]),
    decreases source.len() - from,
{
    if from < source.len() && is_digit(source[from]) {
        lemma_digits_end(source, from + 1);
    }
}

pub proof fn lemma_letters_end(source: Seq<u8>, from: int)
    requires
        0 <= from <= source.len(),
    ensures
        from <= letters_end(source, from) <= source.len(),
        forall|i: int| from <= i < letters_end(source, from) ==> is_letter(#[trigger] source[i]),
        letters_end(source, from) < source.len() ==> !is_letter(
            source[letters_end(source, from)],
        ),
    decreases source.len() - from,
{
    if from < source.len() && is_letter(source[from]) {
        lemma_letters_end(source, from + 1);
    }
}

/// A string ends behind a quote; a failure in it is found at its start or
/// at a backslash.
pub proof fn lemma_string_bounds(source: Seq<u8>, start: int, at: int)
    requires
        0 <= start < at <= source.len(),
    ensures
        match string_lexeme(source, start, at) {
            Lexeme::Token(token_type, end) => token_type == TokenType::String && at < end
                <= source.len() && source[end - 1] == QUOTE,
            Lexeme::Failure(_, place) => place == start || (at <= place < source.len()
                && source[place] == BACKSLASH),
        },
    decreases source.len() - at,
{
    if at < source.len() && source[at] != QUOTE && source[at] != LINE_FEED {
        if source[at] == BACKSLASH {
            if at + 1 < source.len() && source[at + 1] == LOWER_U {
                if four_hex_digits(source, at + 2) {
                    lemma_string_bounds(source, start, at + 6);
                }
            } else if at + 1 < source.len() && is_simple_escape(source[at + 1]) {
                lemma_string_bounds(source, start, at + 2);
            }
        } else {
            lemma_string_bounds(source, start, at + 1);
        }
    }
}

/// The places of the number at `start` follow one another within the
/// source.
pub proof fn lemma_number_bounds(source: Seq<u8>, start: int)
    requires
        0 <= start < source.len(),
        source[start] == MINUS || is_digit(source[start]),
    ensures
        start <= number_digits(source, start) <= number_point(source, start) <= fraction_end(
            source,
            start,
        ) <= number_end(source, start) <= source.len(),
        has_exponent(source, start) ==> fraction_end(source, start) < exponent_digits(
            source,
            start,
        ) <= source.len(),
        has_exponent(source, start) ==> exponent_digits(source, start) <= number_end(
            source,
            start,
        ),
        number_lexeme(source, start) is Token ==> start < number_end(source, start)
            && is_digit(source[number_end(source, start) - 1]),
{
    let digits = number_digits(source, start);
    let point = number_point(source, start);
    lemma_digits_end(source, digits);
    if has_fraction(source, start) {
        lemma_digits_end(source, point + 1);
    }
    if has_exponent(source, start) {
        if exponent_digits(source, start) <= source.len() {
            lemma_digits_end(source, exponent_digits(source, start));
        }
    }
}

/// A token ends behind its start, within the source and behind a byte of
/// ASCII; a failure is found at the start of the lexeme or at a byte of
/// ASCII within the source.
pub proof fn lemma_lexeme_bounds(source: Seq<u8>, at: int)
    requires
        0 <= at < source.len(),
    ensures
        match lexeme_at(source, at) {
            Lexeme::Token(_, end) => at < end <= source.len() && source[end - 1] < 0x80,
            Lexeme::Failure(_, place) => place == at || (at < place < source.len()
                && source[place] < 0x80),
        },
{
    let byte = source[at];
    if byte == QUOTE {
        lemma_string_bounds(source, at, at + 1);
    } else if byte == MINUS || is_digit(byte) {
        lemma_number_bounds(source, at);
    } else if is_letter(byte) {
        lemma_letters_end(source, at);
    }
}

} // verus!
