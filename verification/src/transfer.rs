//! A token is the same token wherever its bytes stand.

use vstd::prelude::*;
use crate::grammar::{
    digits_end, exponent_digits, exponent_is_negative, exponent_value, four_hex_digits,
    fraction_digits, fraction_end, has_exponent, has_fraction, is_digit, is_letter, keyword_lexeme,
    lemma_digits_end, lemma_letters_end, lemma_number_bounds, lemma_string_bounds, letters_end,
    lexeme_at, mantissa, number_digits, number_end, number_lexeme, number_point, scale,
    string_lexeme, Lexeme, BACKSLASH, COLON, COMMA, LEFT_BRACE, LEFT_BRACKET, LINE_FEED, LOWER_U,
    MINUS, POINT, QUOTE, RIGHT_BRACE, RIGHT_BRACKET,
};
use crate::token_type::TokenType;

verus! {

/// Whether the `count` bytes of `from` at `a` are those of `to` at `b`.
pub open spec fn same_bytes(from: Seq<u8>, a: int, to: Seq<u8>, b: int, count: int) -> bool {
    &&& 0 <= a
    &&& 0 <= b
    &&& 0 <= count
    &&& a + count <= from.len()
    &&& b + count <= to.len()
    &&& forall|x: int| 0 <= x < count ==> #[trigger] from[a + x] == to[b + x]
}

/// Whether no number and no keyword goes on with `byte`.
pub open spec fn separates(byte: u8) -> bool {
    !is_digit(byte) && !is_letter(byte) && byte != POINT
}

/// Whether no number and no keyword that ends at `at` could go on there.
pub open spec fn stops(source: Seq<u8>, at: int) -> bool {
    at >= source.len() || separates(source[at])
}

/// Equal bytes have equal parts.
pub proof fn lemma_same_part(
    from: Seq<u8>,
    a: int,
    to: Seq<u8>,
    b: int,
    count: int,
    low: int,
    high: int,
)
    requires
        same_bytes(from, a, to, b, count),
        0 <= low <= high <= count,
    ensures
        from.subrange(a + low, a + high) == to.subrange(b + low, b + high),
{
    let left = from.subrange(a + low, a + high);
    let right = to.subrange(b + low, b + high);
    assert forall|x: int| 0 <= x < left.len() implies #[trigger] left[x] == right[x] by {
        assert(from[a + (low + x)] == to[b + (low + x)]);
    }
    assert(left =~= right);
}

/// A run of digits within equal bytes ends at the same place, where it
/// cannot go on beyond them.
pub proof fn lemma_digits_transfer(
    from: Seq<u8>,
    a: int,
    to: Seq<u8>,
    b: int,
    count: int,
    x: int,
)
    requires
        same_bytes(from, a, to, b, count),
        0 <= x <= count,
        digits_end(from, a + x) <= a + count,
        digits_end(from, a + x) == a + count ==> b + count >= to.len() || !is_digit(
            to[b + count],
        ),
    ensures
        digits_end(to, b + x) - b == digits_end(from, a + x) - a,
    decreases count - x,
{
    if x < count {
        assert(from[a + x] == to[b + x]);
        if is_digit(from[a + x]) {
            lemma_digits_transfer(from, a, to, b, count, x + 1);
        }
    } else {
        lemma_digits_end(from, a + x);
    }
}

/// A run of letters within equal bytes ends at the same place, where it
/// cannot go on beyond them.
pub proof fn lemma_letters_transfer(
    from: Seq<u8>,
    a: int,
    to: Seq<u8>,
    b: int,
    count: int,
    x: int,
)
    requires
        same_bytes(from, a, to, b, count),
        0 <= x <= count,
        letters_end(from, a + x) <= a + count,
        letters_end(from, a + x) == a + count ==> b + count >= to.len() || !is_letter(
            to[b + count],
        ),
    ensures
        letters_end(to, b + x) - b == letters_end(from, a + x) - a,
    decreases count - x,
{
    if x < count {
        assert(from[a + x] == to[b + x]);
        if is_letter(from[a + x]) {
            lemma_letters_transfer(from, a, to, b, count, x + 1);
        }
    } else {
        lemma_letters_end(from, a + x);
    }
}

/// A string is a string wherever its bytes stand.
pub proof fn lemma_string_transfer(
    from: Seq<u8>,
    a: int,
    to: Seq<u8>,
    b: int,
    count: int,
    x: int,
)
    requires
        same_bytes(from, a, to, b, count),
        1 <= x <= count,
        string_lexeme(from, a, a + x) == Lexeme::Token(TokenType::String, a + count),
    ensures
        string_lexeme(to, b, b + x) == Lexeme::Token(TokenType::String, b + count),
    decreases count - x,
{
    lemma_string_bounds(from, a, a + x);
    assert(x < count);
    assert(from[a + x] == to[b + x]);
    if from[a + x] != QUOTE && from[a + x] != LINE_FEED {
        if from[a + x] == BACKSLASH {
            assert(a + x + 1 < from.len());
            if from[a + x + 1] == LOWER_U {
                lemma_string_bounds(from, a, a + x + 6);
                assert(from[a + (x + 1)] == to[b + (x + 1)]);
                assert(from[a + (x + 2)] == to[b + (x + 2)]);
                assert(from[a + (x + 3)] == to[b + (x + 3)]);
                assert(from[a + (x + 4)] == to[b + (x + 4)]);
                assert(from[a + (x + 5)] == to[b + (x + 5)]);
                assert(four_hex_digits(to, b + x + 2));
                lemma_string_transfer(from, a, to, b, count, x + 6);
            } else {
                lemma_string_bounds(from, a, a + x + 2);
                assert(from[a + (x + 1)] == to[b + (x + 1)]);
                lemma_string_transfer(from, a, to, b, count, x + 2);
            }
        } else {
            lemma_string_transfer(from, a, to, b, count, x + 1);
        }
    }
}

/// A keyword is a keyword wherever its bytes stand, if no letter follows
/// them.
pub proof fn lemma_keyword_transfer(
    from: Seq<u8>,
    a: int,
    to: Seq<u8>,
    b: int,
    count: int,
    token_type: TokenType,
)
    requires
        same_bytes(from, a, to, b, count),
        count > 0,
        keyword_lexeme(from, a) == Lexeme::Token(token_type, a + count),
        stops(to, b + count),
    ensures
        keyword_lexeme(to, b) == Lexeme::Token(token_type, b + count),
{
    lemma_letters_transfer(from, a, to, b, count, 0);
    lemma_same_part(from, a, to, b, count, 0, count);
}

/// The parts of a number stand at the same places wherever its bytes
/// stand, if nothing follows them with which a number could go on.
pub proof fn lemma_number_parts_transfer(from: Seq<u8>, a: int, to: Seq<u8>, b: int, count: int)
    requires
        same_bytes(from, a, to, b, count),
        count > 0,
        from[a] == MINUS || is_digit(from[a]),
        number_lexeme(from, a) == Lexeme::Token(TokenType::Number, a + count),
        stops(to, b + count),
    ensures
        number_digits(to, b) - b == number_digits(from, a) - a,
        number_point(to, b) - b == number_point(from, a) - a,
        has_fraction(to, b) == has_fraction(from, a),
        fraction_digits(to, b) - b == fraction_digits(from, a) - a,
        fraction_end(to, b) - b == fraction_end(from, a) - a,
        has_exponent(to, b) == has_exponent(from, a),
        has_exponent(from, a) ==> exponent_digits(to, b) - b == exponent_digits(from, a) - a,
        has_exponent(from, a) ==> exponent_is_negative(to, b) == exponent_is_negative(from, a),
        number_end(to, b) - b == count,
        number_end(from, a) - a == count,
{
    lemma_number_bounds(from, a);
    assert(from[a + 0] == to[b + 0]);
    let digits = number_digits(from, a);
    let point = number_point(from, a);
    assert(number_digits(to, b) - b == digits - a);
    lemma_digits_end(from, digits);
    lemma_digits_transfer(from, a, to, b, count, digits - a);
    assert(number_point(to, b) - b == point - a);
    if point < a + count {
        assert(from[a + (point - a)] == to[b + (point - a)]);
    } else {
        assert(!has_fraction(from, a)) by {
            if has_fraction(from, a) {
                lemma_digits_end(from, point + 1);
            }
        }
    }
    assert(has_fraction(to, b) == has_fraction(from, a));
    if has_fraction(from, a) {
        lemma_digits_end(from, point + 1);
        lemma_digits_transfer(from, a, to, b, count, point + 1 - a);
    }
    let end = fraction_end(from, a);
    assert(fraction_end(to, b) - b == end - a);
    if end < a + count {
        assert(from[a + (end - a)] == to[b + (end - a)]);
    }
    assert(has_exponent(to, b) == has_exponent(from, a));
    if has_exponent(from, a) {
        let sign = end + 1;
        assert(sign < a + count) by {
            lemma_digits_end(from, exponent_digits(from, a));
        }
        assert(from[a + (sign - a)] == to[b + (sign - a)]);
        let from_digits = exponent_digits(from, a);
        assert(exponent_digits(to, b) - b == from_digits - a);
        lemma_digits_end(from, from_digits);
        lemma_digits_transfer(from, a, to, b, count, from_digits - a);
    }
}

/// A number is a number wherever its bytes stand, if nothing follows them
/// with which a number could go on.
pub proof fn lemma_number_transfer(from: Seq<u8>, a: int, to: Seq<u8>, b: int, count: int)
    requires
        same_bytes(from, a, to, b, count),
        count > 0,
        from[a] == MINUS || is_digit(from[a]),
        number_lexeme(from, a) == Lexeme::Token(TokenType::Number, a + count),
        stops(to, b + count),
    ensures
        number_lexeme(to, b) == Lexeme::Token(TokenType::Number, b + count),
{
    lemma_number_parts_transfer(from, a, to, b, count);
    lemma_number_bounds(from, a);
    let digits = number_digits(from, a) - a;
    let point = number_point(from, a) - a;
    let fraction = fraction_digits(from, a) - a;
    let end = fraction_end(from, a) - a;
    assert(from[a + 0] == to[b + 0]);
    // no zero before a digit
    if digits + 1 < count {
        assert(from[a + digits] == to[b + digits]);
        assert(from[a + (digits + 1)] == to[b + (digits + 1)]);
    } else if digits < count {
        assert(from[a + digits] == to[b + digits]);
    }
    // a digit behind the point
    if has_fraction(from, a) {
        lemma_digits_end(from, a + point + 1);
        assert(from[a + (point + 1)] == to[b + (point + 1)]);
    }
    // a digit in the exponent
    if has_exponent(from, a) {
        let first = exponent_digits(from, a) - a;
        lemma_digits_end(from, a + first);
        assert(from[a + first] == to[b + first]);
        lemma_same_part(from, a, to, b, count, first, count);
    }
    lemma_same_part(from, a, to, b, count, digits, point);
    lemma_same_part(from, a, to, b, count, fraction, end);
    assert(mantissa(to, b) == mantissa(from, a));
    assert(exponent_value(to, b) == exponent_value(from, a));
    assert(scale(to, b) == scale(from, a));
}

/// Whether `byte` is a token by itself.
pub open spec fn is_punctuation(byte: u8) -> bool {
    byte == LEFT_BRACE || byte == RIGHT_BRACE || byte == LEFT_BRACKET || byte == RIGHT_BRACKET
        || byte == COLON || byte == COMMA
}

/// A token is the same token wherever its bytes stand, if nothing follows
/// them with which a number or a keyword could go on.
pub proof fn lemma_lexeme_transfer(
    from: Seq<u8>,
    a: int,
    to: Seq<u8>,
    b: int,
    count: int,
    token_type: TokenType,
)
    requires
        same_bytes(from, a, to, b, count),
        count > 0,
        lexeme_at(from, a) == Lexeme::Token(token_type, a + count),
        stops(to, b + count),
    ensures
        lexeme_at(to, b) == Lexeme::Token(token_type, b + count),
        to[b] == from[a],
{
    assert(from[a + 0] == to[b + 0]);
    let byte = from[a];
    if is_punctuation(byte) {
    } else if byte == QUOTE {
        lemma_string_bounds(from, a, a + 1);
        lemma_string_transfer(from, a, to, b, count, 1);
    } else if byte == MINUS || is_digit(byte) {
        lemma_number_transfer(from, a, to, b, count);
    } else if is_letter(byte) {
        lemma_keyword_transfer(from, a, to, b, count, token_type);
    }
}

} // verus!
