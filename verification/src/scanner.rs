//! The scanner: from the bytes of a source to its tokens.

use vstd::prelude::*;
use vstd::slice::*;
use vstd::string::StringSliceAdditionalSpecFns;
use vstd::utf8::{
    encode_utf8_valid_utf8, is_char_boundary, is_char_boundary_iff_not_is_continuation_byte,
    is_char_boundary_start_end_of_seq, length_of_first_scalar, pop_first_scalar, valid_utf8,
};
use crate::error_preview::{preview_text, ErrorPreview};
use crate::grammar::{
    column_of, digits_end, exponent_digits, exponent_is_negative, exponent_value, fraction_digits,
    fraction_end, has_exponent, is_blank, is_digit, is_hex_digit, is_letter, is_simple_escape,
    keyword_lexeme, last_start, lemma_digits_end, lemma_lexeme_bounds, lemma_number_bounds,
    lemma_string_bounds, letters_end, lexeme_at, line_of, mantissa, number_digits, number_end,
    number_lexeme, number_point, scan_result, string_lexeme, token_at, tokens_from, word_false,
    word_null, word_true, Failure, Lexeme, BACKSLASH, CARRIAGE_RETURN, COLON, COMMA, DIGIT_0,
    DIGIT_9, LEFT_BRACE, LEFT_BRACKET, LINE_FEED, LOWER_A, LOWER_B, LOWER_E, LOWER_F, LOWER_L,
    LOWER_N, LOWER_R, LOWER_S, LOWER_T, LOWER_U, LOWER_Z, MINUS, PLUS, POINT, QUOTE, RIGHT_BRACE,
    RIGHT_BRACKET, SLASH, SPACE, TAB, UPPER_A, UPPER_E, UPPER_F, UPPER_Z,
};
use crate::number::{all_digits, exceeds_binary64, signed_value};
use crate::node::Tree;
use crate::parser::{
    lemma_list_advances, lemma_members_in_order, member_place, object_at, property_at, token_fits,
    tokens_fit,
};
use crate::scanner_error::ScannerError;
use crate::scanner_error_update::ErrorType;
use crate::text::chars_of;
use crate::token::Token;
use crate::token_type::TokenType;

verus! {

/// Whether `error` is the given failure in `source`: of its type, with the
/// preview of the source at the place of the failure, its line and its
/// column.
pub open spec fn describes(source: Seq<u8>, failure: Failure, error: ScannerError) -> bool {
    &&& error.error_type() == failure.error_type
    &&& error.preview() == preview_text(
        source,
        failure.at,
        column_of(source, failure.at) as nat,
        line_of(source, failure.at) as nat,
    )
}

/// What `found` is as a lexeme.
pub open spec fn as_lexeme(found: Result<(TokenType, usize), (ErrorType, usize)>) -> Lexeme {
    match found {
        Ok((token_type, end)) => Lexeme::Token(token_type, end as int),
        Err((error_type, at)) => Lexeme::Failure(error_type, at as int),
    }
}

/// Lines and columns are counted from one and grow by one at most with
/// each byte.
pub proof fn lemma_place_bounds(source: Seq<u8>, at: int)
    requires
        0 <= at,
    ensures
        1 <= line_of(source, at) <= at + 1,
        1 <= column_of(source, at) <= at + 1,
    decreases at,
{
    if at > 0 {
        lemma_place_bounds(source, at - 1);
    }
}

/// Behind a character of one byte a character begins, or the source ends.
pub proof fn lemma_boundary_behind_ascii(source: Seq<u8>, at: int)
    requires
        valid_utf8(source),
        0 <= at < source.len(),
        source[at] < 0x80,
    ensures
        is_char_boundary(source, at + 1),
    decreases source.len(),
{
    reveal_with_fuel(is_char_boundary, 2);
    reveal_with_fuel(valid_utf8, 2);
    if at == 0 {
    } else {
        is_char_boundary_iff_not_is_continuation_byte(source, at);
        let width = length_of_first_scalar(source);
        let rest = pop_first_scalar(source);
        assert(at >= width);
        assert(rest[at - width] == source[at]);
        lemma_boundary_behind_ascii(rest, at - width);
    }
}

/// The tokens of a source lie within it, each from the beginning of a
/// character to the beginning of a character, and the last of them ends the
/// input.
pub proof fn lemma_scanned_tokens_fit(source: Seq<u8>, at: int)
    requires
        valid_utf8(source),
        source.len() <= usize::MAX,
        0 <= at <= source.len(),
        is_char_boundary(source, at),
        tokens_from(source, at) is Ok,
    ensures
        tokens_fit(source, tokens_from(source, at)->Ok_0),
        tokens_from(source, at)->Ok_0.len() > 0,
        tokens_from(source, at)->Ok_0.last().token_type == TokenType::Eof,
    decreases source.len() - at,
{
    let tokens = tokens_from(source, at)->Ok_0;
    is_char_boundary_start_end_of_seq(source);
    if at >= source.len() {
    } else if is_blank(source[at]) {
        lemma_boundary_behind_ascii(source, at);
        lemma_scanned_tokens_fit(source, at + 1);
    } else {
        lemma_lexeme_bounds(source, at);
        let end = lexeme_at(source, at)->Token_1;
        lemma_boundary_behind_ascii(source, end - 1);
        lemma_scanned_tokens_fit(source, end);
        let rest = tokens_from(source, end)->Ok_0;
        assert forall|i: int| 0 <= i < tokens.len() implies token_fits(
            source,
            #[trigger] tokens[i],
        ) by {
            if i > 0 {
                assert(tokens[i] == rest[i - 1]);
            }
        }
        assert(tokens.last() == rest.last());
    }
}

/// The tokens of a source follow one another in it: each begins where the
/// one before it has ended, or further on.
pub proof fn scanned_tokens_follow_one_another(source: Seq<u8>, at: int)
    requires
        source.len() <= usize::MAX,
        0 <= at <= source.len(),
        tokens_from(source, at) is Ok,
    ensures
        ({
            let tokens = tokens_from(source, at)->Ok_0;
            &&& tokens.len() > 0
            &&& at <= tokens[0].indices.0
            &&& forall|i: int|
                0 <= i < tokens.len() ==> (#[trigger] tokens[i]).indices.0 <= tokens[i].indices.1
                    <= source.len()
            &&& forall|i: int, j: int|
                0 <= i < j < tokens.len() ==> (#[trigger] tokens[i]).indices.1 <= (
                #[trigger] tokens[j]).indices.0
        }),
    decreases source.len() - at,
{
    let tokens = tokens_from(source, at)->Ok_0;
    if at >= source.len() {
    } else if is_blank(source[at]) {
        scanned_tokens_follow_one_another(source, at + 1);
    } else {
        lemma_lexeme_bounds(source, at);
        let end = lexeme_at(source, at)->Token_1;
        scanned_tokens_follow_one_another(source, end);
        let rest = tokens_from(source, end)->Ok_0;
        assert forall|i: int| 0 <= i < tokens.len() implies (#[trigger] tokens[i]).indices.0
            <= tokens[i].indices.1 <= source.len() by {
            if i > 0 {
                assert(tokens[i] == rest[i - 1]);
            }
        }
        assert forall|i: int, j: int| 0 <= i < j < tokens.len() implies (
        #[trigger] tokens[i]).indices.1 <= (#[trigger] tokens[j]).indices.0 by {
            assert(tokens[j] == rest[j - 1]);
            if i > 0 {
                assert(tokens[i] == rest[i - 1]);
            } else {
                assert(rest[0].indices.0 <= rest[j - 1].indices.0) by {
                    if j - 1 > 0 {
                        assert(rest[0].indices.1 <= rest[j - 1].indices.0);
                    }
                }
            }
        }
    }
}

/// Each token of a source, but for the one that ends the input, is the
/// lexeme that begins where the token begins.
pub proof fn lemma_scanned_tokens_are_lexemes(source: Seq<u8>, at: int)
    requires
        source.len() <= usize::MAX,
        0 <= at <= source.len(),
        tokens_from(source, at) is Ok,
    ensures
        forall|i: int|
            0 <= i < tokens_from(source, at)->Ok_0.len() ==> {
                let token = #[trigger] tokens_from(source, at)->Ok_0[i];
                token.token_type == TokenType::Eof || (token.indices.0 < token.indices.1
                    <= source.len() && !is_blank(source[token.indices.0 as int]) && lexeme_at(
                    source,
                    token.indices.0 as int,
                ) == Lexeme::Token(token.token_type, token.indices.1 as int))
            },
    decreases source.len() - at,
{
    let tokens = tokens_from(source, at)->Ok_0;
    if at >= source.len() {
    } else if is_blank(source[at]) {
        lemma_scanned_tokens_are_lexemes(source, at + 1);
    } else {
        lemma_lexeme_bounds(source, at);
        let end = lexeme_at(source, at)->Token_1;
        lemma_scanned_tokens_are_lexemes(source, end);
        let rest = tokens_from(source, end)->Ok_0;
        assert forall|i: int| 0 <= i < tokens.len() implies {
            let token = #[trigger] tokens[i];
            token.token_type == TokenType::Eof || (token.indices.0 < token.indices.1
                <= source.len() && !is_blank(source[token.indices.0 as int]) && lexeme_at(
                source,
                token.indices.0 as int,
            ) == Lexeme::Token(token.token_type, token.indices.1 as int))
        } by {
            if i > 0 {
                assert(tokens[i] == rest[i - 1]);
            }
        }
    }
}

/// Of two tokens of a source, the earlier begins at the lesser byte
/// offset.
pub proof fn lemma_token_begins_before(source: Seq<u8>, earlier: int, later: int)
    requires
        source.len() <= usize::MAX,
        tokens_from(source, 0) is Ok,
        0 <= earlier < later < tokens_from(source, 0)->Ok_0.len(),
    ensures
        tokens_from(source, 0)->Ok_0[earlier].indices.0 < tokens_from(
            source,
            0,
        )->Ok_0[later].indices.0,
{
    let tokens = tokens_from(source, 0)->Ok_0;
    scanned_tokens_follow_one_another(source, 0);
    lemma_scanned_tokens_are_lexemes(source, 0);
    lemma_scanned_tokens_end(source, 0);
    assert(tokens[earlier].indices.1 <= tokens[later].indices.0);
    assert(tokens[earlier].token_type != TokenType::Eof);
}

/// Only the last token of a source ends the input.
pub proof fn lemma_scanned_tokens_end(source: Seq<u8>, at: int)
    requires
        0 <= at <= source.len(),
        tokens_from(source, at) is Ok,
    ensures
        forall|i: int|
            0 <= i < tokens_from(source, at)->Ok_0.len() - 1 ==> (#[trigger] tokens_from(
                source,
                at,
            )->Ok_0[i]).token_type != TokenType::Eof,
    decreases source.len() - at,
{
    let tokens = tokens_from(source, at)->Ok_0;
    if at >= source.len() {
    } else if is_blank(source[at]) {
        lemma_scanned_tokens_end(source, at + 1);
    } else {
        lemma_lexeme_bounds(source, at);
        let end = lexeme_at(source, at)->Token_1;
        lemma_scanned_tokens_end(source, end);
        let rest = tokens_from(source, end)->Ok_0;
        lemma_lexeme_is_no_end(source, at);
        assert forall|i: int| 0 <= i < tokens.len() - 1 implies (#[trigger] tokens[i]).token_type
            != TokenType::Eof by {
            if i > 0 {
                assert(tokens[i] == rest[i - 1]);
            }
        }
    }
}

/// No lexeme is the token that ends the input.
pub proof fn lemma_lexeme_is_no_end(source: Seq<u8>, at: int)
    requires
        0 <= at < source.len(),
    ensures
        lexeme_at(source, at) matches Lexeme::Token(token_type, _) ==> token_type
            != TokenType::Eof,
{
    if source[at] == QUOTE {
        lemma_string_bounds(source, at, at + 1);
    }
}

/// The children of a parsed object stand in the order in which their
/// properties stand in the source: of two children, the one with the lesser
/// number is the property whose key begins at the lesser byte offset.
pub proof fn object_keeps_the_order_of_the_source(
    source: Seq<u8>,
    at: int,
    first: int,
    second: int,
)
    requires
        source.len() <= usize::MAX,
        tokens_from(source, 0) is Ok,
        object_at(source, tokens_from(source, 0)->Ok_0, at) matches Ok((Tree::Object(children), _))
            && 0 <= first < second < children.len(),
    ensures
        ({
            let tokens = tokens_from(source, 0)->Ok_0;
            let children = object_at(source, tokens, at)->Ok_0.0->Object_0;
            let earlier = member_place(source, tokens, at, first);
            let later = member_place(source, tokens, at, second);
            &&& 0 <= earlier < later < tokens.len()
            &&& property_at(source, tokens, earlier) matches Ok((property, _)) && property
                == children[first]
            &&& property_at(source, tokens, later) matches Ok((property, _)) && property
                == children[second]
            &&& tokens[earlier].indices.0 < tokens[later].indices.0
        }),
    decreases second - first,
{
    let tokens = tokens_from(source, 0)->Ok_0;
    let empty = Seq::<Tree>::empty();
    lemma_list_advances(source, tokens, at, empty);
    lemma_members_in_order(source, tokens, at, empty, first);
    lemma_members_in_order(source, tokens, at, empty, second);
    if first < second - 1 {
        object_keeps_the_order_of_the_source(source, at, first, second - 1);
    }
    lemma_token_begins_before(
        source,
        member_place(source, tokens, at, first),
        member_place(source, tokens, at, second),
    );
}

/// Whether `c` is a space, a tab, a carriage return or a line feed.
pub open spec fn is_blank_char(c: char) -> bool {
    c == ' ' || c == '\r' || c == '\t' || c == '\n'
}

/// Where the run of blanks that begins at `from` ends.
pub open spec fn blanks_end(characters: Seq<char>, from: int) -> int
    decreases characters.len() - from,
{
    if 0 <= from < characters.len() && is_blank_char(characters[from]) {
        blanks_end(characters, from + 1)
    } else {
        from
    }
}

/// The type of the token that `c` is by itself, if it is one.
pub open spec fn punctuation(c: char) -> Option<TokenType> {
    if c == '{' {
        Some(TokenType::LeftBrace)
    } else if c == '}' {
        Some(TokenType::RightBrace)
    } else if c == '[' {
        Some(TokenType::LeftBracket)
    } else if c == ']' {
        Some(TokenType::RightBracket)
    } else if c == ':' {
        Some(TokenType::Colon)
    } else if c == ',' {
        Some(TokenType::Comma)
    } else {
        None
    }
}

/// The type of the token of one character that stands at `at`: that of the
/// end of the input where the characters have run out, none where another
/// character stands.
pub open spec fn punctuation_at(characters: Seq<char>, at: int) -> Option<TokenType> {
    if 0 <= at < characters.len() {
        punctuation(characters[at])
    } else {
        Some(TokenType::Eof)
    }
}

/// Scans a source into tokens.
///
/// The scanner reads the source once, from its first byte to its last. The
/// cursor `current`, the line `line` and the columns `column_start` and
/// `column_end` say how far it has come; `start` is where the lexeme began
/// that it read last.
///
/// Beside that, the scanner can hand out the tokens of one character one by
/// one: it then goes through `characters`, the characters of the source,
/// from `start_position` to `current_position`.
#[derive(Debug)]
pub struct Scanner<'source> {
    pub source: &'source str,
    pub start: usize,
    pub current: usize,
    pub line: usize,
    pub column_start: usize,
    pub column_end: usize,
    pub characters: Vec<char>,
    pub start_position: usize,
    pub current_position: usize,
}

impl<'source> Scanner<'source> {
    /// Whether the cursor, the line and the columns belong together: the
    /// cursor stands where a character of the source begins, or at its
    /// end; `line` is the line of that place and `column_end` its column,
    /// one more than `column_start`.
    pub open spec fn wf(self) -> bool {
        let source = self.source.spec_bytes();
        &&& source.len() < usize::MAX
        &&& self.current <= source.len()
        &&& is_char_boundary(source, self.current as int)
        &&& self.line == line_of(source, self.current as int)
        &&& self.column_end == column_of(source, self.current as int)
        &&& self.column_start + 1 == self.column_end
    }

    /// What is left to scan: the tokens from the cursor on, or the first
    /// failure.
    pub open spec fn pending(self) -> Result<Seq<Token>, Failure> {
        let source = self.source.spec_bytes();
        if source.len() == 0 {
            Err(Failure { error_type: ErrorType::EmptySource, at: 0 })
        } else {
            tokens_from(source, self.current as int)
        }
    }

    pub fn new(source: &'source str) -> (scanner: Self)
        ensures
            scanner.source == source,
            scanner.start == 0,
            scanner.current == 0,
            scanner.line == 1,
            scanner.column_start == 0,
            scanner.column_end == 1,
            scanner.characters@ == source@,
            scanner.start_position == 0,
            scanner.current_position == 0,
            scanner.pending() == scan_result(source.spec_bytes()),
            source.spec_bytes().len() < usize::MAX ==> scanner.wf(),
    {
        proof {
            broadcast use encode_utf8_valid_utf8;

            is_char_boundary_start_end_of_seq(source.spec_bytes());
        }
        Self {
            source,
            start: 0,
            current: 0,
            line: 1,
            column_start: 0,
            column_end: 1,
            characters: chars_of(source),
            start_position: 0,
            current_position: 0,
        }
    }

    /// The character at the position `current_position`.
    pub fn peek(&self) -> (character: Option<&char>)
        ensures
            self.current_position < self.characters@.len() ==> character == Some(
                &self.characters@[self.current_position as int],
            ),
            self.current_position >= self.characters@.len() ==> character is None,
    {
        if self.current_position < self.characters.len() {
            Some(&self.characters[self.current_position])
        } else {
            None
        }
    }

    /// The character at the position `current_position`; the position
    /// moves on by one, also where no character is left.
    pub fn next(&mut self) -> (character: Option<&char>)
        requires
            old(self).current_position < usize::MAX,
        ensures
            *final(self) == (Scanner {
                current_position: (old(self).current_position + 1) as usize,
                ..*old(self)
            }),
            old(self).current_position < old(self).characters@.len() ==> character == Some(
                &old(self).characters@[old(self).current_position as int],
            ),
            old(self).current_position >= old(self).characters@.len() ==> character is None,
    {
        self.current_position += 1;
        if self.current_position - 1 < self.characters.len() {
            Some(&self.characters[self.current_position - 1])
        } else {
            None
        }
    }

    /// Reads the token of one character that follows the blanks at the
    /// position `current_position`, and gives its type. `start_position`
    /// becomes the place behind the blanks and `current_position` the place
    /// one further. Where another character stands, the error holds no
    /// preview.
    pub fn eval(&mut self) -> (result: Result<TokenType, ScannerError>)
        requires
            old(self).current_position < usize::MAX,
            old(self).characters@.len() < usize::MAX,
        ensures
            *final(self) == (Scanner {
                start_position: final(self).start_position,
                current_position: final(self).current_position,
                ..*old(self)
            }),
            final(self).start_position == blanks_end(
                old(self).characters@,
                old(self).current_position as int,
            ),
            final(self).current_position == final(self).start_position + 1,
            match punctuation_at(old(self).characters@, final(self).start_position as int) {
                Some(token_type) => result == Ok::<TokenType, ScannerError>(token_type),
                None => result matches Err(ScannerError::UnknownCharacter { error }) && error@
                    == Seq::<char>::empty(),
            },
    {
        loop
            invariant
                *self == (Scanner { current_position: self.current_position, ..*old(self) }),
                self.characters@.len() < usize::MAX,
                self.current_position < usize::MAX,
                blanks_end(self.characters@, self.current_position as int) == blanks_end(
                    old(self).characters@,
                    old(self).current_position as int,
                ),
            ensures
                self.current_position == blanks_end(
                    old(self).characters@,
                    old(self).current_position as int,
                ),
            decreases self.characters@.len() - self.current_position,
        {
            let blank = match self.peek() {
                Some(character) => *character == ' ' || *character == '\r' || *character == '\t'
                    || *character == '\n',
                None => false,
            };
            if blank {
                self.next();
            } else {
                break ;
            }
        }
        self.start_position = self.current_position;
        match self.next() {
            Some(character) => {
                let character = *character;
                if character == '{' {
                    Ok(TokenType::LeftBrace)
                } else if character == '}' {
                    Ok(TokenType::RightBrace)
                } else if character == '[' {
                    Ok(TokenType::LeftBracket)
                } else if character == ']' {
                    Ok(TokenType::RightBracket)
                } else if character == ':' {
                    Ok(TokenType::Colon)
                } else if character == ',' {
                    Ok(TokenType::Comma)
                } else {
                    Err(ScannerError::UnknownCharacter { error: String::new() })
                }
            },
            None => Ok(TokenType::Eof),
        }
    }

    /// Reads the token of one character that follows the blanks at the
    /// position `current_position`, as [`Scanner::eval`] does, and places
    /// it at the start of the first line.
    pub fn get_token(&mut self) -> (result: Result<Token, ScannerError>)
        requires
            old(self).current_position < usize::MAX,
            old(self).characters@.len() < usize::MAX,
        ensures
            *final(self) == (Scanner {
                start_position: final(self).start_position,
                current_position: final(self).current_position,
                ..*old(self)
            }),
            final(self).start_position == blanks_end(
                old(self).characters@,
                old(self).current_position as int,
            ),
            final(self).current_position == final(self).start_position + 1,
            match punctuation_at(old(self).characters@, final(self).start_position as int) {
                Some(token_type) => result == Ok::<Token, ScannerError>(
                    Token { token_type, line_number: 1, indices: (0, 1), column_indices: (1, 2) },
                ),
                None => result matches Err(ScannerError::UnknownCharacter { error }) && error@
                    == Seq::<char>::empty(),
            },
    {
        match self.eval() {
            Ok(token_type) => Ok(Token::new(token_type, 1, (0, 1), (1, 2))),
            Err(error) => Err(error),
        }
    }

    /// Moves the cursor on to `to` and counts the lines and the columns on
    /// the way.
    fn advance(&mut self, to: usize)
        requires
            old(self).wf(),
            old(self).current <= to <= old(self).source.spec_bytes().len(),
            is_char_boundary(old(self).source.spec_bytes(), to as int),
        ensures
            final(self).wf(),
            final(self).current == to,
            final(self).source == old(self).source,
            final(self).start == old(self).start,
            final(self).characters == old(self).characters,
            final(self).start_position == old(self).start_position,
            final(self).current_position == old(self).current_position,
    {
        let source = self.source;
        let bytes = source.as_bytes();
        while self.current < to
            invariant
                self.source == source,
                bytes@ == source.spec_bytes(),
                bytes@.len() < usize::MAX,
                self.current <= to <= bytes@.len(),
                self.line == line_of(bytes@, self.current as int),
                self.column_end == column_of(bytes@, self.current as int),
                self.column_start + 1 == self.column_end,
                self.start == old(self).start,
                self.characters == old(self).characters,
                self.start_position == old(self).start_position,
                self.current_position == old(self).current_position,
            decreases to - self.current,
        {
            let byte = bytes[self.current];
            proof {
                lemma_place_bounds(bytes@, self.current as int);
            }
            self.current += 1;
            if byte == LINE_FEED {
                self.line += 1;
                self.column_start = 0;
                self.column_end = 1;
            } else if !(0x80 <= byte && byte <= 0xbf) {
                self.column_start += 1;
                self.column_end += 1;
            }
        }
    }

    /// The failure of the given type at the byte offset `at`, where the
    /// cursor stands.
    fn error_preview(&self, error_type: ErrorType) -> (error: ScannerError)
        requires
            self.wf(),
        ensures
            describes(
                self.source.spec_bytes(),
                Failure { error_type, at: self.current as int },
                error,
            ),
    {
        ScannerError::of(
            error_type,
            ErrorPreview.preview(self.source, self.current, self.column_end, self.line),
        )
    }

    /// The token of the given type that ends at `end`, when the cursor
    /// stands where it begins; the cursor moves on to its end.
    fn create_token(&mut self, token_type: TokenType, end: usize) -> (token: Token)
        requires
            old(self).wf(),
            old(self).current <= end <= old(self).source.spec_bytes().len(),
            is_char_boundary(old(self).source.spec_bytes(), end as int),
        ensures
            token == token_at(
                old(self).source.spec_bytes(),
                token_type,
                old(self).current as int,
                end as int,
            ),
            final(self).wf(),
            final(self).current == end,
            final(self).start == old(self).current,
            final(self).source == old(self).source,
            final(self).characters == old(self).characters,
            final(self).start_position == old(self).start_position,
            final(self).current_position == old(self).current_position,
    {
        let start = self.current;
        let line = self.line;
        let column = self.column_end;
        self.start = start;
        self.advance(end);
        Token::new(token_type, line, (start, end), (column, self.column_end))
    }

    /// Scans what is left of the source: its tokens from the cursor on,
    /// and behind them the token that ends the input. The first lexeme that
    /// is no token ends the scan with its failure, as does a source that is
    /// empty.
    pub fn scan(&mut self) -> (result: Result<Vec<Token>, ScannerError>)
        requires
            old(self).wf(),
        ensures
            final(self).source == old(self).source,
            final(self).characters == old(self).characters,
            final(self).start_position == old(self).start_position,
            final(self).current_position == old(self).current_position,
            final(self).wf(),
            final(self).start == last_start(
                old(self).source.spec_bytes(),
                old(self).current as int,
                old(self).start as int,
            ),
            match result {
                Ok(tokens) => old(self).pending() == Ok::<Seq<Token>, Failure>(tokens@)
                    && final(self).current == old(self).source.spec_bytes().len(),
                Err(error) => old(self).pending() matches Err(failure) && describes(
                    old(self).source.spec_bytes(),
                    failure,
                    error,
                ) && final(self).current == failure.at,
            },
    {
        let source = self.source;
        let bytes = source.as_bytes();
        let mut tokens: Vec<Token> = Vec::new();
        if bytes.len() == 0 {
            return Err(self.error_preview(ErrorType::EmptySource));
        }
        proof {
            broadcast use encode_utf8_valid_utf8;

        }
        while self.current < bytes.len()
            invariant
                self.source == source,
                source == old(self).source,
                bytes@ == source.spec_bytes(),
                valid_utf8(bytes@),
                bytes@.len() > 0,
                self.wf(),
                self.characters == old(self).characters,
                self.start_position == old(self).start_position,
                self.current_position == old(self).current_position,
                last_start(bytes@, self.current as int, self.start as int) == last_start(
                    bytes@,
                    old(self).current as int,
                    old(self).start as int,
                ),
                match tokens_from(bytes@, self.current as int) {
                    Ok(rest) => old(self).pending() == Ok::<Seq<Token>, Failure>(tokens@ + rest),
                    Err(failure) => old(self).pending() == Err::<Seq<Token>, Failure>(failure),
                },
            decreases bytes.len() - self.current,
        {
            let at = self.current;
            let byte = bytes[at];
            proof {
                lemma_lexeme_bounds(bytes@, at as int);
            }
            if byte == SPACE || byte == TAB || byte == CARRIAGE_RETURN || byte == LINE_FEED {
                proof {
                    lemma_boundary_behind_ascii(bytes@, at as int);
                }
                self.start = at;
                self.advance(at + 1);
            } else {
                match Self::evaluate(bytes, at) {
                    Ok((token_type, end)) => {
                        proof {
                            lemma_boundary_behind_ascii(bytes@, end - 1);
                        }
                        let ghost before = tokens@;
                        assert(lexeme_at(bytes@, at as int) == Lexeme::Token(
                            token_type,
                            end as int,
                        ));
                        let token = self.create_token(token_type, end);
                        tokens.push(token);
                        proof {
                            assert(token == token_at(bytes@, token_type, at as int, end as int));
                            match tokens_from(bytes@, end as int) {
                                Ok(rest) => {
                                    assert(tokens_from(bytes@, at as int) == Ok::<
                                        Seq<Token>,
                                        Failure,
                                    >(seq![token] + rest));
                                    assert(before + (seq![token] + rest) =~= tokens@ + rest);
                                },
                                Err(failure) => {
                                    assert(tokens_from(bytes@, at as int) == Err::<
                                        Seq<Token>,
                                        Failure,
                                    >(failure));
                                },
                            }
                        }
                    },
                    Err((error_type, place)) => {
                        proof {
                            is_char_boundary_iff_not_is_continuation_byte(bytes@, place as int);
                        }
                        self.start = at;
                        self.advance(place);
                        return Err(self.error_preview(error_type));
                    },
                }
            }
        }
        let ghost before = tokens@;
        let end = Token::new(
            TokenType::Eof,
            self.line,
            (self.current, self.current),
            (self.column_end, self.column_end),
        );
        tokens.push(end);
        proof {
            let len = bytes@.len() as int;
            assert(end == token_at(bytes@, TokenType::Eof, len, len));
            assert(tokens_from(bytes@, len) == Ok::<Seq<Token>, Failure>(seq![end]));
            assert(tokens@ =~= before + seq![end]);
        }
        Ok(tokens)
    }

    /// Where the run of digits that begins at `from` ends.
    fn digits(bytes: &[u8], from: usize) -> (end: usize)
        requires
            from <= bytes.len(),
        ensures
            end == digits_end(bytes@, from as int),
            from <= end <= bytes.len(),
    {
        let mut end = from;
        while end < bytes.len() && DIGIT_0 <= bytes[end] && bytes[end] <= DIGIT_9
            invariant
                from <= end <= bytes.len(),
                digits_end(bytes@, end as int) == digits_end(bytes@, from as int),
            decreases bytes.len() - end,
        {
            end += 1;
        }
        end
    }

    /// Reads the string whose opening quote stands at `start`.
    fn scan_string(bytes: &[u8], start: usize) -> (found: Result<
        (TokenType, usize),
        (ErrorType, usize),
    >)
        requires
            start < bytes.len(),
        ensures
            as_lexeme(found) == string_lexeme(bytes@, start as int, start + 1),
    {
        let len = bytes.len();
        let mut at = start + 1;
        loop
            invariant
                len == bytes.len(),
                start < at <= len,
                string_lexeme(bytes@, start as int, at as int) == string_lexeme(
                    bytes@,
                    start as int,
                    start + 1,
                ),
            decreases len - at,
        {
            if at >= len {
                return Err((ErrorType::UnterminatedString, start));
            }
            let byte = bytes[at];
            if byte == QUOTE {
                return Ok((TokenType::String, at + 1));
            } else if byte == LINE_FEED {
                return Err((ErrorType::UnterminatedString, start));
            } else if byte == BACKSLASH {
                if len - at > 1 && bytes[at + 1] == LOWER_U {
                    if len - at >= 6 && Self::is_hex(bytes[at + 2]) && Self::is_hex(bytes[at + 3])
                        && Self::is_hex(bytes[at + 4]) && Self::is_hex(bytes[at + 5]) {
                        at += 6;
                    } else {
                        return Err((ErrorType::InvalidUnicodeSequence, at));
                    }
                } else if len - at > 1 && Self::is_escape(bytes[at + 1]) {
                    at += 2;
                } else {
                    return Err((ErrorType::InvalidEscapeSequence, at));
                }
            } else {
                at += 1;
            }
        }
    }

    fn is_hex(byte: u8) -> (hex: bool)
        ensures
            hex == is_hex_digit(byte),
    {
        (DIGIT_0 <= byte && byte <= DIGIT_9) || (LOWER_A <= byte && byte <= LOWER_F) || (UPPER_A
            <= byte && byte <= UPPER_F)
    }

    fn is_escape(byte: u8) -> (escape: bool)
        ensures
            escape == is_simple_escape(byte),
    {
        byte == QUOTE || byte == BACKSLASH || byte == SLASH || byte == LOWER_B || byte == LOWER_F
            || byte == LOWER_N || byte == LOWER_R || byte == LOWER_T
    }

    fn is_alphabetic(byte: u8) -> (letter: bool)
        ensures
            letter == is_letter(byte),
    {
        (LOWER_A <= byte && byte <= LOWER_Z) || (UPPER_A <= byte && byte <= UPPER_Z)
    }

    /// Reads the number that begins at `start`.
    fn scan_number(bytes: &[u8], start: usize) -> (found: Result<
        (TokenType, usize),
        (ErrorType, usize),
    >)
        requires
            start < bytes.len(),
            bytes[start as int] == MINUS || is_digit(bytes[start as int]),
        ensures
            as_lexeme(found) == number_lexeme(bytes@, start as int),
    {
        proof {
            lemma_number_bounds(bytes@, start as int);
        }
        let len = bytes.len();
        let digits = if bytes[start] == MINUS {
            start + 1
        } else {
            start
        };
        assert(digits == number_digits(bytes@, start as int));
        if len - digits > 1 && bytes[digits] == DIGIT_0 && DIGIT_0 <= bytes[digits + 1]
            && bytes[digits + 1] <= DIGIT_9 {
            return Err((ErrorType::LeadingZeros, start));
        }
        let point = Self::digits(bytes, digits);
        assert(point == number_point(bytes@, start as int));
        let (fraction_from, mantissa_end) = if point < len && bytes[point] == POINT {
            if !(len - point > 1 && DIGIT_0 <= bytes[point + 1] && bytes[point + 1] <= DIGIT_9) {
                return Err((ErrorType::UnterminatedFractionalNumber, start));
            }
            (point + 1, Self::digits(bytes, point + 1))
        } else {
            (point, point)
        };
        assert(fraction_from == fraction_digits(bytes@, start as int));
        assert(mantissa_end == fraction_end(bytes@, start as int));
        match Self::scan_exponent(bytes, start, mantissa_end) {
            None => Err((ErrorType::InvalidExponent, mantissa_end)),
            Some((negative, exponent_from, end)) => {
                proof {
                    lemma_digits_end(bytes@, digits as int);
                    lemma_digits_end(bytes@, fraction_from as int);
                }
                if (point == digits && mantissa_end == fraction_from) || exceeds_binary64(
                    bytes,
                    (digits, point),
                    (fraction_from, mantissa_end),
                    (exponent_from, end),
                    negative,
                ) {
                    Err((ErrorType::InvalidNumber, start))
                } else {
                    Ok((TokenType::Number, end))
                }
            },
        }
    }

    /// Reads the exponent of the number at `start`, whose mantissa ends at
    /// `mantissa_end`: whether its sign is `-`, and where its digits begin
    /// and end. A number without an exponent has no digits of it, at its
    /// end. `None` stands for an exponent without a digit.
    fn scan_exponent(bytes: &[u8], start: usize, mantissa_end: usize) -> (found: Option<
        (bool, usize, usize),
    >)
        requires
            start < bytes.len(),
            bytes[start as int] == MINUS || is_digit(bytes[start as int]),
            mantissa_end == fraction_end(bytes@, start as int),
        ensures
            found is None <==> has_exponent(bytes@, start as int) && !(exponent_digits(
                bytes@,
                start as int,
            ) < bytes.len() && is_digit(bytes[exponent_digits(bytes@, start as int)])),
            found matches Some((negative, from, end)) ==> {
                &&& end == number_end(bytes@, start as int)
                &&& all_digits(bytes@, from as int, end as int)
                &&& signed_value(bytes@.subrange(from as int, end as int), negative)
                    == exponent_value(bytes@, start as int)
            },
    {
        proof {
            lemma_number_bounds(bytes@, start as int);
        }
        let len = bytes.len();
        if mantissa_end < len && (bytes[mantissa_end] == LOWER_E || bytes[mantissa_end]
            == UPPER_E) {
            let mut negative = false;
            let mut from = mantissa_end + 1;
            if from < len && (bytes[from] == PLUS || bytes[from] == MINUS) {
                negative = bytes[from] == MINUS;
                from += 1;
            }
            assert(from == exponent_digits(bytes@, start as int));
            assert(negative == exponent_is_negative(bytes@, start as int));
            if !(from < len && DIGIT_0 <= bytes[from] && bytes[from] <= DIGIT_9) {
                return None;
            }
            let end = Self::digits(bytes, from);
            proof {
                lemma_digits_end(bytes@, from as int);
            }
            Some((negative, from, end))
        } else {
            assert(bytes@.subrange(mantissa_end as int, mantissa_end as int) =~= Seq::<
                u8,
            >::empty());
            Some((false, mantissa_end, mantissa_end))
        }
    }

    /// Reads the keyword that begins at `start`.
    fn scan_keyword(bytes: &[u8], start: usize) -> (found: Result<
        (TokenType, usize),
        (ErrorType, usize),
    >)
        requires
            start < bytes.len(),
        ensures
            as_lexeme(found) == keyword_lexeme(bytes@, start as int),
    {
        let mut end = start;
        while end < bytes.len() && Self::is_alphabetic(bytes[end])
            invariant
                start <= end <= bytes.len(),
                letters_end(bytes@, end as int) == letters_end(bytes@, start as int),
            decreases bytes.len() - end,
        {
            end += 1;
        }
        let ghost word = bytes@.subrange(start as int, end as int);
        if end - start == 4 && bytes[start] == LOWER_T && bytes[start + 1] == LOWER_R
            && bytes[start + 2] == LOWER_U && bytes[start + 3] == LOWER_E {
            assert(word =~= word_true());
            Ok((TokenType::True, end))
        } else if end - start == 5 && bytes[start] == LOWER_F && bytes[start + 1] == LOWER_A
            && bytes[start + 2] == LOWER_L && bytes[start + 3] == LOWER_S && bytes[start + 4]
            == LOWER_E {
            assert(word =~= word_false());
            Ok((TokenType::False, end))
        } else if end - start == 4 && bytes[start] == LOWER_N && bytes[start + 1] == LOWER_U
            && bytes[start + 2] == LOWER_L && bytes[start + 3] == LOWER_L {
            assert(word =~= word_null());
            Ok((TokenType::Null, end))
        } else {
            proof {
                if word == word_true() {
                    assert(word.len() == 4);
                    assert(word[0] == LOWER_T && word[1] == LOWER_R && word[2] == LOWER_U
                        && word[3] == LOWER_E);
                }
                if word == word_false() {
                    assert(word.len() == 5);
                    assert(word[0] == LOWER_F && word[1] == LOWER_A && word[2] == LOWER_L
                        && word[3] == LOWER_S && word[4] == LOWER_E);
                }
                if word == word_null() {
                    assert(word.len() == 4);
                    assert(word[0] == LOWER_N && word[1] == LOWER_U && word[2] == LOWER_L
                        && word[3] == LOWER_L);
                }
            }
            Err((ErrorType::UnknownLiteral, start))
        }
    }

    /// Reads the lexeme that begins at `at`, where no blank stands.
    fn evaluate(bytes: &[u8], at: usize) -> (found: Result<
        (TokenType, usize),
        (ErrorType, usize),
    >)
        requires
            at < bytes.len(),
        ensures
            as_lexeme(found) == lexeme_at(bytes@, at as int),
    {
        let byte = bytes[at];
        if byte == LEFT_BRACE {
            Ok((TokenType::LeftBrace, at + 1))
        } else if byte == RIGHT_BRACE {
            Ok((TokenType::RightBrace, at + 1))
        } else if byte == LEFT_BRACKET {
            Ok((TokenType::LeftBracket, at + 1))
        } else if byte == RIGHT_BRACKET {
            Ok((TokenType::RightBracket, at + 1))
        } else if byte == COLON {
            Ok((TokenType::Colon, at + 1))
        } else if byte == COMMA {
            Ok((TokenType::Comma, at + 1))
        } else if byte == QUOTE {
            Self::scan_string(bytes, at)
        } else if byte == MINUS || (DIGIT_0 <= byte && byte <= DIGIT_9) {
            Self::scan_number(bytes, at)
        } else if Self::is_alphabetic(byte) {
            Self::scan_keyword(bytes, at)
        } else {
            Err((ErrorType::UnknownCharacter, at))
        }
    }
}

} // verus!
