//! A lexer that reads strings, words and numbers from the characters of a source.

use vstd::prelude::*;
use crate::lexer_error::LexerError;
use crate::text::chars_of;
use crate::token::Token;
use crate::unicode::{alphabetic, is_alphabetic};

verus! {

pub open spec fn is_digit_char(c: char) -> bool {
    '0' <= c <= '9'
}

pub open spec fn is_sign_char(c: char) -> bool {
    c == '+' || c == '-'
}

pub open spec fn is_exponent_char(c: char) -> bool {
    c == 'e' || c == 'E'
}

/// Where the run of digits that begins at `from` ends.
pub open spec fn digits_run(text: Seq<char>, from: int) -> int
    decreases text.len() - from,
{
    if 0 <= from < text.len() && is_digit_char(text[from]) {
        digits_run(text, from + 1)
    } else {
        from
    }
}

/// Where the run of digits that begins at `from` ends before `to`.
pub open spec fn digits_within(text: Seq<char>, from: int, to: int) -> int
    decreases to - from,
{
    if 0 <= from < to <= text.len() && is_digit_char(text[from]) {
        digits_within(text, from + 1, to)
    } else {
        from
    }
}

/// A run of digits in a part of a text is the run in the text, as far as
/// the part goes.
pub proof fn lemma_digits_in_part(text: Seq<char>, base: int, from: int, to: int)
    requires
        0 <= base <= from <= to <= text.len(),
    ensures
        digits_run(text.subrange(base, to), from - base) == digits_within(text, from, to) - base,
    decreases to - from,
{
    let part = text.subrange(base, to);
    if from < to {
        assert(part[from - base] == text[from]);
        if is_digit_char(text[from]) {
            lemma_digits_in_part(text, base, from + 1, to);
        }
    }
}

/// Where the run of alphabetic characters that begins at `from` ends.
pub open spec fn letters_run(text: Seq<char>, from: int) -> int
    decreases text.len() - from,
{
    if 0 <= from < text.len() && alphabetic(text[from]) {
        letters_run(text, from + 1)
    } else {
        from
    }
}

/// Where the first quote at or behind `from` stands, or the end of the
/// text if there is none.
pub open spec fn quote_place(text: Seq<char>, from: int) -> int
    decreases text.len() - from,
{
    if 0 <= from < text.len() && text[from] != '"' {
        quote_place(text, from + 1)
    } else {
        from
    }
}

/// Whether `text` is `word`, whatever the case of its letters; `word` is
/// given in small letters.
pub open spec fn is_word(text: Seq<char>, word: Seq<char>) -> bool {
    &&& text.len() == word.len()
    &&& forall|i: int| 0 <= i < text.len() ==> is_letter_of(#[trigger] text[i], word[i])
}

/// Whether `text` is a number as a floating-point number is written:
/// digits with a point among them, before them or behind them, or digits
/// alone, and then, if it has one, an exponent with its sign and digits.
pub open spec fn is_number_text(text: Seq<char>) -> bool {
    let point = digits_run(text, 0);
    let mantissa_end = if point < text.len() && text[point] == '.' {
        digits_run(text, point + 1)
    } else {
        point
    };
    let digits = if mantissa_end > point {
        mantissa_end - 1
    } else {
        mantissa_end
    };
    digits > 0 && if mantissa_end < text.len() {
        let sign = mantissa_end + 1;
        let first = if sign < text.len() && is_sign_char(text[sign]) {
            sign + 1
        } else {
            sign
        };
        is_exponent_char(text[mantissa_end]) && first < text.len() && digits_run(text, first)
            == text.len()
    } else {
        true
    }
}

/// Whether `text` is what is read as a floating-point number: a sign, if
/// any, and then `inf`, `infinity` or `nan` in letters of either case, or
/// a number.
pub open spec fn is_float_text(text: Seq<char>) -> bool {
    let body = if text.len() > 0 && is_sign_char(text[0]) {
        text.skip(1)
    } else {
        text
    };
    is_word(body, seq!['i', 'n', 'f']) || is_word(
        body,
        seq!['i', 'n', 'f', 'i', 'n', 'i', 't', 'y'],
    ) || is_word(body, seq!['n', 'a', 'n']) || is_number_text(body)
}

/// How far reading a number gets from `from`, and why it fails if it
/// does: digits; then, behind a point, one digit or more; then, behind `e`
/// or `E` and a sign, one digit or more.
pub open spec fn number_run(text: Seq<char>, from: int) -> (int, Option<LexerError>) {
    let point = digits_run(text, from);
    if point < text.len() && text[point] == '.' && !(point + 1 < text.len() && is_digit_char(
        text[point + 1],
    )) {
        (point + 1, Some(LexerError::UnterminatedFractionalNumber))
    } else {
        let mantissa_end = if point < text.len() && text[point] == '.' {
            digits_run(text, point + 1)
        } else {
            point
        };
        if mantissa_end < text.len() && is_exponent_char(text[mantissa_end]) {
            let sign = mantissa_end + 1;
            let first = if sign < text.len() && is_sign_char(text[sign]) {
                sign + 1
            } else {
                sign
            };
            if first < text.len() && is_digit_char(text[first]) {
                (digits_run(text, first), None)
            } else {
                (first, Some(LexerError::InvalidExponent))
            }
        } else {
            (mantissa_end, None)
        }
    }
}

/// Where a lexeme ends that has been read up to `position`, after the
/// cursor stood at `from`: at `position` if anything was read, else where
/// it ended before.
pub open spec fn lexeme_end(from: int, position: int, current: int) -> int {
    if position > from {
        position
    } else {
        current
    }
}

/// How reading a text ends: with the failure, if there is one, and with
/// the places at which the lexer then stands.
pub struct Reading {
    pub failure: Option<LexerError>,
    pub position: int,
    pub start: int,
    pub current: int,
}

/// How reading the text from `position` on ends, when the lexeme read last
/// began at `start` and ended at `current`.
///
/// A quote begins a string, an alphabetic character a run of such
/// characters and a digit a number; the character itself is passed over,
/// and the lexeme begins where the one before it ended. Another character
/// is unknown.
pub open spec fn reading(text: Seq<char>, position: int, start: int, current: int) -> Reading
    decreases text.len() - position,
    via reading_decreases
{
    if position < 0 || position >= text.len() {
        Reading { failure: None, position, start, current }
    } else if text[position] == '"' {
        let quote = quote_place(text, position + 1);
        if quote < text.len() {
            reading(text, quote + 1, current, quote + 1)
        } else {
            Reading {
                failure: Some(LexerError::UnterminatedString),
                position: quote,
                start: current,
                current: lexeme_end(position + 1, quote, current),
            }
        }
    } else if alphabetic(text[position]) {
        let end = letters_run(text, position + 1);
        reading(text, end, current, lexeme_end(position + 1, end, current))
    } else if is_digit_char(text[position]) {
        let (end, failure) = number_run(text, position + 1);
        let ended = lexeme_end(position + 1, end, current);
        if failure is Some {
            Reading { failure, position: end, start: current, current: ended }
        } else if !is_float_text(text.subrange(current, ended)) {
            Reading {
                failure: Some(LexerError::InvalidNumber),
                position: end,
                start: current,
                current: ended,
            }
        } else {
            reading(text, end, current, ended)
        }
    } else {
        Reading {
            failure: Some(LexerError::UnknownCharacter),
            position: position + 1,
            start: current,
            current,
        }
    }
}

#[via_fn]
proof fn reading_decreases(text: Seq<char>, position: int, start: int, current: int) {
    if 0 <= position < text.len() {
        lemma_runs_advance(text, position + 1);
    }
}

/// Reads lexemes from a source.
///
/// The lexer goes through the characters of the source with the cursor
/// `position`. `start` is where its lexeme begins and `current` where the
/// lexeme ends so far; both count characters.
#[derive(Debug)]
pub struct Lexer<'source> {
    source: &'source str,
    characters: Vec<char>,
    position: usize,
    start: usize,
    current: usize,
    line: usize,
    column: usize,
}

impl<'source> Lexer<'source> {
    /// The characters of the source.
    pub closed spec fn text(self) -> Seq<char> {
        self.characters@
    }

    /// How many characters the lexer has read.
    pub closed spec fn position(self) -> int {
        self.position as int
    }

    /// Where the lexeme begins.
    pub closed spec fn start(self) -> int {
        self.start as int
    }

    /// Where the lexeme ends so far.
    pub closed spec fn current(self) -> int {
        self.current as int
    }

    /// The line and the column at which the lexer begins.
    pub closed spec fn origin(self) -> (int, int) {
        (self.line as int, self.column as int)
    }

    /// Whether the lexeme lies before the cursor, within the source.
    pub closed spec fn wf(self) -> bool {
        &&& self.characters@ == self.source@
        &&& self.start <= self.current <= self.position <= self.characters@.len()
    }

    /// Whether `after` is this lexer further on: at the cursor `position`,
    /// with a lexeme that ends at `current`.
    pub closed spec fn moved(self, after: Self, position: int, current: int) -> bool {
        &&& after.source == self.source
        &&& after.characters == self.characters
        &&& after.start == self.start
        &&& after.position == position
        &&& after.current == current
    }

    pub fn new(source: &'source str) -> (lexer: Self)
        ensures
            lexer.wf(),
            lexer.text() == source@,
            lexer.position() == 0,
            lexer.start() == 0,
            lexer.current() == 0,
            lexer.origin() == (1int, 1int),
    {
        Self {
            source,
            characters: chars_of(source),
            position: 0,
            start: 0,
            current: 0,
            line: 1,
            column: 1,
        }
    }

    /// Reads the digits at the cursor.
    fn digits(&mut self)
        requires
            old(self).wf(),
        ensures
            final(self).wf(),
            final(self).position() == digits_run(old(self).text(), old(self).position()),
            old(self).moved(
                *final(self),
                final(self).position(),
                if final(self).position() > old(self).position() {
                    final(self).position()
                } else {
                    old(self).current()
                },
            ),
    {
        while self.position < self.characters.len() && '0' <= self.characters[self.position]
            && self.characters[self.position] <= '9'
            invariant
                self.wf(),
                old(self).position <= self.position,
                digits_run(self.text(), self.position()) == digits_run(
                    old(self).text(),
                    old(self).position(),
                ),
                old(self).moved(
                    *self,
                    self.position(),
                    if self.position() > old(self).position() {
                        self.position()
                    } else {
                        old(self).current()
                    },
                ),
            decreases self.characters.len() - self.position,
        {
            self.position += 1;
            self.current = self.position;
        }
    }

    /// Reads the character at the cursor into the lexeme.
    fn take(&mut self)
        requires
            old(self).wf(),
            old(self).position() < old(self).text().len(),
        ensures
            final(self).wf(),
            old(self).moved(*final(self), old(self).position() + 1, old(self).position() + 1),
    {
        if self.position < self.characters.len() {
            self.position += 1;
            self.current = self.position;
        }
    }

    /// Reads a number from the cursor on and gives the lexeme.
    ///
    /// The lexeme is what lies between `start` and the last character
    /// read; where none is read, it ends where it did. A number without a
    /// digit behind its point or in its exponent is an error; so is a
    /// lexeme that is not what a floating-point number is written as.
    pub fn scan_number(&mut self) -> (result: Result<String, LexerError>)
        requires
            old(self).wf(),
        ensures
            final(self).wf(),
            ({
                let (position, failure) = number_run(old(self).text(), old(self).position());
                let current = if position > old(self).position() {
                    position
                } else {
                    old(self).current()
                };
                let lexeme = old(self).text().subrange(old(self).start(), current);
                &&& old(self).moved(*final(self), position, current)
                &&& match result {
                    Ok(text) => failure is None && is_float_text(lexeme) && text@ == lexeme,
                    Err(error) => failure == Some(error) || (failure is None && !is_float_text(
                        lexeme,
                    ) && error == LexerError::InvalidNumber),
                }
            }),
    {
        proof {
            lemma_runs_advance(self.text(), self.position());
        }
        self.digits();
        if self.position < self.characters.len() && self.characters[self.position] == '.' {
            self.take();
            if !(self.position < self.characters.len() && '0' <= self.characters[self.position]
                && self.characters[self.position] <= '9') {
                return Err(LexerError::UnterminatedFractionalNumber);
            }
            proof {
                lemma_runs_advance(self.text(), self.position());
            }
            self.digits();
        }
        if self.position < self.characters.len() && (self.characters[self.position] == 'e'
            || self.characters[self.position] == 'E') {
            self.take();
            if self.position < self.characters.len() && (self.characters[self.position] == '+'
                || self.characters[self.position] == '-') {
                self.take();
            }
            if self.position < self.characters.len() && '0' <= self.characters[self.position]
                && self.characters[self.position] <= '9' {
                proof {
                    lemma_runs_advance(self.text(), self.position());
                }
                self.digits();
            } else {
                return Err(LexerError::InvalidExponent);
            }
        }
        if Self::is_float(&self.characters, self.start, self.current) {
            Ok(String::from_str(self.source.substring_char(self.start, self.current)))
        } else {
            Err(LexerError::InvalidNumber)
        }
    }

    /// Reads up to the next quote and gives the lexeme, the quote
    /// included. A source that ends before a quote is an error.
    pub fn scan_string(&mut self) -> (result: Result<&'source str, LexerError>)
        requires
            old(self).wf(),
        ensures
            final(self).wf(),
            ({
                let quote = quote_place(old(self).text(), old(self).position());
                match result {
                    Ok(text) => quote < old(self).text().len() && old(self).moved(
                        *final(self),
                        quote + 1,
                        quote + 1,
                    ) && text@ == old(self).text().subrange(old(self).start(), quote + 1),
                    Err(error) => error == LexerError::UnterminatedString && quote == old(
                        self,
                    ).text().len() && old(self).moved(
                        *final(self),
                        quote,
                        if quote > old(self).position() {
                            quote
                        } else {
                            old(self).current()
                        },
                    ),
                }
            }),
    {
        while self.position < self.characters.len() && self.characters[self.position] != '"'
            invariant
                self.wf(),
                old(self).position <= self.position,
                quote_place(self.text(), self.position()) == quote_place(
                    old(self).text(),
                    old(self).position(),
                ),
                old(self).moved(
                    *self,
                    self.position(),
                    if self.position() > old(self).position() {
                        self.position()
                    } else {
                        old(self).current()
                    },
                ),
            decreases self.characters.len() - self.position,
        {
            self.position += 1;
            self.current = self.position;
        }
        if self.position < self.characters.len() {
            self.take();
            Ok(self.source.substring_char(self.start, self.current))
        } else {
            Err(LexerError::UnterminatedString)
        }
    }

    /// Reads the alphabetic characters at the cursor and gives the lexeme.
    pub fn scan_alphabetic(&mut self) -> (text: &'source str)
        requires
            old(self).wf(),
        ensures
            final(self).wf(),
            ({
                let position = letters_run(old(self).text(), old(self).position());
                let current = if position > old(self).position() {
                    position
                } else {
                    old(self).current()
                };
                old(self).moved(*final(self), position, current) && text@ == old(
                    self,
                ).text().subrange(old(self).start(), current)
            }),
    {
        while self.position < self.characters.len() && is_alphabetic(
            self.characters[self.position],
        )
            invariant
                self.wf(),
                old(self).position <= self.position,
                letters_run(self.text(), self.position()) == letters_run(
                    old(self).text(),
                    old(self).position(),
                ),
                old(self).moved(
                    *self,
                    self.position(),
                    if self.position() > old(self).position() {
                        self.position()
                    } else {
                        old(self).current()
                    },
                ),
            decreases self.characters.len() - self.position,
        {
            self.position += 1;
            self.current = self.position;
        }
        self.source.substring_char(self.start, self.current)
    }

    /// Whether the characters from `from` to `to` are what is read as a
    /// floating-point number.
    pub fn is_float(characters: &Vec<char>, from: usize, to: usize) -> (float: bool)
        requires
            from <= to <= characters@.len(),
        ensures
            float == is_float_text(characters@.subrange(from as int, to as int)),
    {
        let ghost text = characters@.subrange(from as int, to as int);
        let begin = if from < to && (characters[from] == '+' || characters[from] == '-') {
            from + 1
        } else {
            from
        };
        let ghost body = characters@.subrange(begin as int, to as int);
        assert(body =~= if text.len() > 0 && is_sign_char(text[0]) {
            text.skip(1)
        } else {
            text
        });
        if Self::is_number(characters, begin, to) {
            return true;
        }
        let length = to - begin;
        if length == 3 {
            let inf = Self::is_letter(characters[begin], 'i', 'I') && Self::is_letter(
                characters[begin + 1],
                'n',
                'N',
            ) && Self::is_letter(characters[begin + 2], 'f', 'F');
            let nan = Self::is_letter(characters[begin], 'n', 'N') && Self::is_letter(
                characters[begin + 1],
                'a',
                'A',
            ) && Self::is_letter(characters[begin + 2], 'n', 'N');
            proof {
                assert(body[0] == characters@[begin as int]);
                assert(body[1] == characters@[begin + 1]);
                assert(body[2] == characters@[begin + 2]);
                lemma_word(body, seq!['i', 'n', 'f']);
                lemma_word(body, seq!['n', 'a', 'n']);
            }
            inf || nan
        } else if length == 8 {
            proof {
                assert(body[0] == characters@[begin as int]);
                assert(body[1] == characters@[begin + 1]);
                assert(body[2] == characters@[begin + 2]);
                assert(body[3] == characters@[begin + 3]);
                assert(body[4] == characters@[begin + 4]);
                assert(body[5] == characters@[begin + 5]);
                assert(body[6] == characters@[begin + 6]);
                assert(body[7] == characters@[begin + 7]);
                lemma_word(body, seq!['i', 'n', 'f', 'i', 'n', 'i', 't', 'y']);
            }
            Self::is_letter(characters[begin], 'i', 'I') && Self::is_letter(
                characters[begin + 1],
                'n',
                'N',
            ) && Self::is_letter(characters[begin + 2], 'f', 'F') && Self::is_letter(
                characters[begin + 3],
                'i',
                'I',
            ) && Self::is_letter(characters[begin + 4], 'n', 'N') && Self::is_letter(
                characters[begin + 5],
                'i',
                'I',
            ) && Self::is_letter(characters[begin + 6], 't', 'T') && Self::is_letter(
                characters[begin + 7],
                'y',
                'Y',
            )
        } else {
            false
        }
    }

    fn is_letter(c: char, small: char, capital: char) -> (same: bool)
        requires
            capital as int == small as int - 32,
        ensures
            same == is_letter_of(c, small),
    {
        c == small || c == capital
    }

    /// Where the run of digits of `characters` that begins at `from` ends
    /// before `to`.
    fn digits_before(characters: &Vec<char>, from: usize, to: usize) -> (end: usize)
        requires
            from <= to <= characters@.len(),
        ensures
            from <= end <= to,
            end == digits_within(characters@, from as int, to as int),
    {
        let mut end = from;
        while end < to && '0' <= characters[end] && characters[end] <= '9'
            invariant
                from <= end <= to <= characters@.len(),
                digits_within(characters@, end as int, to as int) == digits_within(
                    characters@,
                    from as int,
                    to as int,
                ),
            decreases to - end,
        {
            end += 1;
        }
        end
    }

    /// Whether the characters from `from` to `to` are a number as a
    /// floating-point number is written.
    fn is_number(characters: &Vec<char>, from: usize, to: usize) -> (number: bool)
        requires
            from <= to <= characters@.len(),
        ensures
            number == is_number_text(characters@.subrange(from as int, to as int)),
    {
        let ghost text = characters@.subrange(from as int, to as int);
        let point = Self::digits_before(characters, from, to);
        proof {
            lemma_digits_in_part(characters@, from as int, from as int, to as int);
            if point < to {
                assert(text[point - from] == characters@[point as int]);
                lemma_digits_in_part(characters@, from as int, point + 1, to as int);
            }
        }
        let mantissa_end = if point < to && characters[point] == '.' {
            Self::digits_before(characters, point + 1, to)
        } else {
            point
        };
        let digits = if mantissa_end > point {
            mantissa_end - from - 1
        } else {
            mantissa_end - from
        };
        if digits == 0 {
            return false;
        }
        if mantissa_end < to {
            assert(text[mantissa_end - from] == characters@[mantissa_end as int]);
            if !(characters[mantissa_end] == 'e' || characters[mantissa_end] == 'E') {
                return false;
            }
            let sign = mantissa_end + 1;
            if sign < to {
                assert(text[sign - from] == characters@[sign as int]);
            }
            let first = if sign < to && (characters[sign] == '+' || characters[sign] == '-') {
                sign + 1
            } else {
                sign
            };
            if first >= to {
                return false;
            }
            proof {
                lemma_digits_in_part(characters@, from as int, first as int, to as int);
            }
            Self::digits_before(characters, first, to) == to
        } else {
            true
        }
    }

    /// Reads the source to its end, lexeme by lexeme: strings, runs of
    /// alphabetic characters and numbers. The first lexeme that fails, and
    /// the first character with which none begins, ends the reading with
    /// its error. The lexemes are read and not kept: no token comes of
    /// them.
    pub fn scan(&mut self) -> (result: Result<Vec<Token>, LexerError>)
        requires
            old(self).wf(),
        ensures
            final(self).wf(),
            final(self).text() == old(self).text(),
            ({
                let end = reading(
                    old(self).text(),
                    old(self).position(),
                    old(self).start(),
                    old(self).current(),
                );
                &&& final(self).position() == end.position
                &&& final(self).start() == end.start
                &&& final(self).current() == end.current
                &&& match end.failure {
                    None => result matches Ok(tokens) && tokens@.len() == 0,
                    Some(error) => result == Err::<Vec<Token>, LexerError>(error),
                }
            }),
    {
        let tokens: Vec<Token> = Vec::new();
        while self.position < self.characters.len()
            invariant
                self.wf(),
                self.text() == old(self).text(),
                tokens@.len() == 0,
                reading(self.text(), self.position(), self.start(), self.current()) == reading(
                    old(self).text(),
                    old(self).position(),
                    old(self).start(),
                    old(self).current(),
                ),
            decreases self.characters.len() - self.position,
        {
            let character = self.characters[self.position];
            self.position += 1;
            self.start = self.current;
            proof {
                lemma_runs_advance(self.text(), self.position());
            }
            if character == '"' {
                match self.scan_string() {
                    Ok(_) => {},
                    Err(error) => return Err(error),
                }
            } else if is_alphabetic(character) {
                self.scan_alphabetic();
            } else if '0' <= character && character <= '9' {
                match self.scan_number() {
                    Ok(_) => {},
                    Err(error) => return Err(error),
                }
            } else {
                return Err(LexerError::UnknownCharacter);
            }
        }
        Ok(tokens)
    }
}

/// A run ends at or behind the place where it begins, within the text.
pub proof fn lemma_runs_advance(text: Seq<char>, from: int)
    requires
        0 <= from <= text.len(),
    ensures
        from <= digits_run(text, from) <= text.len(),
        from <= letters_run(text, from) <= text.len(),
        from <= quote_place(text, from) <= text.len(),
        from <= number_run(text, from).0 <= text.len(),
    decreases text.len() - from,
{
    if from < text.len() {
        lemma_runs_advance(text, from + 1);
    }
    let point = digits_run(text, from);
    if point < text.len() {
        lemma_runs_advance(text, point + 1);
        let end = digits_run(text, point + 1);
        if end + 1 <= text.len() {
            lemma_runs_advance_more(text, end + 1);
        }
        if end + 2 <= text.len() {
            lemma_runs_advance_more(text, end + 2);
        }
    }
    if point + 1 <= text.len() {
        lemma_runs_advance_more(text, point + 1);
    }
    if point + 2 <= text.len() {
        lemma_runs_advance_more(text, point + 2);
    }
}

/// A run of digits ends at or behind the place where it begins, within the
/// text.
pub proof fn lemma_runs_advance_more(text: Seq<char>, from: int)
    requires
        0 <= from <= text.len(),
    ensures
        from <= digits_run(text, from) <= text.len(),
    decreases text.len() - from,
{
    if from < text.len() {
        lemma_runs_advance_more(text, from + 1);
    }
}

/// Whether `c` is the small letter `small` or the capital letter to it.
pub open spec fn is_letter_of(c: char, small: char) -> bool {
    c == small || c as int == small as int - 32
}

/// A word of three or of eight letters is compared letter by letter.
proof fn lemma_word(text: Seq<char>, word: Seq<char>)
    requires
        text.len() == word.len(),
        word.len() == 3 || word.len() == 8,
    ensures
        is_word(text, word) == (is_letter_of(text[0], word[0]) && is_letter_of(text[1], word[1])
            && is_letter_of(text[2], word[2]) && (word.len() == 8 ==> is_letter_of(
            text[3],
            word[3],
        ) && is_letter_of(text[4], word[4]) && is_letter_of(text[5], word[5]) && is_letter_of(
            text[6],
            word[6],
        ) && is_letter_of(text[7], word[7]))),
{
    if is_word(text, word) {
        assert(text[0] == word[0] || text[0] as int == word[0] as int - 32);
        assert(text[1] == word[1] || text[1] as int == word[1] as int - 32);
        assert(text[2] == word[2] || text[2] as int == word[2] as int - 32);
        if word.len() == 8 {
            assert(text[3] == word[3] || text[3] as int == word[3] as int - 32);
            assert(text[4] == word[4] || text[4] as int == word[4] as int - 32);
            assert(text[5] == word[5] || text[5] as int == word[5] as int - 32);
            assert(text[6] == word[6] || text[6] as int == word[6] as int - 32);
            assert(text[7] == word[7] || text[7] as int == word[7] as int - 32);
        }
    }
}

} // verus!
