//! The lexical categories of tokens.

use vstd::prelude::*;

verus! {

/// The lexical category of a token.
///
/// The parser decides by this category alone whether the token at its
/// cursor is the one the grammar expects.
#[derive(Debug, PartialEq, Eq, Clone, Copy, Structural)]
pub enum TokenType {
    LeftBrace,
    RightBrace,
    LeftBracket,
    RightBracket,
    Colon,
    Comma,
    String,
    Number,
    True,
    False,
    Null,
    Eof,
}

impl TokenType {
    /// The text by which a category is shown to the user.
    pub open spec fn text(self) -> Seq<char> {
        match self {
            TokenType::LeftBrace => "{"@,
            TokenType::RightBrace => "}"@,
            TokenType::LeftBracket => "["@,
            TokenType::RightBracket => "]"@,
            TokenType::Colon => ":"@,
            TokenType::Comma => ","@,
            TokenType::String => "string"@,
            TokenType::Number => "number"@,
            TokenType::True => "true"@,
            TokenType::False => "false"@,
            TokenType::Null => "null"@,
            TokenType::Eof => "eof"@,
        }
    }

    /// True for the five categories whose token is a value by itself.
    pub open spec fn is_scalar(self) -> bool {
        self == TokenType::Null || self == TokenType::String || self == TokenType::Number
            || self == TokenType::True || self == TokenType::False
    }

    pub fn to_string(&self) -> (shown: String)
        ensures
            shown@ == self.text(),
    {
        match self {
            TokenType::LeftBrace => String::from_str("{"),
            TokenType::RightBrace => String::from_str("}"),
            TokenType::LeftBracket => String::from_str("["),
            TokenType::RightBracket => String::from_str("]"),
            TokenType::Colon => String::from_str(":"),
            TokenType::Comma => String::from_str(","),
            TokenType::String => String::from_str("string"),
            TokenType::Number => String::from_str("number"),
            TokenType::True => String::from_str("true"),
            TokenType::False => String::from_str("false"),
            TokenType::Null => String::from_str("null"),
            TokenType::Eof => String::from_str("eof"),
        }
    }
}

} // verus!
