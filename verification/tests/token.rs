use jtools::token::Token;
use jtools::token_collection::TokenCollection;
use jtools::token_type::TokenType;

#[test]
fn use_token_indices_to_get_string_slice() {
    let source = "[]";

    let (start, end) = Token::new(TokenType::LeftBracket, 1, (0, 1), (1, 2)).indices;

    assert_eq!("[", &source[start..end],);
}

#[test]
fn create_new_token() {
    assert_eq!(
        Token::new(TokenType::String, 1, (0, 7), (1, 8)),
        Token::new(TokenType::String, 1, (0, 7), (1, 8))
    );
}

#[test]
fn test() {
    let tc = TokenCollection::new();
    let mut iter = tc.iter();
    println!("{:#?}", &iter.peek());
    println!("{:#?}", &iter.next());
    println!("{:#?}", &iter.peek());
}

#[test]
fn token_fields_are_those_given() {
    let token = Token::new(TokenType::Number, 3, (4, 9), (2, 7));

    assert_eq!(TokenType::Number, token.token_type);
    assert_eq!(3, token.line_number);
    assert_eq!((4, 9), token.indices);
    assert_eq!((2, 7), token.column_indices);
}

#[test]
fn token_types_are_shown_by_their_text() {
    assert_eq!("{", TokenType::LeftBrace.to_string());
    assert_eq!("}", TokenType::RightBrace.to_string());
    assert_eq!("[", TokenType::LeftBracket.to_string());
    assert_eq!("]", TokenType::RightBracket.to_string());
    assert_eq!(":", TokenType::Colon.to_string());
    assert_eq!(",", TokenType::Comma.to_string());
    assert_eq!("string", TokenType::String.to_string());
    assert_eq!("number", TokenType::Number.to_string());
    assert_eq!("true", TokenType::True.to_string());
    assert_eq!("false", TokenType::False.to_string());
    assert_eq!("null", TokenType::Null.to_string());
    assert_eq!("eof", TokenType::Eof.to_string());
}

#[test]
fn token_collection_is_walked_in_order() {
    let tc = TokenCollection::new();
    let mut iter = tc.iter();

    assert_eq!(Some(234), iter.peek());
    assert_eq!(Some(234), iter.next());
    assert_eq!(Some(78), iter.next());
    assert_eq!(Some(235), iter.peek());
    assert_eq!(Some(235), iter.next());
    assert_eq!(None, iter.peek());
    assert_eq!(None, iter.next());
    assert_eq!(None, iter.next());
}
