use jtools::node::Node;
use jtools::parser::Parser;
use jtools::parser_error::ParserError;
use jtools::scanner::Scanner;
use jtools::token::Token;
use jtools::token_type::TokenType;

#[test]
fn parse_valid_tokens() {
    let mut p = Parser::new(
        "{}",
        vec![
            Token::new(TokenType::LeftBrace, 1, (0, 1), (1, 2)),
            Token::new(TokenType::RightBrace, 1, (1, 2), (2, 3)),
            Token::new(TokenType::Eof, 1, (2, 2), (3, 3)),
        ],
    );

    assert_eq!(true, p.is_valid());
}

#[test]
fn parse_empty_object() {
    let mut p = Parser::new(
        "{}",
        vec![
            Token::new(TokenType::LeftBrace, 1, (0, 1), (1, 2)),
            Token::new(TokenType::RightBrace, 1, (1, 2), (2, 3)),
            Token::new(TokenType::Eof, 1, (2, 2), (3, 3)),
        ],
    );

    assert_eq!(Ok(Node::Object(vec![])), p.parse());
}

#[test]
fn parse_valid_object() {
    let mut p = Parser::new(
        "{\"animal\":\"dog\"}",
        vec![
            Token::new(TokenType::LeftBrace, 1, (0, 1), (1, 2)),
            Token::new(TokenType::String, 1, (1, 9), (2, 10)),
            Token::new(TokenType::Colon, 1, (9, 10), (10, 11)),
            Token::new(TokenType::String, 1, (10, 15), (11, 16)),
            Token::new(TokenType::RightBrace, 1, (15, 16), (16, 17)),
            Token::new(TokenType::Eof, 1, (15, 15), (16, 16)),
        ],
    );

    assert_eq!(
        Ok(Node::Object(vec![Node::Property(
            Box::new(Node::Literal("\"animal\"",)),
            Box::new(Node::Literal("\"dog\"",)),
        ),])),
        p.parse()
    );
}

#[test]
fn parse_valid_property() {
    let mut p = Parser::new(
        "\"animal\":\"dog\"",
        vec![
            Token::new(TokenType::String, 1, (0, 8), (1, 9)),
            Token::new(TokenType::Colon, 1, (8, 9), (9, 10)),
            Token::new(TokenType::String, 1, (9, 14), (10, 15)),
        ],
    );

    assert_eq!(
        Ok((
            "\"animal\"",
            Node::Property(
                Box::new(Node::Literal("\"animal\""),),
                Box::new(Node::Literal("\"dog\""))
            ),
            &Token::new(TokenType::String, 1, (0, 8), (1, 9)),
        )),
        p.parse_property()
    );
}

#[test]
fn error_invalid_array() {
    let mut p = Parser::new(
        "[,]",
        vec![
            Token::new(TokenType::LeftBracket, 1, (0, 1), (1, 2)),
            Token::new(TokenType::Comma, 1, (1, 2), (2, 3)),
            Token::new(TokenType::RightBracket, 1, (2, 3), (3, 4)),
        ],
    );

    assert_eq!(true, p.parse().is_err());
}

#[test]
fn parse_empty_array() {
    let mut p = Parser::new(
        "[]",
        vec![
            Token::new(TokenType::LeftBracket, 1, (0, 1), (1, 2)),
            Token::new(TokenType::RightBracket, 1, (1, 2), (2, 3)),
            Token::new(TokenType::Eof, 1, (1, 1), (2, 2)),
        ],
    );

    assert_eq!(Ok(Node::Array(vec![])), p.parse());
}

#[test]
fn parse_valid_array() {
    let mut p = Parser::new(
        "[true,false]",
        vec![
            Token::new(TokenType::LeftBracket, 1, (0, 1), (1, 2)),
            Token::new(TokenType::True, 1, (1, 5), (5, 6)),
            Token::new(TokenType::Comma, 1, (5, 6), (6, 7)),
            Token::new(TokenType::False, 1, (6, 11), (7, 12)),
            Token::new(TokenType::RightBracket, 1, (11, 12), (12, 13)),
            Token::new(TokenType::Eof, 1, (11, 11), (12, 12)),
        ],
    );

    assert_eq!(
        Ok(Node::Array(vec![
            Node::Literal("true"),
            Node::Literal("false")
        ])),
        p.parse()
    );
}

#[test]
fn parse_null_literal() {
    let mut p = Parser::new(
        "null",
        vec![Token::new(TokenType::String, 1, (0, 4), (1, 5))],
    );
    assert_eq!(Ok(Node::Literal("null")), p.parse_literal());
}

#[test]
fn parse_string_literal() {
    let mut p = Parser::new(
        "\"dog\"",
        vec![Token::new(TokenType::String, 1, (0, 5), (1, 6))],
    );

    assert_eq!(Ok(Node::Literal("\"dog\"")), p.parse_literal());
}

#[test]
fn parse_number_literal() {
    let mut p = Parser::new(
        "1016",
        vec![Token::new(TokenType::Number, 1, (0, 4), (1, 5))],
    );

    assert_eq!(Ok(Node::Literal("1016")), p.parse_literal());
}

#[test]
fn parse_true_literal() {
    let mut p = Parser::new("true", vec![Token::new(TokenType::True, 1, (0, 4), (1, 5))]);

    assert_eq!(Ok(Node::Literal("true")), p.parse_literal());
}

#[test]
fn parse_false_literal() {
    let mut p = Parser::new(
        "false",
        vec![Token::new(TokenType::False, 1, (0, 5), (1, 6))],
    );
    assert_eq!(Ok(Node::Literal("false")), p.parse_literal());
}

#[test]
fn consume_next_token_when_expected() {
    let mut p = Parser::new("true", vec![Token::new(TokenType::True, 1, (0, 4), (1, 5))]);

    assert_eq!(
        Ok(&Token::new(TokenType::True, 1, (0, 4), (1, 5))),
        p.next_or_error(TokenType::True, "Expected string|number|bool|object|array")
    );
}

#[test]
fn error_on_unexpected_token() {
    let mut p = Parser::new("true", vec![Token::new(TokenType::True, 1, (0, 4), (1, 5))]);

    assert_eq!(true, p.next_or_error(TokenType::LeftBrace, "{").is_err());
}

#[test]
fn consume_next_until_end() {
    let mut p = Parser::new(
        "[true,false]",
        vec![
            Token::new(TokenType::LeftBracket, 1, (0, 1), (1, 2)),
            Token::new(TokenType::True, 1, (1, 5), (5, 6)),
            Token::new(TokenType::Comma, 1, (5, 6), (6, 7)),
            Token::new(TokenType::False, 1, (6, 11), (7, 12)),
            Token::new(TokenType::RightBracket, 1, (11, 12), (12, 13)),
        ],
    );

    p.next();
    p.next();
    p.next();
    p.next();
    p.next();

    assert_eq!(None, p.next());
}

#[test]
fn next_is_some() {
    let mut p = Parser::new("true", vec![Token::new(TokenType::True, 1, (0, 4), (1, 5))]);

    assert_eq!(
        Some(&Token::new(TokenType::True, 1, (0, 4), (1, 5))),
        p.next()
    );
    assert_eq!(1, p.current);
    assert_eq!(None, p.next());
}

#[test]
fn next_is_none() {
    let mut p = Parser::new("", vec![]);

    assert_eq!(None, p.next());
    assert_eq!(0, p.current);
}

#[test]
fn peek_is_none() {
    let p = Parser::new("", vec![]);
    assert_eq!(None, p.peek());
}

#[test]
fn peek_is_some() {
    let p = Parser::new("true", vec![Token::new(TokenType::True, 1, (0, 4), (1, 5))]);

    assert_eq!(
        Some(&Token::new(TokenType::True, 1, (0, 4), (1, 5))),
        p.peek()
    );
}

#[test]
fn create_new_parser() {
    let p = Parser::new("true", vec![Token::new(TokenType::True, 1, (0, 4), (1, 5))]);

    assert_eq!(
        Parser {
            source: "true",
            current: 0,
            tokens: vec![Token::new(TokenType::True, 1, (0, 4), (1, 5))],
        },
        p
    );
}

fn parse(source: &str) -> Result<Node<'_>, ParserError> {
    let tokens = Scanner::new(source).scan().unwrap();
    Parser::new(source, tokens).parse()
}

fn property<'a>(key: &'a str, value: Node<'a>) -> Node<'a> {
    Node::Property(Box::new(Node::Literal(key)), Box::new(value))
}

#[test]
fn parse_scanned_empty_object() {
    assert_eq!(Ok(Node::Object(vec![])), parse("{}"));
}

#[test]
fn parse_scanned_array_of_booleans() {
    assert_eq!(
        Ok(Node::Array(vec![
            Node::Literal("true"),
            Node::Literal("false")
        ])),
        parse("[true,false]")
    );
}

#[test]
fn parse_duplicate_property_points_at_the_second_key() {
    let source = "{\"a\":1,\"a\":2}";

    assert_eq!(
        Err(ParserError::DuplicateProperty {
            property: "\"a\"".to_string(),
            error_preview: "\n  |\n  |\n1 |{\"a\":1,\"a\":2}\n  |       ^---Column=8\n  |"
                .to_string(),
        }),
        parse(source)
    );
}

#[test]
fn parse_duplicate_property_anywhere_in_the_object() {
    for source in [
        "{\"a\":1,\"a\":2,\"b\":3}",
        "{\"b\":3,\"a\":1,\"a\":2}",
        "{\"a\":1,\"b\":3,\"a\":2}",
        "{\"b\":{\"a\":1,\"c\":2,\"a\":[]}}",
    ] {
        match parse(source) {
            Err(ParserError::DuplicateProperty { property, .. }) => {
                assert_eq!("\"a\"", property)
            }
            other => panic!("{:?}", other),
        }
    }
}

#[test]
fn parse_same_key_in_different_objects() {
    assert_eq!(
        Ok(Node::Array(vec![
            Node::Object(vec![property("\"a\"", Node::Literal("1"))]),
            Node::Object(vec![property(
                "\"a\"",
                Node::Object(vec![property("\"a\"", Node::Literal("2"))])
            )]),
        ])),
        parse("[{\"a\":1},{\"a\":{\"a\":2}}]")
    );
}

#[test]
fn parse_keeps_the_order_of_the_properties() {
    assert_eq!(
        Ok(Node::Object(vec![
            property("\"z\"", Node::Literal("1")),
            property("\"a\"", Node::Literal("\"two\"")),
            property("\"m\"", Node::Array(vec![Node::Literal("null")])),
            property("\"b\"", Node::Literal("-4.5e3")),
        ])),
        parse("{ \"z\": 1,\n \"a\": \"two\",\n \"m\": [null],\n \"b\": -4.5e3 }")
    );
}

#[test]
fn parse_rejects_what_follows_the_value() {
    assert_eq!(
        Err(ParserError::UnexpectedToken {
            expected: "Expected end of input".to_string(),
            found: "true".to_string(),
            error_preview: "\n  |\n  |\n1 |[] true\n  |   ^---Column=4\n  |".to_string(),
        }),
        parse("[] true")
    );
}

#[test]
fn parse_rejects_a_key_that_is_no_string() {
    assert_eq!(
        Err(ParserError::UnexpectedToken {
            expected: "Object keys must be of type string".to_string(),
            found: "number".to_string(),
            error_preview: "\n  |\n  |\n1 |{1:2}\n  | ^---Column=2\n  |".to_string(),
        }),
        parse("{1:2}")
    );
}

#[test]
fn parse_rejects_a_property_without_colon() {
    assert_eq!(
        Err(ParserError::UnexpectedToken {
            expected: "Object key-values must be separated by a semicolon".to_string(),
            found: ",".to_string(),
            error_preview: "\n  |\n  |\n1 |{\"a\",1}\n  |    ^---Column=5\n  |".to_string(),
        }),
        parse("{\"a\",1}")
    );
}

#[test]
fn parse_rejects_an_object_that_is_not_closed() {
    assert_eq!(
        Err(ParserError::UnexpectedToken {
            expected: "Expected object to be terminated".to_string(),
            found: "eof".to_string(),
            error_preview: "\n  |\n  |\n1 |{\"a\":1\n  |      ^---Column=7\n  |".to_string(),
        }),
        parse("{\"a\":1")
    );
}

#[test]
fn parse_rejects_an_array_that_is_not_closed() {
    assert_eq!(
        Err(ParserError::UnexpectedToken {
            expected: "Expected array to be terminated".to_string(),
            found: ":".to_string(),
            error_preview: "\n  |\n  |\n1 |[1:\n  |  ^---Column=3\n  |".to_string(),
        }),
        parse("[1:")
    );
}

#[test]
fn parse_rejects_a_token_that_begins_no_value() {
    assert_eq!(
        Err(ParserError::UnexpectedToken {
            expected: "Expected string|number|bool|object|array".to_string(),
            found: "]".to_string(),
            error_preview: "\n  |\n  |\n1 |[1,]\n  |   ^---Column=4\n  |".to_string(),
        }),
        parse("[1,]")
    );
}

#[test]
fn parse_rejects_blank_source() {
    assert_eq!(
        Err(ParserError::UnexpectedToken {
            expected: "Expected string|number|bool|object|array".to_string(),
            found: "eof".to_string(),
            error_preview: "\n  |\n  |\n1 |\n  |^---Column=2\n  |".to_string(),
        }),
        parse(" ")
    );
}

#[test]
fn parse_without_tokens_says_nothing() {
    let mut p = Parser::new("", vec![]);

    assert_eq!(
        Err(ParserError::UnexpectedToken {
            expected: "".to_string(),
            found: "".to_string(),
            error_preview: "".to_string(),
        }),
        p.parse()
    );
    assert_eq!(false, Parser::new("", vec![]).is_valid());
}

#[test]
fn parse_error_in_a_value_comes_before_the_duplicate() {
    match parse("{\"a\":1,\"a\":[,]}") {
        Err(ParserError::UnexpectedToken { found, .. }) => assert_eq!(",", found),
        other => panic!("{:?}", other),
    }
}

#[test]
fn text_of_a_token_is_the_source_between_its_offsets() {
    let p = Parser::new(
        "[\"🐶\"]",
        vec![Token::new(TokenType::String, 1, (1, 7), (2, 5))],
    );

    assert_eq!("\"🐶\"", p.text(&Token::new(TokenType::String, 1, (1, 7), (2, 5))));
    assert_eq!(
        "\n  |\n  |\n1 |[\"🐶\"]\n  | ^---Column=2\n  |",
        p.error_preview(&Token::new(TokenType::String, 1, (1, 7), (2, 5)))
    );
}

#[test]
fn parse_object_and_array_behind_their_opening_token() {
    let source = "{\"a\":[1,2]}";
    let tokens = Scanner::new(source).scan().unwrap();
    let mut p = Parser::new(source, tokens);

    p.next();
    assert_eq!(
        Ok(Node::Object(vec![property(
            "\"a\"",
            Node::Array(vec![Node::Literal("1"), Node::Literal("2")])
        )])),
        p.parse_object()
    );
    assert_eq!(9, p.current);

    let tokens = Scanner::new(source).scan().unwrap();
    let mut p = Parser::new(source, tokens);
    p.current = 4;
    assert_eq!(
        Ok(Node::Array(vec![Node::Literal("1"), Node::Literal("2")])),
        p.parse_array()
    );
    assert_eq!(8, p.current);
}

#[test]
fn parse_leaves_the_cursor_at_the_mismatch() {
    let source = "[1,]";
    let tokens = Scanner::new(source).scan().unwrap();
    let mut p = Parser::new(source, tokens);
    assert_eq!(true, p.parse().is_err());
    assert_eq!(3, p.current);

    let source = "{\"a\":1,\"a\":2,\"b\":3}";
    let tokens = Scanner::new(source).scan().unwrap();
    let mut p = Parser::new(source, tokens);
    assert_eq!(true, p.parse().is_err());
    assert_eq!(8, p.current);

    let source = "[1] 2";
    let tokens = Scanner::new(source).scan().unwrap();
    let mut p = Parser::new(source, tokens);
    assert_eq!(false, p.is_valid());
    assert_eq!(3, p.current);

    let source = "[1]";
    let tokens = Scanner::new(source).scan().unwrap();
    let mut p = Parser::new(source, tokens);
    assert_eq!(true, p.is_valid());
    assert_eq!(4, p.current);
}

#[test]
fn parse_duplicate_property_at_any_depth() {
    for source in [
        "[{\"a\":1,\"a\":2}]",
        "[1,[2,[3,{\"k\":{\"a\":null,\"b\":[],\"a\":{}}}]]]",
        "{\"x\":{\"y\":{\"z\":[{\"a\":1,\"b\":2,\"c\":3,\"a\":4}]}}}",
        "{\"a\":[{\"a\":1}],\"b\":2,\"a\":3}",
    ] {
        match parse(source) {
            Err(ParserError::DuplicateProperty { property, .. }) => {
                assert_eq!("\"a\"", property)
            }
            other => panic!("{:?}", other),
        }
    }
}

#[test]
fn parse_keys_that_differ_in_their_text_are_not_the_same() {
    assert_eq!(true, parse("{\"a\":1,\"\\u0061\":2,\"A\":3,\"a \":4}").is_ok());
}
