use jtools::formatter::Formatter;
use jtools::minifier::Minifier;
use jtools::node::Node;
use jtools::parser::Parser;
use jtools::parser_error::ParserError;
use jtools::scanner::Scanner;
use jtools::scanner_update;

const SOURCES: [&str; 12] = [
    "{}",
    "[]",
    "null",
    "\"text\"",
    "-12.5e+3",
    "[true,false]",
    "{\"x\":[1,2]}",
    "  {\n\t\"a\" : { \"b\" : [ ] , \"c\" : { } } ,\r\n \"d\" : [ [ [ 1 ] ] , \"\\\"\\u00e9\" ] }  ",
    "[\"🌎\", \"é\", \"\\\\\", 0, -0, 0.0, 1E5, 1e-5, \"a,b\", \"{\", \"]\"]",
    "{\"a\":1,\"A\":2,\"a \":3,\"\":4}",
    "[[],[[]],{},{\"k\":{}}]",
    "\"a\\nb\"",
];

fn parse(source: &str) -> Result<Node<'_>, ParserError> {
    let tokens = Scanner::new(source).scan().unwrap();
    Parser::new(source, tokens).parse()
}

#[test]
fn lib_scan_parse_format() {
    let source = "[]";

    let mut scanner = Scanner::new(source);
    let tokens = match scanner.scan() {
        Ok(tokens) => tokens,
        Err(error) => {
            panic!("{}", error.to_string());
        }
    };

    let mut parser = Parser::new(source, tokens);
    let ast = match parser.parse() {
        Ok(ast) => ast,
        Err(error) => {
            panic!("{}", error.to_string());
        }
    };

    let formatter = Formatter::default();
    let json = formatter.format(ast);

    assert_eq!("[]", json);
}

#[test]
fn integration_scan_parse_format() {
    let source = "[]";

    let mut scanner = Scanner::new(source);

    let tokens = match scanner.scan() {
        Ok(tokens) => tokens,
        Err(scanner_error) => {
            panic!("{}", scanner_error.to_string());
        }
    };

    let mut parser = Parser::new(source, tokens);

    let ast = match parser.parse() {
        Ok(ast) => ast,
        Err(parser_error) => {
            panic!("{}", parser_error.to_string());
        }
    };

    let formatter = Formatter::default();
    let json = formatter.format(ast);

    assert_eq!("[]", json);
}

#[test]
fn formatted_text_is_parsed_back() {
    for source in SOURCES {
        for space in 0..=8 {
            let text = Formatter::new(space).format(parse(source).unwrap());
            assert_eq!(parse(source), parse(&text), "{}", source);
        }
    }
}

#[test]
fn minified_text_is_parsed_back_and_minified_to_itself() {
    for source in SOURCES {
        let once = Minifier.minify(&parse(source).unwrap());
        assert_eq!(parse(source), parse(&once), "{}", source);
        let twice = Minifier.minify(&parse(&once).unwrap());
        assert_eq!(once, twice);
    }
}

#[test]
fn empty_object_is_formatted_and_minified_as_it_is() {
    assert_eq!(Ok(Node::Object(vec![])), parse("{}"));
    assert_eq!("{}", Formatter::default().format(parse("{}").unwrap()));
    assert_eq!("{}", Minifier.minify(&parse("{}").unwrap()));
}

#[test]
fn object_with_array_is_formatted_with_two_spaces() {
    assert_eq!(
        "{\n  \"x\": [\n    1,\n    2\n  ]\n}",
        Formatter::new(2).format(parse("{\"x\":[1,2]}").unwrap())
    );
}

#[test]
fn grapheme_clusters_begin_where_the_characters_join() {
    let scanner = scanner_update::Scanner::new("a\u{310}e\u{301}o\u{308}\u{332}\r\n");

    assert_eq!(Some(0), scanner.cluster(0));
    assert_eq!(Some(3), scanner.cluster(1));
    assert_eq!(Some(6), scanner.cluster(2));
    assert_eq!(Some(11), scanner.cluster(3));
    assert_eq!(None, scanner.cluster(4));
    assert_eq!(None, scanner_update::Scanner::new("").cluster(0));
}
