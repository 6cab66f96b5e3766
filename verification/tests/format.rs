use jtools::formatter::Formatter;
use jtools::minifier::Minifier;
use jtools::node::Node;

#[test]
fn format_object() {
    let ast = Node::Object(vec![Node::Property(
        Box::new(Node::Literal("\"foundTreasure\"")),
        Box::new(Node::Literal("false")),
    )]);

    let f = Formatter::default();

    assert_eq!("{\n    \"foundTreasure\": false\n}", f.format(ast));
}

#[test]
fn format_array() {
    let ast = Node::Array(vec![
        Node::Array(vec![Node::Literal("true"), Node::Literal("false")]),
        Node::Literal("42"),
    ]);

    let f = Formatter::default();

    assert_eq!(
        "[\n    [\n        true,\n        false\n    ],\n    42\n]",
        f.format(ast)
    );
}

#[test]
fn format_property() {
    let ast = Node::Property(
        Box::new(Node::Literal("\"message\"")),
        Box::new(Node::Literal("\"in a bottle\"")),
    );
    let f = Formatter::default();

    assert_eq!("\"message\": \"in a bottle\"", f.format(ast));
}

#[test]
fn format_literal() {
    let ast = Node::Literal("true");
    let f = Formatter::default();

    assert_eq!("true", f.format(ast));
}

#[test]
fn create_formatter() {
    assert_eq!(Formatter { space: 2 }, Formatter::new(2));
}

#[test]
fn create_default_formatter() {
    assert_eq!(Formatter { space: 4 }, Formatter::default());
}

#[test]
fn minify_objects() {
    let ast = Node::Object(vec![Node::Property(
        Box::new(Node::Literal("\"foundTreasure\"")),
        Box::new(Node::Literal("false")),
    )]);

    let m = Minifier;

    assert_eq!("{\"foundTreasure\":false}", m.minify(&ast));
}

#[test]
fn minify_properties() {
    let ast = Node::Property(
        Box::new(Node::Literal("\"message\"")),
        Box::new(Node::Literal("\"in a bottle\"")),
    );

    let m = Minifier;

    assert_eq!("\"message\":\"in a bottle\"", m.minify(&ast));
}

#[test]
fn minify_arrays() {
    let ast = Node::Array(vec![
        Node::Array(vec![Node::Literal("true"), Node::Literal("false")]),
        Node::Literal("42"),
    ]);

    let m = Minifier;

    assert_eq!("[[true,false],42]", m.minify(&ast));
}

#[test]
fn format_and_minify_empty_containers() {
    let f = Formatter::new(2);
    let m = Minifier;

    assert_eq!("{}", f.format(Node::Object(vec![])));
    assert_eq!("[]", f.format(Node::Array(vec![])));
    assert_eq!("{}", m.minify(&Node::Object(vec![])));
    assert_eq!("[]", m.minify(&Node::Array(vec![])));
}

#[test]
fn format_with_two_spaces() {
    let ast = Node::Object(vec![Node::Property(
        Box::new(Node::Literal("\"x\"")),
        Box::new(Node::Array(vec![Node::Literal("1"), Node::Literal("2")])),
    )]);

    assert_eq!(
        "{\n  \"x\": [\n    1,\n    2\n  ]\n}",
        Formatter::new(2).format(ast)
    );
}

#[test]
fn format_without_spaces_keeps_the_lines() {
    let ast = Node::Array(vec![
        Node::Literal("1"),
        Node::Object(vec![Node::Property(
            Box::new(Node::Literal("\"a\"")),
            Box::new(Node::Literal("null")),
        )]),
    ]);

    assert_eq!("[\n1,\n{\n\"a\": null\n}\n]", Formatter::new(0).format(ast));
}

#[test]
fn minify_nested_objects() {
    let ast = Node::Object(vec![
        Node::Property(
            Box::new(Node::Literal("\"a\"")),
            Box::new(Node::Object(vec![])),
        ),
        Node::Property(
            Box::new(Node::Literal("\"b\"")),
            Box::new(Node::Array(vec![Node::Literal("\"c\""), Node::Array(vec![])])),
        ),
    ]);

    assert_eq!("{\"a\":{},\"b\":[\"c\",[]]}", Minifier.minify(&ast));
}
