use jtools::node::Node;
use jtools::property_map::PropertyMap;

#[test]
fn error_given_duplicates() {
    let mut pm = PropertyMap::new();

    assert_eq!(
        Some(0),
        pm.insert(
            "one",
            Node::Property(Box::new(Node::Literal("one")), Box::new(Node::Literal("1"))),
        )
    );

    assert_eq!(
        None,
        pm.insert(
            "one",
            Node::Property(Box::new(Node::Literal("one")), Box::new(Node::Literal("1"))),
        )
    );
}

#[test]
fn maintain_insertion_order() {
    let mut pm = PropertyMap::new();

    let _ = pm.insert(
        "one",
        Node::Property(Box::new(Node::Literal("one")), Box::new(Node::Literal("1"))),
    );
    let _ = pm.insert(
        "two",
        Node::Property(Box::new(Node::Literal("two")), Box::new(Node::Literal("2"))),
    );
    let _ = pm.insert(
        "three",
        Node::Property(
            Box::new(Node::Literal("three")),
            Box::new(Node::Literal("3")),
        ),
    );
    let _ = pm.insert(
        "four",
        Node::Property(
            Box::new(Node::Literal("four")),
            Box::new(Node::Literal("4")),
        ),
    );

    assert_eq!(
        vec![
            Node::Property(Box::new(Node::Literal("one")), Box::new(Node::Literal("1"))),
            Node::Property(Box::new(Node::Literal("two")), Box::new(Node::Literal("2"))),
            Node::Property(
                Box::new(Node::Literal("three")),
                Box::new(Node::Literal("3")),
            ),
            Node::Property(
                Box::new(Node::Literal("four")),
                Box::new(Node::Literal("4")),
            ),
        ],
        pm.ordered_properties
    );
}

#[test]
fn duplicate_leaves_the_properties_as_they_are() {
    let mut pm = PropertyMap::new();

    assert_eq!(Some(0), pm.insert("a", Node::Literal("1")));
    assert_eq!(Some(1), pm.insert("b", Node::Literal("2")));
    assert_eq!(None, pm.insert("a", Node::Literal("3")));
    assert_eq!(Some(2), pm.insert("c", Node::Literal("4")));

    assert_eq!(
        vec![Node::Literal("1"), Node::Literal("2"), Node::Literal("4")],
        pm.into_properties()
    );
}
