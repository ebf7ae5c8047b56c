use html_parser::html::dom::{ElementAttributes, ElementNode, Node, TextNode};

#[test]
fn new_attributes_are_empty() {
    let attributes = ElementAttributes::new();
    assert!(attributes.is_empty());
    assert_eq!(attributes.len(), 0);
    assert!(!attributes.contains_key("a"));
    assert_eq!(attributes.get("a"), None);
}

#[test]
fn insert_then_get() {
    let mut attributes = ElementAttributes::new();
    attributes.insert("href".to_owned(), "x".to_owned());
    attributes.insert("id".to_owned(), "y".to_owned());
    assert!(!attributes.is_empty());
    assert_eq!(attributes.len(), 2);
    assert!(attributes.contains_key("href"));
    assert!(attributes.contains_key("id"));
    assert!(!attributes.contains_key("hre"));
    assert_eq!(attributes.get("href").map(String::as_str), Some("x"));
    assert_eq!(attributes.get("id").map(String::as_str), Some("y"));
    assert_eq!(attributes.get("class"), None);
}

#[test]
fn insert_replaces_the_value_of_a_key() {
    let mut attributes = ElementAttributes::new();
    attributes.insert("a".to_owned(), "1".to_owned());
    attributes.insert("b".to_owned(), "2".to_owned());
    attributes.insert("a".to_owned(), "3".to_owned());
    assert_eq!(attributes.len(), 2);
    assert_eq!(attributes.get("a").map(String::as_str), Some("3"));
    assert_eq!(attributes.get("b").map(String::as_str), Some("2"));
}

#[test]
fn keys_are_compared_byte_for_byte() {
    let mut attributes = ElementAttributes::new();
    attributes.insert("key".to_owned(), "lower".to_owned());
    attributes.insert("Key".to_owned(), "upper".to_owned());
    attributes.insert("ke".to_owned(), "short".to_owned());
    assert_eq!(attributes.len(), 3);
    assert_eq!(attributes.get("key").map(String::as_str), Some("lower"));
    assert_eq!(attributes.get("Key").map(String::as_str), Some("upper"));
    assert_eq!(attributes.get("ke").map(String::as_str), Some("short"));
    assert_eq!(attributes.get("keyy"), None);
}

#[test]
fn clone_of_attributes_is_independent() {
    let mut attributes = ElementAttributes::new();
    attributes.insert("a".to_owned(), "1".to_owned());
    let copy = attributes.clone();
    attributes.insert("a".to_owned(), "2".to_owned());
    assert_eq!(copy.get("a").map(String::as_str), Some("1"));
    assert_eq!(attributes.get("a").map(String::as_str), Some("2"));
}

#[test]
fn nodes_can_be_built_by_hand() {
    let mut attributes = ElementAttributes::new();
    attributes.insert("k".to_owned(), "v".to_owned());
    let node = Node::Element(ElementNode {
        tag_name: "p".to_owned(),
        attributes,
        children: vec![Node::Text(TextNode { content: "t".to_owned() })],
    });
    let copy = node.clone();
    match copy {
        Node::Element(element) => {
            assert_eq!(element.tag_name, "p");
            assert_eq!(element.attributes.get("k").map(String::as_str), Some("v"));
            match &element.children[0] {
                Node::Text(text) => assert_eq!(text.content, "t"),
                other => panic!("{:?}", other),
            }
        }
        other => panic!("{:?}", other),
    }
}

#[test]
fn attributes_can_be_listed() {
    let mut attributes = ElementAttributes::new();
    assert!(attributes.to_vec().is_empty());
    attributes.insert("b".to_owned(), "2".to_owned());
    attributes.insert("a".to_owned(), "1".to_owned());
    attributes.insert("b".to_owned(), "3".to_owned());
    let mut pairs = attributes.to_vec();
    pairs.sort();
    assert_eq!(
        pairs,
        vec![("a".to_owned(), "1".to_owned()), ("b".to_owned(), "3".to_owned())]
    );
    assert_eq!(attributes.len(), 2);
}
