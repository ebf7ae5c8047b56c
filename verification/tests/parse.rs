use html_parser::html::dom::{ElementNode, Node};
use html_parser::html::parser::{Parser, ParserError};

fn parse(input: &str) -> Result<Node, ParserError> {
    Parser::new(input).parse()
}

fn element(node: &Node) -> &ElementNode {
    match node {
        Node::Element(element) => element,
        Node::Text(text) => panic!("expected an element, found the text {:?}", text.content),
    }
}

fn text(node: &Node) -> &str {
    match node {
        Node::Text(text) => text.content.as_str(),
        Node::Element(element) => panic!("expected text, found <{}>", element.tag_name),
    }
}

fn depth(node: &Node) -> usize {
    match node {
        Node::Text(_) => 0,
        Node::Element(element) => 1 + element.children.iter().map(depth).max().unwrap_or(0),
    }
}

#[test]
fn element_with_text() {
    let root = parse("<div>content</div>").unwrap();
    let div = element(&root);
    assert_eq!(div.tag_name, "div");
    assert!(div.attributes.is_empty());
    assert_eq!(div.attributes.len(), 0);
    assert_eq!(div.children.len(), 1);
    assert_eq!(text(&div.children[0]), "content");
}

#[test]
fn mismatched_closing_tag() {
    match parse("<div>x</span>") {
        Err(ParserError::UnexpectedToken(error)) => {
            assert_eq!(error.message, "Expected \"</div>\", found \"</span>\" at 13");
            assert_eq!(error.position, 13);
        }
        other => panic!("{:?}", other),
    }
}

#[test]
fn unterminated_opening_tag() {
    match parse("<div") {
        Err(ParserError::PrematureEndOfFile(error)) => {
            assert_eq!(error.position, 4);
            assert_eq!(error.message, "Premature end of file");
        }
        other => panic!("{:?}", other),
    }
}

#[test]
fn element_with_attribute() {
    let root = parse("<a href=\"x\">y</a>").unwrap();
    let a = element(&root);
    assert_eq!(a.tag_name, "a");
    assert_eq!(a.attributes.len(), 1);
    assert_eq!(a.attributes.get("href").map(String::as_str), Some("x"));
    assert_eq!(a.children.len(), 1);
    assert_eq!(text(&a.children[0]), "y");
}

#[test]
fn attributes_of_an_element_can_be_listed() {
    let root = parse("<a x=\"1\" y z=\"3\" x=\"4\"></a>").unwrap();
    let mut pairs = element(&root).attributes.to_vec();
    pairs.sort();
    assert_eq!(
        pairs,
        vec![
            ("x".to_owned(), "1".to_owned()),
            ("y".to_owned(), "".to_owned()),
            ("z".to_owned(), "3".to_owned()),
        ]
    );
}

#[test]
fn unquoted_attribute_value() {
    match parse("<a href=x></a>") {
        Err(ParserError::InvalidAttributeValue(error)) => {
            assert_eq!(error.value, "Invalid attribute value \"x\"");
        }
        other => panic!("{:?}", other),
    }
}

#[test]
fn first_attribute_wins() {
    let root = parse("<a href=\"1\" href=\"2\"></a>").unwrap();
    let a = element(&root);
    assert_eq!(a.attributes.len(), 1);
    assert_eq!(a.attributes.get("href").map(String::as_str), Some("1"));
    assert!(a.children.is_empty());
}

#[test]
fn first_of_many_occurrences_wins() {
    let root = parse("<a k=\"1\" j=\"2\" k=\"3\" j k=\"5\" l></a>").unwrap();
    let a = element(&root);
    assert_eq!(a.attributes.len(), 3);
    assert_eq!(a.attributes.get("k").map(String::as_str), Some("1"));
    assert_eq!(a.attributes.get("j").map(String::as_str), Some("2"));
    assert_eq!(a.attributes.get("l").map(String::as_str), Some(""));
    let root = parse("<a k k=\"1\"></a>").unwrap();
    let a = element(&root);
    assert_eq!(a.attributes.len(), 1);
    assert_eq!(a.attributes.get("k").map(String::as_str), Some(""));
}

#[test]
fn later_occurrence_is_still_checked() {
    match parse("<a k=\"1\" k=2></a>") {
        Err(ParserError::InvalidAttributeValue(error)) => {
            assert_eq!(error.value, "Invalid attribute value \"2\"");
        }
        other => panic!("{:?}", other),
    }
}

#[test]
fn same_input_gives_same_tree() {
    let input = "<a x=\"1\"><b>t</b> u <c k></c></a>";
    let first = parse(input).unwrap();
    let second = parse(input).unwrap();
    assert_eq!(format!("{:?}", first), format!("{:?}", second));
    let a = element(&first);
    assert_eq!(a.children.len(), 3);
}

#[test]
fn same_input_gives_same_error() {
    let input = "<a><b></a>";
    assert_eq!(parse(input).unwrap_err(), parse(input).unwrap_err());
}

#[test]
fn tree_is_as_deep_as_the_nesting() {
    assert_eq!(depth(&parse("<a></a>").unwrap()), 1);
    assert_eq!(depth(&parse("<a>text</a>").unwrap()), 1);
    assert_eq!(depth(&parse("<a><b></b><c><d>x</d></c></a>").unwrap()), 3);
    assert_eq!(depth(&parse("<a><b><c><d><e></e></d></c></b></a>").unwrap()), 5);
}

#[test]
fn text_keeps_inner_whitespace() {
    let root = parse("<p>  one \t two\nthree   </p>").unwrap();
    let p = element(&root);
    assert_eq!(p.children.len(), 1);
    assert_eq!(text(&p.children[0]), "one \t two\nthree");
}

#[test]
fn tabs_and_newlines_are_text() {
    let root = parse("<p>\n\t</p>").unwrap();
    let p = element(&root);
    assert_eq!(p.children.len(), 1);
    assert_eq!(text(&p.children[0]), "\n\t");
    let root = parse("<p>\tx </p>").unwrap();
    assert_eq!(text(&element(&root).children[0]), "\tx");
}

#[test]
fn spaces_alone_give_no_node() {
    let root = parse("<p>     </p>").unwrap();
    assert!(element(&root).children.is_empty());
}

#[test]
fn text_runs_are_not_merged() {
    let root = parse("<p>a <b>c</b> d</p>").unwrap();
    let p = element(&root);
    assert_eq!(p.children.len(), 3);
    assert_eq!(text(&p.children[0]), "a");
    let b = element(&p.children[1]);
    assert_eq!(b.tag_name, "b");
    assert_eq!(text(&b.children[0]), "c");
    assert_eq!(text(&p.children[2]), "d");
}

#[test]
fn text_outside_ascii_is_kept() {
    let root = parse("<p> h\u{e9}llo \u{4e16}\u{754c} \u{1f600} </p>").unwrap();
    assert_eq!(
        text(&element(&root).children[0]),
        "h\u{e9}llo \u{4e16}\u{754c} \u{1f600}"
    );
}

#[test]
fn attribute_value_outside_ascii_is_kept() {
    let root = parse("<p title=\"\u{fc}ber\" \u{e9}></p>").unwrap();
    let p = element(&root);
    assert_eq!(p.attributes.len(), 2);
    assert_eq!(p.attributes.get("title").map(String::as_str), Some("\u{fc}ber"));
    assert_eq!(p.attributes.get("\u{e9}").map(String::as_str), Some(""));
}

#[test]
fn tag_names_are_case_sensitive() {
    match parse("<Div></div>") {
        Err(ParserError::UnexpectedToken(error)) => {
            assert_eq!(error.message, "Expected \"</Div>\", found \"</div>\" at 11");
        }
        other => panic!("{:?}", other),
    }
    assert_eq!(element(&parse("<Div1></Div1>").unwrap()).tag_name, "Div1");
}

#[test]
fn empty_input() {
    match parse("") {
        Err(ParserError::PrematureEndOfFile(error)) => assert_eq!(error.position, 0),
        other => panic!("{:?}", other),
    }
}

#[test]
fn text_at_the_root() {
    match parse("hello") {
        Err(ParserError::UnexpectedToken(error)) => {
            assert_eq!(error.message, "Expected \"<\", found \"h\" at 0");
            assert_eq!(error.position, 0);
        }
        other => panic!("{:?}", other),
    }
}

#[test]
fn space_at_the_root() {
    match parse(" <a></a>") {
        Err(ParserError::UnexpectedToken(error)) => {
            assert_eq!(error.message, "Expected \"<\", found \" \" at 0");
        }
        other => panic!("{:?}", other),
    }
}

#[test]
fn wide_character_at_the_root() {
    for found in ["\u{e9}", "\u{4e16}", "\u{1f600}"] {
        let input = format!("{}<a></a>", found);
        match parse(&input) {
            Err(ParserError::UnexpectedToken(error)) => {
                assert_eq!(error.message, format!("Expected \"<\", found \"{}\" at 0", found));
            }
            other => panic!("{:?}", other),
        }
    }
}

#[test]
fn input_ends_in_content() {
    match parse("<div>content") {
        Err(ParserError::PrematureEndOfFile(error)) => assert_eq!(error.position, 12),
        other => panic!("{:?}", other),
    }
    match parse("<div>") {
        Err(ParserError::PrematureEndOfFile(error)) => assert_eq!(error.position, 5),
        other => panic!("{:?}", other),
    }
    match parse("<a><b></b>") {
        Err(ParserError::PrematureEndOfFile(error)) => assert_eq!(error.position, 10),
        other => panic!("{:?}", other),
    }
}

#[test]
fn input_ends_in_closing_tag() {
    match parse("<div></div") {
        Err(ParserError::PrematureEndOfFile(error)) => assert_eq!(error.position, 10),
        other => panic!("{:?}", other),
    }
}

#[test]
fn input_ends_after_an_opening_bracket() {
    match parse("<div><") {
        Err(ParserError::Generic(error)) => {
            assert_eq!(error.position, 5);
            assert_eq!(error.message, "index out of bounds at 5");
        }
        other => panic!("{:?}", other),
    }
}

#[test]
fn closing_bracket_in_text() {
    match parse("<div>a>b</div>") {
        Err(ParserError::UnexpectedToken(error)) => {
            assert_eq!(error.message, "Expected \"text content\", found \">\" at 6");
            assert_eq!(error.position, 6);
        }
        other => panic!("{:?}", other),
    }
    match parse("<div>></div>") {
        Err(ParserError::UnexpectedToken(error)) => assert_eq!(error.position, 5),
        other => panic!("{:?}", other),
    }
}

#[test]
fn invalid_tag_name() {
    match parse("<di-v></di-v>") {
        Err(ParserError::InvalidIdentifier(error)) => {
            assert_eq!(error.identifier, "Invalid identifier \"di-v\"");
        }
        other => panic!("{:?}", other),
    }
    match parse("<d.v a=\"1\"></d.v>") {
        Err(ParserError::InvalidIdentifier(error)) => {
            assert_eq!(error.identifier, "Invalid identifier \"d.v a=\"1\"\"");
        }
        other => panic!("{:?}", other),
    }
    match parse("<caf\u{e9}></caf\u{e9}>") {
        Err(ParserError::InvalidIdentifier(error)) => {
            assert_eq!(error.identifier, "Invalid identifier \"caf\u{e9}\"");
        }
        other => panic!("{:?}", other),
    }
}

#[test]
fn invalid_closing_tag_name() {
    match parse("<a></a!>") {
        Err(ParserError::InvalidIdentifier(error)) => {
            assert_eq!(error.identifier, "Invalid identifier \"a!\"");
        }
        other => panic!("{:?}", other),
    }
}

#[test]
fn invalid_attribute_key() {
    match parse("<a hr-ef=\"x\"></a>") {
        Err(ParserError::InvalidIdentifier(error)) => {
            assert_eq!(error.identifier, "Invalid identifier \"hr-ef\"");
        }
        other => panic!("{:?}", other),
    }
}

#[test]
fn key_without_value_is_not_validated() {
    let root = parse("<a hr-ef disabled></a>").unwrap();
    let a = element(&root);
    assert_eq!(a.attributes.len(), 2);
    assert_eq!(a.attributes.get("hr-ef").map(String::as_str), Some(""));
    assert_eq!(a.attributes.get("disabled").map(String::as_str), Some(""));
    assert!(!a.attributes.contains_key("href"));
}

#[test]
fn attribute_values_must_be_quoted_on_both_sides() {
    for (input, shown) in [
        ("<a k=></a>", ""),
        ("<a k=\"></a>", "\""),
        ("<a k=\"v></a>", "\"v"),
        ("<a k=v\"></a>", "v\""),
        ("<a k='v'></a>", "'v'"),
    ] {
        match parse(input) {
            Err(ParserError::InvalidAttributeValue(error)) => {
                assert_eq!(error.value, format!("Invalid attribute value \"{}\"", shown));
            }
            other => panic!("{}: {:?}", input, other),
        }
    }
}

#[test]
fn attribute_value_may_be_empty_or_hold_equals_signs() {
    let root = parse("<a k=\"\" q=\"a=b\"></a>").unwrap();
    let a = element(&root);
    assert_eq!(a.attributes.get("k").map(String::as_str), Some(""));
    assert_eq!(a.attributes.get("q").map(String::as_str), Some("a=b"));
}

#[test]
fn every_space_separates_two_sections() {
    let root = parse("<a  k=\"v\"></a>").unwrap();
    let a = element(&root);
    assert_eq!(a.attributes.len(), 2);
    assert_eq!(a.attributes.get("").map(String::as_str), Some(""));
    assert_eq!(a.attributes.get("k").map(String::as_str), Some("v"));
    let root = parse("<a ></a>").unwrap();
    let a = element(&root);
    assert_eq!(a.attributes.len(), 1);
    assert!(a.attributes.contains_key(""));
}

#[test]
fn value_with_a_space_is_cut_at_the_space() {
    match parse("<a title=\"two words\"></a>") {
        Err(ParserError::InvalidAttributeValue(error)) => {
            assert_eq!(error.value, "Invalid attribute value \"\"two\"");
        }
        other => panic!("{:?}", other),
    }
}

#[test]
fn tag_ends_at_the_first_closing_bracket() {
    match parse("<a title=\"x>y\"></a>") {
        Err(ParserError::InvalidAttributeValue(error)) => {
            assert_eq!(error.value, "Invalid attribute value \"\"x\"");
        }
        other => panic!("{:?}", other),
    }
}

#[test]
fn first_error_in_attributes_wins() {
    match parse("<a k=\"1\" b-d=\"2\" c=3></a>") {
        Err(ParserError::InvalidIdentifier(error)) => {
            assert_eq!(error.identifier, "Invalid identifier \"b-d\"");
        }
        other => panic!("{:?}", other),
    }
}

#[test]
fn closing_tag_attributes_are_not_read() {
    let root = parse("<a></a b=c d-e=\"\">").unwrap();
    assert_eq!(element(&root).tag_name, "a");
}

#[test]
fn empty_name_is_no_name() {
    for (input, shown) in [
        ("<>x</>", ""),
        ("<a></>", ""),
        ("< a></ a>", " a"),
        ("<a></ a>", " a"),
        ("< k=\"v\"></>", " k=\"v\""),
    ] {
        match parse(input) {
            Err(ParserError::InvalidIdentifier(error)) => {
                assert_eq!(error.identifier, format!("Invalid identifier \"{}\"", shown));
            }
            other => panic!("{}: {:?}", input, other),
        }
    }
}

#[test]
fn attribute_key_may_be_empty() {
    let root = parse("<a =\"v\"></a>").unwrap();
    let a = element(&root);
    assert_eq!(a.attributes.len(), 1);
    assert_eq!(a.attributes.get("").map(String::as_str), Some("v"));
}

#[test]
fn error_in_a_child_ends_the_parse() {
    match parse("<a><b>x</c></a>") {
        Err(ParserError::UnexpectedToken(error)) => {
            assert_eq!(error.message, "Expected \"</b>\", found \"</c>\" at 11");
        }
        other => panic!("{:?}", other),
    }
}

#[test]
fn parser_reads_on_after_a_document() {
    let mut parser = Parser::new("<a>1</a><b>2</b>rest");
    let first = parser.parse().unwrap();
    assert_eq!(element(&first).tag_name, "a");
    let second = parser.parse().unwrap();
    assert_eq!(element(&second).tag_name, "b");
    assert_eq!(text(&element(&second).children[0]), "2");
    match parser.parse() {
        Err(ParserError::UnexpectedToken(error)) => {
            assert_eq!(error.message, "Expected \"<\", found \"r\" at 16");
        }
        other => panic!("{:?}", other),
    }
}

#[test]
fn parser_at_the_end_has_nothing_to_read() {
    let mut parser = Parser::new("<a></a>");
    parser.parse().unwrap();
    match parser.parse() {
        Err(ParserError::PrematureEndOfFile(error)) => assert_eq!(error.position, 7),
        other => panic!("{:?}", other),
    }
}

#[test]
fn what_follows_the_root_is_not_read() {
    let root = parse("<a></a></b> >").unwrap();
    assert_eq!(element(&root).tag_name, "a");
}

#[test]
fn deep_nesting() {
    let levels = 200;
    let mut input = String::new();
    for _ in 0..levels {
        input.push_str("<n>");
    }
    input.push_str("leaf");
    for _ in 0..levels {
        input.push_str("</n>");
    }
    let root = parse(&input).unwrap();
    assert_eq!(depth(&root), levels);
}

#[test]
fn clone_is_the_same_tree() {
    let root = parse("<a k=\"v\" b><c>t</c>u</a>").unwrap();
    let copy = root.clone();
    assert_eq!(format!("{:?}", root), format!("{:?}", copy));
}
