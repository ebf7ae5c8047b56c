use html_parser::html::text::{decimal_string, str_eq, trim_spaces};

#[test]
fn trim_takes_spaces_from_both_ends() {
    assert_eq!(trim_spaces("  a b  "), "a b");
    assert_eq!(trim_spaces("a"), "a");
    assert_eq!(trim_spaces(" a"), "a");
    assert_eq!(trim_spaces("a "), "a");
}

#[test]
fn trim_of_spaces_is_empty() {
    assert_eq!(trim_spaces(""), "");
    assert_eq!(trim_spaces(" "), "");
    assert_eq!(trim_spaces("     "), "");
}

#[test]
fn trim_leaves_other_whitespace() {
    assert_eq!(trim_spaces(" \t a \n "), "\t a \n");
    assert_eq!(trim_spaces("\n"), "\n");
    assert_eq!(trim_spaces(" \u{a0} "), "\u{a0}");
    assert_eq!(trim_spaces(" \u{e9}t\u{e9} "), "\u{e9}t\u{e9}");
}

#[test]
fn decimal_of_numbers() {
    assert_eq!(decimal_string(0), "0");
    assert_eq!(decimal_string(7), "7");
    assert_eq!(decimal_string(10), "10");
    assert_eq!(decimal_string(105), "105");
    assert_eq!(decimal_string(9876543210), "9876543210");
    assert_eq!(decimal_string(usize::MAX), usize::MAX.to_string());
}

#[test]
fn equal_strings() {
    assert!(str_eq("", ""));
    assert!(str_eq("abc", "abc"));
    assert!(str_eq("\u{e9}", "\u{e9}"));
    assert!(!str_eq("abc", "abd"));
    assert!(!str_eq("abc", "ab"));
    assert!(!str_eq("", "a"));
    assert!(!str_eq("e", "\u{e9}"));
}
