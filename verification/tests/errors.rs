use html_parser::html::parser::{
    GenericError, InvalidAttributeValueError, InvalidIdentifierError, ParserError,
    PrematureEndOfFileError, UnexpectedTokenError,
};

#[test]
fn invalid_attribute_value_message() {
    assert_eq!(
        InvalidAttributeValueError::new("x").value,
        "Invalid attribute value \"x\""
    );
    assert_eq!(InvalidAttributeValueError::new("").value, "Invalid attribute value \"\"");
}

#[test]
fn invalid_identifier_message() {
    assert_eq!(
        InvalidIdentifierError::new("di-v").identifier,
        "Invalid identifier \"di-v\""
    );
}

#[test]
fn generic_message() {
    let error = GenericError::new(7, "index out of bounds");
    assert_eq!(error.position, 7);
    assert_eq!(error.message, "index out of bounds at 7");
}

#[test]
fn premature_end_of_file_message() {
    let error = PrematureEndOfFileError::new(42);
    assert_eq!(error.position, 42);
    assert_eq!(error.message, "Premature end of file");
}

#[test]
fn unexpected_token_message() {
    let error = UnexpectedTokenError::new("</div>", "</span>", 13);
    assert_eq!(error.position, 13);
    assert_eq!(error.message, "Expected \"</div>\", found \"</span>\" at 13");
}

#[test]
fn positions_are_written_in_decimal() {
    for position in [0usize, 9, 10, 11, 99, 100, 101, 1234567890, usize::MAX] {
        assert_eq!(
            GenericError::new(position, "m").message,
            format!("m at {}", position)
        );
        assert_eq!(
            UnexpectedTokenError::new("a", "b", position).message,
            format!("Expected \"a\", found \"b\" at {}", position)
        );
    }
}

#[test]
fn errors_compare_by_kind_and_content() {
    let first = ParserError::Generic(GenericError::new(1, "m"));
    let same = ParserError::Generic(GenericError::new(1, "m"));
    let other = ParserError::PrematureEndOfFile(PrematureEndOfFileError::new(1));
    assert_eq!(first, same);
    assert_ne!(first, other);
    assert_eq!(first.clone(), first);
}
