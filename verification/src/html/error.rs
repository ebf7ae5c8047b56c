//! The errors of the parser: one kind per way in which a text can fail to be
//! markup, each with the message it carries.

use vstd::prelude::*;
use vstd::string::*;

use crate::html::text::{decimal, decimal_string};

verus! {

/// Why a text could not be parsed.
#[derive(Debug, PartialEq, Eq)]
pub enum ParserError {
    /// The text holds something else than the grammar asks for at that place.
    UnexpectedToken(UnexpectedTokenError),
    /// The text ends before a tag or an element is closed.
    PrematureEndOfFile(PrematureEndOfFileError),
    /// A failure that has a position and no kind of its own.
    Generic(GenericError),
    /// A tag name or an attribute key holds a byte that is no letter or digit.
    InvalidIdentifier(InvalidIdentifierError),
    /// An attribute value does not stand between double quotes.
    InvalidAttributeValue(InvalidAttributeValueError),
}

/// An attribute value that is not quoted. `value` is the message, which
/// shows the value as it was written.
#[derive(Debug, PartialEq, Eq)]
pub struct InvalidAttributeValueError {
    pub value: String,
}

/// A name that is no identifier. `identifier` is the message, which shows
/// the name, or the tag that holds it, as it was written.
#[derive(Debug, PartialEq, Eq)]
pub struct InvalidIdentifierError {
    pub identifier: String,
}

/// A failure at a byte offset, with a message that ends with that offset.
#[derive(Debug, PartialEq, Eq)]
pub struct GenericError {
    pub position: usize,
    pub message: String,
}

/// The end of the input, at the byte offset `position`, where more had to
/// follow.
#[derive(Debug, PartialEq, Eq)]
pub struct PrematureEndOfFileError {
    pub position: usize,
    pub message: String,
}

/// Something else than what the grammar asks for, at the byte offset
/// `position`. The message names what was expected and what was found.
#[derive(Debug, PartialEq, Eq)]
pub struct UnexpectedTokenError {
    pub position: usize,
    pub message: String,
}

/// What a `ParserError` says: its kind, its byte offset where it has one,
/// and its text.
pub enum ParserErrorView {
    UnexpectedToken { position: nat, message: Seq<char> },
    PrematureEndOfFile { position: nat, message: Seq<char> },
    Generic { position: nat, message: Seq<char> },
    InvalidIdentifier { identifier: Seq<char> },
    InvalidAttributeValue { value: Seq<char> },
}

impl View for ParserError {
    type V = ParserErrorView;

    open spec fn view(&self) -> ParserErrorView {
        match self {
            ParserError::UnexpectedToken(e) => ParserErrorView::UnexpectedToken {
                position: e.position as nat,
                message: e.message@,
            },
            ParserError::PrematureEndOfFile(e) => ParserErrorView::PrematureEndOfFile {
                position: e.position as nat,
                message: e.message@,
            },
            ParserError::Generic(e) => ParserErrorView::Generic {
                position: e.position as nat,
                message: e.message@,
            },
            ParserError::InvalidIdentifier(e) => ParserErrorView::InvalidIdentifier {
                identifier: e.identifier@,
            },
            ParserError::InvalidAttributeValue(e) => ParserErrorView::InvalidAttributeValue {
                value: e.value@,
            },
        }
    }
}

impl Clone for InvalidAttributeValueError {
    fn clone(&self) -> (copy: InvalidAttributeValueError)
        ensures
            copy == *self,
    {
        InvalidAttributeValueError { value: self.value.clone() }
    }
}

impl Clone for InvalidIdentifierError {
    fn clone(&self) -> (copy: InvalidIdentifierError)
        ensures
            copy == *self,
    {
        InvalidIdentifierError { identifier: self.identifier.clone() }
    }
}

impl Clone for GenericError {
    fn clone(&self) -> (copy: GenericError)
        ensures
            copy == *self,
    {
        GenericError { position: self.position, message: self.message.clone() }
    }
}

impl Clone for PrematureEndOfFileError {
    fn clone(&self) -> (copy: PrematureEndOfFileError)
        ensures
            copy == *self,
    {
        PrematureEndOfFileError { position: self.position, message: self.message.clone() }
    }
}

impl Clone for UnexpectedTokenError {
    fn clone(&self) -> (copy: UnexpectedTokenError)
        ensures
            copy == *self,
    {
        UnexpectedTokenError { position: self.position, message: self.message.clone() }
    }
}

impl Clone for ParserError {
    fn clone(&self) -> (copy: ParserError)
        ensures
            copy == *self,
    {
        match self {
            ParserError::UnexpectedToken(error) => ParserError::UnexpectedToken(error.clone()),
            ParserError::PrematureEndOfFile(error) => ParserError::PrematureEndOfFile(
                error.clone(),
            ),
            ParserError::Generic(error) => ParserError::Generic(error.clone()),
            ParserError::InvalidIdentifier(error) => ParserError::InvalidIdentifier(error.clone()),
            ParserError::InvalidAttributeValue(error) => ParserError::InvalidAttributeValue(
                error.clone(),
            ),
        }
    }
}

/// `Invalid attribute value "`, the value as it was written, and `"`.
pub open spec fn invalid_attribute_value_message(value: Seq<char>) -> Seq<char> {
    "Invalid attribute value \""@ + value + "\""@
}

/// `Invalid identifier "`, the identifier as it was written, and `"`.
pub open spec fn invalid_identifier_message(identifier: Seq<char>) -> Seq<char> {
    "Invalid identifier \""@ + identifier + "\""@
}

/// The given message, ` at ` and the position in decimal.
pub open spec fn generic_message(position: nat, message: Seq<char>) -> Seq<char> {
    message + " at "@ + decimal(position)
}

/// The one message of an input that ends too early.
pub open spec fn premature_end_of_file_message() -> Seq<char> {
    "Premature end of file"@
}

/// `Expected "`, what was expected, `", found "`, what was found, `" at ` and
/// the position in decimal.
pub open spec fn unexpected_token_message(
    expected: Seq<char>,
    found: Seq<char>,
    position: nat,
) -> Seq<char> {
    "Expected \""@ + expected + "\", found \""@ + found + "\" at "@ + decimal(position)
}

/// The error for an attribute value that is not quoted.
pub open spec fn invalid_attribute_value(value: Seq<char>) -> ParserErrorView {
    ParserErrorView::InvalidAttributeValue { value: invalid_attribute_value_message(value) }
}

/// The error for a name that is no identifier.
pub open spec fn invalid_identifier(identifier: Seq<char>) -> ParserErrorView {
    ParserErrorView::InvalidIdentifier { identifier: invalid_identifier_message(identifier) }
}

/// The error without a kind of its own, at `position`.
pub open spec fn generic(position: nat, message: Seq<char>) -> ParserErrorView {
    ParserErrorView::Generic { position, message: generic_message(position, message) }
}

/// The error for an input that ends at `position`, too early.
pub open spec fn premature_end_of_file(position: nat) -> ParserErrorView {
    ParserErrorView::PrematureEndOfFile { position, message: premature_end_of_file_message() }
}

/// The error for finding `found` at `position` where `expected` had to stand.
pub open spec fn unexpected_token(
    expected: Seq<char>,
    found: Seq<char>,
    position: nat,
) -> ParserErrorView {
    ParserErrorView::UnexpectedToken {
        position,
        message: unexpected_token_message(expected, found, position),
    }
}

impl InvalidAttributeValueError {
    /// The error for the value `value`, as it was written.
    pub fn new(value: &str) -> (error: InvalidAttributeValueError)
        ensures
            error.value@ == invalid_attribute_value_message(value@),
            ParserError::InvalidAttributeValue(error)@ == invalid_attribute_value(value@),
    {
        InvalidAttributeValueError {
            value: InvalidAttributeValueError::build_error_message(value),
        }
    }

    /// The text of the message.
    fn build_error_message(value: &str) -> (message: String)
        ensures
            message@ == invalid_attribute_value_message(value@),
    {
        String::from_str("Invalid attribute value \"").concat(value).concat("\"")
    }
}

impl InvalidIdentifierError {
    /// The error for the name `identifier`, as it was written.
    pub fn new(identifier: &str) -> (error: InvalidIdentifierError)
        ensures
            error.identifier@ == invalid_identifier_message(identifier@),
            ParserError::InvalidIdentifier(error)@ == invalid_identifier(identifier@),
    {
        InvalidIdentifierError {
            identifier: InvalidIdentifierError::build_error_message(identifier),
        }
    }

    /// The text of the message.
    fn build_error_message(identifier: &str) -> (message: String)
        ensures
            message@ == invalid_identifier_message(identifier@),
    {
        String::from_str("Invalid identifier \"").concat(identifier).concat("\"")
    }
}

impl GenericError {
    /// The error that says `message` of the byte offset `position`.
    pub fn new(position: usize, message: &str) -> (error: GenericError)
        ensures
            error.position == position,
            error.message@ == generic_message(position as nat, message@),
            ParserError::Generic(error)@ == generic(position as nat, message@),
    {
        let number = decimal_string(position);
        GenericError {
            message: String::from_str(message).concat(" at ").concat(number.as_str()),
            position,
        }
    }
}

impl PrematureEndOfFileError {
    /// The error for an input that ends at the byte offset `position`.
    pub fn new(position: usize) -> (error: PrematureEndOfFileError)
        ensures
            error.position == position,
            error.message@ == premature_end_of_file_message(),
            ParserError::PrematureEndOfFile(error)@ == premature_end_of_file(position as nat),
    {
        PrematureEndOfFileError { position, message: String::from_str("Premature end of file") }
    }
}

impl UnexpectedTokenError {
    /// The error for finding `found` at the byte offset `position`, where
    /// `expected` had to stand.
    pub fn new(expected: &str, found: &str, position: usize) -> (error: UnexpectedTokenError)
        ensures
            error.position == position,
            error.message@ == unexpected_token_message(expected@, found@, position as nat),
            ParserError::UnexpectedToken(error)@ == unexpected_token(
                expected@,
                found@,
                position as nat,
            ),
    {
        UnexpectedTokenError {
            message: UnexpectedTokenError::build_error_message(expected, found, position),
            position,
        }
    }

    /// The text of the message.
    fn build_error_message(expected: &str, found: &str, position: usize) -> (message: String)
        ensures
            message@ == unexpected_token_message(expected@, found@, position as nat),
    {
        let number = decimal_string(position);
        String::from_str("Expected \"").concat(expected).concat("\", found \"").concat(
            found,
        ).concat("\" at ").concat(number.as_str())
    }
}

} // verus!
