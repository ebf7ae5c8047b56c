//! The parser: a cursor over the text, and the recursive descent that turns
//! the text into a tree.

use vstd::prelude::*;
use vstd::string::*;
use vstd::utf8::*;

use crate::html::dom::{
    lemma_element_view,
    nodes_view,
    ElementAttributes,
    ElementNode,
    Node,
    TextNode,
};
pub use crate::html::error::{
    GenericError,
    InvalidAttributeValueError,
    InvalidIdentifierError,
    ParserError,
    PrematureEndOfFileError,
    UnexpectedTokenError,
};
use crate::html::error::generic;
use crate::html::grammar::{
    attribute_section,
    attributes,
    attributes_from,
    closing_tag,
    content,
    document,
    element,
    followed_by,
    lemma_content_cases,
    lemma_followed_by_twice,
    is_alphanumeric,
    is_identifier,
    is_quoted,
    opening_tag,
    remaining,
    tag_data,
    tag_interior,
    tag_name,
    text_run,
    Scan,
};
use crate::html::text::{
    char_at,
    find_byte,
    find_either,
    lemma_ascii_is_boundary,
    lemma_boundary_after_ascii,
    lemma_next_boundary,
    lemma_run_of,
    lemma_run_until,
    lemma_run_until_either,
    run_of,
    skip_byte,
    slice_str,
    trim_spaces,
    str_eq,
    EQUALS,
    GREATER_THAN,
    LESS_THAN,
    QUOTE,
    SLASH,
    WHITESPACE,
};

verus! {

/// A text and the place up to which it has been read.
///
/// `parse` reads one document and leaves the cursor behind it, so that a text
/// that holds several documents, one after another, can be read by several
/// calls. The descent goes as deep as the elements are nested: a text with
/// very many elements within one another needs as much of the call stack.
pub struct Parser {
    input: String,
    position: usize,
}

impl Parser {
    /// The text, as the bytes of its UTF-8 encoding.
    pub closed spec fn bytes(&self) -> Seq<u8> {
        encode_utf8(self.input@)
    }

    /// The offset of the next byte to read.
    pub closed spec fn cursor(&self) -> nat {
        self.position as nat
    }

    #[verifier::type_invariant]
    spec fn cursor_is_at_a_character(&self) -> bool {
        &&& self.position <= self.bytes().len()
        &&& is_char_boundary(self.bytes(), self.position as int)
    }

    /// A parser at the start of `input`.
    pub fn new(input: &str) -> (parser: Parser)
        ensures
            parser.bytes() == input.spec_bytes(),
            parser.cursor() == 0,
    {
        proof {
            encode_utf8_valid_utf8(input@);
        }
        Parser { input: input.to_owned(), position: 0 }
    }

    /// The byte at the cursor.
    fn current_char(&self) -> (byte: u8)
        requires
            self.cursor() < self.bytes().len(),
        ensures
            byte == self.bytes()[self.cursor() as int],
    {
        self.input.as_str().as_bytes()[self.position]
    }

    /// The byte after the one at the cursor, if the text has one.
    fn next_char(&self) -> (next: Result<u8, ParserError>)
        ensures
            match next {
                Ok(byte) => self.cursor() + 1 < self.bytes().len() && byte == self.bytes()[self.cursor()
                    + 1 as int],
                Err(error) => self.cursor() + 1 >= self.bytes().len() && error@ == generic(
                    self.cursor(),
                    "index out of bounds"@,
                ),
            },
    {
        let bytes = self.input.as_str().as_bytes();
        if self.position >= bytes.len() || self.position + 1 >= bytes.len() {
            return Err(
                ParserError::Generic(GenericError::new(self.position, "index out of bounds")),
            );
        }
        Ok(bytes[self.position + 1])
    }

    /// Whether the whole text has been read.
    fn eof(&self) -> (ended: bool)
        ensures
            ended == (self.cursor() >= self.bytes().len()),
    {
        self.position >= self.input.as_str().as_bytes().len()
    }

    /// Whether the byte is an ASCII letter or digit.
    fn is_alphanumeric_byte(byte: u8) -> (yes: bool)
        ensures
            yes == is_alphanumeric(byte),
    {
        (0x30 <= byte && byte <= 0x39) || (0x41 <= byte && byte <= 0x5A) || (0x61 <= byte && byte
            <= 0x7A)
    }

    /// Whether the name is made of ASCII letters and digits alone.
    fn validate_identifier(tag_name: &str) -> (valid: bool)
        ensures
            valid == is_identifier(tag_name.spec_bytes()),
    {
        let bytes = tag_name.as_bytes();
        let mut i: usize = 0;
        while i < bytes.len()
            invariant
                i <= bytes.len(),
                bytes@ == tag_name.spec_bytes(),
                forall|j: int| 0 <= j < i ==> is_alphanumeric(#[trigger] bytes@[j]),
            decreases bytes.len() - i,
        {
            if !Parser::is_alphanumeric_byte(bytes[i]) {
                assert(!is_alphanumeric(tag_name.spec_bytes()[i as int]));
                return false;
            }
            i += 1;
        }
        true
    }

    /// Whether the value stands between two double quotes.
    fn validate_attribute_value(value: &str) -> (valid: bool)
        ensures
            valid == is_quoted(value.spec_bytes()),
    {
        let chars = value.as_bytes();
        if chars.len() < 2 || chars[0] != QUOTE || chars[chars.len() - 1] != QUOTE {
            return false;
        }
        true
    }

    /// The value without the two quotes around it.
    fn strip_attribute_value_quotes(value: &str) -> (stripped: String)
        requires
            is_quoted(value.spec_bytes()),
        ensures
            stripped@ == decode_utf8(
                value.spec_bytes().subrange(1, value.spec_bytes().len() - 1),
            ),
    {
        let length = value.as_bytes().len();
        proof {
            encode_utf8_valid_utf8(value@);
            lemma_boundary_after_ascii(value.spec_bytes(), 1);
            lemma_ascii_is_boundary(value.spec_bytes(), length - 1);
        }
        slice_str(value, 1, length - 1).to_owned()
    }

    /// The key and the value of one section of an attribute string.
    fn parse_attribute_section(section: &str) -> (pair: Result<(String, String), ParserError>)
        ensures
            match pair {
                Ok((key, value)) => attribute_section(section.spec_bytes()) matches Ok(said)
                    && said == (key@, value@),
                Err(error) => attribute_section(section.spec_bytes()) matches Err(said) && said
                    == error@,
            },
    {
        let length = section.as_bytes().len();
        let split = find_byte(section, 0, EQUALS);
        proof {
            encode_utf8_valid_utf8(section@);
            encode_utf8_decode_utf8(section@);
            lemma_run_until(section.spec_bytes(), 0, EQUALS);
            is_char_boundary_start_end_of_seq(section.spec_bytes());
        }
        if split >= length {
            return Ok((section.to_owned(), String::new()));
        }
        proof {
            lemma_ascii_is_boundary(section.spec_bytes(), split as int);
            lemma_boundary_after_ascii(section.spec_bytes(), split + 1);
        }
        let key = slice_str(section, 0, split);
        let value = slice_str(section, split + 1, length);
        if !Parser::validate_identifier(key) {
            return Err(ParserError::InvalidIdentifier(InvalidIdentifierError::new(key)));
        }
        if !Parser::validate_attribute_value(value) {
            return Err(ParserError::InvalidAttributeValue(InvalidAttributeValueError::new(value)));
        }
        Ok((key.to_owned(), Parser::strip_attribute_value_quotes(value)))
    }

    /// The attributes of an attribute string, section by section: a key
    /// keeps the first value that it was given.
    fn parse_attributes(attributes_string: &str) -> (parsed: Result<
        ElementAttributes,
        ParserError,
    >)
        ensures
            match parsed {
                Ok(found) => attributes(attributes_string.spec_bytes()) matches Ok(said) && said
                    == found@,
                Err(error) => attributes(attributes_string.spec_bytes()) matches Err(said) && said
                    == error@,
            },
    {
        let length = attributes_string.as_bytes().len();
        let ghost text = attributes_string.spec_bytes();
        let mut parsed_attributes = ElementAttributes::new();
        let mut from: usize = 0;
        proof {
            encode_utf8_valid_utf8(attributes_string@);
            is_char_boundary_start_end_of_seq(text);
        }
        loop
            invariant
                text == attributes_string.spec_bytes(),
                valid_utf8(text),
                length == text.len(),
                from <= length,
                is_char_boundary(text, from as int),
                attributes(text) == attributes_from(text, from as nat, parsed_attributes@),
            decreases length - from,
        {
            let end = find_byte(attributes_string, from, WHITESPACE);
            proof {
                lemma_run_until(text, from as int, WHITESPACE);
                if end < length {
                    lemma_ascii_is_boundary(text, end as int);
                    lemma_boundary_after_ascii(text, end + 1);
                } else {
                    is_char_boundary_start_end_of_seq(text);
                }
            }
            let section = slice_str(attributes_string, from, end);
            match Parser::parse_attribute_section(section) {
                Err(error) => {
                    return Err(error);
                },
                Ok((key, value)) => {
                    if !parsed_attributes.contains_key(key.as_str()) {
                        parsed_attributes.insert(key, value);
                    }
                },
            }
            if end >= length {
                return Ok(parsed_attributes);
            }
            from = end + 1;
        }
    }

    /// The name in the interior of a tag. A name is an identifier and not
    /// empty.
    fn parse_tag_name(tag: &str) -> (parsed: Result<String, ParserError>)
        ensures
            match parsed {
                Ok(name) => tag_name(tag.spec_bytes()) matches Ok(said) && said == name@,
                Err(error) => tag_name(tag.spec_bytes()) matches Err(said) && said == error@,
            },
    {
        let split = find_byte(tag, 0, WHITESPACE);
        proof {
            encode_utf8_valid_utf8(tag@);
            encode_utf8_decode_utf8(tag@);
            lemma_run_until(tag.spec_bytes(), 0, WHITESPACE);
            is_char_boundary_start_end_of_seq(tag.spec_bytes());
            if split < tag.spec_bytes().len() {
                lemma_ascii_is_boundary(tag.spec_bytes(), split as int);
            }
        }
        let name = slice_str(tag, 0, split);
        if split == 0 || !Parser::validate_identifier(name) {
            return Err(ParserError::InvalidIdentifier(InvalidIdentifierError::new(tag)));
        }
        Ok(name.to_owned())
    }

    /// The name and the attributes in the interior of an opening tag.
    fn parse_tag_data(tag: &str) -> (parsed: Result<(String, ElementAttributes), ParserError>)
        ensures
            match parsed {
                Ok((name, found)) => tag_data(tag.spec_bytes()) matches Ok(said) && said == (
                    name@,
                    found@,
                ),
                Err(error) => tag_data(tag.spec_bytes()) matches Err(said) && said == error@,
            },
    {
        let length = tag.as_bytes().len();
        let split = find_byte(tag, 0, WHITESPACE);
        let name = match Parser::parse_tag_name(tag) {
            Err(error) => {
                return Err(error);
            },
            Ok(name) => name,
        };
        if split >= length {
            return Ok((name, ElementAttributes::new()));
        }
        proof {
            encode_utf8_valid_utf8(tag@);
            lemma_run_until(tag.spec_bytes(), 0, WHITESPACE);
            lemma_boundary_after_ascii(tag.spec_bytes(), split + 1);
            is_char_boundary_start_end_of_seq(tag.spec_bytes());
        }
        let attributes_string = slice_str(tag, split + 1, length);
        match Parser::parse_attributes(attributes_string) {
            Err(error) => Err(error),
            Ok(found) => Ok((name, found)),
        }
    }

    /// The parser has read on in the same text, by as many bytes as `scan`
    /// says.
    pub open spec fn advanced<T>(before: Parser, after: Parser, scan: Scan<T>) -> bool {
        &&& after.bytes() == before.bytes()
        &&& after.cursor() == before.cursor() + scan.consumed
    }

    /// Moves the cursor `count` bytes on, to the start of a character.
    fn advance(&mut self, count: usize)
        requires
            old(self).cursor() + count <= old(self).bytes().len(),
            is_char_boundary(old(self).bytes(), old(self).cursor() + count),
        ensures
            final(self).bytes() == old(self).bytes(),
            final(self).cursor() == old(self).cursor() + count,
    {
        let length = self.input.as_str().as_bytes().len();
        assert(self.position + count <= length);
        self.position = self.position + count;
    }

    /// Reads up to the next `>` and over it, and gives what stood before it.
    fn read_tag_interior(&mut self) -> (read: Result<String, ParserError>)
        ensures
            Parser::advanced(
                *old(self),
                *final(self),
                tag_interior(old(self).bytes(), old(self).cursor()),
            ),
            match read {
                Ok(tag) => tag_interior(old(self).bytes(), old(self).cursor()).outcome matches Ok(
                    said,
                ) && said == encode_utf8(tag@),
                Err(error) => tag_interior(
                    old(self).bytes(),
                    old(self).cursor(),
                ).outcome matches Err(said) && said == error@,
            },
    {
        proof {
            use_type_invariant(&*self);
            encode_utf8_valid_utf8(self.input@);
            lemma_run_until(self.bytes(), self.position as int, GREATER_THAN);
            is_char_boundary_start_end_of_seq(self.bytes());
        }
        let start = self.position;
        let length = self.input.as_str().as_bytes().len();
        let end = find_byte(self.input.as_str(), start, GREATER_THAN);
        if end >= length {
            self.advance(end - start);
            return Err(ParserError::PrematureEndOfFile(PrematureEndOfFileError::new(end)));
        }
        proof {
            lemma_ascii_is_boundary(self.bytes(), end as int);
            lemma_boundary_after_ascii(self.bytes(), end + 1);
        }
        let tag = slice_str(self.input.as_str(), start, end).to_owned();
        self.advance(end + 1 - start);
        Ok(tag)
    }

    /// Reads the rest of an opening tag, the cursor being behind its `<`.
    fn get_tag_data(&mut self) -> (read: Result<(String, ElementAttributes), ParserError>)
        ensures
            Parser::advanced(
                *old(self),
                *final(self),
                opening_tag(old(self).bytes(), old(self).cursor()),
            ),
            match read {
                Ok((name, found)) => opening_tag(
                    old(self).bytes(),
                    old(self).cursor(),
                ).outcome matches Ok(said) && said == (name@, found@),
                Err(error) => opening_tag(old(self).bytes(), old(self).cursor()).outcome matches Err(
                    said,
                ) && said == error@,
            },
    {
        match self.read_tag_interior() {
            Err(error) => Err(error),
            Ok(tag) => Parser::parse_tag_data(tag.as_str()),
        }
    }

    /// Reads the rest of a closing tag, the cursor being behind its `</`.
    fn get_closing_tag_name(&mut self) -> (read: Result<String, ParserError>)
        ensures
            Parser::advanced(
                *old(self),
                *final(self),
                closing_tag(old(self).bytes(), old(self).cursor()),
            ),
            match read {
                Ok(name) => closing_tag(old(self).bytes(), old(self).cursor()).outcome matches Ok(
                    said,
                ) && said == name@,
                Err(error) => closing_tag(old(self).bytes(), old(self).cursor()).outcome matches Err(
                    said,
                ) && said == error@,
            },
    {
        match self.read_tag_interior() {
            Err(error) => Err(error),
            Ok(tag) => Parser::parse_tag_name(tag.as_str()),
        }
    }

    /// Moves the cursor over the spaces that it stands at.
    fn skip_whitespaces(&mut self)
        ensures
            final(self).bytes() == old(self).bytes(),
            final(self).cursor() == old(self).cursor() + run_of(
                old(self).bytes(),
                old(self).cursor() as int,
                WHITESPACE,
            ),
    {
        proof {
            use_type_invariant(&*self);
            encode_utf8_valid_utf8(self.input@);
            lemma_run_of(self.bytes(), self.position as int, WHITESPACE);
        }
        let end = skip_byte(self.input.as_str(), self.position, WHITESPACE);
        proof {
            if end > self.position {
                lemma_boundary_after_ascii(self.bytes(), end as int);
            }
        }
        self.advance(end - self.position);
    }

    /// Reads a run of text up to the next `<`, untrimmed.
    fn get_text_content(&mut self) -> (read: Result<String, ParserError>)
        ensures
            Parser::advanced(
                *old(self),
                *final(self),
                text_run(old(self).bytes(), old(self).cursor()),
            ),
            match read {
                Ok(text) => text_run(old(self).bytes(), old(self).cursor()).outcome matches Ok(
                    said,
                ) && said == encode_utf8(text@),
                Err(error) => text_run(old(self).bytes(), old(self).cursor()).outcome matches Err(
                    said,
                ) && said == error@,
            },
    {
        proof {
            use_type_invariant(&*self);
            encode_utf8_valid_utf8(self.input@);
            lemma_run_until_either(self.bytes(), self.position as int, LESS_THAN, GREATER_THAN);
            is_char_boundary_start_end_of_seq(self.bytes());
            reveal_strlit("text content");
            reveal_strlit(">");
        }
        let start = self.position;
        let bytes = self.input.as_str().as_bytes();
        let end = find_either(self.input.as_str(), start, LESS_THAN, GREATER_THAN);
        proof {
            if end < bytes.len() {
                lemma_ascii_is_boundary(self.bytes(), end as int);
            }
        }
        if end < bytes.len() && bytes[end] == GREATER_THAN {
            self.advance(end - start);
            return Err(
                ParserError::UnexpectedToken(UnexpectedTokenError::new("text content", ">", end)),
            );
        }
        let text = slice_str(self.input.as_str(), start, end).to_owned();
        self.advance(end - start);
        Ok(text)
    }

    /// Reads an element, the cursor being behind the `<` of its opening tag.
    fn get_element(&mut self) -> (read: Result<ElementNode, ParserError>)
        ensures
            Parser::advanced(
                *old(self),
                *final(self),
                element(old(self).bytes(), old(self).cursor()),
            ),
            match read {
                Ok(node) => element(old(self).bytes(), old(self).cursor()).outcome matches Ok(said)
                    && said == node@,
                Err(error) => element(old(self).bytes(), old(self).cursor()).outcome matches Err(
                    said,
                ) && said == error@,
            },
        decreases remaining(old(self).bytes(), old(self).cursor()), 2nat,
    {
        let (tag_name, attributes) = match self.get_tag_data() {
            Err(error) => {
                return Err(error);
            },
            Ok(data) => data,
        };
        let mut node = ElementNode { tag_name, attributes, children: Vec::new() };
        let children = match self.get_element_content(&node) {
            Err(error) => {
                return Err(error);
            },
            Ok(children) => children,
        };
        node.children = children;
        proof {
            lemma_element_view(node);
        }
        Ok(node)
    }

    /// Reads the children of `root` and the tag that closes it.
    fn get_element_content(&mut self, root: &ElementNode) -> (read: Result<Vec<Node>, ParserError>)
        ensures
            Parser::advanced(
                *old(self),
                *final(self),
                content(old(self).bytes(), old(self).cursor(), root.tag_name@),
            ),
            match read {
                Ok(nodes) => content(
                    old(self).bytes(),
                    old(self).cursor(),
                    root.tag_name@,
                ).outcome matches Ok(said) && said == nodes_view(nodes@),
                Err(error) => content(
                    old(self).bytes(),
                    old(self).cursor(),
                    root.tag_name@,
                ).outcome matches Err(said) && said == error@,
            },
        decreases remaining(old(self).bytes(), old(self).cursor()), 0nat,
    {
        let ghost input = self.bytes();
        let ghost start = self.cursor();
        let ghost expected = root.tag_name@;
        let ghost whole = content(input, start, expected);
        let mut nodes: Vec<Node> = Vec::new();
        proof {
            assert(nodes_view(nodes@) =~= Seq::empty());
            if whole.outcome is Ok {
                assert(Seq::empty() + whole.outcome->Ok_0 =~= whole.outcome->Ok_0);
            }
        }
        while !self.eof()
            invariant
                input == old(self).bytes(),
                start == old(self).cursor(),
                whole == content(old(self).bytes(), old(self).cursor(), root.tag_name@),
                self.bytes() == input,
                start <= self.cursor(),
                remaining(input, self.cursor()) <= remaining(input, start),
                expected == root.tag_name@,
                whole == followed_by(
                    nodes_view(nodes@),
                    (self.cursor() - start) as nat,
                    content(input, self.cursor(), expected),
                ),
            decreases remaining(input, self.cursor()),
        {
            let ghost here = self.cursor();
            let ghost front = nodes_view(nodes@);
            let ghost read = (here - start) as nat;
            proof {
                use_type_invariant(&*self);
                encode_utf8_valid_utf8(self.input@);
                lemma_content_cases(input, here, expected);
            }
            let current = self.current_char();
            if current == LESS_THAN {
                let next_character = match self.next_char() {
                    Err(error) => {
                        return Err(error);
                    },
                    Ok(byte) => byte,
                };
                proof {
                    lemma_ascii_is_boundary(input, here as int);
                    lemma_next_boundary(input, here as int);
                }
                if next_character == SLASH {
                    proof {
                        lemma_boundary_after_ascii(input, here + 2 as int);
                    }
                    self.advance(2);
                    let tag_name = match self.get_closing_tag_name() {
                        Err(error) => {
                            return Err(error);
                        },
                        Ok(name) => name,
                    };
                    if !str_eq(tag_name.as_str(), root.tag_name.as_str()) {
                        let wanted = String::from_str("</").concat(root.tag_name.as_str()).concat(
                            ">",
                        );
                        let found = String::from_str("</").concat(tag_name.as_str()).concat(">");
                        return Err(
                            ParserError::UnexpectedToken(
                                UnexpectedTokenError::new(
                                    wanted.as_str(),
                                    found.as_str(),
                                    self.position,
                                ),
                            ),
                        );
                    }
                    assert(front + Seq::empty() =~= front);
                    return Ok(nodes);
                }
                self.advance(1);
                let node = match self.get_element() {
                    Err(error) => {
                        return Err(error);
                    },
                    Ok(node) => node,
                };
                proof {
                    lemma_element_view(node);
                    let used = (self.cursor() - here) as nat;
                    lemma_followed_by_twice(
                        front,
                        read,
                        seq![node@],
                        used,
                        content(input, self.cursor(), expected),
                    );
                }
                nodes.push(Node::Element(node));
                assert(nodes_view(nodes@) =~= front + seq![node@]);
            } else if current == WHITESPACE {
                self.skip_whitespaces();
                proof {
                    let used = (self.cursor() - here) as nat;
                    lemma_followed_by_twice(
                        front,
                        read,
                        Seq::empty(),
                        used,
                        content(input, self.cursor(), expected),
                    );
                    assert(front + Seq::empty() =~= front);
                }
            } else {
                let text = match self.get_text_content() {
                    Err(error) => {
                        return Err(error);
                    },
                    Ok(text) => text,
                };
                let node = TextNode { content: trim_spaces(text.as_str()).to_owned() };
                proof {
                    let used = (self.cursor() - here) as nat;
                    lemma_followed_by_twice(
                        front,
                        read,
                        seq![node@],
                        used,
                        content(input, self.cursor(), expected),
                    );
                }
                nodes.push(Node::Text(node));
                assert(nodes_view(nodes@) =~= front + seq![node@]);
            }
        }
        proof {
            lemma_content_cases(input, self.cursor(), expected);
        }
        Err(ParserError::PrematureEndOfFile(PrematureEndOfFileError::new(self.position)))
    }

    /// What `parse` does: from `before` it brings the parser to `after` and
    /// gives `parsed`, as `document` says of the text from the cursor on.
    pub open spec fn parsed(before: Parser, after: Parser, parsed: Result<Node, ParserError>) -> bool {
        let scan = document(before.bytes(), before.cursor());
        &&& Parser::advanced(before, after, scan)
        &&& match parsed {
            Ok(node) => scan.outcome matches Ok(said) && said == node@,
            Err(error) => scan.outcome matches Err(said) && said == error@,
        }
    }

    /// Reads one document from the cursor on: an element with all that stands
    /// in it. The cursor ends behind the element's closing tag, or where the
    /// reading failed.
    pub fn parse(&mut self) -> (parsed: Result<Node, ParserError>)
        ensures
            Parser::parsed(*old(self), *final(self), parsed),
    {
        proof {
            use_type_invariant(&*self);
            encode_utf8_valid_utf8(self.input@);
        }
        if self.eof() {
            return Err(
                ParserError::PrematureEndOfFile(PrematureEndOfFileError::new(self.position)),
            );
        }
        let current_char = self.current_char();
        if current_char != LESS_THAN {
            let found = char_at(self.input.as_str(), self.position);
            return Err(
                ParserError::UnexpectedToken(UnexpectedTokenError::new("<", found, self.position)),
            );
        }
        proof {
            lemma_boundary_after_ascii(self.bytes(), self.position + 1);
        }
        self.advance(1);
        match self.get_element() {
            Err(error) => Err(error),
            Ok(root_node) => {
                proof {
                    lemma_element_view(root_node);
                }
                Ok(Node::Element(root_node))
            },
        }
    }
}

} // verus!
