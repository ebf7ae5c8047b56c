//! The grammar of the markup language, as functions from bytes to what they
//! mean.
//!
//! A document is one element. An element is an opening tag, its content and
//! the closing tag of the same name. Content is a sequence of elements and
//! runs of text. A tag is `<`, an interior and `>`; the interior of an
//! opening tag is a name and, after a space, attributes separated by single
//! spaces; a closing tag has `/` before the interior.
//!
//! The grammar is written over the bytes of the text. The bytes that it
//! gives a meaning to are ASCII; names are made of ASCII letters and digits;
//! whatever else stands in a text or in an attribute is carried into the
//! tree as the UTF-8 text that it is.
//!
//! Some things are taken as they are, not as one might wish them:
//! - a tag ends at the first `>`, also where that `>` stands between the
//!   quotes of an attribute value;
//! - attributes are cut at every space, also where that space stands between
//!   the quotes of a value, and two spaces in a row have an empty section
//!   between them;
//! - the key of an attribute without `=` is not held to letters and digits,
//!   while the key of one with `=` is; either may be empty, which the name
//!   of a tag may not.

use vstd::prelude::*;
use vstd::utf8::decode_utf8;

use crate::html::dom::{larger, NodeView};
use crate::html::error::{
    generic,
    invalid_attribute_value,
    invalid_identifier,
    premature_end_of_file,
    unexpected_token,
    ParserErrorView,
};
use crate::html::text::{
    char_width,
    run_of,
    run_until,
    run_until_either,
    trimmed,
    EQUALS,
    GREATER_THAN,
    LESS_THAN,
    QUOTE,
    SLASH,
    WHITESPACE,
};

verus! {

/// Attributes as a mathematical value: a value for each key.
pub type AttributesView = Map<Seq<char>, Seq<char>>;

/// An ASCII letter or digit.
pub open spec fn is_alphanumeric(byte: u8) -> bool {
    ||| 0x30 <= byte <= 0x39
    ||| 0x41 <= byte <= 0x5A
    ||| 0x61 <= byte <= 0x7A
}

/// Nothing but ASCII letters and digits.
pub open spec fn is_identifier(name: Seq<u8>) -> bool {
    forall|i: int| 0 <= i < name.len() ==> is_alphanumeric(#[trigger] name[i])
}

/// What the name of a tag must be: an identifier, and not empty.
pub open spec fn is_tag_name(name: Seq<u8>) -> bool {
    name.len() > 0 && is_identifier(name)
}

/// A double quote at the start, another one at the end, anything between.
pub open spec fn is_quoted(value: Seq<u8>) -> bool {
    value.len() >= 2 && value[0] == QUOTE && value[value.len() - 1] == QUOTE
}

/// What one section of an attribute string says. Without `=` the section is
/// a key with the empty value. With `=` the key stands before the first `=`
/// and must be an identifier, and the value after it must be quoted; the
/// quotes do not belong to the value.
pub open spec fn attribute_section(section: Seq<u8>) -> Result<
    (Seq<char>, Seq<char>),
    ParserErrorView,
> {
    let split = run_until(section, 0, EQUALS);
    if split >= section.len() {
        Ok((decode_utf8(section), Seq::empty()))
    } else {
        let key = section.subrange(0, split as int);
        let value = section.subrange(split + 1 as int, section.len() as int);
        if !is_identifier(key) {
            Err(invalid_identifier(decode_utf8(key)))
        } else if !is_quoted(value) {
            Err(invalid_attribute_value(decode_utf8(value)))
        } else {
            Ok((decode_utf8(key), decode_utf8(value.subrange(1, value.len() - 1))))
        }
    }
}

/// The sections of `text` from byte `from` on: the text cut at every space.
/// There is one section more than there are spaces, and a section may be
/// empty.
pub open spec fn sections_from(text: Seq<u8>, from: nat) -> Seq<Seq<u8>>
    decreases text.len() - from,
{
    let length = run_until(text, from as int, WHITESPACE);
    let first = seq![text.subrange(from as int, (from + length) as int)];
    if from + length >= text.len() {
        first
    } else {
        first + sections_from(text, from + length + 1)
    }
}

/// The sections of an attribute string.
pub open spec fn sections(text: Seq<u8>) -> Seq<Seq<u8>> {
    sections_from(text, 0)
}

/// What the sections of `text` from byte `from` on add to the attributes
/// `seen`. A section ends at the next space or with the text. A key that
/// has a value already keeps it. The first section that fails is the error.
pub open spec fn attributes_from(text: Seq<u8>, from: nat, seen: AttributesView) -> Result<
    AttributesView,
    ParserErrorView,
>
    decreases text.len() - from,
{
    let length = run_until(text, from as int, WHITESPACE);
    match attribute_section(text.subrange(from as int, (from + length) as int)) {
        Err(error) => Err(error),
        Ok((key, value)) => {
            let known = if seen.contains_key(key) {
                seen
            } else {
                seen.insert(key, value)
            };
            if from + length >= text.len() {
                Ok(known)
            } else {
                attributes_from(text, from + length + 1, known)
            }
        },
    }
}

/// What an attribute string says.
pub open spec fn attributes(text: Seq<u8>) -> Result<AttributesView, ParserErrorView> {
    attributes_from(text, 0, Map::empty())
}

/// The name in the interior of a tag: what stands before the first space,
/// if that is an identifier and not empty. The error shows the whole
/// interior.
pub open spec fn tag_name(interior: Seq<u8>) -> Result<Seq<char>, ParserErrorView> {
    let name = interior.subrange(0, run_until(interior, 0, WHITESPACE) as int);
    if is_tag_name(name) {
        Ok(decode_utf8(name))
    } else {
        Err(invalid_identifier(decode_utf8(interior)))
    }
}

/// What the interior of an opening tag says: its name and, if a space
/// follows the name, the attributes after that space.
pub open spec fn tag_data(interior: Seq<u8>) -> Result<
    (Seq<char>, AttributesView),
    ParserErrorView,
> {
    let split = run_until(interior, 0, WHITESPACE);
    match tag_name(interior) {
        Err(error) => Err(error),
        Ok(name) => if split >= interior.len() {
            Ok((name, Map::empty()))
        } else {
            match attributes(interior.subrange(split + 1 as int, interior.len() as int)) {
                Err(error) => Err(error),
                Ok(found) => Ok((name, found)),
            }
        },
    }
}

/// The outcome of reading at some position: a value or an error, and how
/// many bytes were read to get there.
pub struct Scan<T> {
    pub outcome: Result<T, ParserErrorView>,
    pub consumed: nat,
}

/// Reading `consumed` bytes gave `value`.
pub open spec fn done<T>(value: T, consumed: nat) -> Scan<T> {
    Scan { outcome: Ok(value), consumed }
}

/// Reading failed with `error` after `consumed` bytes.
pub open spec fn failed<T>(error: ParserErrorView, consumed: nat) -> Scan<T> {
    Scan { outcome: Err(error), consumed }
}

/// The nodes `front`, read from `consumed` bytes, followed by what the rest
/// of the reading gave.
pub open spec fn followed_by(front: Seq<NodeView>, consumed: nat, rest: Scan<Seq<NodeView>>) -> Scan<
    Seq<NodeView>,
> {
    Scan {
        outcome: match rest.outcome {
            Ok(nodes) => Ok(front + nodes),
            Err(error) => Err(error),
        },
        consumed: consumed + rest.consumed,
    }
}

/// Nodes followed by nodes followed by a rest are the joined nodes followed
/// by that rest.
pub proof fn lemma_followed_by_twice(
    front: Seq<NodeView>,
    consumed: nat,
    next: Seq<NodeView>,
    more: nat,
    rest: Scan<Seq<NodeView>>,
)
    ensures
        followed_by(front, consumed, followed_by(next, more, rest)) == followed_by(
            front + next,
            consumed + more,
            rest,
        ),
{
    if rest.outcome is Ok {
        assert(front + (next + rest.outcome->Ok_0) =~= (front + next) + rest.outcome->Ok_0);
    }
}

/// The interior of the tag whose first interior byte is at `from`: the bytes
/// before the next `>`, which is read too. Without a `>` the input ends too
/// early.
pub open spec fn tag_interior(input: Seq<u8>, from: nat) -> Scan<Seq<u8>> {
    let length = run_until(input, from as int, GREATER_THAN);
    if from + length >= input.len() {
        failed(premature_end_of_file(from + length), length)
    } else {
        done(input.subrange(from as int, (from + length) as int), length + 1)
    }
}

/// The opening tag whose interior starts at `from`.
pub open spec fn opening_tag(input: Seq<u8>, from: nat) -> Scan<(Seq<char>, AttributesView)> {
    let interior = tag_interior(input, from);
    match interior.outcome {
        Err(error) => failed(error, interior.consumed),
        Ok(bytes) => Scan { outcome: tag_data(bytes), consumed: interior.consumed },
    }
}

/// The closing tag whose interior starts at `from`, after `</`. Only its
/// name is read; what follows the name's space is passed over.
pub open spec fn closing_tag(input: Seq<u8>, from: nat) -> Scan<Seq<char>> {
    let interior = tag_interior(input, from);
    match interior.outcome {
        Err(error) => failed(error, interior.consumed),
        Ok(bytes) => Scan { outcome: tag_name(bytes), consumed: interior.consumed },
    }
}

/// The run of text that starts at `from`: the bytes before the next `<`, or
/// up to the end of the input. A `>` in it is an error at that byte.
pub open spec fn text_run(input: Seq<u8>, from: nat) -> Scan<Seq<u8>> {
    let length = run_until_either(input, from as int, LESS_THAN, GREATER_THAN);
    if from + length < input.len() && input[(from + length) as int] == GREATER_THAN {
        failed(unexpected_token("text content"@, ">"@, from + length), length)
    } else {
        done(input.subrange(from as int, (from + length) as int), length)
    }
}

/// How a closing tag of the given name is written.
pub open spec fn closing(name: Seq<char>) -> Seq<char> {
    "</"@ + name + ">"@
}

/// Number of bytes from `pos` to the end of `input`.
pub open spec fn remaining(input: Seq<u8>, pos: nat) -> nat {
    if pos <= input.len() {
        (input.len() - pos) as nat
    } else {
        0
    }
}

/// The content of the element named `expected`, read from `pos` up to and
/// including the closing tag of that name:
/// - `</` starts a closing tag; it ends the content if it has the expected
///   name, and is an error if it has another;
/// - any other `<` starts an element, which is one node of the content;
/// - spaces between nodes are passed over;
/// - anything else starts a run of text, which is one node with the run
///   trimmed of spaces as its content;
/// - the end of the input is an error.
///
/// The cases stand in `content_cases`. This function is opaque, so that a
/// proof unfolds it only where it asks to, with `lemma_content_cases`.
#[verifier::opaque]
pub open spec fn content(input: Seq<u8>, pos: nat, expected: Seq<char>) -> Scan<Seq<NodeView>>
    decreases remaining(input, pos), 1nat,
{
    content_cases(input, pos, expected)
}

/// What `content` is, case by case.
pub open spec fn content_cases(input: Seq<u8>, pos: nat, expected: Seq<char>) -> Scan<Seq<NodeView>>
    decreases remaining(input, pos), 0nat,
{
    if pos >= input.len() {
        failed(premature_end_of_file(pos), 0)
    } else if input[pos as int] == LESS_THAN {
        if pos + 1 >= input.len() {
            failed(generic(pos, "index out of bounds"@), 0)
        } else if input[pos + 1 as int] == SLASH {
            let tag = closing_tag(input, pos + 2);
            let end = 2 + tag.consumed;
            match tag.outcome {
                Err(error) => failed(error, end),
                Ok(name) => if name == expected {
                    done(Seq::empty(), end)
                } else {
                    failed(unexpected_token(closing(expected), closing(name), pos + end), end)
                },
            }
        } else {
            let child = element(input, pos + 1);
            let end = 1 + child.consumed;
            match child.outcome {
                Err(error) => failed(error, end),
                Ok(node) => followed_by(seq![node], end, content(input, pos + end, expected)),
            }
        }
    } else if input[pos as int] == WHITESPACE {
        let spaces = run_of(input, pos as int, WHITESPACE);
        followed_by(Seq::empty(), spaces, content(input, pos + spaces, expected))
    } else {
        let text = text_run(input, pos);
        match text.outcome {
            Err(error) => failed(error, text.consumed),
            Ok(run) => followed_by(
                seq![NodeView::Text { content: decode_utf8(trimmed(run)) }],
                text.consumed,
                content(input, pos + text.consumed, expected),
            ),
        }
    }
}

/// The element whose opening tag has its interior at `from`, after `<`: the
/// tag, then the content up to the closing tag of the same name.
pub open spec fn element(input: Seq<u8>, from: nat) -> Scan<NodeView>
    decreases remaining(input, from), 2nat,
{
    let tag = opening_tag(input, from);
    match tag.outcome {
        Err(error) => failed(error, tag.consumed),
        Ok((name, attributes)) => {
            let inner = content(input, from + tag.consumed, name);
            Scan {
                outcome: match inner.outcome {
                    Err(error) => Err(error),
                    Ok(children) => Ok(NodeView::Element { tag_name: name, attributes, children }),
                },
                consumed: tag.consumed + inner.consumed,
            }
        },
    }
}

/// The greatest number of elements that are open at once while the tags of
/// `input` are read from `pos` on, where `open` elements are open already.
/// An opening tag opens one more, a closing tag closes one. The reading ends
/// where the last open element closes, or with the input.
pub open spec fn deepest_nesting(input: Seq<u8>, pos: nat, open: nat) -> nat
    decreases remaining(input, pos),
{
    if pos >= input.len() {
        open
    } else if input[pos as int] != LESS_THAN {
        deepest_nesting(input, pos + 1, open)
    } else if pos + 1 >= input.len() {
        open
    } else {
        let after = pos + 2 + run_until(input, pos + 1 as int, GREATER_THAN);
        if input[pos + 1 as int] != SLASH {
            deepest_nesting(input, after, open + 1)
        } else if open <= 1 {
            open
        } else {
            larger(open, deepest_nesting(input, after, (open - 1) as nat))
        }
    }
}

/// How deep the elements of the document at `pos` are nested, going by its
/// tags alone.
pub open spec fn nesting_depth(input: Seq<u8>, pos: nat) -> nat {
    deepest_nesting(input, pos, 0)
}

/// `content` is what its cases say.
pub proof fn lemma_content_cases(input: Seq<u8>, pos: nat, expected: Seq<char>)
    ensures
        content(input, pos, expected) == content_cases(input, pos, expected),
{
    reveal(content);
}

/// The document that starts at `pos`: one element. The input must not end
/// there, and must start with `<`; else the error shows the character that
/// stands there.
pub open spec fn document(input: Seq<u8>, pos: nat) -> Scan<NodeView> {
    if pos >= input.len() {
        failed(premature_end_of_file(pos), 0)
    } else if input[pos as int] != LESS_THAN {
        let found = input.subrange(pos as int, pos + char_width(input[pos as int]));
        failed(unexpected_token("<"@, decode_utf8(found), pos), 0)
    } else {
        let root = element(input, pos + 1);
        Scan { outcome: root.outcome, consumed: 1 + root.consumed }
    }
}

} // verus!
