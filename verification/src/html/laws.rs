//! What holds of every parse.

use vstd::prelude::*;
use vstd::utf8::decode_utf8;

use crate::html::dom::{deepest, larger, Node, NodeView};
use crate::html::error::{ParserError, ParserErrorView};
use crate::html::grammar::{
    attribute_section,
    attributes,
    attributes_from,
    content,
    deepest_nesting,
    document,
    done,
    element,
    is_alphanumeric,
    is_tag_name,
    lemma_content_cases,
    nesting_depth,
    opening_tag,
    remaining,
    sections,
    sections_from,
    tag_data,
    tag_interior,
    tag_name,
    text_run,
    AttributesView,
};
use crate::html::parser::Parser;
use crate::html::text::{
    lemma_decode_ascii,
    lemma_run_of,
    lemma_run_of_is,
    lemma_run_until,
    lemma_run_until_either,
    lemma_run_until_either_is,
    lemma_run_until_is,
    lemma_trimmed,
    lemma_trimmed_after_spaces,
    lemma_trimmed_is_not_empty,
    run_of,
    run_until,
    trimmed,
    GREATER_THAN,
    LESS_THAN,
    SLASH,
    WHITESPACE,
};

verus! {

/// Parsing is repeatable: two parsers that stand at the same place of the
/// same text give the same tree or the same error, and stop at the same
/// place.
pub proof fn lemma_parse_is_repeatable(
    first: Parser,
    first_after: Parser,
    first_parsed: Result<Node, ParserError>,
    second: Parser,
    second_after: Parser,
    second_parsed: Result<Node, ParserError>,
)
    requires
        first.bytes() == second.bytes(),
        first.cursor() == second.cursor(),
        Parser::parsed(first, first_after, first_parsed),
        Parser::parsed(second, second_after, second_parsed),
    ensures
        first_after.bytes() == second_after.bytes(),
        first_after.cursor() == second_after.cursor(),
        match (first_parsed, second_parsed) {
            (Ok(one), Ok(other)) => one@ == other@,
            (Err(one), Err(other)) => one@ == other@,
            _ => false,
        },
{
}

/// How an element with nothing but text in it is written: the opening tag
/// with the interior `opening`, the text `body`, and the closing tag with
/// the interior `closing`.
pub open spec fn leaf_element(opening: Seq<u8>, body: Seq<u8>, closing: Seq<u8>) -> Seq<u8> {
    seq![LESS_THAN] + opening + seq![GREATER_THAN] + body + seq![LESS_THAN, SLASH] + closing
        + seq![GREATER_THAN]
}

/// The nodes that a text between two tags gives: none if it holds nothing
/// but spaces, else one text node with the trimmed text.
pub open spec fn leaf_children(body: Seq<u8>) -> Seq<NodeView> {
    if trimmed(body).len() == 0 {
        Seq::empty()
    } else {
        seq![NodeView::Text { content: decode_utf8(trimmed(body)) }]
    }
}

proof fn lemma_leaf_layout(opening: Seq<u8>, body: Seq<u8>, closing: Seq<u8>)
    ensures
        ({
            let input = leaf_element(opening, body, closing);
            let start = opening.len() as int + 2;
            let end = start + body.len();
            &&& input.len() == end + 3 + closing.len()
            &&& input[0] == LESS_THAN
            &&& input.subrange(1, start - 1) == opening
            &&& input[start - 1] == GREATER_THAN
            &&& input.subrange(start, end) == body
            &&& input[end] == LESS_THAN
            &&& input[end + 1] == SLASH
            &&& input.subrange(end + 2, end + 2 + closing.len()) == closing
            &&& input[end + 2 + closing.len()] == GREATER_THAN
        }),
{
    let input = leaf_element(opening, body, closing);
    let start = opening.len() as int + 2;
    let end = start + body.len();
    assert(input.subrange(1, start - 1) =~= opening);
    assert(input.subrange(start, end) =~= body);
    assert(input.subrange(end + 2, end + 2 + closing.len()) =~= closing);
}

proof fn lemma_leaf_opening(
    input: Seq<u8>,
    opening: Seq<u8>,
    name: Seq<char>,
    attributes: AttributesView,
)
    requires
        opening.len() + 1 < input.len(),
        input.subrange(1, 1 + opening.len() as int) == opening,
        input[1 + opening.len() as int] == GREATER_THAN,
        forall|i: int| 0 <= i < opening.len() ==> opening[i] != GREATER_THAN,
        tag_data(opening) == Ok::<_, ParserErrorView>((name, attributes)),
    ensures
        opening_tag(input, 1) == done((name, attributes), opening.len() + 1),
{
    assert forall|i: int| 1 <= i < 1 + opening.len() implies input[i] != GREATER_THAN by {
        assert(input[i] == opening[i - 1]);
    }
    lemma_run_until_is(input, 1, opening.len(), GREATER_THAN);
}

proof fn lemma_leaf_closing(input: Seq<u8>, at: nat, closing: Seq<u8>, name: Seq<char>)
    requires
        at + 3 + closing.len() == input.len(),
        input[at as int] == LESS_THAN,
        input[at as int + 1] == SLASH,
        input.subrange(at as int + 2, at as int + 2 + closing.len()) == closing,
        input[at as int + 2 + closing.len()] == GREATER_THAN,
        forall|i: int| 0 <= i < closing.len() ==> closing[i] != GREATER_THAN,
        tag_name(closing) == Ok::<Seq<char>, ParserErrorView>(name),
    ensures
        content(input, at, name) == done(Seq::<NodeView>::empty(), 3 + closing.len()),
{
    lemma_content_cases(input, at, name);
    assert forall|i: int| at + 2 <= i < at + 2 + closing.len() implies input[i]
        != GREATER_THAN by {
        assert(input[i] == closing[i - (at + 2)]);
    }
    lemma_run_until_is(input, at as int + 2, closing.len(), GREATER_THAN);
}

proof fn lemma_leaf_text(input: Seq<u8>, at: nat, text: Seq<u8>, name: Seq<char>, after: nat)
    requires
        at + text.len() < input.len(),
        input.subrange(at as int, at as int + text.len()) == text,
        input[at as int + text.len()] == LESS_THAN,
        forall|i: int| 0 <= i < text.len() ==> text[i] != LESS_THAN && text[i] != GREATER_THAN,
        text.len() > 0,
        text[0] != WHITESPACE,
        content(input, at + text.len(), name) == done(Seq::<NodeView>::empty(), after),
    ensures
        content(input, at, name) == done(
            seq![NodeView::Text { content: decode_utf8(trimmed(text)) }],
            text.len() + after,
        ),
{
    assert forall|i: int| at <= i < at + text.len() implies input[i] != LESS_THAN && input[i]
        != GREATER_THAN by {
        assert(input[i] == text[i - at]);
    }
    lemma_run_until_either_is(input, at as int, text.len(), LESS_THAN, GREATER_THAN);
    assert(input[at as int] == text[0]);
    assert(text_run(input, at) == done(text, text.len()));
    lemma_content_cases(input, at, name);
    let node = seq![NodeView::Text { content: decode_utf8(trimmed(text)) }];
    assert(node + Seq::<NodeView>::empty() =~= node);
}

proof fn lemma_leaf_content(input: Seq<u8>, at: nat, body: Seq<u8>, name: Seq<char>, after: nat)
    requires
        at + body.len() < input.len(),
        input.subrange(at as int, at as int + body.len()) == body,
        input[at as int + body.len()] == LESS_THAN,
        forall|i: int| 0 <= i < body.len() ==> body[i] != LESS_THAN && body[i] != GREATER_THAN,
        content(input, at + body.len(), name) == done(Seq::<NodeView>::empty(), after),
    ensures
        content(input, at, name) == done(leaf_children(body), body.len() + after),
{
    let lead = run_of(body, 0, WHITESPACE);
    lemma_run_of(body, 0, WHITESPACE);
    let text = body.subrange(lead as int, body.len() as int);
    let text_at = at + lead;
    assert forall|i: int| at <= i < at + body.len() implies input[i] == body[i - at] by {
        assert(input.subrange(at as int, at as int + body.len())[i - at] == input[i]);
    }
    assert(content(input, text_at, name) == done(leaf_children(body), text.len() + after)) by {
        if lead < body.len() {
            lemma_trimmed_after_spaces(body, lead);
            lemma_trimmed_is_not_empty(body, lead as int);
            assert(input.subrange(text_at as int, text_at as int + text.len()) =~= text);
            lemma_leaf_text(input, text_at, text, name, after);
        } else {
            lemma_trimmed(body);
        }
    }
    if lead > 0 {
        assert(content(input, at, name) == done(leaf_children(body), body.len() + after)) by {
            lemma_run_of_is(input, at as int, lead, WHITESPACE);
            lemma_content_cases(input, at, name);
            assert(Seq::<NodeView>::empty() + leaf_children(body) =~= leaf_children(body));
        }
    }
}

/// Text fidelity: the content of a text node is the text between its tags
/// with the spaces at its two ends taken away and nothing else changed.
/// For every opening tag that the grammar accepts, every closing tag of the
/// same name and every text without `<` and `>` between them, the document
/// is the element with that text, trimmed, as its only child; with no child
/// where the text holds nothing but spaces. What trimming keeps and what
/// it takes away is stated by `lemma_trimmed`.
pub proof fn lemma_text_fidelity(
    opening: Seq<u8>,
    body: Seq<u8>,
    closing: Seq<u8>,
    name: Seq<char>,
    attributes: AttributesView,
)
    requires
        forall|i: int| 0 <= i < opening.len() ==> opening[i] != GREATER_THAN,
        forall|i: int| 0 <= i < closing.len() ==> closing[i] != GREATER_THAN,
        forall|i: int| 0 <= i < body.len() ==> body[i] != LESS_THAN && body[i] != GREATER_THAN,
        tag_data(opening) == Ok::<_, ParserErrorView>((name, attributes)),
        tag_name(closing) == Ok::<_, ParserErrorView>(name),
    ensures
        document(leaf_element(opening, body, closing), 0) == done(
            NodeView::Element { tag_name: name, attributes, children: leaf_children(body) },
            leaf_element(opening, body, closing).len(),
        ),
{
    let input = leaf_element(opening, body, closing);
    let start = (opening.len() + 2) as nat;
    let end = (start + body.len()) as nat;
    lemma_leaf_layout(opening, body, closing);
    lemma_leaf_opening(input, opening, name, attributes);
    lemma_leaf_closing(input, end, closing, name);
    lemma_leaf_content(input, start, body, name, 3 + closing.len());
}

proof fn lemma_nesting_skips(input: Seq<u8>, pos: nat, count: nat, open: nat)
    requires
        pos + count <= input.len(),
        forall|i: int| pos <= i < pos + count ==> input[i] != LESS_THAN,
    ensures
        deepest_nesting(input, pos, open) == deepest_nesting(input, pos + count, open),
    decreases count,
{
    if count > 0 {
        lemma_nesting_skips(input, pos + 1, (count - 1) as nat, open);
    }
}

proof fn lemma_deepest_of_first_and_rest(first: NodeView, rest: Seq<NodeView>)
    ensures
        deepest(seq![first] + rest) == larger(first.depth(), deepest(rest)),
{
    assert((seq![first] + rest).drop_first() =~= rest);
}

proof fn lemma_opening_tag_starts_with_no_slash(input: Seq<u8>, from: nat)
    requires
        opening_tag(input, from).outcome is Ok,
    ensures
        from < input.len(),
        input[from as int] != SLASH,
        from + opening_tag(input, from).consumed <= input.len(),
        opening_tag(input, from).consumed == run_until(input, from as int, GREATER_THAN) + 1,
{
    let length = run_until(input, from as int, GREATER_THAN);
    lemma_run_until(input, from as int, GREATER_THAN);
    let interior = input.subrange(from as int, (from + length) as int);
    lemma_run_until(interior, 0, WHITESPACE);
    let name = interior.subrange(0, run_until(interior, 0, WHITESPACE) as int);
    assert(is_tag_name(name));
    assert(is_alphanumeric(name[0]));
    assert(name[0] == input[from as int]);
}

proof fn lemma_content_depth(input: Seq<u8>, pos: nat, expected: Seq<char>, open: nat)
    requires
        open >= 1,
        content(input, pos, expected).outcome is Ok,
    ensures
        ({
            let scan = content(input, pos, expected);
            let after = if open == 1 {
                1
            } else {
                deepest_nesting(input, pos + scan.consumed, (open - 1) as nat)
            };
            deepest_nesting(input, pos, open) == larger(
                open + deepest(scan.outcome->Ok_0),
                after,
            )
        }),
    decreases remaining(input, pos), 0nat,
{
    lemma_content_cases(input, pos, expected);
    if input[pos as int] == LESS_THAN {
        if input[pos as int + 1] == SLASH {
            lemma_run_until(input, pos as int + 2, GREATER_THAN);
        } else {
            let child = element(input, pos + 1);
            let next = pos + 1 + child.consumed;
            lemma_element_depth(input, pos + 1, open);
            lemma_content_depth(input, next, expected, open);
            lemma_deepest_of_first_and_rest(
                child.outcome->Ok_0,
                content(input, next, expected).outcome->Ok_0,
            );
        }
    } else if input[pos as int] == WHITESPACE {
        let spaces = run_of(input, pos as int, WHITESPACE);
        lemma_run_of(input, pos as int, WHITESPACE);
        lemma_nesting_skips(input, pos, spaces, open);
        lemma_content_depth(input, pos + spaces, expected, open);
        assert(Seq::<NodeView>::empty() + content(
            input,
            pos + spaces,
            expected,
        ).outcome->Ok_0 =~= content(input, pos + spaces, expected).outcome->Ok_0);
    } else {
        let text = text_run(input, pos);
        lemma_run_until_either(input, pos as int, LESS_THAN, GREATER_THAN);
        lemma_nesting_skips(input, pos, text.consumed, open);
        lemma_content_depth(input, pos + text.consumed, expected, open);
        lemma_deepest_of_first_and_rest(
            NodeView::Text { content: decode_utf8(trimmed(text.outcome->Ok_0)) },
            content(input, pos + text.consumed, expected).outcome->Ok_0,
        );
    }
}

proof fn lemma_element_depth(input: Seq<u8>, from: nat, open: nat)
    requires
        from >= 1,
        input[from - 1] == LESS_THAN,
        element(input, from).outcome is Ok,
    ensures
        ({
            let scan = element(input, from);
            let after = if open == 0 {
                1
            } else {
                deepest_nesting(input, from + scan.consumed, open)
            };
            deepest_nesting(input, (from - 1) as nat, open) == larger(
                open + scan.outcome->Ok_0.depth(),
                after,
            )
        }),
    decreases remaining(input, from), 1nat,
{
    let tag = opening_tag(input, from);
    lemma_opening_tag_starts_with_no_slash(input, from);
    let name = tag.outcome->Ok_0.0;
    lemma_content_depth(input, from + tag.consumed, name, open + 1);
}

/// The nesting invariant: the tree of a document is as deep as the elements
/// of the text are nested. Wherever a document is read, the depth of its
/// tree is the greatest number of elements that its tags have open at once.
pub proof fn lemma_tree_is_as_deep_as_the_nesting(input: Seq<u8>, pos: nat)
    requires
        document(input, pos).outcome is Ok,
    ensures
        document(input, pos).outcome->Ok_0.depth() == nesting_depth(input, pos),
{
    lemma_element_depth(input, pos + 1, 0);
}

/// An ASCII letter or digit, as a character.
pub open spec fn is_alphanumeric_char(c: char) -> bool {
    ||| '0' <= c <= '9'
    ||| 'A' <= c <= 'Z'
    ||| 'a' <= c <= 'z'
}

/// `content` is what trimming leaves of the text that stands in `input`
/// between the `>` before `from` and the `<` at `to`, and trimming leaves
/// something of it.
pub open spec fn is_text_between(input: Seq<u8>, from: int, to: int, content: Seq<char>) -> bool {
    &&& 0 < from <= to < input.len()
    &&& input[from - 1] == GREATER_THAN
    &&& input[to] == LESS_THAN
    &&& forall|i: int| from <= i < to ==> input[i] != LESS_THAN && input[i] != GREATER_THAN
    &&& trimmed(input.subrange(from, to)).len() > 0
    &&& content == decode_utf8(trimmed(input.subrange(from, to)))
}

/// `content` is what trimming leaves of some text between two tags of
/// `input`.
pub open spec fn is_text_between_tags(input: Seq<u8>, content: Seq<char>) -> bool {
    exists|from: int, to: int| is_text_between(input, from, to, content)
}

/// The tree holds nothing that `input` does not hold: the name of every
/// element is not empty and made of ASCII letters and digits, and every text
/// is what trimming leaves of a text between two tags of `input`, and is not
/// empty.
pub open spec fn is_faithful(input: Seq<u8>, node: NodeView) -> bool
    decreases node,
{
    match node {
        NodeView::Text { content } => is_text_between_tags(input, content),
        NodeView::Element { tag_name, children, .. } => {
            &&& tag_name.len() > 0
            &&& forall|i: int|
                0 <= i < tag_name.len() ==> is_alphanumeric_char(#[trigger] tag_name[i])
            &&& forall|i: int|
                0 <= i < children.len() ==> is_faithful(input, #[trigger] children[i])
        },
    }
}

proof fn lemma_tag_name_is_alphanumeric(interior: Seq<u8>)
    requires
        tag_name(interior) is Ok,
    ensures
        tag_name(interior)->Ok_0.len() > 0,
        forall|i: int|
            0 <= i < tag_name(interior)->Ok_0.len() ==> is_alphanumeric_char(
                #[trigger] tag_name(interior)->Ok_0[i],
            ),
{
    let name = interior.subrange(0, run_until(interior, 0, WHITESPACE) as int);
    assert forall|i: int| 0 <= i < name.len() implies name[i] < 0x80 by {
        assert(is_alphanumeric(name[i]));
    }
    lemma_decode_ascii(name);
    assert forall|i: int| 0 <= i < decode_utf8(name).len() implies is_alphanumeric_char(
        #[trigger] decode_utf8(name)[i],
    ) by {
        assert(is_alphanumeric(name[i]));
    }
}

proof fn lemma_content_is_faithful(input: Seq<u8>, pos: nat, expected: Seq<char>, from: int)
    requires
        content(input, pos, expected).outcome is Ok,
        pos < input.len() ==> input[pos as int] == LESS_THAN || {
            &&& 0 < from <= pos
            &&& input[from - 1] == GREATER_THAN
            &&& forall|i: int| from <= i < pos ==> input[i] == WHITESPACE
        },
    ensures
        ({
            let scan = content(input, pos, expected);
            let children = scan.outcome->Ok_0;
            &&& scan.consumed > 0
            &&& pos + scan.consumed <= input.len()
            &&& input[pos + scan.consumed - 1] == GREATER_THAN
            &&& forall|i: int|
                0 <= i < children.len() ==> is_faithful(input, #[trigger] children[i])
        }),
    decreases remaining(input, pos), 0nat,
{
    lemma_content_cases(input, pos, expected);
    if input[pos as int] == LESS_THAN {
        if input[pos as int + 1] == SLASH {
            lemma_run_until(input, pos as int + 2, GREATER_THAN);
        } else {
            let child = element(input, pos + 1);
            let next = pos + 1 + child.consumed;
            lemma_element_is_faithful(input, pos + 1);
            lemma_content_is_faithful(input, next, expected, next as int);
        }
    } else if input[pos as int] == WHITESPACE {
        let spaces = run_of(input, pos as int, WHITESPACE);
        lemma_run_of(input, pos as int, WHITESPACE);
        lemma_content_is_faithful(input, pos + spaces, expected, from);
    } else {
        let text = text_run(input, pos);
        let to = pos + text.consumed;
        lemma_run_until_either(input, pos as int, LESS_THAN, GREATER_THAN);
        lemma_content_cases(input, to, expected);
        lemma_content_is_faithful(input, to, expected, from);
        let between = input.subrange(from, to as int);
        lemma_run_of_is(between, 0, (pos - from) as nat, WHITESPACE);
        lemma_trimmed_after_spaces(between, (pos - from) as nat);
        lemma_trimmed_is_not_empty(between, pos - from);
        assert(between.subrange(pos - from, between.len() as int) =~= text.outcome->Ok_0);
        assert(is_text_between(
            input,
            from,
            to as int,
            decode_utf8(trimmed(text.outcome->Ok_0)),
        ));
    }
}

proof fn lemma_element_is_faithful(input: Seq<u8>, from: nat)
    requires
        element(input, from).outcome is Ok,
    ensures
        ({
            let scan = element(input, from);
            &&& scan.consumed > 0
            &&& from + scan.consumed <= input.len()
            &&& input[from + scan.consumed - 1] == GREATER_THAN
            &&& is_faithful(input, scan.outcome->Ok_0)
        }),
    decreases remaining(input, from), 1nat,
{
    let tag = opening_tag(input, from);
    let inside = from + tag.consumed;
    lemma_run_until(input, from as int, GREATER_THAN);
    lemma_tag_name_is_alphanumeric(tag_interior(input, from).outcome->Ok_0);
    lemma_content_is_faithful(input, inside, tag.outcome->Ok_0.0, inside as int);
}

/// Text fidelity, for every text of every tree, and the rule of names: the
/// tree of a document holds nothing that the input does not hold. Every text
/// in it is a text between two tags of the input, with the spaces at its two
/// ends taken away and nothing else changed, and every element name in it is
/// not empty and made of ASCII letters and digits.
pub proof fn lemma_tree_is_faithful(input: Seq<u8>, pos: nat)
    requires
        document(input, pos).outcome is Ok,
    ensures
        is_faithful(input, document(input, pos).outcome->Ok_0),
{
    lemma_element_is_faithful(input, pos + 1);
}

/// The given sections with one space between each two of them.
pub open spec fn joined(parts: Seq<Seq<u8>>) -> Seq<u8>
    decreases parts.len(),
{
    if parts.len() == 0 {
        Seq::empty()
    } else if parts.len() == 1 {
        parts[0]
    } else {
        parts[0] + seq![WHITESPACE] + joined(parts.drop_first())
    }
}

proof fn lemma_sections_from(text: Seq<u8>, from: nat)
    requires
        from <= text.len(),
    ensures
        ({
            let parts = sections_from(text, from);
            &&& parts.len() > 0
            &&& joined(parts) == text.subrange(from as int, text.len() as int)
            &&& forall|i: int, j: int|
                0 <= i < parts.len() && 0 <= j < parts[i].len() ==> #[trigger] parts[i][j]
                    != WHITESPACE
        }),
    decreases text.len() - from,
{
    let parts = sections_from(text, from);
    let length = run_until(text, from as int, WHITESPACE);
    let first = text.subrange(from as int, (from + length) as int);
    lemma_run_until(text, from as int, WHITESPACE);
    assert(parts[0] == first);
    if from + length >= text.len() {
        assert(first =~= text.subrange(from as int, text.len() as int));
    } else {
        let next = (from + length + 1) as nat;
        let rest = sections_from(text, next);
        lemma_sections_from(text, next);
        assert(parts.drop_first() =~= rest);
        assert(first + seq![WHITESPACE] + text.subrange(next as int, text.len() as int)
            =~= text.subrange(from as int, text.len() as int));
        assert forall|i: int, j: int|
            0 <= i < parts.len() && 0 <= j < parts[i].len() implies #[trigger] parts[i][j]
            != WHITESPACE by {
            if i > 0 {
                assert(parts[i] == rest[i - 1]);
            }
        }
    }
}

/// The sections of an attribute string are the string cut at its spaces:
/// no section holds a space, and the sections with one space between each
/// two of them are the string.
pub proof fn lemma_sections_are_cut_at_spaces(text: Seq<u8>)
    ensures
        sections(text).len() > 0,
        joined(sections(text)) == text,
        forall|i: int, j: int|
            0 <= i < sections(text).len() && 0 <= j < sections(text)[i].len()
                ==> #[trigger] sections(text)[i][j] != WHITESPACE,
{
    lemma_sections_from(text, 0);
    assert(text.subrange(0, text.len() as int) =~= text);
}

/// The key that section `i` of `parts` gives, where it gives one.
pub open spec fn key_of(parts: Seq<Seq<u8>>, i: int) -> Seq<char> {
    attribute_section(parts[i])->Ok_0.0
}

/// The value that section `i` of `parts` gives, where it gives one.
pub open spec fn value_of(parts: Seq<Seq<u8>>, i: int) -> Seq<char> {
    attribute_section(parts[i])->Ok_0.1
}

/// Every section of `parts` gives a key and a value.
pub open spec fn all_sections_hold(parts: Seq<Seq<u8>>) -> bool {
    forall|i: int| 0 <= i < parts.len() ==> (#[trigger] attribute_section(parts[i])) is Ok
}

/// Section `i` is the first of `parts` with its key.
pub open spec fn is_first_with_its_key(parts: Seq<Seq<u8>>, i: int) -> bool {
    &&& 0 <= i < parts.len()
    &&& forall|j: int| 0 <= j < i ==> #[trigger] key_of(parts, j) != key_of(parts, i)
}

/// Section `i` is the first of `parts` that gives an error.
pub open spec fn is_first_to_fail(parts: Seq<Seq<u8>>, i: int) -> bool {
    &&& 0 <= i < parts.len()
    &&& attribute_section(parts[i]) is Err
    &&& forall|j: int| 0 <= j < i ==> (#[trigger] attribute_section(parts[j])) is Ok
}

/// Some section of `parts` gives the key `key`.
pub open spec fn some_section_has_key(parts: Seq<Seq<u8>>, key: Seq<char>) -> bool {
    exists|i: int| 0 <= i < parts.len() && #[trigger] key_of(parts, i) == key
}

proof fn lemma_attributes_from(text: Seq<u8>, from: nat, seen: AttributesView)
    ensures
        ({
            let parts = sections_from(text, from);
            let result = attributes_from(text, from, seen);
            &&& parts.len() > 0
            &&& all_sections_hold(parts) ==> {
                &&& result is Ok
                &&& forall|key: Seq<char>|
                    #[trigger] result->Ok_0.contains_key(key) <==> seen.contains_key(key)
                        || some_section_has_key(parts, key)
                &&& forall|key: Seq<char>|
                    seen.contains_key(key) ==> #[trigger] result->Ok_0[key] == seen[key]
                &&& forall|i: int|
                    #[trigger] is_first_with_its_key(parts, i) && !seen.contains_key(
                        key_of(parts, i),
                    ) ==> result->Ok_0[key_of(parts, i)] == value_of(parts, i)
            }
            &&& forall|i: int| #[trigger]
                is_first_to_fail(parts, i) ==> result == Err::<AttributesView, ParserErrorView>(
                    attribute_section(parts[i])->Err_0,
                )
        }),
    decreases text.len() - from,
{
    let parts = sections_from(text, from);
    let result = attributes_from(text, from, seen);
    let length = run_until(text, from as int, WHITESPACE);
    let first = text.subrange(from as int, (from + length) as int);
    assert(parts[0] == first);
    if attribute_section(first) is Err {
        assert forall|i: int| #[trigger] is_first_to_fail(parts, i) implies i == 0 by {
            if i > 0 {
                assert(attribute_section(parts[0]) is Ok);
            }
        }
    } else if from + length >= text.len() {
        let key = key_of(parts, 0);
        assert forall|other: Seq<char>| some_section_has_key(parts, other) implies other
            == key by {
            let i = choose|i: int| 0 <= i < parts.len() && #[trigger] key_of(parts, i) == other;
        }
        assert(some_section_has_key(parts, key)) by {
            assert(key_of(parts, 0) == key);
        }
    } else {
        let (key, value) = attribute_section(first)->Ok_0;
        let known = if seen.contains_key(key) {
            seen
        } else {
            seen.insert(key, value)
        };
        let next = (from + length + 1) as nat;
        let rest = sections_from(text, next);
        lemma_attributes_from(text, next, known);
        assert(parts =~= seq![first] + rest);
        assert forall|i: int| 0 <= i < rest.len() implies rest[i] == parts[i + 1] by {}
        assert(key_of(parts, 0) == key);

        assert forall|i: int| #[trigger] is_first_to_fail(parts, i) implies result == Err::<
            AttributesView,
            ParserErrorView,
        >(attribute_section(parts[i])->Err_0) by {
            assert(i > 0);
            assert(is_first_to_fail(rest, i - 1)) by {
                assert forall|j: int| 0 <= j < i - 1 implies (#[trigger] attribute_section(
                    rest[j],
                )) is Ok by {
                    assert(attribute_section(parts[j + 1]) is Ok);
                }
            }
        }

        if all_sections_hold(parts) {
            assert(all_sections_hold(rest)) by {
                assert forall|i: int| 0 <= i < rest.len() implies (#[trigger] attribute_section(
                    rest[i],
                )) is Ok by {
                    assert(attribute_section(parts[i + 1]) is Ok);
                }
            }
            let found = result->Ok_0;
            assert forall|other: Seq<char>| #[trigger]
                found.contains_key(other) <==> seen.contains_key(other) || some_section_has_key(
                    parts,
                    other,
                ) by {
                if some_section_has_key(rest, other) {
                    let i = choose|i: int|
                        0 <= i < rest.len() && #[trigger] key_of(rest, i) == other;
                    assert(key_of(parts, i + 1) == other);
                }
                if some_section_has_key(parts, other) {
                    let i = choose|i: int|
                        0 <= i < parts.len() && #[trigger] key_of(parts, i) == other;
                    if i > 0 {
                        assert(key_of(rest, i - 1) == other);
                    }
                }
            }
            assert forall|i: int|
                #[trigger] is_first_with_its_key(parts, i) && !seen.contains_key(
                    key_of(parts, i),
                ) implies found[key_of(parts, i)] == value_of(parts, i) by {
                if i > 0 {
                    assert(key_of(parts, 0) != key_of(parts, i));
                    assert(key_of(rest, i - 1) == key_of(parts, i));
                    assert(value_of(rest, i - 1) == value_of(parts, i));
                    assert(is_first_with_its_key(rest, i - 1)) by {
                        assert forall|j: int| 0 <= j < i - 1 implies #[trigger] key_of(rest, j)
                            != key_of(rest, i - 1) by {
                            assert(key_of(parts, j + 1) != key_of(parts, i));
                        }
                    }
                }
            }
        }
    }
}

/// First occurrence wins: where every section of an attribute string gives
/// a key and a value, the attributes have exactly the keys of the sections,
/// and each key has the value of the first section that gives it.
pub proof fn lemma_first_occurrence_wins(text: Seq<u8>)
    requires
        all_sections_hold(sections(text)),
    ensures
        attributes(text) is Ok,
        forall|key: Seq<char>|
            #[trigger] attributes(text)->Ok_0.contains_key(key) <==> some_section_has_key(
                sections(text),
                key,
            ),
        forall|i: int| #[trigger]
            is_first_with_its_key(sections(text), i) ==> attributes(text)->Ok_0[key_of(
                sections(text),
                i,
            )] == value_of(sections(text), i),
{
    lemma_attributes_from(text, 0, Map::empty());
}

/// The first section of an attribute string that gives an error gives the
/// error of the whole, and without such a section there is none.
pub proof fn lemma_first_failing_section_fails(text: Seq<u8>)
    ensures
        attributes(text) is Err <==> !all_sections_hold(sections(text)),
        forall|i: int| #[trigger]
            is_first_to_fail(sections(text), i) ==> attributes(text) == Err::<
                AttributesView,
                ParserErrorView,
            >(attribute_section(sections(text)[i])->Err_0),
{
    lemma_attributes_from(text, 0, Map::empty());
    let parts = sections(text);
    if !all_sections_hold(parts) {
        lemma_some_section_is_first_to_fail(parts, parts.len() as int);
        let i = choose|i: int| is_first_to_fail(parts, i);
        assert(is_first_to_fail(parts, i));
    }
}

proof fn lemma_some_section_is_first_to_fail(parts: Seq<Seq<u8>>, below: int)
    requires
        0 <= below <= parts.len(),
        exists|i: int| 0 <= i < below && (#[trigger] attribute_section(parts[i])) is Err,
    ensures
        exists|i: int| is_first_to_fail(parts, i),
    decreases below,
{
    let i = choose|i: int| 0 <= i < below && (#[trigger] attribute_section(parts[i])) is Err;
    if exists|j: int| 0 <= j < i && (#[trigger] attribute_section(parts[j])) is Err {
        lemma_some_section_is_first_to_fail(parts, i);
    } else {
        assert(is_first_to_fail(parts, i));
    }
}

} // verus!
