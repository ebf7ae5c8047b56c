//! Byte-level vocabulary of the markup language, and string slicing that
//! respects UTF-8 character boundaries.

use vstd::prelude::*;
use vstd::string::*;
use vstd::utf8::*;

verus! {

/// `>`, which ends a tag.
pub const GREATER_THAN: u8 = 0x3E;

/// `<`, which starts a tag.
pub const LESS_THAN: u8 = 0x3C;

/// The ASCII space, the one byte that counts as white space. Tabs and line
/// breaks are content.
pub const WHITESPACE: u8 = 0x20;

/// `/`, which marks a closing tag.
pub const SLASH: u8 = 0x2F;

/// `"`, which stands on both sides of an attribute value.
pub const QUOTE: u8 = 0x22;

/// `=`, which stands between an attribute's key and its value.
pub const EQUALS: u8 = 0x3D;

/// Number of bytes of `s`, counted from index `from`, that come before the
/// first byte equal to `stop`; all the remaining bytes if there is none.
pub open spec fn run_until(s: Seq<u8>, from: int, stop: u8) -> nat
    decreases s.len() - from,
{
    if 0 <= from < s.len() && s[from] != stop {
        1 + run_until(s, from + 1, stop)
    } else {
        0
    }
}

/// Number of consecutive bytes of `s`, counted from index `from`, that are
/// equal to `byte`.
pub open spec fn run_of(s: Seq<u8>, from: int, byte: u8) -> nat
    decreases s.len() - from,
{
    if 0 <= from < s.len() && s[from] == byte {
        1 + run_of(s, from + 1, byte)
    } else {
        0
    }
}

/// Number of bytes of `s`, counted from index `from`, that come before the
/// first byte equal to `stop` or to `other`; all the remaining bytes if
/// there is none.
pub open spec fn run_until_either(s: Seq<u8>, from: int, stop: u8, other: u8) -> nat
    decreases s.len() - from,
{
    if 0 <= from < s.len() && s[from] != stop && s[from] != other {
        1 + run_until_either(s, from + 1, stop, other)
    } else {
        0
    }
}

/// `run_until` stays within the text, no byte of the run is `stop`, and the
/// run ends at a `stop` byte unless it ends with the text.
pub proof fn lemma_run_until(s: Seq<u8>, from: int, stop: u8)
    requires
        0 <= from <= s.len(),
    ensures
        from + run_until(s, from, stop) <= s.len(),
        forall|i: int| from <= i < from + run_until(s, from, stop) ==> s[i] != stop,
        from + run_until(s, from, stop) < s.len() ==> s[from + run_until(s, from, stop)] == stop,
    decreases s.len() - from,
{
    if from < s.len() && s[from] != stop {
        lemma_run_until(s, from + 1, stop);
    }
}

/// `run_of` stays within the text, every byte of the run is `byte`, and the
/// byte after the run, if there is one, is another.
pub proof fn lemma_run_of(s: Seq<u8>, from: int, byte: u8)
    requires
        0 <= from <= s.len(),
    ensures
        from + run_of(s, from, byte) <= s.len(),
        forall|i: int| from <= i < from + run_of(s, from, byte) ==> s[i] == byte,
        from + run_of(s, from, byte) < s.len() ==> s[from + run_of(s, from, byte)] != byte,
    decreases s.len() - from,
{
    if from < s.len() && s[from] == byte {
        lemma_run_of(s, from + 1, byte);
    }
}

/// `run_until_either` stays within the text, no byte of the run is one of
/// the two, and the run ends at one of them unless it ends with the text.
pub proof fn lemma_run_until_either(s: Seq<u8>, from: int, stop: u8, other: u8)
    requires
        0 <= from <= s.len(),
    ensures
        from + run_until_either(s, from, stop, other) <= s.len(),
        forall|i: int|
            from <= i < from + run_until_either(s, from, stop, other) ==> s[i] != stop && s[i]
                != other,
        from + run_until_either(s, from, stop, other) < s.len() ==> {
            let end = s[from + run_until_either(s, from, stop, other)];
            end == stop || end == other
        },
    decreases s.len() - from,
{
    if from < s.len() && s[from] != stop && s[from] != other {
        lemma_run_until_either(s, from + 1, stop, other);
    }
}

/// A run that holds no `stop` and ends at a `stop`, or with the text, is the
/// run that `run_until` measures.
pub proof fn lemma_run_until_is(s: Seq<u8>, from: int, length: nat, stop: u8)
    requires
        0 <= from,
        from + length <= s.len(),
        forall|i: int| from <= i < from + length ==> s[i] != stop,
        from + length < s.len() ==> s[from + length] == stop,
    ensures
        run_until(s, from, stop) == length,
    decreases length,
{
    if length > 0 {
        lemma_run_until_is(s, from + 1, (length - 1) as nat, stop);
    }
}

/// A run that holds neither of two bytes and ends at one of them, or with
/// the text, is the run that `run_until_either` measures.
pub proof fn lemma_run_until_either_is(s: Seq<u8>, from: int, length: nat, stop: u8, other: u8)
    requires
        0 <= from,
        from + length <= s.len(),
        forall|i: int| from <= i < from + length ==> s[i] != stop && s[i] != other,
        from + length < s.len() ==> s[from + length] == stop || s[from + length] == other,
    ensures
        run_until_either(s, from, stop, other) == length,
    decreases length,
{
    if length > 0 {
        lemma_run_until_either_is(s, from + 1, (length - 1) as nat, stop, other);
    }
}

/// A run of `byte` that ends at another byte, or with the text, is the run
/// that `run_of` measures.
pub proof fn lemma_run_of_is(s: Seq<u8>, from: int, length: nat, byte: u8)
    requires
        0 <= from,
        from + length <= s.len(),
        forall|i: int| from <= i < from + length ==> s[i] == byte,
        from + length < s.len() ==> s[from + length] != byte,
    ensures
        run_of(s, from, byte) == length,
    decreases length,
{
    if length > 0 {
        lemma_run_of_is(s, from + 1, (length - 1) as nat, byte);
    }
}

/// Number of consecutive bytes at the end of `s` that are equal to `byte`.
pub open spec fn trailing_run_of(s: Seq<u8>, byte: u8) -> nat
    decreases s.len(),
{
    if s.len() > 0 && s.last() == byte {
        1 + trailing_run_of(s.drop_last(), byte)
    } else {
        0
    }
}

/// `trailing_run_of` is no longer than the text.
pub proof fn lemma_trailing_run_of(s: Seq<u8>, byte: u8)
    ensures
        trailing_run_of(s, byte) <= s.len(),
        forall|i: int| s.len() - trailing_run_of(s, byte) <= i < s.len() ==> s[i] == byte,
        trailing_run_of(s, byte) < s.len() ==> s[s.len() - trailing_run_of(s, byte) - 1] != byte,
    decreases s.len(),
{
    if s.len() > 0 && s.last() == byte {
        let front = s.drop_last();
        lemma_trailing_run_of(front, byte);
        assert forall|i: int| s.len() - trailing_run_of(s, byte) <= i < s.len() implies s[i]
            == byte by {
            if i < front.len() {
                assert(s[i] == front[i]);
            }
        }
        if trailing_run_of(s, byte) < s.len() {
            assert(s[s.len() - trailing_run_of(s, byte) - 1] == front[front.len()
                - trailing_run_of(front, byte) - 1]);
        }
    }
}

/// `s` without the ASCII spaces at its start and at its end. Every other
/// byte, tabs and line breaks included, stays as it is.
pub open spec fn trimmed(s: Seq<u8>) -> Seq<u8> {
    let rest = s.subrange(run_of(s, 0, WHITESPACE) as int, s.len() as int);
    rest.subrange(0, rest.len() - trailing_run_of(rest, WHITESPACE))
}

/// Trimming takes away spaces at the two ends and nothing else: what is left
/// stands in the text as it was, with only spaces before and after it, and
/// neither starts nor ends with a space.
pub proof fn lemma_trimmed(s: Seq<u8>)
    ensures
        ({
            let lead = run_of(s, 0, WHITESPACE) as int;
            let kept = trimmed(s);
            &&& lead + kept.len() <= s.len()
            &&& kept == s.subrange(lead, lead + kept.len())
            &&& forall|i: int| 0 <= i < lead ==> s[i] == WHITESPACE
            &&& forall|i: int| lead + kept.len() <= i < s.len() ==> s[i] == WHITESPACE
            &&& kept.len() > 0 ==> kept[0] != WHITESPACE && kept[kept.len() - 1] != WHITESPACE
        }),
{
    let lead = run_of(s, 0, WHITESPACE) as int;
    lemma_run_of(s, 0, WHITESPACE);
    let rest = s.subrange(lead, s.len() as int);
    lemma_trailing_run_of(rest, WHITESPACE);
    let kept = trimmed(s);
    assert(kept =~= s.subrange(lead, lead + kept.len()));
    assert forall|i: int| lead + kept.len() <= i < s.len() implies s[i] == WHITESPACE by {
        assert(s[i] == rest[i - lead]);
    }
    if kept.len() > 0 {
        assert(kept[0] == s[lead]);
        assert(kept[kept.len() - 1] == rest[rest.len() - trailing_run_of(rest, WHITESPACE) - 1]);
    }
}

/// Trimming leaves something of every text that holds a byte other than a
/// space.
pub proof fn lemma_trimmed_is_not_empty(s: Seq<u8>, i: int)
    requires
        0 <= i < s.len(),
        s[i] != WHITESPACE,
    ensures
        trimmed(s).len() > 0,
{
    lemma_trimmed(s);
}

/// Spaces at the start of a text do not change what trimming leaves of it.
pub proof fn lemma_trimmed_after_spaces(s: Seq<u8>, spaces: nat)
    requires
        spaces <= run_of(s, 0, WHITESPACE),
    ensures
        spaces <= s.len(),
        trimmed(s.subrange(spaces as int, s.len() as int)) == trimmed(s),
{
    let lead = run_of(s, 0, WHITESPACE);
    lemma_run_of(s, 0, WHITESPACE);
    let tail = s.subrange(spaces as int, s.len() as int);
    lemma_run_of_is(tail, 0, (lead - spaces) as nat, WHITESPACE);
    assert(tail.subrange(lead - spaces, tail.len() as int) =~= s.subrange(
        lead as int,
        s.len() as int,
    ));
}

/// Index of the first byte equal to `stop` at or after `from`, or the length
/// of `s` if there is none.
pub(crate) fn find_byte(s: &str, from: usize, stop: u8) -> (end: usize)
    requires
        from <= s.spec_bytes().len(),
    ensures
        end == from + run_until(s.spec_bytes(), from as int, stop),
        end <= s.spec_bytes().len(),
{
    let bytes = s.as_bytes();
    let mut end: usize = from;
    while end < bytes.len() && bytes[end] != stop
        invariant
            from <= end <= bytes.len(),
            run_until(bytes@, from as int, stop) == (end - from) + run_until(
                bytes@,
                end as int,
                stop,
            ),
        decreases bytes.len() - end,
    {
        end += 1;
    }
    end
}

/// Index of the first byte equal to `stop` or to `other` at or after `from`,
/// or the length of `s` if there is none.
pub(crate) fn find_either(s: &str, from: usize, stop: u8, other: u8) -> (end: usize)
    requires
        from <= s.spec_bytes().len(),
    ensures
        end == from + run_until_either(s.spec_bytes(), from as int, stop, other),
        end <= s.spec_bytes().len(),
{
    let bytes = s.as_bytes();
    let mut end: usize = from;
    while end < bytes.len() && bytes[end] != stop && bytes[end] != other
        invariant
            from <= end <= bytes.len(),
            run_until_either(bytes@, from as int, stop, other) == (end - from) + run_until_either(
                bytes@,
                end as int,
                stop,
                other,
            ),
        decreases bytes.len() - end,
    {
        end += 1;
    }
    end
}

/// Index of the first byte different from `byte` at or after `from`, or the
/// length of `s` if there is none.
pub(crate) fn skip_byte(s: &str, from: usize, byte: u8) -> (end: usize)
    requires
        from <= s.spec_bytes().len(),
    ensures
        end == from + run_of(s.spec_bytes(), from as int, byte),
        end <= s.spec_bytes().len(),
{
    let bytes = s.as_bytes();
    let mut end: usize = from;
    while end < bytes.len() && bytes[end] == byte
        invariant
            from <= end <= bytes.len(),
            run_of(bytes@, from as int, byte) == (end - from) + run_of(bytes@, end as int, byte),
        decreases bytes.len() - end,
    {
        end += 1;
    }
    end
}

/// Length in bytes of the UTF-8 character whose first byte is `lead`.
pub open spec fn char_width(lead: u8) -> int {
    if lead < 0x80 {
        1
    } else if lead < 0xE0 {
        2
    } else if lead < 0xF0 {
        3
    } else {
        4
    }
}

/// In valid UTF-8 an ASCII byte is a character of its own, so a character
/// starts at it.
pub proof fn lemma_ascii_is_boundary(bytes: Seq<u8>, i: int)
    requires
        valid_utf8(bytes),
        0 <= i < bytes.len(),
        bytes[i] < 0x80,
    ensures
        is_char_boundary(bytes, i),
{
    is_char_boundary_iff_not_is_continuation_byte(bytes, i);
}

/// In valid UTF-8 a character starts after each ASCII byte, or the text ends
/// there.
pub proof fn lemma_boundary_after_ascii(bytes: Seq<u8>, i: int)
    requires
        valid_utf8(bytes),
        0 < i <= bytes.len(),
        bytes[i - 1] < 0x80,
    ensures
        is_char_boundary(bytes, i),
{
    lemma_ascii_is_boundary(bytes, i - 1);
    lemma_next_boundary(bytes, i - 1);
}

/// The character that starts at a boundary ends within the text, at the
/// next boundary.
pub proof fn lemma_next_boundary(bytes: Seq<u8>, i: int)
    requires
        valid_utf8(bytes),
        0 <= i < bytes.len(),
        is_char_boundary(bytes, i),
    ensures
        i + char_width(bytes[i]) <= bytes.len(),
        is_char_boundary(bytes, i + char_width(bytes[i])),
    decreases bytes.len(),
{
    reveal_with_fuel(is_char_boundary, 2);
    let first = length_of_first_scalar(bytes);
    let rest = pop_first_scalar(bytes);
    if i == 0 {
        assert(first == char_width(bytes[0]));
    } else {
        assert(is_char_boundary(rest, i - first));
        assert(rest[i - first] == bytes[i]);
        lemma_next_boundary(rest, i - first);
    }
}

/// A boundary of a text is also a boundary of each prefix that ends at a
/// later boundary.
pub proof fn lemma_boundary_in_prefix(bytes: Seq<u8>, from: int, to: int)
    requires
        valid_utf8(bytes),
        0 <= from <= to <= bytes.len(),
        is_char_boundary(bytes, from),
        is_char_boundary(bytes, to),
    ensures
        valid_utf8(bytes.subrange(0, to)),
        is_char_boundary(bytes.subrange(0, to), from),
{
    let head = bytes.subrange(0, to);
    valid_utf8_split(bytes, to);
    if from == to {
        is_char_boundary_start_end_of_seq(head);
    } else {
        is_char_boundary_iff_not_is_continuation_byte(bytes, from);
        assert(head[from] == bytes[from]);
        is_char_boundary_iff_not_is_continuation_byte(head, from);
    }
}

/// ASCII bytes are the text whose characters have the bytes' values.
pub proof fn lemma_decode_ascii(bytes: Seq<u8>)
    requires
        forall|i: int| 0 <= i < bytes.len() ==> bytes[i] < 0x80,
    ensures
        decode_utf8(bytes).len() == bytes.len(),
        forall|i: int| 0 <= i < bytes.len() ==> decode_utf8(bytes)[i] == bytes[i] as char,
{
    let chars = Seq::new(bytes.len(), |i: int| bytes[i] as char);
    assert(is_ascii_chars(chars));
    is_ascii_chars_encode_utf8(chars);
    assert(encode_utf8(chars) =~= bytes);
    encode_utf8_decode_utf8(chars);
}

/// The bytes `from..to` of `s` as a string slice. Both ends must fall on
/// character boundaries.
pub(crate) fn slice_str<'a>(s: &'a str, from: usize, to: usize) -> (piece: &'a str)
    requires
        from <= to <= s.spec_bytes().len(),
        is_char_boundary(s.spec_bytes(), from as int),
        is_char_boundary(s.spec_bytes(), to as int),
    ensures
        piece.spec_bytes() == s.spec_bytes().subrange(from as int, to as int),
        piece@ == decode_utf8(s.spec_bytes().subrange(from as int, to as int)),
{
    proof {
        encode_utf8_valid_utf8(s@);
        lemma_boundary_in_prefix(s.spec_bytes(), from as int, to as int);
    }
    let (head, _) = s.split_at(to);
    let (_, piece) = head.split_at(from);
    proof {
        assert(piece.spec_bytes() =~= s.spec_bytes().subrange(from as int, to as int));
        encode_utf8_decode_utf8(piece@);
    }
    piece
}

/// The character of `s` that starts at byte `at`, as a string slice.
pub(crate) fn char_at<'a>(s: &'a str, at: usize) -> (piece: &'a str)
    requires
        at < s.spec_bytes().len(),
        is_char_boundary(s.spec_bytes(), at as int),
    ensures
        piece.spec_bytes() == s.spec_bytes().subrange(
            at as int,
            at + char_width(s.spec_bytes()[at as int]),
        ),
        piece@ == decode_utf8(
            s.spec_bytes().subrange(at as int, at + char_width(s.spec_bytes()[at as int])),
        ),
{
    proof {
        encode_utf8_valid_utf8(s@);
        lemma_next_boundary(s.spec_bytes(), at as int);
    }
    let lead: u8 = s.as_bytes()[at];
    let width: usize = if lead < 0x80 {
        1
    } else if lead < 0xE0 {
        2
    } else if lead < 0xF0 {
        3
    } else {
        4
    };
    slice_str(s, at, at + width)
}

/// `s` without the ASCII spaces at its start and at its end.
pub fn trim_spaces<'a>(s: &'a str) -> (piece: &'a str)
    ensures
        piece.spec_bytes() == trimmed(s.spec_bytes()),
        piece@ == decode_utf8(trimmed(s.spec_bytes())),
{
    let bytes = s.as_bytes();
    let start: usize = skip_byte(s, 0, WHITESPACE);
    let mut end: usize = bytes.len();
    let ghost rest = bytes@.subrange(start as int, bytes.len() as int);
    while end > start && bytes[end - 1] == WHITESPACE
        invariant
            start <= end <= bytes.len(),
            rest == bytes@.subrange(start as int, bytes.len() as int),
            forall|j: int| end <= j < bytes.len() ==> bytes@[j] == WHITESPACE,
            trailing_run_of(rest, WHITESPACE) == (bytes.len() - end) + trailing_run_of(
                bytes@.subrange(start as int, end as int),
                WHITESPACE,
            ),
        decreases end,
    {
        assert(bytes@.subrange(start as int, end as int).drop_last() =~= bytes@.subrange(
            start as int,
            end - 1,
        ));
        end -= 1;
    }
    proof {
        encode_utf8_valid_utf8(s@);
        lemma_run_of(bytes@, 0, WHITESPACE);
        if start > 0 {
            lemma_boundary_after_ascii(bytes@, start as int);
        }
        if end < bytes.len() {
            lemma_ascii_is_boundary(bytes@, end as int);
        } else {
            is_char_boundary_start_end_of_seq(bytes@);
        }
        assert(trimmed(bytes@) =~= bytes@.subrange(start as int, end as int));
    }
    slice_str(s, start, end)
}

/// Whether two string slices hold the same text.
pub fn str_eq(a: &str, b: &str) -> (same: bool)
    ensures
        same == (a@ == b@),
{
    let left = a.as_bytes();
    let right = b.as_bytes();
    proof {
        encode_utf8_decode_utf8(a@);
        encode_utf8_decode_utf8(b@);
    }
    if left.len() != right.len() {
        return false;
    }
    let mut i: usize = 0;
    while i < left.len()
        invariant
            i <= left.len(),
            left.len() == right.len(),
            left@ == a.spec_bytes(),
            right@ == b.spec_bytes(),
            forall|j: int| 0 <= j < i ==> left@[j] == right@[j],
        decreases left.len() - i,
    {
        if left[i] != right[i] {
            return false;
        }
        i += 1;
    }
    assert(left@ =~= right@);
    true
}

/// The character that writes the decimal digit `d`.
pub open spec fn digit_char(d: nat) -> char {
    if d == 0 {
        '0'
    } else if d == 1 {
        '1'
    } else if d == 2 {
        '2'
    } else if d == 3 {
        '3'
    } else if d == 4 {
        '4'
    } else if d == 5 {
        '5'
    } else if d == 6 {
        '6'
    } else if d == 7 {
        '7'
    } else if d == 8 {
        '8'
    } else {
        '9'
    }
}

/// The decimal numeral of `n`: no sign, no leading zero but for `0` itself.
pub open spec fn decimal(n: nat) -> Seq<char>
    decreases n,
{
    if n < 10 {
        seq![digit_char(n)]
    } else {
        decimal(n / 10) + seq![digit_char(n % 10)]
    }
}

/// The decimal digit `d` as a string.
fn digit_str(d: usize) -> (s: &'static str)
    requires
        d < 10,
    ensures
        s@ == seq![digit_char(d as nat)],
{
    proof {
        reveal_strlit("0");
        reveal_strlit("1");
        reveal_strlit("2");
        reveal_strlit("3");
        reveal_strlit("4");
        reveal_strlit("5");
        reveal_strlit("6");
        reveal_strlit("7");
        reveal_strlit("8");
        reveal_strlit("9");
    }
    let s = if d == 0 {
        "0"
    } else if d == 1 {
        "1"
    } else if d == 2 {
        "2"
    } else if d == 3 {
        "3"
    } else if d == 4 {
        "4"
    } else if d == 5 {
        "5"
    } else if d == 6 {
        "6"
    } else if d == 7 {
        "7"
    } else if d == 8 {
        "8"
    } else {
        "9"
    };
    assert(s@ =~= seq![digit_char(d as nat)]);
    s
}

/// The decimal numeral of `n` as a string.
pub fn decimal_string(n: usize) -> (s: String)
    ensures
        s@ == decimal(n as nat),
{
    let mut s = String::from_str(digit_str(n % 10));
    let mut rest: usize = n / 10;
    while rest > 0
        invariant
            rest > 0 ==> decimal(n as nat) == decimal(rest as nat) + s@,
            rest == 0 ==> decimal(n as nat) == s@,
        decreases rest,
    {
        let digit = String::from_str(digit_str(rest % 10));
        proof {
            if rest >= 10 {
                assert(decimal(rest as nat) + s@ =~= decimal((rest / 10) as nat) + (digit@ + s@));
            }
        }
        s = digit.concat(s.as_str());
        rest = rest / 10;
    }
    s
}

} // verus!
