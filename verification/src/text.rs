//! Text, seen as characters and as the bytes of its UTF-8 encoding.
//!
//! Specifications speak of characters (`Seq<char>`). A place in a text is a
//! byte offset, as everywhere in the library; [`offset`] and [`slice_chars`]
//! connect the two.

use std::ops::Range;
use vstd::prelude::*;
use vstd::string::*;
use vstd::utf8::*;

verus! {

/// The number of bytes of the UTF-8 encoding of `text`.
pub open spec fn byte_len(text: Seq<char>) -> nat {
    encode_utf8(text).len()
}

/// The byte offset at which the character with index `index` starts.
pub open spec fn offset(text: Seq<char>, index: int) -> nat {
    byte_len(text.take(index))
}

/// Whether a byte offset lies between two characters of `text`, or at one of
/// its ends.
pub open spec fn is_boundary(text: Seq<char>, at: int) -> bool {
    0 <= at <= byte_len(text) && is_char_boundary(encode_utf8(text), at)
}

/// The characters between two byte offsets of `text`, if the offsets are in
/// order and both are boundaries.
pub open spec fn slice_chars(text: Seq<char>, start: int, end: int) -> Option<Seq<char>> {
    if start <= end && is_boundary(text, start) && is_boundary(text, end) {
        Some(decode_utf8(encode_utf8(text).subrange(start, end)))
    } else {
        None
    }
}

/// The `White_Space` property of Unicode.
pub open spec fn white_space(c: char) -> bool {
    ||| '\u{9}' <= c <= '\u{d}'
    ||| c == '\u{20}'
    ||| c == '\u{85}'
    ||| c == '\u{a0}'
    ||| c == '\u{1680}'
    ||| '\u{2000}' <= c <= '\u{200a}'
    ||| c == '\u{2028}'
    ||| c == '\u{2029}'
    ||| c == '\u{202f}'
    ||| c == '\u{205f}'
    ||| c == '\u{3000}'
}

/// `char::is_whitespace` of the standard library: whether the character has
/// the Unicode property `White_Space`.
pub assume_specification[ char::is_whitespace ](c: char) -> (b: bool)
    ensures
        b == white_space(c),
;

/// `String::push` of the standard library: appends one character.
pub assume_specification[ String::push ](string: &mut String, c: char)
    ensures
        final(string)@ == old(string)@.push(c),
;

/// An optional string as characters.
pub open spec fn optional_text(text: Option<String>) -> Option<Seq<char>> {
    match text {
        Some(string) => Some(string@),
        None => None,
    }
}

/// How many characters of `text` are not white space.
pub open spec fn ink(text: Seq<char>) -> nat
    decreases text.len(),
{
    if text.len() == 0 {
        0
    } else {
        ink(text.drop_last()) + if white_space(text.last()) { 0nat } else { 1nat }
    }
}

/// How many characters between two byte offsets are not white space; none
/// where the offsets do not delimit a slice.
pub open spec fn ink_between(text: Seq<char>, start: int, end: int) -> nat {
    match slice_chars(text, start, end) {
        Some(slice) => ink(slice),
        None => 0,
    }
}

/// `text` without the white space at its start.
pub open spec fn trim_start_of(text: Seq<char>) -> Seq<char>
    decreases text.len(),
{
    if text.len() > 0 && white_space(text.first()) {
        trim_start_of(text.drop_first())
    } else {
        text
    }
}

/// `text` without the white space at its end.
pub open spec fn trim_end_of(text: Seq<char>) -> Seq<char>
    decreases text.len(),
{
    if text.len() > 0 && white_space(text.last()) {
        trim_end_of(text.drop_last())
    } else {
        text
    }
}

/// `text` without the white space at both ends.
pub open spec fn trim_of(text: Seq<char>) -> Seq<char> {
    trim_end_of(trim_start_of(text))
}

/// `text` without the occurrences of `c` at its end.
pub open spec fn trim_end_char_of(text: Seq<char>, c: char) -> Seq<char>
    decreases text.len(),
{
    if text.len() > 0 && text.last() == c {
        trim_end_char_of(text.drop_last(), c)
    } else {
        text
    }
}

/// What stands before the first line feed of `text`.
pub open spec fn first_line_of(text: Seq<char>) -> Seq<char>
    decreases text.len(),
{
    if text.len() == 0 || text.first() == '\n' {
        Seq::empty()
    } else {
        seq![text.first()] + first_line_of(text.drop_first())
    }
}

// ---------------------------------------------------------------------------
// Lemmas on characters and bytes
// ---------------------------------------------------------------------------

pub proof fn lemma_encode_concat(a: Seq<char>, b: Seq<char>)
    ensures
        encode_utf8(a + b) == encode_utf8(a) + encode_utf8(b),
        byte_len(a + b) == byte_len(a) + byte_len(b),
    decreases a.len(),
{
    if a.len() == 0 {
        assert(a + b =~= b);
        assert(encode_utf8(a) + encode_utf8(b) =~= encode_utf8(b));
    } else {
        assert((a + b).drop_first() =~= a.drop_first() + b);
        lemma_encode_concat(a.drop_first(), b);
        assert(encode_utf8(a + b) =~= encode_utf8(a) + encode_utf8(b));
    }
}

pub proof fn lemma_encode_one(c: char)
    ensures
        encode_utf8(seq![c]) == encode_scalar(c as u32),
        1 <= byte_len(seq![c]) <= 4,
{
    reveal_with_fuel(encode_utf8, 2);
    assert(seq![c].drop_first() =~= Seq::<char>::empty());
    assert(encode_scalar(c as u32) + Seq::<u8>::empty() =~= encode_scalar(c as u32));
}

pub proof fn lemma_byte_len_bounds(text: Seq<char>)
    ensures
        text.len() <= byte_len(text),
    decreases text.len(),
{
    if text.len() > 0 {
        lemma_byte_len_bounds(text.drop_first());
        lemma_encode_one(text[0]);
    }
}

/// A prefix of the characters encodes to a prefix of the bytes, and what is
/// between two prefixes to what is between their ends.
pub proof fn lemma_offsets(text: Seq<char>, i: int, j: int)
    requires
        0 <= i <= j <= text.len(),
    ensures
        offset(text, i) + byte_len(text.subrange(i, j)) == offset(text, j),
        offset(text, j) <= byte_len(text),
        i < j ==> offset(text, i) < offset(text, j),
        is_boundary(text, offset(text, i) as int),
        is_boundary(text, offset(text, j) as int),
        encode_utf8(text).subrange(offset(text, i) as int, offset(text, j) as int) == encode_utf8(
            text.subrange(i, j),
        ),
        slice_chars(text, offset(text, i) as int, offset(text, j) as int) == Some(
            text.subrange(i, j),
        ),
{
    let head = text.take(i);
    let middle = text.subrange(i, j);
    let tail = text.skip(j);
    assert(text =~= head + middle + tail);
    assert(text.take(j) =~= head + middle);
    lemma_encode_concat(head, middle);
    lemma_encode_concat(head + middle, tail);
    lemma_byte_len_bounds(middle);
    lemma_boundary_at(text, i);
    lemma_boundary_at(text, j);
    assert(encode_utf8(text).subrange(offset(text, i) as int, offset(text, j) as int)
        =~= encode_utf8(middle));
    encode_utf8_decode_utf8(middle);
}

pub proof fn lemma_boundary_at(text: Seq<char>, i: int)
    requires
        0 <= i <= text.len(),
    ensures
        is_char_boundary(encode_utf8(text), offset(text, i) as int),
        offset(text, i) <= byte_len(text),
    decreases i,
{
    let bytes = encode_utf8(text);
    encode_utf8_valid_utf8(text);
    assert(text =~= text.take(i) + text.skip(i));
    lemma_encode_concat(text.take(i), text.skip(i));
    if i == 0 {
        assert(text.take(0) =~= Seq::empty());
    } else {
        let rest = text.drop_first();
        encode_utf8_first_scalar(text);
        assert(pop_first_scalar(bytes) =~= encode_utf8(rest));
        lemma_boundary_at(rest, i - 1);
        assert(text.take(i) =~= seq![text[0]] + rest.take(i - 1));
        lemma_encode_concat(seq![text[0]], rest.take(i - 1));
        lemma_encode_one(text[0]);
        assert(offset(text, i) == length_of_first_scalar(bytes) + offset(rest, i - 1));
    }
}

/// The index of the character that starts at a boundary.
pub open spec fn char_index(text: Seq<char>, at: int) -> int {
    choose|index: int| 0 <= index <= text.len() && #[trigger] offset(text, index) == at
}

pub proof fn lemma_char_index(text: Seq<char>, at: int)
    requires
        is_boundary(text, at),
    ensures
        0 <= char_index(text, at) <= text.len(),
        offset(text, char_index(text, at)) == at,
{
    lemma_boundary_has_index(text, at);
}

proof fn lemma_boundary_has_index(text: Seq<char>, at: int)
    requires
        is_boundary(text, at),
    ensures
        exists|index: int| 0 <= index <= text.len() && #[trigger] offset(text, index) == at,
    decreases text.len(),
{
    let bytes = encode_utf8(text);
    encode_utf8_valid_utf8(text);
    if at == 0 {
        assert(text.take(0) =~= Seq::empty());
        assert(offset(text, 0) == 0);
    } else {
        let rest = text.drop_first();
        encode_utf8_first_scalar(text);
        assert(pop_first_scalar(bytes) =~= encode_utf8(rest));
        let width = length_of_first_scalar(bytes);
        encode_utf8_valid_utf8(rest);
        assert(is_char_boundary(encode_utf8(rest), at - width));
        assert(0 <= at - width);
        lemma_boundary_has_index(rest, at - width);
        let index = choose|index: int|
            0 <= index <= rest.len() && #[trigger] offset(rest, index) == at - width;
        assert(text.take(index + 1) =~= seq![text[0]] + rest.take(index));
        lemma_encode_concat(seq![text[0]], rest.take(index));
        lemma_encode_one(text[0]);
        assert(offset(text, index + 1) == at);
    }
}

/// Two boundaries delimit the characters between their indices.
pub proof fn lemma_slice_indices(text: Seq<char>, start: int, end: int)
    requires
        start <= end,
        is_boundary(text, start),
        is_boundary(text, end),
    ensures
        0 <= char_index(text, start) <= char_index(text, end) <= text.len(),
        offset(text, char_index(text, start)) == start,
        offset(text, char_index(text, end)) == end,
        slice_chars(text, start, end) == Some(
            text.subrange(char_index(text, start), char_index(text, end)),
        ),
        byte_len(slice_chars(text, start, end).unwrap()) == end - start,
{
    lemma_char_index(text, start);
    lemma_char_index(text, end);
    let i = char_index(text, start);
    let j = char_index(text, end);
    if i > j {
        lemma_offsets(text, j, i);
    }
    lemma_offsets(text, i, j);
}

pub proof fn lemma_ink_concat(a: Seq<char>, b: Seq<char>)
    ensures
        ink(a + b) == ink(a) + ink(b),
    decreases b.len(),
{
    if b.len() == 0 {
        assert(a + b =~= a);
    } else {
        assert((a + b).drop_last() =~= a + b.drop_last());
        lemma_ink_concat(a, b.drop_last());
    }
}

pub proof fn lemma_ink_push(a: Seq<char>, c: char)
    ensures
        ink(a.push(c)) == ink(a) + if white_space(c) { 0nat } else { 1nat },
{
    assert(a.push(c).drop_last() =~= a);
}

pub proof fn lemma_ink_bound(text: Seq<char>)
    ensures
        ink(text) <= text.len(),
    decreases text.len(),
{
    if text.len() > 0 {
        lemma_ink_bound(text.drop_last());
    }
}

pub proof fn lemma_trim_start_skips(space: Seq<char>, rest: Seq<char>)
    requires
        forall|i: int| 0 <= i < space.len() ==> white_space(#[trigger] space[i]),
        rest.len() == 0 || !white_space(rest.first()),
    ensures
        trim_start_of(space + rest) == rest,
    decreases space.len(),
{
    if space.len() == 0 {
        assert(space + rest =~= rest);
    } else {
        assert((space + rest).drop_first() =~= space.drop_first() + rest);
        lemma_trim_start_skips(space.drop_first(), rest);
    }
}

proof fn lemma_trim_end_skips(rest: Seq<char>, space: Seq<char>)
    requires
        forall|i: int| 0 <= i < space.len() ==> white_space(#[trigger] space[i]),
        rest.len() == 0 || !white_space(rest.last()),
    ensures
        trim_end_of(rest + space) == rest,
    decreases space.len(),
{
    if space.len() == 0 {
        assert(rest + space =~= rest);
    } else {
        assert((rest + space).drop_last() =~= rest + space.drop_last());
        lemma_trim_end_skips(rest, space.drop_last());
    }
}

proof fn lemma_trim_end_char_skips(rest: Seq<char>, run: Seq<char>, c: char)
    requires
        forall|i: int| 0 <= i < run.len() ==> #[trigger] run[i] == c,
        rest.len() == 0 || rest.last() != c,
    ensures
        trim_end_char_of(rest + run, c) == rest,
    decreases run.len(),
{
    if run.len() == 0 {
        assert(rest + run =~= rest);
    } else {
        assert((rest + run).drop_last() =~= rest + run.drop_last());
        lemma_trim_end_char_skips(rest, run.drop_last(), c);
    }
}

proof fn lemma_first_line_stops(line: Seq<char>, rest: Seq<char>)
    requires
        forall|i: int| 0 <= i < line.len() ==> #[trigger] line[i] != '\n',
        rest.len() == 0 || rest.first() == '\n',
    ensures
        first_line_of(line + rest) == line,
    decreases line.len(),
{
    if line.len() == 0 {
        assert(line + rest =~= rest);
    } else {
        assert((line + rest).drop_first() =~= line.drop_first() + rest);
        lemma_first_line_stops(line.drop_first(), rest);
        assert(seq![line.first()] + line.drop_first() =~= line);
    }
}

// ---------------------------------------------------------------------------
// Executable functions
// ---------------------------------------------------------------------------

/// A copy of an optional string.
pub fn clone_optional(text: &Option<String>) -> (copy: Option<String>)
    ensures
        optional_text(copy) == optional_text(*text),
{
    match text {
        Some(string) => Some(string.clone()),
        None => None,
    }
}

/// The length of `text` in bytes.
pub fn byte_count(text: &str) -> (count: usize)
    ensures
        count == byte_len(text@),
{
    text.as_bytes().len()
}

/// The number of bytes that a character takes in UTF-8.
pub fn char_width(c: char) -> (width: usize)
    ensures
        width == byte_len(seq![c]),
        1 <= width <= 4,
{
    proof {
        lemma_encode_one(c);
        char_is_scalar(c);
    }
    let scalar: u32 = c as u32;
    if scalar <= 0x7f {
        1
    } else if scalar <= 0x7ff {
        2
    } else if scalar <= 0xffff {
        3
    } else {
        4
    }
}

/// The part of `text` between two byte offsets, if they delimit one.
pub fn slice_text(text: &str, start: usize, end: usize) -> (slice: Option<&str>)
    ensures
        slice is Some == slice_chars(text@, start as int, end as int) is Some,
        slice matches Some(part) ==> slice_chars(text@, start as int, end as int) == Some(part@),
{
    if start > end || end > byte_count(text) || !text.is_char_boundary(start)
        || !text.is_char_boundary(end) {
        return None;
    }
    let (head, _) = text.split_at(end);
    proof {
        lemma_slice_indices(text@, start as int, end as int);
        let i = char_index(text@, start as int);
        let j = char_index(text@, end as int);
        lemma_offsets(text@, 0, j);
        assert(text@.subrange(0, j) =~= text@.take(j));
        assert(text@.take(0) =~= Seq::empty());
        encode_utf8_decode_utf8(head@);
        encode_utf8_decode_utf8(text@.take(j));
        assert(head@ == text@.take(j));
        lemma_boundary_at(head@, i);
        assert(head@.take(i) =~= text@.take(i));
    }
    let (_, part) = head.split_at(start);
    proof {
        let i = char_index(text@, start as int);
        let j = char_index(text@, end as int);
        lemma_offsets(head@, i, j);
        assert(head@.take(j) =~= head@);
        assert(head@.subrange(i, j) =~= text@.subrange(i, j));
        encode_utf8_decode_utf8(part@);
        encode_utf8_decode_utf8(text@.subrange(i, j));
    }
    Some(part)
}

/// Counts the characters that are not white space.
pub fn non_whitespace_size(text: &str) -> (count: usize)
    ensures
        count == ink(text@),
{
    let bytes: usize = byte_count(text);
    proof {
        lemma_byte_len_bounds(text@);
    }
    let mut count: usize = 0;
    for character in chars: text.chars()
        invariant
            chars.seq() == text@,
            count == ink(text@.take(chars.index())),
            count <= chars.index(),
            text@.len() <= bytes,
    {
        proof {
            assert(text@.take(chars.index() + 1) =~= text@.take(chars.index()).push(character));
            lemma_ink_push(text@.take(chars.index()), character);
        }
        if !character.is_whitespace() {
            count += 1;
        }
    }
    assert(text@.take(text@.len() as int) =~= text@);
    count
}

/// Counts the characters of a slice of `source` that are not white space;
/// zero where the range does not delimit a slice.
pub fn range_non_whitespace_size(source: &str, range: Range<usize>) -> (count: usize)
    ensures
        count == ink_between(source@, range.start as int, range.end as int),
{
    match slice_text(source, range.start, range.end) {
        Some(slice) => non_whitespace_size(slice),
        None => 0,
    }
}

/// A slice of `text` given by the indices of its characters.
fn slice_at<'a>(text: &'a str, start: usize, end: usize, Ghost(i): Ghost<int>, Ghost(j): Ghost<int>) -> (slice: &'a str)
    requires
        0 <= i <= j <= text@.len(),
        start == offset(text@, i),
        end == offset(text@, j),
    ensures
        slice@ == text@.subrange(i, j),
{
    proof {
        lemma_offsets(text@, i, j);
    }
    match slice_text(text, start, end) {
        Some(slice) => slice,
        None => text,
    }
}

/// `text` without the white space at its start.
pub fn trim_start(text: &str) -> (trimmed: &str)
    ensures
        trimmed@ == trim_start_of(text@),
{
    let bytes: usize = byte_count(text);
    let mut start: usize = 0;
    assert(text@.take(0) =~= Seq::empty());
    assert(text@.take(text@.len() as int) =~= text@);
    for character in chars: text.chars()
        invariant
            chars.seq() == text@,
            bytes == byte_len(text@),
            bytes == offset(text@, text@.len() as int),
            start == offset(text@, chars.index()),
            forall|i: int| 0 <= i < chars.index() ==> white_space(#[trigger] text@[i]),
    {
        let ghost index = chars.index();
        proof {
            lemma_offsets(text@, index, index + 1);
            assert(text@.subrange(index, index + 1) =~= seq![character]);
        }
        if !character.is_whitespace() {
            let trimmed = slice_at(text, start, bytes, Ghost(index), Ghost(text@.len() as int));
            proof {
                assert(text@ =~= text@.take(index) + trimmed@);
                lemma_trim_start_skips(text@.take(index), trimmed@);
            }
            return trimmed;
        }
        start += char_width(character);
    }
    proof {
        assert(text@ + Seq::<char>::empty() =~= text@);
        lemma_trim_start_skips(text@, Seq::empty());
        assert(text@.subrange(text@.len() as int, text@.len() as int) =~= Seq::empty());
    }
    slice_at(text, bytes, bytes, Ghost(text@.len() as int), Ghost(text@.len() as int))
}


/// `text` without the white space at its end.
pub fn trim_end(text: &str) -> (trimmed: &str)
    ensures
        trimmed@ == trim_end_of(text@),
{
    let mut at: usize = 0;
    let mut end: usize = 0;
    let bytes: usize = byte_count(text);
    let ghost mut kept: int = 0;
    assert(text@.take(0) =~= Seq::empty());
    for character in chars: text.chars()
        invariant
            chars.seq() == text@,
            bytes == byte_len(text@),
            at == offset(text@, chars.index()),
            end == offset(text@, kept),
            0 <= kept <= chars.index(),
            kept == 0 || !white_space(text@[kept - 1]),
            forall|i: int| kept <= i < chars.index() ==> white_space(#[trigger] text@[i]),
    {
        let ghost index = chars.index();
        proof {
            lemma_offsets(text@, index, index + 1);
            assert(text@.subrange(index, index + 1) =~= seq![character]);
        }
        at += char_width(character);
        if !character.is_whitespace() {
            end = at;
            proof {
                kept = index + 1;
            }
        }
    }
    let trimmed = slice_at(text, 0, end, Ghost(0), Ghost(kept));
    proof {
        assert(text@ =~= trimmed@ + text@.skip(kept));
        lemma_trim_end_skips(trimmed@, text@.skip(kept));
    }
    trimmed
}

/// `text` without the white space at both ends.
pub fn trim(text: &str) -> (trimmed: &str)
    ensures
        trimmed@ == trim_of(text@),
{
    trim_end(trim_start(text))
}

/// `text` without the occurrences of `stripped` at its end.
pub fn trim_end_char(text: &str, stripped: char) -> (trimmed: &str)
    ensures
        trimmed@ == trim_end_char_of(text@, stripped),
{
    let mut at: usize = 0;
    let mut end: usize = 0;
    let bytes: usize = byte_count(text);
    let ghost mut kept: int = 0;
    assert(text@.take(0) =~= Seq::empty());
    for character in chars: text.chars()
        invariant
            chars.seq() == text@,
            bytes == byte_len(text@),
            at == offset(text@, chars.index()),
            end == offset(text@, kept),
            0 <= kept <= chars.index(),
            kept == 0 || text@[kept - 1] != stripped,
            forall|i: int| kept <= i < chars.index() ==> #[trigger] text@[i] == stripped,
    {
        let ghost index = chars.index();
        proof {
            lemma_offsets(text@, index, index + 1);
            assert(text@.subrange(index, index + 1) =~= seq![character]);
        }
        at += char_width(character);
        if character != stripped {
            end = at;
            proof {
                kept = index + 1;
            }
        }
    }
    let trimmed = slice_at(text, 0, end, Ghost(0), Ghost(kept));
    proof {
        assert(text@ =~= trimmed@ + text@.skip(kept));
        lemma_trim_end_char_skips(trimmed@, text@.skip(kept), stripped);
    }
    trimmed
}

/// What stands before the first line feed of `text`.
pub fn first_line(text: &str) -> (line: &str)
    ensures
        line@ == first_line_of(text@),
{
    let bytes: usize = byte_count(text);
    let mut at: usize = 0;
    assert(text@.take(0) =~= Seq::empty());
    for character in chars: text.chars()
        invariant
            chars.seq() == text@,
            bytes == byte_len(text@),
            at == offset(text@, chars.index()),
            forall|i: int| 0 <= i < chars.index() ==> #[trigger] text@[i] != '\n',
    {
        let ghost index = chars.index();
        proof {
            lemma_offsets(text@, index, index + 1);
            assert(text@.subrange(index, index + 1) =~= seq![character]);
        }
        if character == '\n' {
            let line = slice_at(text, 0, at, Ghost(0), Ghost(index));
            proof {
                assert(text@ =~= line@ + text@.skip(index));
                lemma_first_line_stops(line@, text@.skip(index));
            }
            return line;
        }
        at += char_width(character);
    }
    proof {
        assert(text@ + Seq::<char>::empty() =~= text@);
        lemma_first_line_stops(text@, Seq::empty());
    }
    text
}

/// Whether two texts hold the same characters.
pub fn same_text(left: &str, right: &str) -> (same: bool)
    ensures
        same == (left@ == right@),
{
    let left_bytes = left.as_bytes();
    let right_bytes = right.as_bytes();
    proof {
        encode_utf8_decode_utf8(left@);
        encode_utf8_decode_utf8(right@);
    }
    if left_bytes.len() != right_bytes.len() {
        return false;
    }
    for index in 0..left_bytes.len()
        invariant
            left_bytes@.len() == right_bytes@.len(),
            left_bytes@ == encode_utf8(left@),
            right_bytes@ == encode_utf8(right@),
            forall|i: int| 0 <= i < index ==> left_bytes@[i] == right_bytes@[i],
    {
        if left_bytes[index] != right_bytes[index] {
            return false;
        }
    }
    assert(left_bytes@ =~= right_bytes@);
    true
}

/// Whether `text` starts with the characters of `prefix`.
pub fn starts_with(text: &str, prefix: &str) -> (starts: bool)
    ensures
        starts == prefix@.is_prefix_of(text@),
{
    let length: usize = byte_count(prefix);
    proof {
        if prefix@.is_prefix_of(text@) {
            assert(prefix@ =~= text@.take(prefix@.len() as int));
            assert(text@.take(0) =~= Seq::empty());
            lemma_offsets(text@, 0, prefix@.len() as int);
            assert(text@.subrange(0, prefix@.len() as int) =~= prefix@);
        }
        if is_boundary(text@, length as int) {
            assert(text@.take(0) =~= Seq::empty());
            lemma_boundary_at(text@, 0);
            lemma_slice_indices(text@, 0, length as int);
            lemma_offsets(text@, 0, char_index(text@, length as int));
            let k = char_index(text@, 0);
            if k > 0 {
                lemma_offsets(text@, 0, k);
            }
        }
    }
    match slice_text(text, 0, length) {
        Some(head) => same_text(head, prefix),
        None => false,
    }
}

// ---------------------------------------------------------------------------
// Laws
// ---------------------------------------------------------------------------

/// The ink of a text is the number of its characters that are not white space:
/// each of them counts one, white space counts nothing, and the ink of two
/// texts together is that of both.
pub proof fn law_ink(a: Seq<char>, b: Seq<char>)
    ensures
        ink(a) == a.filter(|c: char| !white_space(c)).len(),
        ink(a + b) == ink(a) + ink(b),
        forall|c: char| #[trigger] ink(seq![c]) == if white_space(c) {
            0nat
        } else {
            1nat
        },
    decreases a.len(),
{
    lemma_ink_concat(a, b);
    assert forall|c: char| #[trigger] ink(seq![c]) == if white_space(c) {
        0nat
    } else {
        1nat
    } by {
        assert(Seq::<char>::empty().push(c) =~= seq![c]);
        lemma_ink_push(Seq::empty(), c);
    }
    reveal(Seq::filter);
    if a.len() > 0 {
        law_ink(a.drop_last(), b);
    }
}

/// The ink between two boundaries is the number of characters of their slice that
/// are not white space; it is that up to a boundary between them and that from
/// there on.
pub proof fn law_ink_between(text: Seq<char>, start: int, middle: int, end: int)
    requires
        start <= middle <= end,
        is_boundary(text, start),
        is_boundary(text, middle),
        is_boundary(text, end),
    ensures
        ink_between(text, start, end) == ink_between(text, start, middle) + ink_between(
            text,
            middle,
            end,
        ),
        ink_between(text, start, end) == slice_chars(text, start, end)->0.filter(
            |c: char| !white_space(c),
        ).len(),
{
    lemma_slice_indices(text, start, middle);
    lemma_slice_indices(text, middle, end);
    lemma_slice_indices(text, start, end);
    let i = char_index(text, start);
    let j = char_index(text, middle);
    let k = char_index(text, end);
    assert(text.subrange(i, k) =~= text.subrange(i, j) + text.subrange(j, k));
    lemma_ink_concat(text.subrange(i, j), text.subrange(j, k));
    law_ink(text.subrange(i, k), Seq::empty());
}

/// Two boundaries delimit a slice that has the bytes between them.
pub proof fn law_slice(text: Seq<char>, start: int, end: int)
    requires
        start <= end,
        is_boundary(text, start),
        is_boundary(text, end),
    ensures
        slice_chars(text, start, end) is Some,
        encode_utf8(slice_chars(text, start, end)->0) == encode_utf8(text).subrange(start, end),
{
    lemma_slice_indices(text, start, end);
    let i = char_index(text, start);
    let j = char_index(text, end);
    lemma_offsets(text, i, j);
}

/// Trimming takes away all white space at both ends, and nothing else.
pub proof fn law_trimmed(before: Seq<char>, body: Seq<char>, after: Seq<char>)
    requires
        forall|i: int| 0 <= i < before.len() ==> white_space(#[trigger] before[i]),
        forall|i: int| 0 <= i < after.len() ==> white_space(#[trigger] after[i]),
        body.len() > 0 ==> !white_space(body.first()) && !white_space(body.last()),
    ensures
        trim_of(before + body + after) == body,
        body.len() > 0 ==> trim_start_of(before + body + after) == body + after,
        trim_end_of(before + body + after) == if body.len() > 0 {
            before + body
        } else {
            Seq::empty()
        },
{
    let text = before + body + after;
    if body.len() > 0 {
        assert(text =~= before + (body + after));
        assert((body + after).first() == body.first());
        lemma_trim_start_skips(before, body + after);
        lemma_trim_end_skips(body, after);
        assert((before + body).last() == body.last());
        lemma_trim_end_skips(before + body, after);
    } else {
        assert forall|i: int| 0 <= i < text.len() implies white_space(#[trigger] text[i]) by {
            if i < before.len() {
                assert(text[i] == before[i]);
            } else {
                assert(text[i] == after[i - before.len()]);
            }
        }
        assert(text + Seq::<char>::empty() =~= text);
        assert(Seq::<char>::empty() + text =~= text);
        lemma_trim_start_skips(text, Seq::empty());
        lemma_trim_end_skips(Seq::empty(), text);
        assert(body =~= Seq::empty());
    }
}

/// Of a text that ends with occurrences of a character, these are taken away,
/// all of them and nothing else.
pub proof fn law_trimmed_char(rest: Seq<char>, run: Seq<char>, c: char)
    requires
        forall|i: int| 0 <= i < run.len() ==> #[trigger] run[i] == c,
        rest.len() > 0 ==> rest.last() != c,
    ensures
        trim_end_char_of(rest + run, c) == rest,
{
    lemma_trim_end_char_skips(rest, run, c);
}

/// The first line of a text is what stands before its first line feed, or the
/// whole text where there is none.
pub proof fn law_first_line(line: Seq<char>, rest: Seq<char>)
    requires
        forall|i: int| 0 <= i < line.len() ==> #[trigger] line[i] != '\n',
    ensures
        first_line_of(line) == line,
        first_line_of(line + seq!['\n'] + rest) == line,
{
    assert(line + Seq::<char>::empty() =~= line);
    lemma_first_line_stops(line, Seq::empty());
    assert(line + seq!['\n'] + rest =~= line + (seq!['\n'] + rest));
    lemma_first_line_stops(line, seq!['\n'] + rest);
}

/// A place is a boundary exactly if it is the offset of a character, or the end;
/// offsets delimit no slice where they are out of order or one is no boundary.
pub proof fn law_boundary(text: Seq<char>, at: int, other: int)
    ensures
        is_boundary(text, at) <==> exists|index: int|
            0 <= index <= text.len() && #[trigger] byte_len(text.take(index)) == at,
        at > other || !is_boundary(text, at) || !is_boundary(text, other) ==> slice_chars(
            text,
            at,
            other,
        ) is None && ink_between(text, at, other) == 0,
{
    if is_boundary(text, at) {
        lemma_char_index(text, at);
        assert(byte_len(text.take(char_index(text, at))) == at);
    }
    if exists|index: int|
        0 <= index <= text.len() && #[trigger] byte_len(text.take(index)) == at {
        let index = choose|index: int|
            0 <= index <= text.len() && #[trigger] byte_len(text.take(index)) == at;
        lemma_boundary_at(text, index);
    }
}

} // verus!
