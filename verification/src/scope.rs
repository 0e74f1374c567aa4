//! Lines and brace scopes of a source, and which chunks open a scope.

use crate::text;
use std::ops::Range;
use vstd::prelude::*;
use vstd::string::*;
use vstd::utf8::*;

verus! {

// ---------------------------------------------------------------------------
// Lines
// ---------------------------------------------------------------------------

/// How many line feeds are among `bytes`.
pub open spec fn line_feeds(bytes: Seq<u8>) -> nat
    decreases bytes.len(),
{
    if bytes.len() == 0 {
        0
    } else {
        line_feeds(bytes.drop_last()) + if bytes.last() == 10u8 { 1nat } else { 0nat }
    }
}

/// A number as `u32`, the greatest where it does not fit.
pub open spec fn saturated(value: int) -> int {
    if value > u32::MAX {
        u32::MAX as int
    } else {
        value
    }
}

/// The lines that a range of bytes touches, counted from zero, with an
/// exclusive end. Offsets past the end of the source count as its end.
pub open spec fn line_span(source: Seq<char>, start: int, end: int) -> (int, int) {
    let bytes = encode_utf8(source);
    let length = bytes.len() as int;
    let first = if start < length {
        start
    } else {
        length
    };
    let capped = if end < length {
        end
    } else {
        length
    };
    let last = if capped < first {
        first
    } else {
        capped
    };
    (saturated(line_feeds(bytes.take(first)) as int), saturated(line_feeds(bytes.take(last)) as int + 1))
}

/// `value` as `u32`, or the greatest `u32` where it does not fit.
pub fn usize_to_u32_saturating(value: usize) -> (narrow: u32)
    ensures
        narrow == saturated(value as int),
{
    if value > u32::MAX as usize {
        u32::MAX
    } else {
        value as u32
    }
}

fn count_line_feeds(bytes: &[u8], end: usize) -> (count: usize)
    requires
        end <= bytes@.len(),
    ensures
        count == line_feeds(bytes@.take(end as int)),
{
    let mut count: usize = 0;
    assert(bytes@.take(0) =~= Seq::empty());
    for index in 0..end
        invariant
            end <= bytes@.len(),
            count == line_feeds(bytes@.take(index as int)),
            count <= index,
    {
        assert(bytes@.take(index + 1).drop_last() =~= bytes@.take(index as int));
        if bytes[index] == 10u8 {
            count += 1;
        }
    }
    count
}

/// The lines that a range of bytes touches, with an exclusive end.
pub fn byte_range_to_line_range(source: &str, byte_range: Range<usize>) -> (lines: Range<u32>)
    ensures
        (lines.start as int, lines.end as int) == line_span(
            source@,
            byte_range.start as int,
            byte_range.end as int,
        ),
{
    let bytes = source.as_bytes();
    let length: usize = bytes.len();
    let start: usize = if byte_range.start < length {
        byte_range.start
    } else {
        length
    };
    let capped: usize = if byte_range.end < length {
        byte_range.end
    } else {
        length
    };
    let end: usize = if capped < start {
        start
    } else {
        capped
    };
    let first_line: usize = count_line_feeds(bytes, start);
    let last_line: usize = count_line_feeds(bytes, end).saturating_add(1);
    usize_to_u32_saturating(first_line)..usize_to_u32_saturating(last_line)
}

// ---------------------------------------------------------------------------
// Brace scopes
// ---------------------------------------------------------------------------

/// White space of ASCII, as `u8::is_ascii_whitespace` has it: space, tab, line
/// feed, form feed and carriage return.
pub open spec fn ascii_space(byte: u8) -> bool {
    byte == 32 || byte == 9 || byte == 10 || byte == 12 || byte == 13
}

/// The first place from `from` on that holds `{`, or the length.
pub open spec fn next_open(bytes: Seq<u8>, from: int) -> int
    decreases bytes.len() - from,
{
    if from >= bytes.len() {
        bytes.len() as int
    } else if bytes[from] == 123u8 {
        from
    } else {
        next_open(bytes, from + 1)
    }
}

/// The first place from `from` on that is not white space of ASCII, or the
/// length.
pub open spec fn next_visible(bytes: Seq<u8>, from: int) -> int
    decreases bytes.len() - from,
{
    if from >= bytes.len() {
        bytes.len() as int
    } else if !ascii_space(bytes[from]) {
        from
    } else {
        next_visible(bytes, from + 1)
    }
}

/// How many braces are open after `bytes[from..to]`, where `bytes[from]` is
/// the first to be counted.
pub open spec fn brace_depth(bytes: Seq<u8>, from: int, to: int) -> int
    decreases to - from,
{
    if to <= from {
        0
    } else {
        brace_depth(bytes, from, to - 1) + if bytes[to - 1] == 123u8 {
            1int
        } else if bytes[to - 1] == 125u8 {
            -1int
        } else {
            0int
        }
    }
}

/// Whether the brace at `open` is closed by the one at `close`: it is the
/// first place after which no brace is left open.
pub open spec fn closes(bytes: Seq<u8>, open: int, close: int) -> bool {
    &&& open < close < bytes.len()
    &&& brace_depth(bytes, open, close + 1) == 0
    &&& forall|to: int| open < to <= close ==> #[trigger] brace_depth(bytes, open, to) > 0
}

/// The place of the brace that closes the one at `open`.
pub open spec fn closing_brace(bytes: Seq<u8>, open: int) -> Option<int> {
    if exists|close: int| closes(bytes, open, close) {
        Some(choose|close: int| closes(bytes, open, close))
    } else {
        None
    }
}

/// The scope that a range opens: from the range's start to the first visible
/// byte after the brace that closes its first `{`. That brace stands in the
/// range, or only white space is between the range and the brace.
pub open spec fn brace_scope(source: Seq<char>, start: int, end: int) -> Option<(int, int)> {
    let bytes = encode_utf8(source);
    let from = if start < bytes.len() {
        start
    } else {
        bytes.len() as int
    };
    let open = next_open(bytes, from);
    if open >= bytes.len() {
        None
    } else if open > end && next_visible(bytes, end) < open {
        None
    } else {
        match closing_brace(bytes, open) {
            Some(close) => Some((from, next_visible(bytes, close + 1))),
            None => None,
        }
    }
}

/// A range as a pair of offsets.
pub open spec fn range_pair(range: Option<Range<usize>>) -> Option<(int, int)> {
    match range {
        Some(range) => Some((range.start as int, range.end as int)),
        None => None,
    }
}

proof fn lemma_next_visible(bytes: Seq<u8>, from: int)
    requires
        0 <= from,
    ensures
        from <= bytes.len() ==> from <= next_visible(bytes, from),
        next_visible(bytes, from) <= bytes.len(),
        forall|i: int| from <= i < next_visible(bytes, from) ==> ascii_space(#[trigger] bytes[i]),
        next_visible(bytes, from) < bytes.len() ==> !ascii_space(
            bytes[next_visible(bytes, from)],
        ),
    decreases bytes.len() - from,
{
    if from < bytes.len() && ascii_space(bytes[from]) {
        lemma_next_visible(bytes, from + 1);
    }
}

proof fn lemma_closes_once(bytes: Seq<u8>, open: int, first: int, second: int)
    requires
        closes(bytes, open, first),
        closes(bytes, open, second),
    ensures
        first == second,
{
    if first < second {
        assert(brace_depth(bytes, open, first + 1) > 0);
    } else if second < first {
        assert(brace_depth(bytes, open, second + 1) > 0);
    }
}

fn find_open(bytes: &[u8], from: usize) -> (open: usize)
    requires
        from <= bytes@.len(),
    ensures
        open == next_open(bytes@, from as int),
        from <= open <= bytes@.len(),
        open < bytes@.len() ==> bytes@[open as int] == 123u8,
{
    let mut at: usize = from;
    while at < bytes.len() && bytes[at] != 123u8
        invariant
            from <= at <= bytes@.len(),
            next_open(bytes@, at as int) == next_open(bytes@, from as int),
        decreases bytes@.len() - at,
    {
        at += 1;
    }
    at
}

fn find_visible(bytes: &[u8], from: usize) -> (visible: usize)
    requires
        from <= bytes@.len(),
    ensures
        visible == next_visible(bytes@, from as int),
{
    let mut at: usize = from;
    while at < bytes.len() && (bytes[at] == 32u8 || bytes[at] == 9u8 || bytes[at] == 10u8
        || bytes[at] == 12u8 || bytes[at] == 13u8)
        invariant
            from <= at <= bytes@.len(),
            next_visible(bytes@, at as int) == next_visible(bytes@, from as int),
        decreases bytes@.len() - at,
    {
        at += 1;
    }
    at
}

/// The scope that a range of `source` opens with a brace, if it opens one and
/// the brace is closed.
pub fn matching_brace_scope(source: &str, parent_range: Range<usize>) -> (scope: Option<
    Range<usize>,
>)
    ensures
        range_pair(scope) == brace_scope(
            source@,
            parent_range.start as int,
            parent_range.end as int,
        ),
{
    let bytes = source.as_bytes();
    let length: usize = bytes.len();
    let search_start: usize = if parent_range.start < length {
        parent_range.start
    } else {
        length
    };
    let open: usize = find_open(bytes, search_start);
    if open >= length {
        return None;
    }
    if open > parent_range.end && find_visible(bytes, parent_range.end) < open {
        return None;
    }
    let mut depth: usize = 1;
    let mut at: usize = open + 1;
    proof {
        reveal_with_fuel(brace_depth, 2);
        assert(brace_depth(bytes@, open as int, open + 1) == 1);
    }
    while at < length
        invariant
            length == bytes@.len(),
            open < at <= length,
            depth == brace_depth(bytes@, open as int, at as int),
            depth <= at - open,
            forall|to: int| open < to <= at ==> #[trigger] brace_depth(bytes@, open as int, to) > 0,
            bytes@ == encode_utf8(source@),
            search_start == if parent_range.start < length {
                parent_range.start
            } else {
                length
            },
            open == next_open(bytes@, search_start as int),
            open < length,
            !(open > parent_range.end && next_visible(bytes@, parent_range.end as int) < open),
        decreases length - at,
    {
        let byte: u8 = bytes[at];
        assert(brace_depth(bytes@, open as int, at + 1) == brace_depth(
            bytes@,
            open as int,
            at as int,
        ) + if byte == 123u8 {
            1int
        } else if byte == 125u8 {
            -1int
        } else {
            0int
        });
        if byte == 123u8 {
            depth += 1;
        } else if byte == 125u8 {
            depth -= 1;
            if depth == 0 {
                let scope_end: usize = find_visible(bytes, at + 1);
                proof {
                    assert(closes(bytes@, open as int, at as int));
                    let close = closing_brace(bytes@, open as int)->0;
                    lemma_closes_once(bytes@, open as int, at as int, close);
                }
                return Some(search_start..scope_end);
            }
        }
        at += 1;
    }
    assert forall|close: int| !closes(bytes@, open as int, close) by {
        if open < close < bytes@.len() {
            assert(brace_depth(bytes@, open as int, close + 1) > 0);
        }
    }
    None
}

// ---------------------------------------------------------------------------
// What opens a scope
// ---------------------------------------------------------------------------

/// The kinds of syntax nodes that hold declarations.
pub open spec fn parent_like_kind(kind: Seq<char>) -> bool {
    ||| kind == "struct_item"@
    ||| kind == "impl_item"@
    ||| kind == "mod_item"@
    ||| kind == "enum_item"@
    ||| kind == "trait_item"@
    ||| kind == "union_item"@
    ||| kind == "class_declaration"@
    ||| kind == "interface_declaration"@
    ||| kind == "object"@
}

/// Whether `text` starts, after white space, with a word that opens a scope.
pub open spec fn parent_like_text(text: Seq<char>) -> bool {
    let body = text::trim_start_of(text);
    ||| "impl "@.is_prefix_of(body)
    ||| "mod "@.is_prefix_of(body)
    ||| "class "@.is_prefix_of(body)
    ||| "interface "@.is_prefix_of(body)
    ||| "object "@.is_prefix_of(body)
    ||| "namespace "@.is_prefix_of(body)
}

/// Whether a syntax node of this kind holds declarations.
pub fn is_parent_like_node_kind(kind: &str) -> (parent_like: bool)
    ensures
        parent_like == parent_like_kind(kind@),
{
    text::same_text(kind, "struct_item") || text::same_text(kind, "impl_item")
        || text::same_text(kind, "mod_item") || text::same_text(kind, "enum_item")
        || text::same_text(kind, "trait_item") || text::same_text(kind, "union_item")
        || text::same_text(kind, "class_declaration") || text::same_text(
        kind,
        "interface_declaration",
    ) || text::same_text(kind, "object")
}

/// Whether `text` starts with a word that opens a scope.
pub fn is_parent_like_source_text(text: &str) -> (parent_like: bool)
    ensures
        parent_like == parent_like_text(text@),
{
    let body = text::trim_start(text);
    text::starts_with(body, "impl ") || text::starts_with(body, "mod ") || text::starts_with(
        body,
        "class ",
    ) || text::starts_with(body, "interface ") || text::starts_with(body, "object ")
        || text::starts_with(body, "namespace ")
}

// ---------------------------------------------------------------------------
// Laws
// ---------------------------------------------------------------------------

/// A scope starts where its range starts, ends within the source, holds the
/// range's start, and its last closing brace balances its first opening one.
pub proof fn law_brace_scope(source: Seq<char>, start: int, end: int)
    requires
        0 <= start,
        0 <= end,
        brace_scope(source, start, end) is Some,
    ensures
        ({
            let bytes = encode_utf8(source);
            let scope = brace_scope(source, start, end)->0;
            &&& scope.0 == start
            &&& start < scope.1 <= bytes.len()
            &&& exists|open: int, close: int|
                start <= open && #[trigger] closes(bytes, open, close) && close < scope.1
                    && bytes[open] == 123u8 && bytes[close] == 125u8
                    && next_visible(bytes, close + 1) == scope.1
        }),
{
    let bytes = encode_utf8(source);
    let from = if start < bytes.len() {
        start
    } else {
        bytes.len() as int
    };
    let open = next_open(bytes, from);
    lemma_next_open(bytes, from);
    let close = closing_brace(bytes, open)->0;
    assert(closes(bytes, open, close));
    lemma_next_visible(bytes, close + 1);
    assert(brace_depth(bytes, open, close) > 0);
}

proof fn lemma_next_open(bytes: Seq<u8>, from: int)
    requires
        0 <= from <= bytes.len(),
    ensures
        from <= next_open(bytes, from) <= bytes.len(),
        next_open(bytes, from) < bytes.len() ==> bytes[next_open(bytes, from)] == 123u8,
    decreases bytes.len() - from,
{
    if from < bytes.len() && bytes[from] != 123u8 {
        lemma_next_open(bytes, from + 1);
    }
}

/// Line feeds are counted one by one, also where several follow one another:
/// the count of two runs of bytes together is that of both, a line feed counts
/// one, and no other byte counts.
pub proof fn law_line_feeds(a: Seq<u8>, b: Seq<u8>)
    ensures
        line_feeds(a + b) == line_feeds(a) + line_feeds(b),
        line_feeds(seq![10u8]) == 1,
        forall|byte: u8| byte != 10 ==> #[trigger] line_feeds(seq![byte]) == 0,
        line_feeds(a) == a.filter(|byte: u8| byte == 10u8).len(),
    decreases a.len() + b.len(),
{
    reveal(Seq::filter);
    assert forall|byte: u8| #[trigger] line_feeds(seq![byte]) == if byte == 10u8 {
        1nat
    } else {
        0nat
    } by {
        reveal_with_fuel(line_feeds, 2);
        assert(seq![byte].drop_last() =~= Seq::empty());
    }
    if b.len() > 0 {
        law_line_feeds(a, b.drop_last());
        assert((a + b).drop_last() =~= a + b.drop_last());
    } else {
        assert(a + b =~= a);
        if a.len() > 0 {
            law_line_feeds(a.drop_last(), b);
        }
    }
}

/// The number of bytes before a place that are line feeds.
pub open spec fn feeds_before(source: Seq<char>, at: int) -> int {
    let bytes = encode_utf8(source);
    bytes.take(
        if at < bytes.len() {
            at
        } else {
            bytes.len() as int
        },
    ).filter(|byte: u8| byte == 10u8).len() as int
}

/// The first line of a range is the number of all line feeds before its start;
/// the exclusive end is one more than the number of all line feeds before its
/// end, or before its start where it ends earlier. Both are limited only by what
/// `u32` can hold.
pub proof fn law_line_span(source: Seq<char>, start: int, end: int)
    requires
        0 <= start,
        0 <= end,
    ensures
        ({
            let lines = line_span(source, start, end);
            let first = feeds_before(source, start);
            let last = feeds_before(
                source,
                if start <= end {
                    end
                } else {
                    start
                },
            ) + 1;
            &&& lines.0 == if first <= u32::MAX {
                first
            } else {
                u32::MAX as int
            }
            &&& lines.1 == if last <= u32::MAX {
                last
            } else {
                u32::MAX as int
            }
        }),
{
    let bytes = encode_utf8(source);
    let first = if start < bytes.len() {
        start
    } else {
        bytes.len() as int
    };
    let capped = if end < bytes.len() {
        end
    } else {
        bytes.len() as int
    };
    let last = if capped < first {
        first
    } else {
        capped
    };
    law_line_feeds(bytes.take(first), Seq::empty());
    law_line_feeds(bytes.take(last), Seq::empty());
}

/// Going past a byte raises the line by one where the byte is a line feed,
/// whatever stands before it, and leaves it as it is otherwise.
pub proof fn law_next_line(source: Seq<char>, at: int)
    requires
        0 <= at < encode_utf8(source).len(),
        line_span(source, at, at).0 < u32::MAX,
    ensures
        line_span(source, at + 1, at + 1).0 == line_span(source, at, at).0 + if encode_utf8(
            source,
        )[at] == 10u8 {
            1int
        } else {
            0int
        },
{
    let bytes = encode_utf8(source);
    assert(bytes.take(at + 1) =~= bytes.take(at) + seq![bytes[at]]);
    law_line_feeds(bytes.take(at), seq![bytes[at]]);
}

/// Braces are counted one by one: how many are open after a run of bytes is
/// the number of opening ones less that of closing ones.
pub proof fn law_brace_depth(bytes: Seq<u8>, from: int, to: int)
    requires
        0 <= from <= to <= bytes.len(),
    ensures
        brace_depth(bytes, from, to) == bytes.subrange(from, to).filter(
            |byte: u8| byte == 123u8,
        ).len() - bytes.subrange(from, to).filter(|byte: u8| byte == 125u8).len(),
    decreases to - from,
{
    reveal(Seq::filter);
    if from < to {
        law_brace_depth(bytes, from, to - 1);
        assert(bytes.subrange(from, to).drop_last() =~= bytes.subrange(from, to - 1));
    }
}

/// A range whose first brace stands in it, or after it behind nothing but
/// white space, opens a scope if the brace is closed: the scope goes from the
/// start of the range, over the closing brace, up to the next visible byte.
pub proof fn law_brace_scope_opened(
    source: Seq<char>,
    start: int,
    end: int,
    open: int,
    close: int,
    visible: int,
)
    requires
        0 <= start <= open,
        0 <= end,
        ({
            let bytes = encode_utf8(source);
            &&& forall|i: int| start <= i < open ==> #[trigger] bytes[i] != 123u8
            &&& open < close < bytes.len()
            &&& brace_depth(bytes, open, close + 1) == 0
            &&& forall|to: int| open < to <= close ==> #[trigger] brace_depth(bytes, open, to) > 0
            &&& bytes[open] == 123u8
            &&& forall|i: int| end <= i < open ==> ascii_space(#[trigger] bytes[i])
            &&& close < visible <= bytes.len()
            &&& forall|i: int| close < i < visible ==> ascii_space(#[trigger] bytes[i])
            &&& visible < bytes.len() ==> !ascii_space(bytes[visible])
        }),
    ensures
        brace_scope(source, start, end) == Some((start, visible)),
{
    let bytes = encode_utf8(source);
    lemma_next_open_is(bytes, start, open);
    assert(closes(bytes, open, close));
    let found = closing_brace(bytes, open)->0;
    lemma_closes_once(bytes, open, found, close);
    lemma_next_visible_is(bytes, close + 1, visible);
    lemma_next_visible(bytes, end);
    if end < open && next_visible(bytes, end) < open {
        assert(ascii_space(bytes[next_visible(bytes, end)]));
    }
}

/// A range opens no scope where no brace opens from its start on, where a
/// visible byte stands between the range and the first brace after it, or where
/// the first brace is never closed.
pub proof fn law_no_brace_scope(source: Seq<char>, start: int, end: int, open: int)
    requires
        0 <= start <= open <= encode_utf8(source).len(),
        0 <= end,
        ({
            let bytes = encode_utf8(source);
            &&& forall|i: int| start <= i < open ==> #[trigger] bytes[i] != 123u8
            &&& open < bytes.len() ==> bytes[open] == 123u8
            &&& {
                ||| open == bytes.len()
                ||| exists|i: int| end <= i < open && !ascii_space(#[trigger] bytes[i])
                ||| forall|to: int|
                    open < to <= bytes.len() ==> #[trigger] brace_depth(bytes, open, to) > 0
            }
        }),
    ensures
        brace_scope(source, start, end) is None,
{
    let bytes = encode_utf8(source);
    lemma_next_open_is(bytes, start, open);
    lemma_next_visible(bytes, end);
    if open < bytes.len() && exists|i: int| end <= i < open && !ascii_space(#[trigger] bytes[i]) {
        let i = choose|i: int| end <= i < open && !ascii_space(#[trigger] bytes[i]);
        assert(next_visible(bytes, end) <= i);
    }
    if forall|to: int| open < to <= bytes.len() ==> #[trigger] brace_depth(bytes, open, to) > 0 {
        assert forall|close: int| !closes(bytes, open, close) by {
            if open < close < bytes.len() {
                assert(brace_depth(bytes, open, close + 1) > 0);
            }
        }
    }
}

proof fn lemma_next_open_is(bytes: Seq<u8>, from: int, open: int)
    requires
        0 <= from <= open <= bytes.len(),
        forall|i: int| from <= i < open ==> #[trigger] bytes[i] != 123u8,
        open < bytes.len() ==> bytes[open] == 123u8,
    ensures
        next_open(bytes, from) == open,
    decreases open - from,
{
    if from < open {
        assert(bytes[from] != 123u8);
        lemma_next_open_is(bytes, from + 1, open);
    }
}

proof fn lemma_next_visible_is(bytes: Seq<u8>, from: int, visible: int)
    requires
        0 <= from <= visible <= bytes.len(),
        forall|i: int| from <= i < visible ==> ascii_space(#[trigger] bytes[i]),
        visible < bytes.len() ==> !ascii_space(bytes[visible]),
    ensures
        next_visible(bytes, from) == visible,
    decreases visible - from,
{
    if from < visible {
        assert(ascii_space(bytes[from]));
        lemma_next_visible_is(bytes, from + 1, visible);
    }
}

/// A text opens a scope wherever, after white space, it starts with one of the
/// words for it and a space, whatever follows; and nowhere else.
pub proof fn law_scope_words(space: Seq<char>, body: Seq<char>)
    requires
        forall|i: int| 0 <= i < space.len() ==> text::white_space(#[trigger] space[i]),
        body.len() > 0 ==> !text::white_space(body.first()),
    ensures
        parent_like_text(space + body) <==> exists|word: Seq<char>|
            {
                &&& #[trigger] word.is_prefix_of(body)
                &&& seq![
                    "impl "@,
                    "mod "@,
                    "class "@,
                    "interface "@,
                    "object "@,
                    "namespace "@,
                ].contains(word)
            },
{
    let words = seq!["impl "@, "mod "@, "class "@, "interface "@, "object "@, "namespace "@];
    text::lemma_trim_start_skips(space, body);
    assert(words[0] == "impl "@ && words[1] == "mod "@ && words[2] == "class "@ && words[3]
        == "interface "@ && words[4] == "object "@ && words[5] == "namespace "@);
}

/// The kinds of nodes that open a scope are these nine.
pub proof fn law_scope_kinds(kind: Seq<char>)
    ensures
        parent_like_kind(kind) <==> seq![
            "struct_item"@,
            "impl_item"@,
            "mod_item"@,
            "enum_item"@,
            "trait_item"@,
            "union_item"@,
            "class_declaration"@,
            "interface_declaration"@,
            "object"@,
        ].contains(kind),
{
    let kinds = seq![
        "struct_item"@,
        "impl_item"@,
        "mod_item"@,
        "enum_item"@,
        "trait_item"@,
        "union_item"@,
        "class_declaration"@,
        "interface_declaration"@,
        "object"@,
    ];
    assert(kinds[0] == "struct_item"@ && kinds[1] == "impl_item"@ && kinds[2] == "mod_item"@
        && kinds[3] == "enum_item"@ && kinds[4] == "trait_item"@ && kinds[5] == "union_item"@
        && kinds[6] == "class_declaration"@ && kinds[7] == "interface_declaration"@ && kinds[8]
        == "object"@);
}

/// White space of ASCII is the white space of Unicode among the first 128
/// characters, but for the vertical tab.
pub proof fn law_ascii_space(byte: u8)
    ensures
        ascii_space(byte) <==> byte < 128 && byte != 11 && text::white_space(byte as char),
{
}

} // verus!
