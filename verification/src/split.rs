//! Splitting plain text into pieces of bounded size.
//!
//! The size of a piece is its number of characters that are not white space.
//! A piece ends where the next character would overfill it, or, preferably, at
//! the end of the last line before that character.

use crate::span;
use crate::text;
use std::ops::Range;
use vstd::prelude::*;

verus! {

/// The index of the first character, at `from` or later, that overfills the
/// piece that starts at `start`; the length of `text` where none does.
pub open spec fn overfull(text: Seq<char>, start: int, from: int, max: nat) -> int
    decreases text.len() - from,
{
    if from >= text.len() {
        text.len() as int
    } else if text::ink(text.subrange(start, from + 1)) > max {
        from
    } else {
        overfull(text, start, from + 1, max)
    }
}

/// The end of the last line that ends in `text[from..until]`.
pub open spec fn last_line_end(text: Seq<char>, from: int, until: int) -> Option<int>
    decreases until - from,
{
    if until <= from {
        None
    } else if text[until - 1] == '\n' {
        Some(until)
    } else {
        last_line_end(text, from, until - 1)
    }
}

/// Where the piece ends that the character at `over` overfills: at the end of
/// the last line in `text[from..over]`, or else right before that character.
/// With `strict`, a line end that leaves more than `max` up to and including
/// that character does not count.
pub open spec fn cut(text: Seq<char>, from: int, over: int, max: nat, strict: bool) -> int {
    match last_line_end(text, from, over) {
        Some(line) => if strict && text::ink(text.subrange(line, over + 1)) > max {
            over
        } else {
            line
        },
        None => over,
    }
}

/// The pieces of `text[start..]`, as pairs of character indices, where the
/// characters before `from` have been looked at already.
pub open spec fn pieces(text: Seq<char>, start: int, from: int, max: nat, strict: bool) -> Seq<
    (int, int),
>
    decreases text.len() - from,
{
    let over = overfull(text, start, from, max);
    if from < 0 || over >= text.len() {
        if start < text.len() {
            seq![(start, text.len() as int)]
        } else {
            Seq::empty()
        }
    } else {
        proof {
            lemma_overfull_range(text, start, from, max);
        }
        let end = cut(text, from, over, max, strict);
        seq![(start, end)] + pieces(text, end, over + 1, max, strict)
    }
}

/// The pieces of a text.
pub open spec fn pieces_of(text: Seq<char>, max: nat, strict: bool) -> Seq<(int, int)> {
    pieces(text, 0, 0, max, strict)
}

pub proof fn lemma_overfull_range(text: Seq<char>, start: int, from: int, max: nat)
    requires
        from <= text.len(),
    ensures
        from <= overfull(text, start, from, max) <= text.len(),
        overfull(text, start, from, max) < text.len() ==> text::ink(
            text.subrange(start, overfull(text, start, from, max) + 1),
        ) > max,
        forall|j: int|
            from <= j < overfull(text, start, from, max) ==> text::ink(
                #[trigger] text.subrange(start, j + 1),
            ) <= max,
    decreases text.len() - from,
{
    if from < text.len() {
        lemma_overfull_range(text, start, from + 1, max);
    }
}

proof fn lemma_overfull_is(text: Seq<char>, start: int, from: int, max: nat, over: int)
    requires
        from <= over <= text.len(),
        forall|j: int|
            from <= j < over ==> text::ink(#[trigger] text.subrange(start, j + 1)) <= max,
        over < text.len() ==> text::ink(text.subrange(start, over + 1)) > max,
    ensures
        overfull(text, start, from, max) == over,
    decreases over - from,
{
    if from < over {
        assert(text::ink(text.subrange(start, from + 1)) <= max);
        lemma_overfull_is(text, start, from + 1, max, over);
    }
}

proof fn lemma_last_line_end_range(text: Seq<char>, from: int, until: int)
    ensures
        last_line_end(text, from, until) matches Some(line) ==> from < line <= until
            && text[line - 1] == '\n',
    decreases until - from,
{
    if until > from {
        lemma_last_line_end_range(text, from, until - 1);
    }
}

/// The pieces lie end to end up to the end of the text.
pub proof fn lemma_pieces_tile(text: Seq<char>, start: int, from: int, max: nat, strict: bool)
    requires
        0 <= start <= from <= text.len(),
        start < from || from == 0,
        max >= 1,
    ensures
        span::tiles(pieces(text, start, from, max, strict), start, text.len() as int),
    decreases text.len() - from,
{
    let over = overfull(text, start, from, max);
    lemma_overfull_range(text, start, from, max);
    if over >= text.len() {
        if start < text.len() {
            span::lemma_tiles_one(start, text.len() as int);
        }
    } else {
        let end = cut(text, from, over, max, strict);
        lemma_last_line_end_range(text, from, over);
        if over == start {
            text::lemma_ink_bound(text.subrange(0, 1));
        }
        lemma_pieces_tile(text, end, over + 1, max, strict);
        let rest = pieces(text, end, over + 1, max, strict);
        span::lemma_tiles_one(start, end);
        span::lemma_tiles_concat(seq![(start, end)], rest, start, end, text.len() as int);
    }
}

proof fn lemma_last_line_end_last(text: Seq<char>, from: int, until: int)
    ensures
        forall|i: int|
            (match last_line_end(text, from, until) {
                Some(line) => line,
                None => from,
            }) <= i < until ==> #[trigger] text[i] != '\n',
    decreases until - from,
{
    if until > from {
        lemma_last_line_end_last(text, from, until - 1);
    }
}

/// With `strict`, no piece holds more than the limit.
pub proof fn lemma_strict_pieces_fit(text: Seq<char>, start: int, from: int, max: nat)
    requires
        0 <= start <= from <= text.len(),
        max >= 1,
        text::ink(text.subrange(start, from)) <= max,
    ensures
        forall|i: int|
            0 <= i < pieces(text, start, from, max, true).len() ==> text::ink(
                text.subrange(
                    (#[trigger] pieces(text, start, from, max, true)[i]).0,
                    pieces(text, start, from, max, true)[i].1,
                ),
            ) <= max,
    decreases text.len() - from,
{
    let over = overfull(text, start, from, max);
    lemma_overfull_range(text, start, from, max);
    if from < over {
        assert(text::ink(text.subrange(start, over - 1 + 1)) <= max);
    }
    if over < text.len() {
        let end = cut(text, from, over, max, true);
        lemma_last_line_end_range(text, from, over);
        assert(text.subrange(start, over) =~= text.subrange(start, end) + text.subrange(end, over));
        text::lemma_ink_concat(text.subrange(start, end), text.subrange(end, over));
        text::lemma_ink_bound(text.subrange(over, over + 1));
        lemma_strict_pieces_fit(text, end, over + 1, max);
        let rest = pieces(text, end, over + 1, max, true);
        let all = pieces(text, start, from, max, true);
        assert forall|i: int| 0 <= i < all.len() implies text::ink(
            text.subrange((#[trigger] all[i]).0, all[i].1),
        ) <= max by {
            if i > 0 {
                assert(all[i] == rest[i - 1]);
            }
        }
    }
}

/// Whether a piece keeps the limit as far as lines allow: one that exceeds it
/// exceeds it by one and lies within a line.
pub open spec fn fits_loosely(text: Seq<char>, part: (int, int), max: nat) -> bool {
    ||| text::ink(text.subrange(part.0, part.1)) <= max
    ||| {
        &&& text::ink(text.subrange(part.0, part.1)) == max + 1
        &&& forall|i: int| part.0 <= i < part.1 ==> #[trigger] text[i] != '\n'
    }
}

/// Without `strict`, every piece keeps the limit as far as lines allow.
pub proof fn lemma_loose_pieces_fit(text: Seq<char>, start: int, from: int, max: nat)
    requires
        0 <= start <= from <= text.len(),
        max >= 1,
        fits_loosely(text, (start, from), max),
    ensures
        forall|i: int|
            0 <= i < pieces(text, start, from, max, false).len() ==> fits_loosely(
                text,
                #[trigger] pieces(text, start, from, max, false)[i],
                max,
            ),
    decreases text.len() - from,
{
    let over = overfull(text, start, from, max);
    lemma_overfull_range(text, start, from, max);
    if from < text.len() {
        assert(text.subrange(start, from + 1) =~= text.subrange(start, from).push(text[from]));
        text::lemma_ink_push(text.subrange(start, from), text[from]);
    }
    if from < over {
        assert(text::ink(text.subrange(start, over - 1 + 1)) <= max);
    }
    if over < text.len() {
        let end = cut(text, from, over, max, false);
        lemma_last_line_end_range(text, from, over);
        lemma_last_line_end_last(text, from, over);
        let head = text.subrange(start, end);
        let tail = text.subrange(end, over);
        assert(text.subrange(start, over) =~= head + tail);
        text::lemma_ink_concat(head, tail);
        assert(text.subrange(end, over + 1) =~= tail.push(text[over]));
        text::lemma_ink_push(tail, text[over]);
        assert(text.subrange(start, over + 1) =~= text.subrange(start, over).push(text[over]));
        text::lemma_ink_push(text.subrange(start, over), text[over]);
        text::lemma_ink_bound(tail);
        lemma_loose_pieces_fit(text, end, over + 1, max);
        let rest = pieces(text, end, over + 1, max, false);
        let all = pieces(text, start, from, max, false);
        assert forall|i: int| 0 <= i < all.len() implies fits_loosely(
            text,
            #[trigger] all[i],
            max,
        ) by {
            if i > 0 {
                assert(all[i] == rest[i - 1]);
            }
        }
    }
}

/// A piece and the next one together hold more than the limit.
pub proof fn lemma_pieces_packed(text: Seq<char>, start: int, from: int, max: nat, strict: bool)
    requires
        0 <= start <= from <= text.len(),
        start < from || from == 0,
        max >= 1,
    ensures
        forall|i: int|
            0 <= i < pieces(text, start, from, max, strict).len() - 1 ==> text::ink(
                text.subrange(
                    (#[trigger] pieces(text, start, from, max, strict)[i]).0,
                    pieces(text, start, from, max, strict)[i + 1].1,
                ),
            ) > max,
    decreases text.len() - from,
{
    let over = overfull(text, start, from, max);
    lemma_overfull_range(text, start, from, max);
    if over < text.len() {
        let end = cut(text, from, over, max, strict);
        lemma_last_line_end_range(text, from, over);
        if over == start {
            text::lemma_ink_bound(text.subrange(0, 1));
        }
        lemma_pieces_packed(text, end, over + 1, max, strict);
        let rest = pieces(text, end, over + 1, max, strict);
        let all = pieces(text, start, from, max, strict);
        assert forall|i: int| 0 <= i < all.len() - 1 implies text::ink(
            text.subrange((#[trigger] all[i]).0, all[i + 1].1),
        ) > max by {
            if i == 0 {
                let next = overfull(text, end, over + 1, max);
                lemma_overfull_range(text, end, over + 1, max);
                lemma_last_line_end_range(text, over + 1, next);
                let stop = rest[0].1;
                assert(all[1] == rest[0]);
                assert(over + 1 <= stop <= text.len());
                let head = text.subrange(start, over + 1);
                let tail = text.subrange(over + 1, stop);
                assert(text.subrange(start, stop) =~= head + tail);
                text::lemma_ink_concat(head, tail);
            } else {
                assert(all[i] == rest[i - 1]);
                assert(all[i + 1] == rest[i - 1 + 1]);
            }
        }
    }
}

/// Whether a piece ends with a line feed, or else is as full as the limit
/// allows and holds no line feed after a visible character.
pub open spec fn ends_well(piece: Seq<char>, max: nat) -> bool {
    ||| piece.len() > 0 && piece.last() == '\n'
    ||| {
        &&& text::ink(piece) == max
        &&& forall|k: int|
            0 <= k < piece.len() && #[trigger] piece[k] == '\n' ==> text::ink(piece.take(k)) == 0
    }
}

/// With `strict`, every piece but the last ends with a line feed, or else is
/// as full as the limit allows and holds no line feed after a visible
/// character.
pub proof fn lemma_strict_pieces_end_well(text: Seq<char>, start: int, from: int, max: nat)
    requires
        0 <= start <= from <= text.len(),
        start < from || from == 0,
        max >= 1,
        text::ink(text.subrange(start, from)) <= max,
        forall|i: int| start <= i < from ==> #[trigger] text[i] != '\n',
    ensures
        forall|i: int|
            0 <= i < pieces(text, start, from, max, true).len() - 1 ==> ends_well(
                text.subrange(
                    (#[trigger] pieces(text, start, from, max, true)[i]).0,
                    pieces(text, start, from, max, true)[i].1,
                ),
                max,
            ),
    decreases text.len() - from,
{
    let over = overfull(text, start, from, max);
    lemma_overfull_range(text, start, from, max);
    if from < over {
        assert(text::ink(text.subrange(start, over - 1 + 1)) <= max);
    }
    if over < text.len() {
        let end = cut(text, from, over, max, true);
        lemma_last_line_end_range(text, from, over);
        lemma_last_line_end_last(text, from, over);
        let whole = text.subrange(start, over);
        assert(text.subrange(start, over + 1) =~= whole.push(text[over]));
        text::lemma_ink_push(whole, text[over]);
        assert(text::ink(whole) == max);
        assert(text[over] != '\n');
        assert(text.subrange(end, over + 1) =~= text.subrange(end, over).push(text[over]));
        text::lemma_ink_push(text.subrange(end, over), text[over]);
        if over == start {
            text::lemma_ink_bound(text.subrange(start, over));
        }
        if end == over {
            assert(text.subrange(over, over) =~= Seq::empty());
        }
        lemma_strict_pieces_end_well(text, end, over + 1, max);
        let rest = pieces(text, end, over + 1, max, true);
        let all = pieces(text, start, from, max, true);
        assert forall|i: int| 0 <= i < all.len() - 1 implies ends_well(
            text.subrange((#[trigger] all[i]).0, all[i].1),
            max,
        ) by {
            if i > 0 {
                assert(all[i] == rest[i - 1]);
            } else {
                lemma_first_ends_well(text, start, from, over, max);
            }
        }
    }
}

proof fn lemma_first_ends_well(text: Seq<char>, start: int, from: int, over: int, max: nat)
    requires
        0 <= start <= from <= over < text.len(),
        start < over,
        max >= 1,
        text::ink(text.subrange(start, over)) == max,
        !text::white_space(text[over]),
        forall|i: int| start <= i < from ==> #[trigger] text[i] != '\n',
    ensures
        ends_well(text.subrange(start, cut(text, from, over, max, true)), max),
{
    let end = cut(text, from, over, max, true);
    let piece = text.subrange(start, end);
    lemma_last_line_end_range(text, from, over);
    lemma_last_line_end_last(text, from, over);
    match last_line_end(text, from, over) {
        Some(line) => {
            if end == line {
                assert(piece.last() == text[line - 1]);
            } else {
                let tail = text.subrange(line, over);
                assert(text.subrange(line, over + 1) =~= tail.push(text[over]));
                text::lemma_ink_push(tail, text[over]);
                let head = text.subrange(start, line);
                assert(piece =~= head + tail);
                text::lemma_ink_concat(head, tail);
                assert(text::ink(head) == 0);
                assert forall|k: int|
                    0 <= k < piece.len() && #[trigger] piece[k] == '\n' implies text::ink(
                    piece.take(k),
                ) == 0 by {
                    assert(text[start + k] == '\n');
                    assert(start + k < line);
                    assert(head =~= piece.take(k) + head.skip(k));
                    text::lemma_ink_concat(piece.take(k), head.skip(k));
                }
            }
        },
        None => {
            assert forall|k: int|
                0 <= k < piece.len() && #[trigger] piece[k] == '\n' implies text::ink(
                piece.take(k),
            ) == 0 by {
                assert(text[start + k] == '\n');
            }
        },
    }
}

/// Pieces that lie end to end in characters lie end to end in bytes.
pub proof fn lemma_byte_ranges_tile(
    text: Seq<char>,
    base: int,
    parts: Seq<(int, int)>,
    start: int,
    end: int,
)
    requires
        span::tiles(parts, start, end),
        0 <= start,
        end <= text.len(),
    ensures
        span::tiles(
            byte_ranges(text, base, parts),
            base + text::offset(text, start),
            base + text::offset(text, end),
        ),
    decreases parts.len(),
{
    if parts.len() > 0 {
        let last = parts.last();
        span::lemma_tiles_order(parts.drop_last(), start, last.0);
        lemma_byte_ranges_tile(text, base, parts.drop_last(), start, last.0);
        assert(byte_ranges(text, base, parts).drop_last() =~= byte_ranges(
            text,
            base,
            parts.drop_last(),
        ));
        text::lemma_offsets(text, last.0, last.1);
    }
}

/// The byte ranges of the pieces of a text that starts at the offset `base`.
pub open spec fn byte_ranges(text: Seq<char>, base: int, parts: Seq<(int, int)>) -> Seq<(int, int)> {
    Seq::new(
        parts.len(),
        |i: int| (base + text::offset(text, parts[i].0), base + text::offset(text, parts[i].1)),
    )
}

/// Byte ranges as pairs of offsets.
pub open spec fn range_pairs(ranges: Seq<Range<usize>>) -> Seq<(int, int)> {
    Seq::new(ranges.len(), |i: int| (ranges[i].start as int, ranges[i].end as int))
}

/// The byte ranges of the pieces of `text`, which starts at the offset `base`.
pub fn split_ranges(text: &str, base: usize, max_size: usize, strict: bool) -> (ranges: Vec<
    Range<usize>,
>)
    requires
        max_size >= 1,
        base + text::byte_len(text@) <= usize::MAX,
    ensures
        range_pairs(ranges@) == byte_ranges(
            text@,
            base as int,
            pieces_of(text@, max_size as nat, strict),
        ),
{
    let bytes: usize = text::byte_count(text);
    let ghost chars = text@;
    let ghost max = max_size as nat;
    let mut ranges: Vec<Range<usize>> = Vec::new();
    let mut piece_start: usize = 0;
    let mut piece_size: usize = 0;
    let mut line_end: Option<usize> = None;
    let mut at: usize = 0;
    let ghost mut start: int = 0;
    let ghost mut from: int = 0;
    let ghost mut done: Seq<(int, int)> = Seq::empty();
    proof {
        text::lemma_byte_len_bounds(chars);
        assert(chars.take(0) =~= Seq::empty());
        assert(chars.subrange(0, 0) =~= Seq::empty());
        assert(done + pieces(chars, 0, 0, max, strict) =~= pieces(chars, 0, 0, max, strict));
        assert(range_pairs(ranges@) =~= byte_ranges(chars, base as int, done));
    }
    for character in iter: text.chars()
        invariant
            iter.seq() == chars,
            chars == text@,
            max == max_size as nat,
            max_size >= 1,
            bytes == text::byte_len(chars),
            chars.len() <= bytes,
            base + bytes <= usize::MAX,
            at == text::offset(chars, iter.index()),
            0 <= start <= from <= iter.index(),
            start < from || from == 0,
            piece_start == text::offset(chars, start),
            piece_size == text::ink(chars.subrange(start, iter.index())),
            forall|j: int|
                from <= j < iter.index() ==> text::ink(#[trigger] chars.subrange(start, j + 1)) <= max,
            match last_line_end(chars, from, iter.index()) {
                Some(line) => line_end == Some(text::offset(chars, line) as usize),
                None => line_end is None,
            },
            done + pieces(chars, start, from, max, strict) == pieces_of(chars, max, strict),
            range_pairs(ranges@) == byte_ranges(chars, base as int, done),
    {
        let ghost index = iter.index();
        proof {
            text::lemma_offsets(chars, index, index + 1);
            assert(chars.subrange(index, index + 1) =~= seq![character]);
            assert(chars.subrange(start, index + 1) =~= chars.subrange(start, index).push(
                character,
            ));
            text::lemma_ink_push(chars.subrange(start, index), character);
            text::lemma_ink_bound(chars.subrange(start, index));
        }
        let next: usize = at + text::char_width(character);
        let character_size: usize = if character.is_whitespace() {
            0
        } else {
            1
        };
        if piece_size > 0 && piece_size + character_size > max_size {
            proof {
                lemma_overfull_is(chars, start, from, max, index);
                lemma_last_line_end_range(chars, from, index);
            }
            let mut end: usize = at;
            let ghost mut end_index: int = index;
            if let Some(line) = line_end {
                let ghost line_index = last_line_end(chars, from, index)->0;
                proof {
                    text::lemma_offsets(chars, line_index, index + 1);
                    text::lemma_offsets(chars, line_index, index);
                }
                if !strict || text::range_non_whitespace_size(text, line..next) <= max_size {
                    end = line;
                    proof {
                        end_index = line_index;
                    }
                }
            }
            proof {
                assert(end_index == cut(chars, from, index, max, strict));
                text::lemma_offsets(chars, start, end_index);
                text::lemma_offsets(chars, end_index, index + 1);
            }
            let ghost before = ranges@;
            let range: Range<usize> = base + piece_start..base + end;
            ranges.push(range);
            proof {
                let grown = done.push((start, end_index));
                assert(range_pairs(ranges@) =~= range_pairs(before).push(
                    (base + piece_start, base + end),
                ));
                assert(byte_ranges(chars, base as int, grown) =~= byte_ranges(
                    chars,
                    base as int,
                    done,
                ).push((base + piece_start, base + end)));
                assert(done + pieces(chars, start, from, max, strict) =~= grown + pieces(
                    chars,
                    end_index,
                    index + 1,
                    max,
                    strict,
                ));
                done = grown;
                start = end_index;
                from = index + 1;
            }
            piece_start = end;
            piece_size = text::range_non_whitespace_size(text, end..next);
            line_end = None;
        } else {
            proof {
                assert forall|j: int| from <= j < index + 1 implies text::ink(
                    #[trigger] chars.subrange(start, j + 1),
                ) <= max by {
                    if j == index {
                    }
                }
            }
            piece_size = piece_size + character_size;
            if character == '\n' {
                line_end = Some(next);
            }
        }
        at = next;
    }
    proof {
        assert(chars.take(chars.len() as int) =~= chars);
        lemma_overfull_is(chars, start, from, max, chars.len() as int);
        text::lemma_offsets(chars, start, chars.len() as int);
    }
    if piece_start < bytes {
        let ghost before = ranges@;
        let range: Range<usize> = base + piece_start..base + bytes;
        ranges.push(range);
        proof {
            let last = (start, chars.len() as int);
            assert(range_pairs(ranges@) =~= range_pairs(before).push(
                (base + piece_start, base + bytes),
            ));
            assert(byte_ranges(chars, base as int, done.push(last)) =~= byte_ranges(
                chars,
                base as int,
                done,
            ).push((base + piece_start, base + bytes)));
            assert(done + seq![last] =~= done.push(last));
        }
    } else {
        assert(done + Seq::<(int, int)>::empty() =~= done);
    }
    ranges
}

// ---------------------------------------------------------------------------
// Where pieces end
// ---------------------------------------------------------------------------

/// Whether no line that ends after a piece could be part of it.
pub open spec fn no_line_fits_after(text: Seq<char>, part: (int, int), max: nat) -> bool {
    forall|k: int|
        part.1 <= k < text.len() && #[trigger] text[k] == '\n' ==> text::ink(
            text.subrange(part.0, k + 1),
        ) > max
}

proof fn lemma_ink_grows(text: Seq<char>, start: int, middle: int, end: int)
    requires
        0 <= start <= middle <= end <= text.len(),
    ensures
        text::ink(text.subrange(start, middle)) <= text::ink(text.subrange(start, end)),
{
    let head = text.subrange(start, middle);
    let tail = text.subrange(middle, end);
    assert(text.subrange(start, end) =~= head + tail);
    text::lemma_ink_concat(head, tail);
}

/// A piece that is not the last goes as far as whole lines go: with any later
/// line end it would exceed the limit.
pub proof fn lemma_pieces_reach(text: Seq<char>, start: int, from: int, max: nat, strict: bool)
    requires
        0 <= start <= from <= text.len(),
        max >= 1,
    ensures
        forall|i: int|
            0 <= i < pieces(text, start, from, max, strict).len() - 1 ==> no_line_fits_after(
                text,
                #[trigger] pieces(text, start, from, max, strict)[i],
                max,
            ),
    decreases text.len() - from,
{
    let over = overfull(text, start, from, max);
    lemma_overfull_range(text, start, from, max);
    if over < text.len() {
        let end = cut(text, from, over, max, strict);
        lemma_last_line_end_range(text, from, over);
        lemma_last_line_end_last(text, from, over);
        lemma_pieces_reach(text, end, over + 1, max, strict);
        let rest = pieces(text, end, over + 1, max, strict);
        let all = pieces(text, start, from, max, strict);
        assert forall|i: int| 0 <= i < all.len() - 1 implies no_line_fits_after(
            text,
            #[trigger] all[i],
            max,
        ) by {
            if i > 0 {
                assert(all[i] == rest[i - 1]);
            } else {
                assert forall|k: int|
                    end <= k < text.len() && #[trigger] text[k] == '\n' implies text::ink(
                    text.subrange(start, k + 1),
                ) > max by {
                    assert(k >= over);
                    lemma_ink_grows(text, start, over + 1, k + 1);
                }
            }
        }
    }
}

/// Whether a piece that is followed by another ends with a line, or before a
/// visible character for which it has no room; and is not blank.
pub open spec fn ends_before_visible(text: Seq<char>, part: (int, int)) -> bool {
    &&& text[part.1 - 1] == '\n' || !text::white_space(text[part.1])
    &&& text::ink(text.subrange(part.0, part.1)) > 0
}

/// With `strict`, a piece that is not the last holds something visible, and ends
/// with a line or before a visible character.
pub proof fn lemma_strict_pieces_stop(text: Seq<char>, start: int, from: int, max: nat)
    requires
        0 <= start <= from <= text.len(),
        start < from || from == 0,
        max >= 1,
        text::ink(text.subrange(start, from)) <= max,
    ensures
        forall|i: int|
            0 <= i < pieces(text, start, from, max, true).len() - 1 ==> ends_before_visible(
                text,
                #[trigger] pieces(text, start, from, max, true)[i],
            ),
    decreases text.len() - from,
{
    let over = overfull(text, start, from, max);
    lemma_overfull_range(text, start, from, max);
    if from < over {
        assert(text::ink(text.subrange(start, over - 1 + 1)) <= max);
    }
    if over < text.len() {
        let end = cut(text, from, over, max, true);
        lemma_last_line_end_range(text, from, over);
        let whole = text.subrange(start, over);
        assert(text.subrange(start, over + 1) =~= whole.push(text[over]));
        text::lemma_ink_push(whole, text[over]);
        assert(!text::white_space(text[over]));
        if over == start {
            text::lemma_ink_bound(whole);
        }
        assert(text.subrange(end, over + 1) =~= text.subrange(end, over).push(text[over]));
        text::lemma_ink_push(text.subrange(end, over), text[over]);
        let head = text.subrange(start, end);
        let tail = text.subrange(end, over);
        assert(whole =~= head + tail);
        text::lemma_ink_concat(head, tail);
        if end == over {
            assert(text.subrange(over, over) =~= Seq::empty());
        }
        lemma_strict_pieces_stop(text, end, over + 1, max);
        let rest = pieces(text, end, over + 1, max, true);
        let all = pieces(text, start, from, max, true);
        assert forall|i: int| 0 <= i < all.len() - 1 implies ends_before_visible(
            text,
            #[trigger] all[i],
        ) by {
            if i > 0 {
                assert(all[i] == rest[i - 1]);
            }
        }
    }
}

/// Whether a piece that is followed by another ends with a line, or else is full
/// and holds no line end but at its start; and, where it is just full, ends
/// before a visible character.
pub open spec fn ends_loosely(text: Seq<char>, part: (int, int), max: nat) -> bool {
    ||| text[part.1 - 1] == '\n'
    ||| {
        &&& text::ink(text.subrange(part.0, part.1)) >= max
        &&& forall|k: int| part.0 < k < part.1 ==> #[trigger] text[k] != '\n'
        &&& text::ink(text.subrange(part.0, part.1)) == max ==> !text::white_space(text[part.1])
    }
}

/// Without `strict`, every piece but the last ends with a line or is full.
pub proof fn lemma_loose_pieces_stop(text: Seq<char>, start: int, from: int, max: nat)
    requires
        0 <= start <= from <= text.len(),
        start < from || from == 0,
        max >= 1,
        forall|k: int| start < k < from ==> #[trigger] text[k] != '\n',
        from > start + 1 ==> fits_loosely(text, (start, from), max),
    ensures
        forall|i: int|
            0 <= i < pieces(text, start, from, max, false).len() - 1 ==> ends_loosely(
                text,
                #[trigger] pieces(text, start, from, max, false)[i],
                max,
            ),
    decreases text.len() - from,
{
    let over = overfull(text, start, from, max);
    lemma_overfull_range(text, start, from, max);
    if from < over {
        assert(text::ink(text.subrange(start, over - 1 + 1)) <= max);
    }
    if over < text.len() {
        let end = cut(text, from, over, max, false);
        lemma_last_line_end_range(text, from, over);
        lemma_last_line_end_last(text, from, over);
        let whole = text.subrange(start, over);
        assert(text.subrange(start, over + 1) =~= whole.push(text[over]));
        text::lemma_ink_push(whole, text[over]);
        if over == start {
            text::lemma_ink_bound(text.subrange(start, over + 1));
        }
        text::lemma_ink_bound(text.subrange(start, from));
        assert(text.subrange(end, over + 1) =~= text.subrange(end, over).push(text[over]));
        text::lemma_ink_push(text.subrange(end, over), text[over]);
        let head = text.subrange(start, end);
        let tail = text.subrange(end, over);
        assert(whole =~= head + tail);
        text::lemma_ink_concat(head, tail);
        lemma_loose_pieces_stop(text, end, over + 1, max);
        let rest = pieces(text, end, over + 1, max, false);
        let all = pieces(text, start, from, max, false);
        assert forall|i: int| 0 <= i < all.len() - 1 implies ends_loosely(
            text,
            #[trigger] all[i],
            max,
        ) by {
            if i > 0 {
                assert(all[i] == rest[i - 1]);
            }
        }
    }
}

} // verus!
