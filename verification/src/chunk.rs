//! Chunks of a source text: what they are, when they cover the text, and the
//! chunks of text that has no syntax tree.

use crate::span;
use crate::split;
use crate::text;
use std::ops::Range;
use vstd::prelude::*;
use vstd::utf8::*;

verus! {

/// A run of source text that is indexed as one unit.
#[derive(Debug, Eq, PartialEq)]
pub struct CastChunk {
    /// The bytes of the source that the chunk covers.
    pub byte_range: Range<usize>,
    /// How many characters of the chunk are not white space.
    pub non_whitespace_size: usize,
    /// The kind of the first syntax node in the chunk.
    pub primary_node_kind: Option<String>,
    /// How many sibling nodes were merged into the chunk.
    pub merged_node_count: usize,
}

/// A chunk as a mathematical value.
pub struct ChunkModel {
    pub start: int,
    pub end: int,
    pub size: nat,
    pub kind: Option<Seq<char>>,
    pub merged: nat,
}

impl View for CastChunk {
    type V = ChunkModel;

    open spec fn view(&self) -> ChunkModel {
        ChunkModel {
            start: self.byte_range.start as int,
            end: self.byte_range.end as int,
            size: self.non_whitespace_size as nat,
            kind: text::optional_text(self.primary_node_kind),
            merged: self.merged_node_count as nat,
        }
    }
}

impl Clone for CastChunk {
    fn clone(&self) -> (copy: Self)
        ensures
            copy@ == self@,
    {
        CastChunk {
            byte_range: self.byte_range.start..self.byte_range.end,
            non_whitespace_size: self.non_whitespace_size,
            primary_node_kind: text::clone_optional(&self.primary_node_kind),
            merged_node_count: self.merged_node_count,
        }
    }
}

/// Whether and how finely sources are cut along their syntax.
#[derive(Clone, Copy, Debug, Eq, PartialEq)]
pub struct CastChunkingOptions {
    pub enabled: bool,
    pub max_size: usize,
}

impl CastChunkingOptions {
    pub fn disabled(max_size: usize) -> (options: Self)
        ensures
            !options.enabled,
            options.max_size == max_size,
    {
        Self { enabled: false, max_size }
    }

    pub fn enabled(max_size: usize) -> (options: Self)
        ensures
            options.enabled,
            options.max_size == max_size,
    {
        Self { enabled: true, max_size }
    }
}

/// The chunks of a list as mathematical values.
pub open spec fn models(chunks: Seq<CastChunk>) -> Seq<ChunkModel> {
    Seq::new(chunks.len(), |i: int| chunks[i]@)
}

/// The byte ranges of a list of chunks.
pub open spec fn spans(chunks: Seq<ChunkModel>) -> Seq<(int, int)> {
    Seq::new(chunks.len(), |i: int| (chunks[i].start, chunks[i].end))
}

/// Whether ranges of bytes of `source` start and end between characters.
pub open spec fn on_boundaries(source: Seq<char>, ranges: Seq<(int, int)>) -> bool {
    forall|i: int|
        0 <= i < ranges.len() ==> text::is_boundary(source, (#[trigger] ranges[i]).0)
            && text::is_boundary(source, ranges[i].1)
}

/// Whether chunks cover `source` from its start to its end, without gap or
/// overlap, without an empty chunk, and without cutting a character.
pub open spec fn covers(chunks: Seq<ChunkModel>, source: Seq<char>) -> bool {
    &&& chunks.len() > 0
    &&& span::tiles(spans(chunks), 0, text::byte_len(source) as int)
    &&& on_boundaries(source, spans(chunks))
}

/// Whether chunks record their true sizes and none exceeds `max`.
pub open spec fn sizes_within(source: Seq<char>, chunks: Seq<ChunkModel>, max: nat) -> bool {
    forall|i: int|
        0 <= i < chunks.len() ==> (#[trigger] chunks[i]).size == text::ink_between(
            source,
            chunks[i].start,
            chunks[i].end,
        ) && chunks[i].size <= max
}

/// The texts of ranges of bytes, joined.
pub open spec fn joined(source: Seq<char>, ranges: Seq<(int, int)>) -> Seq<char>
    decreases ranges.len(),
{
    if ranges.len() == 0 {
        Seq::empty()
    } else {
        joined(source, ranges.drop_last()) + match text::slice_chars(
            source,
            ranges.last().0,
            ranges.last().1,
        ) {
            Some(slice) => slice,
            None => Seq::empty(),
        }
    }
}

/// The chunk that holds one piece of `text`, which starts at the offset `base`.
pub open spec fn text_chunk(text: Seq<char>, base: int, part: (int, int)) -> ChunkModel {
    ChunkModel {
        start: base + text::offset(text, part.0),
        end: base + text::offset(text, part.1),
        size: text::ink(text.subrange(part.0, part.1)),
        kind: None,
        merged: 0,
    }
}

/// The chunks that hold the pieces of `text`, which starts at the offset `base`.
pub open spec fn text_chunks(text: Seq<char>, base: int, parts: Seq<(int, int)>) -> Seq<ChunkModel> {
    Seq::new(parts.len(), |i: int| text_chunk(text, base, parts[i]))
}

/// The greatest size that a limit admits: a limit of zero counts as one.
pub open spec fn effective_max(max_size: int) -> nat {
    if max_size < 1 {
        1
    } else {
        max_size as nat
    }
}

/// The chunks of a range of `source` that is cut as plain text. There are none
/// where the range does not delimit a slice.
pub open spec fn fallback_chunks(source: Seq<char>, start: int, end: int, max: nat) -> Seq<
    ChunkModel,
> {
    match text::slice_chars(source, start, end) {
        Some(slice) => text_chunks(slice, start, split::pieces_of(slice, max, true)),
        None => Seq::empty(),
    }
}

// ---------------------------------------------------------------------------
// Lemmas on ranges that lie end to end
// ---------------------------------------------------------------------------

/// Ranges that lie end to end read, joined, as the text from the first start
/// to the last end.
pub proof fn lemma_tiles_joined(
    source: Seq<char>,
    ranges: Seq<(int, int)>,
    start: int,
    end: int,
)
    requires
        span::tiles(ranges, start, end),
        on_boundaries(source, ranges),
        text::is_boundary(source, start),
        text::is_boundary(source, end),
    ensures
        start <= end,
        text::slice_chars(source, start, end) == Some(joined(source, ranges)),
    decreases ranges.len(),
{
    span::lemma_tiles_order(ranges, start, end);
    text::lemma_slice_indices(source, start, end);
    if ranges.len() == 0 {
        assert(joined(source, ranges) =~= source.subrange(
            text::char_index(source, start),
            text::char_index(source, end),
        ));
    } else {
        let middle = ranges.last().0;
        assert(ranges.drop_last() =~= ranges.take(ranges.len() - 1));
        assert forall|i: int| 0 <= i < ranges.drop_last().len() implies text::is_boundary(
            source,
            (#[trigger] ranges.drop_last()[i]).0,
        ) && text::is_boundary(source, ranges.drop_last()[i].1) by {
            assert(ranges.drop_last()[i] == ranges[i]);
        }
        assert(text::is_boundary(source, ranges[ranges.len() - 1].0));
        lemma_tiles_joined(source, ranges.drop_last(), start, middle);
        text::lemma_slice_indices(source, start, middle);
        text::lemma_slice_indices(source, middle, end);
        let i = text::char_index(source, start);
        let j = text::char_index(source, middle);
        let k = text::char_index(source, end);
        assert(source.subrange(i, k) =~= source.subrange(i, j) + source.subrange(j, k));
    }
}

// ---------------------------------------------------------------------------
// Executable functions
// ---------------------------------------------------------------------------

/// Appends the chunk that covers a range as plain text, unless it is empty.
pub fn push_text_chunk(source: &str, chunks: &mut Vec<CastChunk>, byte_range: Range<usize>)
    ensures
        models(final(chunks)@) == if byte_range.start < byte_range.end {
            models(old(chunks)@).push(
                ChunkModel {
                    start: byte_range.start as int,
                    end: byte_range.end as int,
                    size: text::ink_between(
                        source@,
                        byte_range.start as int,
                        byte_range.end as int,
                    ),
                    kind: None,
                    merged: 0,
                },
            )
        } else {
            models(old(chunks)@)
        },
{
    push_ast_chunk(source, chunks, byte_range, None, 0);
}

/// Appends the chunk that covers a range of syntax nodes, unless it is empty.
pub fn push_ast_chunk(
    source: &str,
    chunks: &mut Vec<CastChunk>,
    byte_range: Range<usize>,
    primary_node_kind: Option<String>,
    merged_node_count: usize,
)
    ensures
        models(final(chunks)@) == if byte_range.start < byte_range.end {
            models(old(chunks)@).push(
                ChunkModel {
                    start: byte_range.start as int,
                    end: byte_range.end as int,
                    size: text::ink_between(
                        source@,
                        byte_range.start as int,
                        byte_range.end as int,
                    ),
                    kind: text::optional_text(primary_node_kind),
                    merged: merged_node_count as nat,
                },
            )
        } else {
            models(old(chunks)@)
        },
{
    if byte_range.start >= byte_range.end {
        return ;
    }
    let non_whitespace_size: usize = text::range_non_whitespace_size(
        source,
        byte_range.start..byte_range.end,
    );
    chunks.push(CastChunk { byte_range, non_whitespace_size, primary_node_kind, merged_node_count });
    proof {
        let grown = chunks@;
        assert(models(grown) =~= models(old(chunks)@).push(grown.last()@));
    }
}

/// Cuts a range of `source` as plain text into chunks of at most `max_size`
/// characters that are not white space, at line ends where that is possible.
pub fn fallback_text_chunks(source: &str, range: Range<usize>, max_size: usize) -> (chunks: Vec<
    CastChunk,
>)
    ensures
        models(chunks@) == fallback_chunks(
            source@,
            range.start as int,
            range.end as int,
            effective_max(max_size as int),
        ),
{
    let mut chunks: Vec<CastChunk> = Vec::new();
    let slice = match text::slice_text(source, range.start, range.end) {
        Some(slice) => slice,
        None => {
            assert(models(chunks@) =~= Seq::empty());
            return chunks;
        },
    };
    let max_size: usize = if max_size < 1 {
        1
    } else {
        max_size
    };
    let ghost start = range.start as int;
    let ghost parts = split::pieces_of(slice@, max_size as nat, true);
    proof {
        text::lemma_slice_indices(source@, start, range.end as int);
        split::lemma_pieces_tile(slice@, 0, 0, max_size as nat, true);
        span::lemma_tiles_bounds(parts, 0, slice@.len() as int);
    }
    let ranges = split::split_ranges(slice, range.start, max_size, true);
    let ghost wanted = text_chunks(slice@, start, parts);
    assert(models(chunks@) =~= wanted.take(0));
    assert(split::range_pairs(ranges@).len() == parts.len());
    for index in 0..ranges.len()
        invariant
            text::slice_chars(source@, start, range.end as int) == Some(slice@),
            start == range.start as int,
            wanted == text_chunks(slice@, start, parts),
            ranges@.len() == parts.len(),
            split::range_pairs(ranges@) == split::byte_ranges(slice@, start, parts),
            models(chunks@) == wanted.take(index as int),
            forall|i: int|
                0 <= i < parts.len() ==> 0 <= (#[trigger] parts[i]).0 < parts[i].1 <= slice@.len(),
    {
        let piece: Range<usize> = ranges[index].start..ranges[index].end;
        proof {
            let part = parts[index as int];
            assert(split::range_pairs(ranges@)[index as int] == split::byte_ranges(
                slice@,
                start,
                parts,
            )[index as int]);
            lemma_piece_chunk(source@, start, range.end as int, part);
            assert(wanted.take(index + 1) =~= wanted.take(index as int).push(
                wanted[index as int],
            ));
        }
        push_text_chunk(source, &mut chunks, piece);
    }
    assert(wanted.take(wanted.len() as int) =~= wanted);
    chunks
}

/// A piece of a slice of `source` has the ink of its bytes in `source`.
proof fn lemma_piece_chunk(source: Seq<char>, start: int, end: int, part: (int, int))
    requires
        text::slice_chars(source, start, end) is Some,
        0 <= part.0 <= part.1 <= text::slice_chars(source, start, end)->0.len(),
    ensures
        ({
            let slice = text::slice_chars(source, start, end)->0;
            let chunk = text_chunk(slice, start, part);
            &&& text::is_boundary(source, chunk.start)
            &&& text::is_boundary(source, chunk.end)
            &&& start <= chunk.start <= chunk.end <= end
            &&& part.0 < part.1 ==> chunk.start < chunk.end
            &&& chunk.size == text::ink_between(source, chunk.start, chunk.end)
            &&& text::slice_chars(source, chunk.start, chunk.end) == Some(
                slice.subrange(part.0, part.1),
            )
        }),
{
    let slice = text::slice_chars(source, start, end)->0;
    text::lemma_slice_indices(source, start, end);
    let i = text::char_index(source, start);
    let j = text::char_index(source, end);
    let a = i + part.0;
    let b = i + part.1;
    text::lemma_offsets(slice, part.0, part.1);
    text::lemma_offsets(slice, part.1, slice.len() as int);
    assert(slice.take(slice.len() as int) =~= slice);
    text::lemma_offsets(source, a, b);
    text::lemma_offsets(source, i, a);
    text::lemma_offsets(source, i, b);
    assert(slice.take(part.0) =~= source.subrange(i, a));
    assert(slice.take(part.1) =~= source.subrange(i, b));
    assert(slice.subrange(part.0, part.1) =~= source.subrange(a, b));
}

/// Whether chunks cover `source` exactly.
pub fn validate_chunks(chunks: &[CastChunk], source: &str) -> (valid: bool)
    ensures
        valid == covers(models(chunks@), source@),
{
    let ghost ranges = spans(models(chunks@));
    if chunks.len() == 0 {
        return false;
    }
    let length: usize = text::byte_count(source);
    let mut previous_end: usize = 0;
    assert(ranges.take(0) =~= Seq::empty());
    for index in 0..chunks.len()
        invariant
            ranges == spans(models(chunks@)),
            length == text::byte_len(source@),
            span::tiles(ranges.take(index as int), 0, previous_end as int),
            on_boundaries(source@, ranges.take(index as int)),
    {
        let start: usize = chunks[index].byte_range.start;
        let end: usize = chunks[index].byte_range.end;
        proof {
            assert(ranges[index as int] == (start as int, end as int));
            assert(ranges.take(index + 1).drop_last() =~= ranges.take(index as int));
            encode_utf8_valid_utf8(source@);
            if covers(models(chunks@), source@) {
                assert(text::is_boundary(source@, ranges[index as int].0));
                assert(text::is_boundary(source@, ranges[index as int].1));
                span::lemma_tiles_prefix(ranges, 0, length as int, index as int);
                if index > 0 {
                    span::lemma_tiles_prefix(ranges, 0, length as int, index - 1);
                    assert(ranges.take(index as int).last() == ranges[index - 1]);
                } else {
                    assert(ranges.take(1).drop_last() =~= Seq::empty());
                }
            }
        }
        if start >= end {
            return false;
        }
        if end > length {
            return false;
        }
        if !source.is_char_boundary(start) || !source.is_char_boundary(end) {
            return false;
        }
        if start != previous_end {
            return false;
        }
        previous_end = end;
        proof {
            assert forall|i: int| 0 <= i < index + 1 implies text::is_boundary(
                source@,
                (#[trigger] ranges.take(index + 1)[i]).0,
            ) && text::is_boundary(source@, ranges.take(index + 1)[i].1) by {
                if i < index {
                    assert(ranges.take(index as int)[i] == ranges.take(index + 1)[i]);
                }
            }
        }
    }
    proof {
        assert(ranges.take(ranges.len() as int) =~= ranges);
    }
    previous_end == length
}


// ---------------------------------------------------------------------------
// Laws
// ---------------------------------------------------------------------------

/// Cutting as plain text loses nothing: the chunks lie end to end over the
/// range, start and end between characters, and read, joined, as the range.
/// None of them holds more than the limit, and none has a kind or merged nodes.
pub proof fn law_fallback_chunks(source: Seq<char>, start: int, end: int, max: nat)
    requires
        start <= end,
        text::is_boundary(source, start),
        text::is_boundary(source, end),
        max >= 1,
    ensures
        span::tiles(spans(fallback_chunks(source, start, end, max)), start, end),
        on_boundaries(source, spans(fallback_chunks(source, start, end, max))),
        text::slice_chars(source, start, end) == Some(
            joined(source, spans(fallback_chunks(source, start, end, max))),
        ),
        sizes_within(source, fallback_chunks(source, start, end, max), max),
        forall|i: int|
            0 <= i < fallback_chunks(source, start, end, max).len() ==> (
            #[trigger] fallback_chunks(source, start, end, max)[i]).kind is None
                && fallback_chunks(source, start, end, max)[i].merged == 0,
{
    text::lemma_slice_indices(source, start, end);
    let slice = text::slice_chars(source, start, end)->0;
    let parts = split::pieces_of(slice, max, true);
    let chunks = fallback_chunks(source, start, end, max);
    split::lemma_pieces_tile(slice, 0, 0, max, true);
    span::lemma_tiles_bounds(parts, 0, slice.len() as int);
    assert(slice.subrange(0, 0) =~= Seq::empty());
    split::lemma_strict_pieces_fit(slice, 0, 0, max);
    split::lemma_byte_ranges_tile(slice, start, parts, 0, slice.len() as int);
    assert(spans(chunks) =~= split::byte_ranges(slice, start, parts));
    assert(slice.take(0) =~= Seq::empty());
    assert(slice.take(slice.len() as int) =~= slice);
    assert forall|i: int| 0 <= i < chunks.len() implies {
        let chunk = #[trigger] chunks[i];
        &&& text::is_boundary(source, chunk.start)
        &&& text::is_boundary(source, chunk.end)
        &&& chunk.size == text::ink_between(source, chunk.start, chunk.end)
        &&& chunk.size <= max
    } by {
        assert(0 <= parts[i].0 < parts[i].1 <= slice.len());
        lemma_piece_chunk(source, start, end, parts[i]);
    }
    assert forall|i: int| 0 <= i < spans(chunks).len() implies text::is_boundary(
        source,
        (#[trigger] spans(chunks)[i]).0,
    ) && text::is_boundary(source, spans(chunks)[i].1) by {
        assert(chunks[i].start == spans(chunks)[i].0);
    }
    lemma_tiles_joined(source, spans(chunks), start, end);
}

/// Of chunks that are cut as plain text, two neighbours together exceed the
/// limit. Every chunk but the last ends with a line feed, or else is as full as
/// the limit allows and holds no line feed after a visible character.
pub proof fn law_fallback_chunks_packed(source: Seq<char>, start: int, end: int, max: nat)
    requires
        start <= end,
        text::is_boundary(source, start),
        text::is_boundary(source, end),
        max >= 1,
    ensures
        ({
            let chunks = fallback_chunks(source, start, end, max);
            &&& forall|i: int|
                0 <= i < chunks.len() - 1 ==> (#[trigger] chunks[i]).size + chunks[i + 1].size
                    > max
            &&& forall|i: int|
                0 <= i < chunks.len() - 1 ==> {
                    let slice = text::slice_chars(
                        source,
                        (#[trigger] chunks[i]).start,
                        chunks[i].end,
                    );
                    slice is Some && split::ends_well(slice->0, max)
                }
        }),
{
    text::lemma_slice_indices(source, start, end);
    let slice = text::slice_chars(source, start, end)->0;
    let parts = split::pieces_of(slice, max, true);
    let chunks = fallback_chunks(source, start, end, max);
    split::lemma_pieces_tile(slice, 0, 0, max, true);
    span::lemma_tiles_bounds(parts, 0, slice.len() as int);
    assert(slice.subrange(0, 0) =~= Seq::empty());
    split::lemma_pieces_packed(slice, 0, 0, max, true);
    split::lemma_strict_pieces_end_well(slice, 0, 0, max);
    assert forall|i: int| 0 <= i < chunks.len() - 1 implies (#[trigger] chunks[i]).size
        + chunks[i + 1].size > max by {
        lemma_neighbours(slice, parts, i);
        assert(text::ink(slice.subrange(parts[i].0, parts[i + 1].1)) > max);
    }
    assert forall|i: int| 0 <= i < chunks.len() - 1 implies {
        let piece = text::slice_chars(source, (#[trigger] chunks[i]).start, chunks[i].end);
        piece is Some && split::ends_well(piece->0, max)
    } by {
        assert(0 <= parts[i].0 < parts[i].1 <= slice.len());
        lemma_piece_chunk(source, start, end, parts[i]);
    }
}

/// The ink of two neighbouring pieces is that of the text over both.
pub proof fn lemma_neighbours(text: Seq<char>, parts: Seq<(int, int)>, index: int)
    requires
        span::tiles(parts, 0, text.len() as int),
        0 <= index < parts.len() - 1,
    ensures
        text::ink(text.subrange(parts[index].0, parts[index].1)) + text::ink(
            text.subrange(parts[index + 1].0, parts[index + 1].1),
        ) == text::ink(text.subrange(parts[index].0, parts[index + 1].1)),
{
    span::lemma_tiles_bounds(parts, 0, text.len() as int);
    span::lemma_tiles_prefix(parts, 0, text.len() as int, index + 1);
    let before = parts.take(index + 1);
    assert(before.last() == parts[index]);
    assert(0 <= parts[index].0 < parts[index].1);
    assert(parts[index + 1].0 < parts[index + 1].1 <= text.len());
    let left = text.subrange(parts[index].0, parts[index].1);
    let right = text.subrange(parts[index + 1].0, parts[index + 1].1);
    assert(text.subrange(parts[index].0, parts[index + 1].1) =~= left + right);
    text::lemma_ink_concat(left, right);
}

/// A range that does not delimit a slice gives no chunks.
pub proof fn law_fallback_chunks_of_invalid_range(
    source: Seq<char>,
    start: int,
    end: int,
    max: nat,
)
    requires
        start > end || !text::is_boundary(source, start) || !text::is_boundary(source, end),
    ensures
        fallback_chunks(source, start, end, max) == Seq::<ChunkModel>::empty(),
{
}

/// Chunks that pass validation read, joined, as the source.
pub proof fn law_valid_chunks_reconstruct(chunks: Seq<ChunkModel>, source: Seq<char>)
    requires
        covers(chunks, source),
    ensures
        joined(source, spans(chunks)) == source,
{
    let length = text::byte_len(source) as int;
    assert(source.take(0) =~= Seq::empty());
    assert(source.take(source.len() as int) =~= source);
    text::lemma_offsets(source, 0, source.len() as int);
    assert(source.subrange(0, source.len() as int) =~= source);
    lemma_tiles_joined(source, spans(chunks), 0, length);
}

/// Whether a chunk goes as far as whole lines go: with the text up to any later
/// line end before `end` it would hold more than the limit.
pub open spec fn no_line_end_fits(source: Seq<char>, one: ChunkModel, end: int, max: nat) -> bool {
    forall|line_end: int|
        one.end < line_end <= end && #[trigger] text::is_boundary(source, line_end)
            && text::slice_chars(source, one.end, line_end)->0.last() == '\n' ==> text::ink_between(
            source,
            one.start,
            line_end,
        ) > max
}

pub proof fn lemma_no_line_end_fits(
    source: Seq<char>,
    start: int,
    end: int,
    part: (int, int),
    max: nat,
)
    requires
        text::slice_chars(source, start, end) is Some,
        0 <= part.0 <= part.1 <= text::slice_chars(source, start, end)->0.len(),
        split::no_line_fits_after(text::slice_chars(source, start, end)->0, part, max),
    ensures
        no_line_end_fits(
            source,
            text_chunk(text::slice_chars(source, start, end)->0, start, part),
            end,
            max,
        ),
{
    let slice = text::slice_chars(source, start, end)->0;
    let one = text_chunk(slice, start, part);
    lemma_piece_chunk(source, start, end, part);
    text::lemma_slice_indices(source, start, end);
    let i = text::char_index(source, start);
    let j = text::char_index(source, end);
    let a = i + part.0;
    let b = i + part.1;
    text::lemma_offsets(slice, part.0, part.1);
    text::lemma_offsets(source, i, a);
    text::lemma_offsets(source, i, b);
    assert(slice.take(part.0) =~= source.subrange(i, a));
    assert(slice.take(part.1) =~= source.subrange(i, b));
    assert forall|line_end: int|
        one.end < line_end <= end && #[trigger] text::is_boundary(source, line_end)
            && text::slice_chars(source, one.end, line_end)->0.last() == '\n' implies text::ink_between(
        source,
        one.start,
        line_end,
    ) > max by {
        text::lemma_char_index(source, line_end);
        let e = text::char_index(source, line_end);
        if e <= b {
            text::lemma_offsets(source, e, b);
        }
        if e > j {
            text::lemma_offsets(source, j, e);
        }
        text::lemma_offsets(source, a, e);
        text::lemma_offsets(source, b, e);
        let k = e - i - 1;
        assert(source.subrange(b, e).last() == source[e - 1]);
        assert(slice[k] == source[e - 1]);
        assert(slice.subrange(part.0, k + 1) =~= source.subrange(a, e));
    }
}

/// Of chunks that are cut as plain text, every one but the last goes as far as
/// whole lines go, holds something visible, and ends with a line or right before
/// a visible character.
pub proof fn law_fallback_chunks_reach(source: Seq<char>, start: int, end: int, max: nat)
    requires
        start <= end,
        text::is_boundary(source, start),
        text::is_boundary(source, end),
        max >= 1,
    ensures
        ({
            let chunks = fallback_chunks(source, start, end, max);
            forall|i: int|
                0 <= i < chunks.len() - 1 ==> {
                    let one = #[trigger] chunks[i];
                    &&& no_line_end_fits(source, one, end, max)
                    &&& one.size > 0
                    &&& text::slice_chars(source, one.start, one.end)->0.last() == '\n'
                        || !text::white_space(text::slice_chars(source, one.end, end)->0.first())
                }
        }),
{
    text::lemma_slice_indices(source, start, end);
    let slice = text::slice_chars(source, start, end)->0;
    let parts = split::pieces_of(slice, max, true);
    let chunks = fallback_chunks(source, start, end, max);
    split::lemma_pieces_tile(slice, 0, 0, max, true);
    span::lemma_tiles_bounds(parts, 0, slice.len() as int);
    assert(slice.subrange(0, 0) =~= Seq::empty());
    split::lemma_pieces_reach(slice, 0, 0, max, true);
    split::lemma_strict_pieces_stop(slice, 0, 0, max);
    assert forall|i: int| 0 <= i < chunks.len() - 1 implies {
        let one = #[trigger] chunks[i];
        &&& no_line_end_fits(source, one, end, max)
        &&& one.size > 0
        &&& text::slice_chars(source, one.start, one.end)->0.last() == '\n' || !text::white_space(
            text::slice_chars(source, one.end, end)->0.first(),
        )
    } by {
        let part = parts[i];
        assert(0 <= part.0 < part.1 <= slice.len());
        assert(parts[i + 1].0 < parts[i + 1].1 <= slice.len());
        span::lemma_tiles_apart(parts, 0, slice.len() as int, i, i + 1);
        lemma_no_line_end_fits(source, start, end, part, max);
        lemma_piece_chunk(source, start, end, part);
        assert(split::ends_before_visible(slice, part));
        assert(slice.subrange(part.0, part.1).last() == slice[part.1 - 1]);
        lemma_piece_chunk(source, start, end, (part.1, slice.len() as int));
        let rest = text_chunk(slice, start, (part.1, slice.len() as int));
        text::lemma_offsets(slice, 0, slice.len() as int);
        assert(slice.take(slice.len() as int) =~= slice);
        assert(rest.end == end);
        assert(slice.subrange(part.1, slice.len() as int).first() == slice[part.1]);
    }
}

/// A limit counts as it is, but for zero, which counts as one.
pub proof fn law_effective_max(max_size: int)
    requires
        max_size >= 0,
    ensures
        max_size >= 1 ==> effective_max(max_size) == max_size,
        max_size == 0 ==> effective_max(max_size) == 1,
{
}

/// Chunks cover a source exactly if there is one, none is empty, the first starts
/// with the source, each starts where the one before ends, the last ends with the
/// source, and all start and end between characters.
pub proof fn law_covers(chunks: Seq<ChunkModel>, source: Seq<char>)
    ensures
        covers(chunks, source) <==> {
            &&& chunks.len() > 0
            &&& chunks.first().start == 0
            &&& chunks.last().end == text::byte_len(source)
            &&& forall|i: int| 0 <= i < chunks.len() ==> (#[trigger] chunks[i]).start < chunks[i].end
            &&& forall|i: int|
                0 < i < chunks.len() ==> (#[trigger] chunks[i]).start == chunks[i - 1].end
            &&& forall|i: int|
                0 <= i < chunks.len() ==> text::is_boundary(source, (#[trigger] chunks[i]).start)
                    && text::is_boundary(source, chunks[i].end)
        },
{
    let ranges = spans(chunks);
    let length = text::byte_len(source) as int;
    span::law_tiles(ranges, 0, length);
    assert forall|i: int| 0 <= i < chunks.len() implies #[trigger] ranges[i] == (
        chunks[i].start,
        chunks[i].end,
    ) by {}
    if covers(chunks, source) {
        assert forall|i: int| 0 <= i < chunks.len() implies (#[trigger] chunks[i]).start
            < chunks[i].end && text::is_boundary(source, chunks[i].start) && text::is_boundary(
            source,
            chunks[i].end,
        ) by {
            assert(ranges[i].0 < ranges[i].1);
        }
        assert forall|i: int| 0 < i < chunks.len() implies (#[trigger] chunks[i]).start == chunks[i
            - 1].end by {
            assert(ranges[i].0 == ranges[i - 1].1);
        }
    }
    if chunks.len() > 0 {
        assert(ranges.first() == ranges[0]);
        assert(ranges.last() == ranges[ranges.len() - 1]);
    }
}

} // verus!
