//! Chunks that follow the syntax of a source.
//!
//! A syntax tree is cut top down. A node that fits is one chunk. Of a node that
//! does not fit, the named children are gone through in order: neighbours are
//! merged while the chunk they form fits, a child that does not fit alone is
//! cut in turn, and what stands between the children goes to the chunk before
//! it where it fits there, and is cut as plain text where it does not.

use crate::chunk;
use crate::chunk::{CastChunk, CastChunkingOptions, ChunkModel};
use crate::span;
use crate::text;
use std::ops::Range;
use vstd::prelude::*;

verus! {

/// A node of a syntax tree with its named children.
#[derive(Debug, Eq, PartialEq)]
pub struct SyntaxNode {
    pub start_byte: usize,
    pub end_byte: usize,
    pub kind: String,
    pub named_children: Vec<SyntaxNode>,
}

/// The text of a buffer with the roots of its syntax layers.
#[derive(Debug, Eq, PartialEq)]
pub struct BufferSnapshot {
    pub text: String,
    pub syntax_layers: Vec<SyntaxNode>,
}

/// Sibling nodes that are being merged into one chunk.
pub struct Run {
    pub start: int,
    pub kind: Option<Seq<char>>,
    pub count: nat,
}

/// How far the children of a node have been gone through.
pub struct Progress {
    /// The finished chunks.
    pub chunks: Seq<ChunkModel>,
    /// The chunk that is being formed.
    pub run: Option<Run>,
    /// The end of the last child.
    pub end: int,
}

/// The chunk of a range of nodes; none if the range is empty.
pub open spec fn ast_chunk(
    source: Seq<char>,
    start: int,
    end: int,
    kind: Option<Seq<char>>,
    merged: nat,
) -> Seq<ChunkModel> {
    if start < end {
        seq![
            ChunkModel {
                start,
                end,
                size: text::ink_between(source, start, end),
                kind,
                merged,
            },
        ]
    } else {
        Seq::empty()
    }
}

/// The chunks once everything before `gap_end` is in one. The chunk that was
/// being formed takes the gap that follows its last node if it then still
/// fits; else the gap is cut as plain text.
pub open spec fn close_run(source: Seq<char>, progress: Progress, gap_end: int, max: nat) -> Seq<
    ChunkModel,
> {
    match progress.run {
        Some(run) => if text::ink_between(source, run.start, gap_end) <= max {
            progress.chunks + ast_chunk(source, run.start, gap_end, run.kind, run.count)
        } else {
            progress.chunks + ast_chunk(source, run.start, progress.end, run.kind, run.count)
                + chunk::fallback_chunks(source, progress.end, gap_end, max)
        },
        None => progress.chunks + chunk::fallback_chunks(source, progress.end, gap_end, max),
    }
}

/// Whether a child takes part in the cutting of a node with the range
/// `lo..hi`: it is not empty and lies in that range.
pub open spec fn takes_part(child: SyntaxNode, lo: int, hi: int) -> bool {
    lo <= child.start_byte < child.end_byte <= hi
}

/// The progress after one more child that takes part. `inner` are the chunks
/// of that child where it does not fit alone.
pub open spec fn absorb(
    source: Seq<char>,
    progress: Progress,
    child: SyntaxNode,
    inner: Seq<ChunkModel>,
    max: nat,
) -> Progress {
    let start = child.start_byte as int;
    let end = child.end_byte as int;
    let candidate = match progress.run {
        Some(run) => run.start,
        None => progress.end,
    };
    if text::ink_between(source, start, end) > max {
        Progress { chunks: close_run(source, progress, start, max) + inner, run: None, end }
    } else if text::ink_between(source, candidate, end) > max {
        Progress {
            chunks: close_run(source, progress, start, max),
            run: Some(Run { start, kind: Some(child.kind@), count: 1 }),
            end,
        }
    } else {
        Progress {
            chunks: progress.chunks,
            run: Some(
                match progress.run {
                    Some(run) => Run { start: run.start, kind: run.kind, count: run.count + 1 },
                    None => Run { start: candidate, kind: Some(child.kind@), count: 1 },
                },
            ),
            end,
        }
    }
}

/// The progress after the first `count` children of a node that covers
/// `lo..hi`.
pub open spec fn progress_after(
    source: Seq<char>,
    node: SyntaxNode,
    max: nat,
    lo: int,
    hi: int,
    count: nat,
) -> Progress
    decreases node, count,
{
    if count == 0 || count > node.named_children@.len() {
        Progress { chunks: Seq::empty(), run: None, end: lo }
    } else {
        let before = progress_after(source, node, max, lo, hi, (count - 1) as nat);
        let child = node.named_children@[count - 1];
        if takes_part(child, lo, hi) {
            let inner = node_chunks(
                source,
                child,
                max,
                child.start_byte as int,
                child.end_byte as int,
            );
            absorb(source, before, child, inner, max)
        } else {
            before
        }
    }
}

/// The chunks of a node that does not fit into one.
pub open spec fn node_chunks(source: Seq<char>, node: SyntaxNode, max: nat, lo: int, hi: int) -> Seq<
    ChunkModel,
>
    decreases node, node.named_children@.len() + 1,
{
    if node.named_children@.len() == 0 {
        chunk::fallback_chunks(source, lo, hi, max)
    } else {
        close_run(
            source,
            progress_after(source, node, max, lo, hi, node.named_children@.len()),
            hi,
            max,
        )
    }
}

/// The chunks of the text that a syntax tree covers.
pub open spec fn tree_chunks(source: Seq<char>, root: SyntaxNode, max: nat) -> Seq<ChunkModel> {
    let start = root.start_byte as int;
    let end = root.end_byte as int;
    if start >= end {
        Seq::empty()
    } else if text::ink_between(source, start, end) <= max {
        ast_chunk(source, start, end, Some(root.kind@), 1)
    } else {
        node_chunks(source, root, max, start, end)
    }
}

/// Closes the chunk that is being formed before a gap that ends at `gap_end`.
pub fn flush_current_before_gap(
    source: &str,
    chunks: &mut Vec<CastChunk>,
    current_start: &mut Option<usize>,
    current_primary_kind: &mut Option<String>,
    current_node_count: usize,
    current_end: usize,
    gap_end: usize,
    max_size: usize,
)
    requires
        max_size >= 1,
    ensures
        chunk::models(final(chunks)@) == close_run(
            source@,
            Progress {
                chunks: chunk::models(old(chunks)@),
                run: match *old(current_start) {
                    Some(start) => Some(
                        Run {
                            start: start as int,
                            kind: text::optional_text(*old(current_primary_kind)),
                            count: current_node_count as nat,
                        },
                    ),
                    None => None,
                },
                end: current_end as int,
            },
            gap_end as int,
            max_size as nat,
        ),
        *final(current_start) is None,
        *old(current_start) is Some ==> *final(current_primary_kind) is None,
        *old(current_start) is None ==> *final(current_primary_kind) == *old(current_primary_kind),
{
    let ghost before = chunk::models(chunks@);
    if let Some(start) = current_start.take() {
        let kind = current_primary_kind.take();
        if text::range_non_whitespace_size(source, start..gap_end) <= max_size {
            chunk::push_ast_chunk(source, chunks, start..gap_end, kind, current_node_count);
            proof {
                assert(chunk::models(chunks@) =~= before + ast_chunk(
                    source@,
                    start as int,
                    gap_end as int,
                    text::optional_text(kind),
                    current_node_count as nat,
                ));
            }
        } else {
            chunk::push_ast_chunk(source, chunks, start..current_end, kind, current_node_count);
            proof {
                assert(chunk::models(chunks@) =~= before + ast_chunk(
                    source@,
                    start as int,
                    current_end as int,
                    text::optional_text(kind),
                    current_node_count as nat,
                ));
            }
            push_fallback_text_chunks(source, chunks, current_end..gap_end, max_size);
        }
    } else {
        push_fallback_text_chunks(source, chunks, current_end..gap_end, max_size);
    }
}

/// Appends the chunks of a range that is cut as plain text.
pub fn push_fallback_text_chunks(
    source: &str,
    chunks: &mut Vec<CastChunk>,
    byte_range: Range<usize>,
    max_size: usize,
)
    ensures
        chunk::models(final(chunks)@) == chunk::models(old(chunks)@) + chunk::fallback_chunks(
            source@,
            byte_range.start as int,
            byte_range.end as int,
            chunk::effective_max(max_size as int),
        ),
{
    let mut added = chunk::fallback_text_chunks(source, byte_range, max_size);
    let ghost extra = added@;
    chunks.append(&mut added);
    proof {
        assert(chunk::models(chunks@) =~= chunk::models(old(chunks)@) + chunk::models(extra));
    }
}

/// Cuts a node that does not fit into one chunk.
fn chunk_node_children(
    source: &str,
    node: &SyntaxNode,
    max_size: usize,
    containing_range: Range<usize>,
) -> (chunks: Vec<CastChunk>)
    requires
        max_size >= 1,
    ensures
        chunk::models(chunks@) == node_chunks(
            source@,
            *node,
            max_size as nat,
            containing_range.start as int,
            containing_range.end as int,
        ),
    decreases node,
{
    let ghost lo = containing_range.start as int;
    let ghost hi = containing_range.end as int;
    let ghost max = max_size as nat;
    if node.named_children.len() == 0 {
        return chunk::fallback_text_chunks(source, containing_range, max_size);
    }
    let mut chunks: Vec<CastChunk> = Vec::new();
    let mut current_start: Option<usize> = None;
    let mut current_end: usize = containing_range.start;
    let mut current_primary_kind: Option<String> = None;
    let mut current_node_count: usize = 0;
    assert(chunk::models(chunks@) =~= Seq::empty());
    for index in 0..node.named_children.len()
        invariant
            max_size >= 1,
            max == max_size as nat,
            lo == containing_range.start as int,
            hi == containing_range.end as int,
            current_node_count <= index,
            current_start is None ==> current_node_count == 0,
            progress_after(source@, *node, max, lo, hi, index as nat) == (Progress {
                chunks: chunk::models(chunks@),
                run: match current_start {
                    Some(start) => Some(
                        Run {
                            start: start as int,
                            kind: text::optional_text(current_primary_kind),
                            count: current_node_count as nat,
                        },
                    ),
                    None => None,
                },
                end: current_end as int,
            }),
    {
        let child = &node.named_children[index];
        let start: usize = child.start_byte;
        let end: usize = child.end_byte;
        if containing_range.start <= start && start < end && end <= containing_range.end {
            let child_size: usize = text::range_non_whitespace_size(source, start..end);
            let candidate_start: usize = match current_start {
                Some(start) => start,
                None => current_end,
            };
            if child_size > max_size {
                flush_current_before_gap(
                    source,
                    &mut chunks,
                    &mut current_start,
                    &mut current_primary_kind,
                    current_node_count,
                    current_end,
                    start,
                    max_size,
                );
                let ghost closed = chunks@;
                let mut inner = chunk_node_children(source, child, max_size, start..end);
                let ghost extra = inner@;
                chunks.append(&mut inner);
                proof {
                    assert(chunk::models(chunks@) =~= chunk::models(closed) + chunk::models(extra));
                }
                current_node_count = 0;
            } else if text::range_non_whitespace_size(source, candidate_start..end) > max_size {
                flush_current_before_gap(
                    source,
                    &mut chunks,
                    &mut current_start,
                    &mut current_primary_kind,
                    current_node_count,
                    current_end,
                    start,
                    max_size,
                );
                current_start = Some(start);
                current_primary_kind = Some(child.kind.clone());
                current_node_count = 1;
            } else {
                if current_start.is_none() {
                    current_start = Some(candidate_start);
                    current_primary_kind = Some(child.kind.clone());
                }
                current_node_count = current_node_count + 1;
            }
            current_end = end;
        }
    }
    flush_current_before_gap(
        source,
        &mut chunks,
        &mut current_start,
        &mut current_primary_kind,
        current_node_count,
        current_end,
        containing_range.end,
        max_size,
    );
    chunks
}

/// Cuts the text that a syntax tree covers.
pub fn cast_chunks_for_node(source: &str, root: &SyntaxNode, max_size: usize) -> (chunks: Vec<
    CastChunk,
>)
    ensures
        chunk::models(chunks@) == tree_chunks(
            source@,
            *root,
            chunk::effective_max(max_size as int),
        ),
{
    let max_size: usize = if max_size < 1 {
        1
    } else {
        max_size
    };
    let start: usize = root.start_byte;
    let end: usize = root.end_byte;
    let mut chunks: Vec<CastChunk> = Vec::new();
    if start >= end {
        assert(chunk::models(chunks@) =~= Seq::empty());
        return chunks;
    }
    if text::range_non_whitespace_size(source, start..end) <= max_size {
        chunk::push_ast_chunk(source, &mut chunks, start..end, Some(root.kind.clone()), 1);
        proof {
            assert(chunk::models(chunks@) =~= ast_chunk(
                source@,
                start as int,
                end as int,
                Some(root.kind@),
                1,
            ));
        }
        return chunks;
    }
    chunk_node_children(source, root, max_size, start..end)
}

/// Whether the root of a layer covers a buffer of the given length.
pub open spec fn covers_buffer(root: SyntaxNode, length: int) -> bool {
    root.start_byte == 0 && root.end_byte >= length
}

/// The index of the longest of the first `count` roots that cover the buffer,
/// the last one where several are longest.
pub open spec fn longest_root(roots: Seq<SyntaxNode>, length: int, count: nat) -> Option<int>
    decreases count,
{
    if count == 0 {
        None
    } else {
        let root = roots[count - 1];
        let before = longest_root(roots, length, (count - 1) as nat);
        let longer = match before {
            Some(index) => root.end_byte >= roots[index].end_byte,
            None => true,
        };
        if covers_buffer(root, length) && longer {
            Some(count - 1)
        } else {
            before
        }
    }
}

/// The chunks of a buffer: those of its longest root, if they cover its text.
pub open spec fn buffer_chunks(
    source: Seq<char>,
    roots: Seq<SyntaxNode>,
    options: CastChunkingOptions,
) -> Option<Seq<ChunkModel>> {
    match longest_root(roots, text::byte_len(source) as int, roots.len()) {
        Some(index) => {
            let chunks = tree_chunks(
                source,
                roots[index],
                chunk::effective_max(options.max_size as int),
            );
            if options.enabled && chunk::covers(chunks, source) {
                Some(chunks)
            } else {
                None
            }
        },
        None => None,
    }
}

/// Selects the root that covers a buffer of the given length.
pub fn select_full_buffer_root(nodes: &[SyntaxNode], source_len: usize) -> (root: Option<
    &SyntaxNode,
>)
    ensures
        root is Some == longest_root(nodes@, source_len as int, nodes@.len()) is Some,
        root matches Some(node) ==> *node == nodes@[longest_root(
            nodes@,
            source_len as int,
            nodes@.len(),
        )->0],
{
    let mut selected: Option<usize> = None;
    for index in 0..nodes.len()
        invariant
            match longest_root(nodes@, source_len as int, index as nat) {
                Some(best) => 0 <= best < index && selected == Some(best as usize),
                None => selected is None,
            },
    {
        let node = &nodes[index];
        if node.start_byte == 0 && node.end_byte >= source_len {
            let longer = match selected {
                Some(best) => node.end_byte >= nodes[best].end_byte,
                None => true,
            };
            if longer {
                selected = Some(index);
            }
        }
    }
    match selected {
        Some(best) => Some(&nodes[best]),
        None => None,
    }
}

/// Cuts a buffer along its syntax. There is no result if that is switched off,
/// if no layer covers the buffer, or if the chunks would not cover the text.
pub fn cast_chunks_for_buffer(snapshot: &BufferSnapshot, options: CastChunkingOptions) -> (chunks:
    Option<Vec<CastChunk>>)
    ensures
        (match chunks {
            Some(chunks) => Some(chunk::models(chunks@)),
            None => None,
        }) == buffer_chunks(snapshot.text@, snapshot.syntax_layers@, options),
{
    if !options.enabled {
        return None;
    }
    let source = snapshot.text.as_str();
    let length: usize = text::byte_count(source);
    match select_full_buffer_root(snapshot.syntax_layers.as_slice(), length) {
        Some(root) => {
            let chunks = cast_chunks_for_node(source, root, options.max_size);
            if chunk::validate_chunks(chunks.as_slice(), source) {
                Some(chunks)
            } else {
                None
            }
        },
        None => None,
    }
}

// ---------------------------------------------------------------------------
// Laws
// ---------------------------------------------------------------------------

/// Whether a syntax tree fits its source: ranges start and end between
/// characters, and children lie in order within their parent.
pub open spec fn fits_source(source: Seq<char>, node: SyntaxNode) -> bool
    decreases node,
{
    &&& node.start_byte <= node.end_byte
    &&& text::is_boundary(source, node.start_byte as int)
    &&& text::is_boundary(source, node.end_byte as int)
    &&& forall|i: int|
        0 <= i < node.named_children@.len() ==> node.start_byte <= (
        #[trigger] node.named_children@[i]).start_byte && node.named_children@[i].end_byte
            <= node.end_byte && fits_source(source, node.named_children@[i])
    &&& forall|i: int, j: int|
        0 <= i < j < node.named_children@.len() ==> (#[trigger] node.named_children@[i]).end_byte
            <= (#[trigger] node.named_children@[j]).start_byte
}

/// Whether chunks lie end to end from `start` to `end` between characters of
/// `source`, with their true sizes, none above `max`.
pub open spec fn sound(source: Seq<char>, chunks: Seq<ChunkModel>, start: int, end: int, max: nat) -> bool {
    &&& span::tiles(chunk::spans(chunks), start, end)
    &&& chunk::on_boundaries(source, chunk::spans(chunks))
    &&& chunk::sizes_within(source, chunks, max)
}

proof fn lemma_sound_concat(
    source: Seq<char>,
    left: Seq<ChunkModel>,
    right: Seq<ChunkModel>,
    start: int,
    middle: int,
    end: int,
    max: nat,
)
    requires
        sound(source, left, start, middle, max),
        sound(source, right, middle, end, max),
    ensures
        sound(source, left + right, start, end, max),
{
    let l = chunk::spans(left);
    let r = chunk::spans(right);
    assert(chunk::spans(left + right) =~= l + r);
    span::lemma_tiles_concat(l, r, start, middle, end);
    assert forall|i: int| 0 <= i < (l + r).len() implies text::is_boundary(
        source,
        (#[trigger] (l + r)[i]).0,
    ) && text::is_boundary(source, (l + r)[i].1) by {
        if i < l.len() {
            assert((l + r)[i] == l[i]);
        } else {
            assert((l + r)[i] == r[i - l.len()]);
        }
    }
    assert forall|i: int| 0 <= i < (left + right).len() implies (#[trigger] (left
        + right)[i]).size == text::ink_between(
        source,
        (left + right)[i].start,
        (left + right)[i].end,
    ) && (left + right)[i].size <= max by {
        if i < left.len() {
            assert((left + right)[i] == left[i]);
        } else {
            assert((left + right)[i] == right[i - left.len()]);
        }
    }
}

proof fn lemma_sound_ast(
    source: Seq<char>,
    start: int,
    end: int,
    kind: Option<Seq<char>>,
    merged: nat,
    max: nat,
)
    requires
        start < end,
        text::is_boundary(source, start),
        text::is_boundary(source, end),
        text::ink_between(source, start, end) <= max,
    ensures
        sound(source, ast_chunk(source, start, end, kind, merged), start, end, max),
{
    let chunks = ast_chunk(source, start, end, kind, merged);
    assert(chunk::spans(chunks) =~= seq![(start, end)]);
    span::lemma_tiles_one(start, end);
}

proof fn lemma_sound_fallback(source: Seq<char>, start: int, end: int, max: nat)
    requires
        start <= end,
        text::is_boundary(source, start),
        text::is_boundary(source, end),
        max >= 1,
    ensures
        sound(source, chunk::fallback_chunks(source, start, end, max), start, end, max),
{
    chunk::law_fallback_chunks(source, start, end, max);
}

/// What holds while the children of a node are gone through.
spec fn progress_sound(source: Seq<char>, progress: Progress, lo: int, max: nat) -> bool {
    &&& text::is_boundary(source, progress.end)
    &&& lo <= progress.end
    &&& match progress.run {
        Some(run) => {
            &&& run.start < progress.end
            &&& text::is_boundary(source, run.start)
            &&& text::ink_between(source, run.start, progress.end) <= max
            &&& sound(source, progress.chunks, lo, run.start, max)
        },
        None => sound(source, progress.chunks, lo, progress.end, max),
    }
}

proof fn lemma_close_run_sound(
    source: Seq<char>,
    progress: Progress,
    lo: int,
    gap_end: int,
    max: nat,
)
    requires
        progress_sound(source, progress, lo, max),
        progress.end <= gap_end,
        text::is_boundary(source, gap_end),
        max >= 1,
    ensures
        sound(source, close_run(source, progress, gap_end, max), lo, gap_end, max),
{
    let end = progress.end;
    lemma_sound_fallback(source, end, gap_end, max);
    let gap = chunk::fallback_chunks(source, end, gap_end, max);
    match progress.run {
        Some(run) => {
            if text::ink_between(source, run.start, gap_end) <= max {
                let last = ast_chunk(source, run.start, gap_end, run.kind, run.count);
                lemma_sound_ast(source, run.start, gap_end, run.kind, run.count, max);
                lemma_sound_concat(source, progress.chunks, last, lo, run.start, gap_end, max);
            } else {
                let last = ast_chunk(source, run.start, end, run.kind, run.count);
                lemma_sound_ast(source, run.start, end, run.kind, run.count, max);
                lemma_sound_concat(source, progress.chunks, last, lo, run.start, end, max);
                lemma_sound_concat(source, progress.chunks + last, gap, lo, end, gap_end, max);
            }
        },
        None => {
            lemma_sound_concat(source, progress.chunks, gap, lo, end, gap_end, max);
        },
    }
}

proof fn lemma_progress_sound(source: Seq<char>, node: SyntaxNode, max: nat, count: nat)
    requires
        fits_source(source, node),
        max >= 1,
        count <= node.named_children@.len(),
    ensures
        ({
            let lo = node.start_byte as int;
            let hi = node.end_byte as int;
            let progress = progress_after(source, node, max, lo, hi, count);
            &&& progress_sound(source, progress, lo, max)
            &&& progress.end <= hi
            &&& forall|j: int|
                count <= j < node.named_children@.len() ==> progress.end <= (
                #[trigger] node.named_children@[j]).start_byte
        }),
    decreases node, count,
{
    let lo = node.start_byte as int;
    let hi = node.end_byte as int;
    if count == 0 {
        let none = Seq::<ChunkModel>::empty();
        assert(chunk::spans(none) =~= Seq::empty());
        assert(span::tiles(chunk::spans(none), lo, lo));
    } else {
        lemma_progress_sound(source, node, max, (count - 1) as nat);
        let before = progress_after(source, node, max, lo, hi, (count - 1) as nat);
        let child = node.named_children@[count - 1];
        assert(fits_source(source, child));
        if takes_part(child, lo, hi) {
            let start = child.start_byte as int;
            let end = child.end_byte as int;
            assert(before.end <= start);
            lemma_close_run_sound(source, before, lo, start, max);
            lemma_node_chunks_sound(source, child, max);
            let inner = node_chunks(source, child, max, start, end);
            let closed = close_run(source, before, start, max);
            lemma_sound_concat(source, closed, inner, lo, start, end, max);
        }
    }
}

proof fn lemma_node_chunks_sound(source: Seq<char>, node: SyntaxNode, max: nat)
    requires
        fits_source(source, node),
        max >= 1,
    ensures
        sound(
            source,
            node_chunks(source, node, max, node.start_byte as int, node.end_byte as int),
            node.start_byte as int,
            node.end_byte as int,
            max,
        ),
    decreases node, node.named_children@.len() + 1,
{
    let lo = node.start_byte as int;
    let hi = node.end_byte as int;
    let count = node.named_children@.len();
    if count == 0 {
        lemma_sound_fallback(source, lo, hi, max);
    } else {
        lemma_progress_sound(source, node, max, count);
        lemma_close_run_sound(
            source,
            progress_after(source, node, max, lo, hi, count),
            lo,
            hi,
            max,
        );
    }
}

/// Cutting along the syntax loses nothing and keeps the limit: the chunks of a
/// tree that fits its source lie end to end over the text of the root, start
/// and end between characters, read, joined, as that text, and none of them
/// holds more than the limit.
pub proof fn law_tree_chunks(source: Seq<char>, root: SyntaxNode, max: nat)
    requires
        fits_source(source, root),
        max >= 1,
    ensures
        span::tiles(
            chunk::spans(tree_chunks(source, root, max)),
            root.start_byte as int,
            root.end_byte as int,
        ),
        chunk::on_boundaries(source, chunk::spans(tree_chunks(source, root, max))),
        chunk::sizes_within(source, tree_chunks(source, root, max), max),
        text::slice_chars(source, root.start_byte as int, root.end_byte as int) == Some(
            chunk::joined(source, chunk::spans(tree_chunks(source, root, max))),
        ),
{
    let start = root.start_byte as int;
    let end = root.end_byte as int;
    let chunks = tree_chunks(source, root, max);
    if start >= end {
        assert(chunk::spans(chunks) =~= Seq::empty());
    } else if text::ink_between(source, start, end) <= max {
        lemma_sound_ast(source, start, end, Some(root.kind@), 1, max);
    } else {
        lemma_node_chunks_sound(source, root, max);
    }
    chunk::lemma_tiles_joined(source, chunk::spans(chunks), start, end);
}

/// A root that fits is one chunk, with the kind and the size of the root.
pub proof fn law_root_that_fits(source: Seq<char>, root: SyntaxNode, max: nat)
    requires
        root.start_byte < root.end_byte,
        text::ink_between(source, root.start_byte as int, root.end_byte as int) <= max,
    ensures
        tree_chunks(source, root, max).len() == 1,
        tree_chunks(source, root, max)[0].start == root.start_byte,
        tree_chunks(source, root, max)[0].end == root.end_byte,
        tree_chunks(source, root, max)[0].size == text::ink_between(
            source,
            root.start_byte as int,
            root.end_byte as int,
        ),
        tree_chunks(source, root, max)[0].kind == Some(root.kind@),
        tree_chunks(source, root, max)[0].merged == 1,
{
}

/// Whether a chunk holds all of a range.
pub open spec fn chunk_holds(chunk: ChunkModel, start: int, end: int) -> bool {
    chunk.start <= start && end <= chunk.end
}

/// Whether one of chunks holds all of a range.
pub open spec fn some_chunk_holds(chunks: Seq<ChunkModel>, start: int, end: int) -> bool {
    exists|i: int| 0 <= i < chunks.len() && chunk_holds(#[trigger] chunks[i], start, end)
}

/// Whether a range is whole in a finished chunk or in the one being formed.
spec fn kept_whole(progress: Progress, start: int, end: int) -> bool {
    ||| some_chunk_holds(progress.chunks, start, end)
    ||| progress.run is Some && progress.run->0.start <= start && end <= progress.end
}

proof fn lemma_holds_concat(
    left: Seq<ChunkModel>,
    right: Seq<ChunkModel>,
    start: int,
    end: int,
)
    requires
        some_chunk_holds(left, start, end) || some_chunk_holds(right, start, end),
    ensures
        some_chunk_holds(left + right, start, end),
{
    let both = left + right;
    if some_chunk_holds(left, start, end) {
        let i = choose|i: int| 0 <= i < left.len() && chunk_holds(#[trigger] left[i], start, end);
        assert(both[i] == left[i]);
    } else {
        let i = choose|i: int|
            0 <= i < right.len() && chunk_holds(#[trigger] right[i], start, end);
        assert(both[left.len() + i] == right[i]);
    }
}

proof fn lemma_close_run_holds(
    source: Seq<char>,
    progress: Progress,
    gap_end: int,
    max: nat,
    start: int,
    end: int,
)
    requires
        kept_whole(progress, start, end),
        start < end,
        progress.end <= gap_end,
    ensures
        some_chunk_holds(close_run(source, progress, gap_end, max), start, end),
{
    let gap = chunk::fallback_chunks(source, progress.end, gap_end, max);
    match progress.run {
        Some(run) => {
            let long = ast_chunk(source, run.start, gap_end, run.kind, run.count);
            let short = ast_chunk(source, run.start, progress.end, run.kind, run.count);
            if !some_chunk_holds(progress.chunks, start, end) {
                assert(chunk_holds(long[0], start, end));
                assert(chunk_holds(short[0], start, end));
            }
            lemma_holds_concat(progress.chunks, long, start, end);
            lemma_holds_concat(progress.chunks, short, start, end);
            lemma_holds_concat(progress.chunks + short, gap, start, end);
        },
        None => {
            lemma_holds_concat(progress.chunks, gap, start, end);
        },
    }
}

/// A child that fits stays whole while the later children are gone through.
proof fn lemma_child_kept_whole(
    source: Seq<char>,
    node: SyntaxNode,
    max: nat,
    place: int,
    count: nat,
)
    requires
        fits_source(source, node),
        max >= 1,
        0 <= place < count <= node.named_children@.len(),
        node.named_children@[place].start_byte < node.named_children@[place].end_byte,
        text::ink_between(
            source,
            node.named_children@[place].start_byte as int,
            node.named_children@[place].end_byte as int,
        ) <= max,
    ensures
        kept_whole(
            progress_after(
                source,
                node,
                max,
                node.start_byte as int,
                node.end_byte as int,
                count,
            ),
            node.named_children@[place].start_byte as int,
            node.named_children@[place].end_byte as int,
        ),
    decreases count,
{
    let lo = node.start_byte as int;
    let hi = node.end_byte as int;
    let fewer = (count - 1) as nat;
    let start = node.named_children@[place].start_byte as int;
    let end = node.named_children@[place].end_byte as int;
    let before = progress_after(source, node, max, lo, hi, fewer);
    let child = node.named_children@[count - 1];
    lemma_progress_sound(source, node, max, fewer);
    assert(before.end <= child.start_byte);
    if place < fewer {
        lemma_child_kept_whole(source, node, max, place, fewer);
        if takes_part(child, lo, hi) {
            lemma_close_run_holds(source, before, child.start_byte as int, max, start, end);
            let inner = node_chunks(
                source,
                child,
                max,
                child.start_byte as int,
                child.end_byte as int,
            );
            let closed = close_run(source, before, child.start_byte as int, max);
            lemma_holds_concat(closed, inner, start, end);
        }
    } else {
        assert(fits_source(source, child));
        assert(takes_part(child, lo, hi));
    }
}

/// A named child of the root that is not empty and fits is never cut: it lies
/// whole in one chunk, and in no other.
pub proof fn law_fitting_child_whole(source: Seq<char>, root: SyntaxNode, max: nat, place: int)
    requires
        fits_source(source, root),
        max >= 1,
        0 <= place < root.named_children@.len(),
        root.named_children@[place].start_byte < root.named_children@[place].end_byte,
        text::ink_between(
            source,
            root.named_children@[place].start_byte as int,
            root.named_children@[place].end_byte as int,
        ) <= max,
    ensures
        ({
            let chunks = tree_chunks(source, root, max);
            let start = root.named_children@[place].start_byte as int;
            let end = root.named_children@[place].end_byte as int;
            &&& some_chunk_holds(chunks, start, end)
            &&& forall|i: int, j: int|
                0 <= i < chunks.len() && 0 <= j < chunks.len() && chunk_holds(
                    #[trigger] chunks[i],
                    start,
                    end,
                ) && chunk_holds(#[trigger] chunks[j], start, end) ==> i == j
        }),
{
    let chunks = tree_chunks(source, root, max);
    let child = root.named_children@[place];
    let start = child.start_byte as int;
    let end = child.end_byte as int;
    let lo = root.start_byte as int;
    let hi = root.end_byte as int;
    assert(fits_source(source, child));
    if text::ink_between(source, lo, hi) <= max {
        assert(chunk_holds(chunks[0], start, end));
    } else {
        let count = root.named_children@.len();
        let progress = progress_after(source, root, max, lo, hi, count);
        lemma_child_kept_whole(source, root, max, place, count);
        lemma_progress_sound(source, root, max, count);
        lemma_close_run_holds(source, progress, hi, max, start, end);
    }
    law_tree_chunks(source, root, max);
    let ranges = chunk::spans(chunks);
    assert forall|i: int, j: int|
        0 <= i < chunks.len() && 0 <= j < chunks.len() && chunk_holds(
            #[trigger] chunks[i],
            start,
            end,
        ) && chunk_holds(#[trigger] chunks[j], start, end) implies i == j by {
        if i < j {
            span::lemma_tiles_apart(ranges, lo, hi, i, j);
        } else if j < i {
            span::lemma_tiles_apart(ranges, lo, hi, j, i);
        }
        assert(ranges[i] == (chunks[i].start, chunks[i].end));
        assert(ranges[j] == (chunks[j].start, chunks[j].end));
    }
}

/// The selected root covers the buffer, and no root that covers it is longer;
/// of several that are equally long it is the last.
/// One is selected whenever one covers the buffer.
pub proof fn law_longest_root(roots: Seq<SyntaxNode>, length: int, count: nat)
    requires
        count <= roots.len(),
    ensures
        match longest_root(roots, length, count) {
            Some(best) => {
                &&& 0 <= best < count
                &&& covers_buffer(roots[best], length)
                &&& forall|i: int|
                    0 <= i < count && covers_buffer(#[trigger] roots[i], length)
                        ==> roots[i].end_byte <= roots[best].end_byte && (roots[i].end_byte
                        == roots[best].end_byte ==> i <= best)
            },
            None => forall|i: int|
                0 <= i < count ==> !covers_buffer(#[trigger] roots[i], length),
        },
    decreases count,
{
    if count > 0 {
        law_longest_root(roots, length, (count - 1) as nat);
    }
}

/// A buffer is cut whenever that is switched on, its text is not empty and the
/// selected root is a tree that fits the text and ends with it. The chunks
/// then read, joined, as the text, and none holds more than the limit.
pub proof fn law_buffer_chunks(
    source: Seq<char>,
    roots: Seq<SyntaxNode>,
    options: CastChunkingOptions,
)
    requires
        options.enabled,
        source.len() > 0,
        longest_root(roots, text::byte_len(source) as int, roots.len()) is Some,
        ({
            let root = roots[longest_root(
                roots,
                text::byte_len(source) as int,
                roots.len(),
            )->0];
            fits_source(source, root) && root.end_byte == text::byte_len(source)
        }),
    ensures
        buffer_chunks(source, roots, options) is Some,
        chunk::covers(buffer_chunks(source, roots, options)->0, source),
        chunk::joined(source, chunk::spans(buffer_chunks(source, roots, options)->0)) == source,
        chunk::sizes_within(
            source,
            buffer_chunks(source, roots, options)->0,
            chunk::effective_max(options.max_size as int),
        ),
{
    let max = chunk::effective_max(options.max_size as int);
    let root = roots[longest_root(roots, text::byte_len(source) as int, roots.len())->0];
    law_longest_root(roots, text::byte_len(source) as int, roots.len());
    law_tree_chunks(source, root, max);
    text::lemma_byte_len_bounds(source);
    let chunks = tree_chunks(source, root, max);
    assert(chunk::spans(chunks).len() == chunks.len());
    chunk::law_valid_chunks_reconstruct(chunks, source);
}

// ---------------------------------------------------------------------------
// Laws on nodes at every depth
// ---------------------------------------------------------------------------

/// Whether a path leads from a node down to a node: each step is the place of a
/// named child.
pub open spec fn is_path(root: SyntaxNode, path: Seq<int>) -> bool
    decreases path.len(),
{
    path.len() > 0 ==> 0 <= path.first() < root.named_children@.len() && is_path(
        root.named_children@[path.first()],
        path.drop_first(),
    )
}

/// The node that a path leads to.
pub open spec fn node_at(root: SyntaxNode, path: Seq<int>) -> SyntaxNode
    decreases path.len(),
{
    if path.len() == 0 {
        root
    } else {
        node_at(root.named_children@[path.first()], path.drop_first())
    }
}

/// How many characters of a node are not white space.
pub open spec fn node_ink(source: Seq<char>, node: SyntaxNode) -> nat {
    text::ink_between(source, node.start_byte as int, node.end_byte as int)
}

/// Whether chunks occur, one after another, among others.
pub open spec fn occur_in(part: Seq<ChunkModel>, chunks: Seq<ChunkModel>) -> bool {
    exists|k: int|
        0 <= k && k + part.len() <= chunks.len() && #[trigger] chunks.subrange(
            k,
            k + part.len(),
        ) == part
}

proof fn lemma_occur(before: Seq<ChunkModel>, part: Seq<ChunkModel>, after: Seq<ChunkModel>)
    ensures
        occur_in(part, before + part + after),
{
    let all = before + part + after;
    let k = before.len() as int;
    assert(all.subrange(k, k + part.len()) =~= part);
}

proof fn lemma_occur_split(part: Seq<ChunkModel>, chunks: Seq<ChunkModel>) -> (ends: (
    Seq<ChunkModel>,
    Seq<ChunkModel>,
))
    requires
        occur_in(part, chunks),
    ensures
        chunks == ends.0 + part + ends.1,
{
    let k = choose|k: int|
        0 <= k && k + part.len() <= chunks.len() && #[trigger] chunks.subrange(
            k,
            k + part.len(),
        ) == part;
    let before = chunks.take(k);
    let after = chunks.skip(k + part.len());
    assert(chunks =~= before + chunks.subrange(k, k + part.len()) + after);
    (before, after)
}

proof fn lemma_occur_transitive(
    inner: Seq<ChunkModel>,
    middle: Seq<ChunkModel>,
    outer: Seq<ChunkModel>,
)
    requires
        occur_in(inner, middle),
        occur_in(middle, outer),
    ensures
        occur_in(inner, outer),
{
    let (a, d) = lemma_occur_split(middle, outer);
    let (b, c) = lemma_occur_split(inner, middle);
    assert(outer =~= (a + b) + inner + (c + d));
    lemma_occur(a + b, inner, c + d);
}

proof fn lemma_path_inside(source: Seq<char>, root: SyntaxNode, path: Seq<int>)
    requires
        fits_source(source, root),
        is_path(root, path),
    ensures
        fits_source(source, node_at(root, path)),
        root.start_byte <= node_at(root, path).start_byte,
        node_at(root, path).end_byte <= root.end_byte,
        node_ink(source, node_at(root, path)) <= node_ink(source, root),
    decreases path.len(),
{
    if path.len() > 0 {
        let child = root.named_children@[path.first()];
        assert(fits_source(source, child));
        lemma_path_inside(source, child, path.drop_first());
        let lo = root.start_byte as int;
        let hi = root.end_byte as int;
        text::law_ink_between(source, lo, child.start_byte as int, hi);
        text::law_ink_between(source, child.start_byte as int, child.end_byte as int, hi);
    }
}

/// Whether a list of chunks goes on where another ends.
spec fn extends(chunks: Seq<ChunkModel>, longer: Seq<ChunkModel>) -> bool {
    chunks.len() <= longer.len() && longer.take(chunks.len() as int) == chunks
}

proof fn lemma_extends_concat(chunks: Seq<ChunkModel>, more: Seq<ChunkModel>)
    ensures
        extends(chunks, chunks + more),
{
    assert((chunks + more).take(chunks.len() as int) =~= chunks);
}

proof fn lemma_extends_transitive(
    a: Seq<ChunkModel>,
    b: Seq<ChunkModel>,
    c: Seq<ChunkModel>,
)
    requires
        extends(a, b),
        extends(b, c),
    ensures
        extends(a, c),
{
    assert(c.take(a.len() as int) =~= c.take(b.len() as int).take(a.len() as int));
}

proof fn lemma_occur_extends(
    part: Seq<ChunkModel>,
    chunks: Seq<ChunkModel>,
    longer: Seq<ChunkModel>,
)
    requires
        occur_in(part, chunks),
        extends(chunks, longer),
    ensures
        occur_in(part, longer),
{
    let (before, after) = lemma_occur_split(part, chunks);
    let rest = longer.skip(chunks.len() as int);
    assert(longer =~= before + part + (after + rest)) by {
        assert(longer =~= longer.take(chunks.len() as int) + rest);
    }
    lemma_occur(before, part, after + rest);
}

proof fn lemma_close_run_extends(
    source: Seq<char>,
    progress: Progress,
    gap_end: int,
    max: nat,
)
    ensures
        extends(progress.chunks, close_run(source, progress, gap_end, max)),
{
    let closed = close_run(source, progress, gap_end, max);
    assert(closed.take(progress.chunks.len() as int) =~= progress.chunks);
}

proof fn lemma_progress_extends(
    source: Seq<char>,
    node: SyntaxNode,
    max: nat,
    lo: int,
    hi: int,
    earlier: nat,
    later: nat,
)
    requires
        earlier <= later <= node.named_children@.len(),
    ensures
        extends(
            progress_after(source, node, max, lo, hi, earlier).chunks,
            progress_after(source, node, max, lo, hi, later).chunks,
        ),
    decreases later,
{
    let first = progress_after(source, node, max, lo, hi, earlier).chunks;
    if earlier == later {
        assert(first.take(first.len() as int) =~= first);
    } else {
        let fewer = (later - 1) as nat;
        let before = progress_after(source, node, max, lo, hi, fewer);
        let child = node.named_children@[later - 1];
        lemma_progress_extends(source, node, max, lo, hi, earlier, fewer);
        lemma_close_run_extends(source, before, child.start_byte as int, max);
        let closed = close_run(source, before, child.start_byte as int, max);
        let inner = node_chunks(
            source,
            child,
            max,
            child.start_byte as int,
            child.end_byte as int,
        );
        lemma_extends_concat(closed, inner);
        lemma_extends_transitive(before.chunks, closed, closed + inner);
        lemma_extends_concat(before.chunks, Seq::empty());
        assert(before.chunks + Seq::<ChunkModel>::empty() =~= before.chunks);
        lemma_extends_transitive(
            first,
            before.chunks,
            progress_after(source, node, max, lo, hi, later).chunks,
        );
    }
}

/// What is finished after some of a node's children stays.
proof fn lemma_node_chunks_extend(
    source: Seq<char>,
    node: SyntaxNode,
    max: nat,
    lo: int,
    hi: int,
    count: nat,
)
    requires
        0 < count <= node.named_children@.len(),
    ensures
        extends(
            progress_after(source, node, max, lo, hi, count).chunks,
            node_chunks(source, node, max, lo, hi),
        ),
{
    let all = node.named_children@.len();
    lemma_progress_extends(source, node, max, lo, hi, count, all);
    let progress = progress_after(source, node, max, lo, hi, all);
    lemma_close_run_extends(source, progress, hi, max);
    lemma_extends_transitive(
        progress_after(source, node, max, lo, hi, count).chunks,
        progress.chunks,
        node_chunks(source, node, max, lo, hi),
    );
}

/// The chunks of a child that does not fit are among those of its parent.
proof fn lemma_child_chunks_occur(source: Seq<char>, node: SyntaxNode, max: nat, place: int)
    requires
        fits_source(source, node),
        max >= 1,
        0 <= place < node.named_children@.len(),
        node_ink(source, node.named_children@[place]) > max,
    ensures
        ({
            let child = node.named_children@[place];
            occur_in(
                node_chunks(
                    source,
                    child,
                    max,
                    child.start_byte as int,
                    child.end_byte as int,
                ),
                node_chunks(source, node, max, node.start_byte as int, node.end_byte as int),
            )
        }),
{
    let lo = node.start_byte as int;
    let hi = node.end_byte as int;
    let child = node.named_children@[place];
    let start = child.start_byte as int;
    let end = child.end_byte as int;
    let inner = node_chunks(source, child, max, start, end);
    let count = (place + 1) as nat;
    assert(fits_source(source, child));
    lemma_ink_not_empty(source, start, end);
    assert(takes_part(child, lo, hi));
    let before = progress_after(source, node, max, lo, hi, place as nat);
    let closed = close_run(source, before, start, max);
    let after = progress_after(source, node, max, lo, hi, count);
    assert(after.chunks == closed + inner);
    assert(closed + inner + Seq::<ChunkModel>::empty() =~= closed + inner);
    lemma_occur(closed, inner, Seq::empty());
    lemma_node_chunks_extend(source, node, max, lo, hi, count);
    lemma_occur_extends(inner, after.chunks, node_chunks(source, node, max, lo, hi));
}

proof fn lemma_ink_not_empty(source: Seq<char>, start: int, end: int)
    requires
        text::ink_between(source, start, end) > 0,
    ensures
        start < end,
{
    if start == end {
        text::lemma_slice_indices(source, start, end);
        let i = text::char_index(source, start);
        let j = text::char_index(source, end);
        if i < j {
            text::lemma_offsets(source, i, j);
        }
        assert(source.subrange(i, j) =~= Seq::empty());
    }
}

/// A node that does not fit is cut in the same way wherever it stands: its
/// chunks, as those of a tree of its own, are among the chunks of every tree
/// that it belongs to, at whatever depth, one after another.
pub proof fn law_subtree_chunks(source: Seq<char>, root: SyntaxNode, max: nat, path: Seq<int>)
    requires
        fits_source(source, root),
        max >= 1,
        is_path(root, path),
        node_ink(source, node_at(root, path)) > max,
    ensures
        occur_in(tree_chunks(source, node_at(root, path), max), tree_chunks(source, root, max)),
    decreases path.len(),
{
    let node = node_at(root, path);
    let chunks = tree_chunks(source, root, max);
    if path.len() == 0 {
        assert(chunks.subrange(0, 0int + chunks.len()) =~= chunks);
    } else {
        let place = path.first();
        let child = root.named_children@[place];
        assert(fits_source(source, child));
        lemma_path_inside(source, child, path.drop_first());
        lemma_path_inside(source, root, path);
        lemma_ink_not_empty(source, child.start_byte as int, child.end_byte as int);
        lemma_ink_not_empty(source, root.start_byte as int, root.end_byte as int);
        law_subtree_chunks(source, child, max, path.drop_first());
        lemma_child_chunks_occur(source, root, max, place);
        lemma_occur_transitive(
            tree_chunks(source, node, max),
            tree_chunks(source, child, max),
            chunks,
        );
    }
}

proof fn lemma_one_holder(source: Seq<char>, root: SyntaxNode, max: nat, start: int, end: int)
    requires
        fits_source(source, root),
        max >= 1,
        start < end,
    ensures
        ({
            let chunks = tree_chunks(source, root, max);
            forall|i: int, j: int|
                0 <= i < chunks.len() && 0 <= j < chunks.len() && chunk_holds(
                    #[trigger] chunks[i],
                    start,
                    end,
                ) && chunk_holds(#[trigger] chunks[j], start, end) ==> i == j
        }),
{
    let chunks = tree_chunks(source, root, max);
    let lo = root.start_byte as int;
    let hi = root.end_byte as int;
    law_tree_chunks(source, root, max);
    let ranges = chunk::spans(chunks);
    assert forall|i: int, j: int|
        0 <= i < chunks.len() && 0 <= j < chunks.len() && chunk_holds(
            #[trigger] chunks[i],
            start,
            end,
        ) && chunk_holds(#[trigger] chunks[j], start, end) implies i == j by {
        assert(ranges[i] == (chunks[i].start, chunks[i].end));
        assert(ranges[j] == (chunks[j].start, chunks[j].end));
        if i < j {
            span::lemma_tiles_apart(ranges, lo, hi, i, j);
        } else if j < i {
            span::lemma_tiles_apart(ranges, lo, hi, j, i);
        }
    }
}

/// A named node that is not empty and fits is never cut, at whatever depth it
/// stands: it lies whole in one chunk, and in no other.
pub proof fn law_fitting_node_whole(source: Seq<char>, root: SyntaxNode, max: nat, path: Seq<int>)
    requires
        fits_source(source, root),
        max >= 1,
        is_path(root, path),
        node_at(root, path).start_byte < node_at(root, path).end_byte,
        node_ink(source, node_at(root, path)) <= max,
    ensures
        ({
            let chunks = tree_chunks(source, root, max);
            let start = node_at(root, path).start_byte as int;
            let end = node_at(root, path).end_byte as int;
            &&& some_chunk_holds(chunks, start, end)
            &&& forall|i: int, j: int|
                0 <= i < chunks.len() && 0 <= j < chunks.len() && chunk_holds(
                    #[trigger] chunks[i],
                    start,
                    end,
                ) && chunk_holds(#[trigger] chunks[j], start, end) ==> i == j
        }),
    decreases path.len(),
{
    let node = node_at(root, path);
    let chunks = tree_chunks(source, root, max);
    let start = node.start_byte as int;
    let end = node.end_byte as int;
    lemma_path_inside(source, root, path);
    lemma_one_holder(source, root, max, start, end);
    if node_ink(source, root) <= max {
        assert(chunk_holds(chunks[0], start, end));
    } else {
        let place = path.first();
        let child = root.named_children@[place];
        assert(fits_source(source, child));
        lemma_path_inside(source, child, path.drop_first());
        if node_ink(source, child) <= max {
            law_fitting_child_whole(source, root, max, place);
            let i = choose|i: int|
                0 <= i < chunks.len() && chunk_holds(
                    #[trigger] chunks[i],
                    child.start_byte as int,
                    child.end_byte as int,
                );
            assert(chunk_holds(chunks[i], start, end));
        } else {
            law_fitting_node_whole(source, child, max, path.drop_first());
            lemma_child_chunks_occur(source, root, max, place);
            let inner = tree_chunks(source, child, max);
            let (before, after) = lemma_occur_split(inner, chunks);
            let i = choose|i: int|
                0 <= i < inner.len() && chunk_holds(#[trigger] inner[i], start, end);
            assert(chunks[before.len() + i] == inner[i]);
        }
    }
}

// ---------------------------------------------------------------------------
// Laws on what chunks are made of
// ---------------------------------------------------------------------------

/// Those of nodes that are not empty and lie whole in a range.
pub open spec fn nodes_within(nodes: Seq<SyntaxNode>, start: int, end: int) -> Seq<SyntaxNode> {
    nodes.filter(
        |node: SyntaxNode|
            node.start_byte < node.end_byte && start <= node.start_byte && node.end_byte <= end,
    )
}

/// Whether a range lies in one of nodes that does not fit.
pub open spec fn in_large_node(
    source: Seq<char>,
    nodes: Seq<SyntaxNode>,
    start: int,
    end: int,
    max: nat,
) -> bool {
    exists|i: int|
        0 <= i < nodes.len() && node_ink(source, #[trigger] nodes[i]) > max && nodes[i].start_byte
            <= start && end <= nodes[i].end_byte
}

/// Whether a chunk is labelled by the nodes that it holds.
spec fn labelled(source: Seq<char>, nodes: Seq<SyntaxNode>, one: ChunkModel, max: nat) -> bool {
    let held = nodes_within(nodes, one.start, one.end);
    &&& held.len() > 0 ==> one.kind == Some(held[0].kind@) && one.merged == held.len()
    &&& held.len() == 0 && !in_large_node(source, nodes, one.start, one.end, max) ==> one.kind
        is None && one.merged == 0
}

spec fn all_labelled(
    source: Seq<char>,
    nodes: Seq<SyntaxNode>,
    chunks: Seq<ChunkModel>,
    max: nat,
) -> bool {
    forall|i: int| 0 <= i < chunks.len() ==> labelled(source, nodes, #[trigger] chunks[i], max)
}

proof fn lemma_nodes_within_push(
    nodes: Seq<SyntaxNode>,
    node: SyntaxNode,
    start: int,
    end: int,
)
    ensures
        nodes_within(nodes.push(node), start, end) == if node.start_byte < node.end_byte && start
            <= node.start_byte && node.end_byte <= end {
            nodes_within(nodes, start, end).push(node)
        } else {
            nodes_within(nodes, start, end)
        },
{
    reveal(Seq::filter);
    assert(nodes.push(node).drop_last() =~= nodes);
}

proof fn lemma_labelled_push(
    source: Seq<char>,
    nodes: Seq<SyntaxNode>,
    node: SyntaxNode,
    chunks: Seq<ChunkModel>,
    max: nat,
)
    requires
        all_labelled(source, nodes, chunks, max),
        forall|i: int|
            0 <= i < chunks.len() ==> node.start_byte >= node.end_byte || (
            #[trigger] chunks[i]).start > node.start_byte || node.end_byte > chunks[i].end,
    ensures
        all_labelled(source, nodes.push(node), chunks, max),
{
    let more = nodes.push(node);
    assert forall|i: int| 0 <= i < chunks.len() implies labelled(
        source,
        more,
        #[trigger] chunks[i],
        max,
    ) by {
        let one = chunks[i];
        lemma_nodes_within_push(nodes, node, one.start, one.end);
        if in_large_node(source, nodes, one.start, one.end, max) {
            let k = choose|k: int|
                0 <= k < nodes.len() && node_ink(source, #[trigger] nodes[k]) > max
                    && nodes[k].start_byte <= one.start && one.end <= nodes[k].end_byte;
            assert(more[k] == nodes[k]);
        }
    }
}

/// Nodes that end before a place are not in a range that starts there.
proof fn lemma_no_nodes_within(nodes: Seq<SyntaxNode>, bound: int, start: int, end: int)
    requires
        forall|i: int|
            0 <= i < nodes.len() && (#[trigger] nodes[i]).start_byte < nodes[i].end_byte
                ==> nodes[i].end_byte <= bound,
        bound <= start,
    ensures
        nodes_within(nodes, start, end).len() == 0,
    decreases nodes.len(),
{
    reveal(Seq::filter);
    if nodes.len() > 0 {
        let rest = nodes.drop_last();
        assert forall|i: int|
            0 <= i < rest.len() && (#[trigger] rest[i]).start_byte
                < rest[i].end_byte implies rest[i].end_byte <= bound by {
            assert(rest[i] == nodes[i]);
        }
        lemma_no_nodes_within(rest, bound, start, end);
        let last = nodes[nodes.len() - 1];
        assert(last.start_byte < last.end_byte ==> last.end_byte <= bound);
    }
}

/// Where all nodes end before a place, a range may end there or later.
proof fn lemma_nodes_within_longer(
    nodes: Seq<SyntaxNode>,
    start: int,
    bound: int,
    end: int,
)
    requires
        forall|i: int|
            0 <= i < nodes.len() && (#[trigger] nodes[i]).start_byte < nodes[i].end_byte
                ==> nodes[i].end_byte <= bound,
        bound <= end,
    ensures
        nodes_within(nodes, start, end) == nodes_within(nodes, start, bound),
    decreases nodes.len(),
{
    reveal(Seq::filter);
    if nodes.len() > 0 {
        let rest = nodes.drop_last();
        assert forall|i: int|
            0 <= i < rest.len() && (#[trigger] rest[i]).start_byte
                < rest[i].end_byte implies rest[i].end_byte <= bound by {
            assert(rest[i] == nodes[i]);
        }
        lemma_nodes_within_longer(rest, start, bound, end);
        let last = nodes[nodes.len() - 1];
        assert(last.start_byte < last.end_byte ==> last.end_byte <= bound);
    }
}

/// What is known of labels while the children of a node are gone through.
spec fn progress_labelled(
    source: Seq<char>,
    nodes: Seq<SyntaxNode>,
    progress: Progress,
    max: nat,
) -> bool {
    &&& all_labelled(source, nodes, progress.chunks, max)
    &&& forall|i: int|
        0 <= i < nodes.len() && (#[trigger] nodes[i]).start_byte < nodes[i].end_byte
            ==> nodes[i].end_byte <= progress.end
    &&& progress.run matches Some(run) ==> {
        let held = nodes_within(nodes, run.start, progress.end);
        &&& held.len() > 0
        &&& run.count == held.len()
        &&& run.kind == Some(held[0].kind@)
    }
}

proof fn lemma_fallback_labelled(
    source: Seq<char>,
    nodes: Seq<SyntaxNode>,
    start: int,
    end: int,
    max: nat,
)
    requires
        start <= end,
        text::is_boundary(source, start),
        text::is_boundary(source, end),
        max >= 1,
        forall|i: int|
            0 <= i < nodes.len() && (#[trigger] nodes[i]).start_byte < nodes[i].end_byte
                ==> nodes[i].end_byte <= start,
    ensures
        all_labelled(source, nodes, chunk::fallback_chunks(source, start, end, max), max),
{
    let chunks = chunk::fallback_chunks(source, start, end, max);
    lemma_sound_fallback(source, start, end, max);
    let ranges = chunk::spans(chunks);
    span::lemma_tiles_bounds(ranges, start, end);
    assert forall|i: int| 0 <= i < chunks.len() implies labelled(
        source,
        nodes,
        #[trigger] chunks[i],
        max,
    ) by {
        assert(ranges[i] == (chunks[i].start, chunks[i].end));
        lemma_no_nodes_within(nodes, start, chunks[i].start, chunks[i].end);
    }
}

proof fn lemma_close_run_labelled(
    source: Seq<char>,
    nodes: Seq<SyntaxNode>,
    progress: Progress,
    lo: int,
    gap_end: int,
    max: nat,
)
    requires
        progress_labelled(source, nodes, progress, max),
        progress_sound(source, progress, lo, max),
        progress.end <= gap_end,
        text::is_boundary(source, gap_end),
        max >= 1,
    ensures
        all_labelled(source, nodes, close_run(source, progress, gap_end, max), max),
{
    let end = progress.end;
    let closed = close_run(source, progress, gap_end, max);
    let gap = chunk::fallback_chunks(source, end, gap_end, max);
    lemma_fallback_labelled(source, nodes, end, gap_end, max);
    match progress.run {
        Some(run) => {
            lemma_nodes_within_longer(nodes, run.start, end, gap_end);
            let long = ast_chunk(source, run.start, gap_end, run.kind, run.count);
            let short = ast_chunk(source, run.start, end, run.kind, run.count);
            assert(labelled(source, nodes, long[0], max));
            assert(labelled(source, nodes, short[0], max));
            assert forall|i: int| 0 <= i < closed.len() implies labelled(
                source,
                nodes,
                #[trigger] closed[i],
                max,
            ) by {
                let count = progress.chunks.len();
                if i < count {
                    assert(closed[i] == progress.chunks[i]);
                } else if i > count {
                    assert(closed[i] == gap[i - count - 1]);
                }
            }
        },
        None => {
            assert forall|i: int| 0 <= i < closed.len() implies labelled(
                source,
                nodes,
                #[trigger] closed[i],
                max,
            ) by {
                let count = progress.chunks.len();
                if i < count {
                    assert(closed[i] == progress.chunks[i]);
                } else {
                    assert(closed[i] == gap[i - count]);
                }
            }
        },
    }
}

proof fn lemma_inner_labelled(
    source: Seq<char>,
    nodes: Seq<SyntaxNode>,
    child: SyntaxNode,
    max: nat,
)
    requires
        fits_source(source, child),
        node_ink(source, child) > max,
        max >= 1,
        forall|i: int|
            0 <= i < nodes.len() && (#[trigger] nodes[i]).start_byte < nodes[i].end_byte
                ==> nodes[i].end_byte <= child.start_byte,
    ensures
        all_labelled(
            source,
            nodes.push(child),
            node_chunks(source, child, max, child.start_byte as int, child.end_byte as int),
            max,
        ),
{
    let start = child.start_byte as int;
    let end = child.end_byte as int;
    let chunks = node_chunks(source, child, max, start, end);
    let more = nodes.push(child);
    lemma_node_chunks_sound(source, child, max);
    let ranges = chunk::spans(chunks);
    span::lemma_tiles_bounds(ranges, start, end);
    assert forall|i: int| 0 <= i < chunks.len() implies labelled(
        source,
        more,
        #[trigger] chunks[i],
        max,
    ) by {
        let one = chunks[i];
        assert(ranges[i] == (one.start, one.end));
        lemma_no_nodes_within(nodes, start, one.start, one.end);
        lemma_nodes_within_push(nodes, child, one.start, one.end);
        assert(one.size <= max);
        assert(more[nodes.len() as int] == child);
        assert(in_large_node(source, more, one.start, one.end, max));
    }
}

proof fn lemma_progress_labelled(source: Seq<char>, node: SyntaxNode, max: nat, count: nat)
    requires
        fits_source(source, node),
        max >= 1,
        count <= node.named_children@.len(),
    ensures
        progress_labelled(
            source,
            node.named_children@.take(count as int),
            progress_after(
                source,
                node,
                max,
                node.start_byte as int,
                node.end_byte as int,
                count,
            ),
            max,
        ),
    decreases count,
{
    let lo = node.start_byte as int;
    let hi = node.end_byte as int;
    let nodes = node.named_children@.take(count as int);
    if count > 0 {
        let fewer = (count - 1) as nat;
        let rest = node.named_children@.take(fewer as int);
        let child = node.named_children@[count - 1];
        let start = child.start_byte as int;
        let end = child.end_byte as int;
        let before = progress_after(source, node, max, lo, hi, fewer);
        let after = progress_after(source, node, max, lo, hi, count);
        lemma_progress_labelled(source, node, max, fewer);
        lemma_progress_sound(source, node, max, fewer);
        assert(nodes =~= rest.push(child));
        assert(fits_source(source, child));
        assert(before.end <= start);
        let bounds = chunk::spans(before.chunks);
        assert forall|i: int| 0 <= i < before.chunks.len() implies (
        #[trigger] before.chunks[i]).end <= before.end by {
            assert(bounds[i] == (before.chunks[i].start, before.chunks[i].end));
            match before.run {
                Some(run) => span::lemma_tiles_bounds(bounds, lo, run.start),
                None => span::lemma_tiles_bounds(bounds, lo, before.end),
            }
        }
        if !takes_part(child, lo, hi) {
            assert(start >= end);
            lemma_labelled_push(source, rest, child, before.chunks, max);
            if let Some(run) = before.run {
                lemma_nodes_within_push(rest, child, run.start, before.end);
            }
        } else {
            let closed = close_run(source, before, start, max);
            lemma_close_run_labelled(source, rest, before, lo, start, max);
            lemma_close_run_sound(source, before, lo, start, max);
            let closed_bounds = chunk::spans(closed);
            span::lemma_tiles_bounds(closed_bounds, lo, start);
            assert forall|i: int| 0 <= i < closed.len() implies (#[trigger] closed[i]).end
                <= start by {
                assert(closed_bounds[i] == (closed[i].start, closed[i].end));
            }
            lemma_labelled_push(source, rest, child, closed, max);
            lemma_labelled_push(source, rest, child, before.chunks, max);
            if text::ink_between(source, start, end) > max {
                let inner = node_chunks(source, child, max, start, end);
                lemma_inner_labelled(source, rest, child, max);
                let both = closed + inner;
                assert forall|i: int| 0 <= i < both.len() implies labelled(
                    source,
                    nodes,
                    #[trigger] both[i],
                    max,
                ) by {
                    if i < closed.len() {
                        assert(both[i] == closed[i]);
                    } else {
                        assert(both[i] == inner[i - closed.len()]);
                    }
                }
            } else {
                let run = after.run->0;
                match before.run {
                    Some(earlier) => {
                        lemma_nodes_within_longer(rest, earlier.start, before.end, end);
                        lemma_nodes_within_push(rest, child, earlier.start, end);
                        lemma_no_nodes_within(rest, before.end, start, end);
                        lemma_nodes_within_push(rest, child, start, end);
                    },
                    None => {
                        lemma_no_nodes_within(rest, before.end, run.start, end);
                        lemma_nodes_within_push(rest, child, run.start, end);
                    },
                }
            }
        }
        assert forall|i: int|
            0 <= i < nodes.len() && (#[trigger] nodes[i]).start_byte
                < nodes[i].end_byte implies nodes[i].end_byte <= after.end by {
            if i < fewer {
                assert(nodes[i] == rest[i]);
            }
        }
    } else {
        assert(nodes =~= Seq::empty());
    }
}

/// A chunk of a node that does not fit tells what it is made of. One that holds
/// named children of the node has the kind of the first of them, and their
/// number as the number of merged nodes. One that holds none, and is no part of
/// a child that does not fit either, is plain text: it has no kind and no merged
/// nodes.
pub proof fn law_chunk_labels(source: Seq<char>, root: SyntaxNode, max: nat, k: int)
    requires
        fits_source(source, root),
        max >= 1,
        node_ink(source, root) > max,
        0 <= k < tree_chunks(source, root, max).len(),
    ensures
        ({
            let one = tree_chunks(source, root, max)[k];
            let held = nodes_within(root.named_children@, one.start, one.end);
            &&& held.len() > 0 ==> one.kind == Some(held[0].kind@) && one.merged == held.len()
            &&& held.len() == 0 && !in_large_node(
                source,
                root.named_children@,
                one.start,
                one.end,
                max,
            ) ==> one.kind is None && one.merged == 0
        }),
{
    let lo = root.start_byte as int;
    let hi = root.end_byte as int;
    let nodes = root.named_children@;
    lemma_ink_not_empty(source, lo, hi);
    if nodes.len() == 0 {
        lemma_fallback_labelled(source, nodes, lo, hi, max);
    } else {
        let progress = progress_after(source, root, max, lo, hi, nodes.len());
        lemma_progress_labelled(source, root, max, nodes.len());
        lemma_progress_sound(source, root, max, nodes.len());
        assert(nodes.take(nodes.len() as int) =~= nodes);
        lemma_close_run_labelled(source, nodes, progress, lo, hi, max);
    }
    assert(labelled(source, nodes, tree_chunks(source, root, max)[k], max));
}

// ---------------------------------------------------------------------------
// Laws on where chunks start and end
// ---------------------------------------------------------------------------

/// Whether the children of a node from one place up to another are empty.
pub open spec fn only_empty(root: SyntaxNode, from: int, to: int) -> bool {
    forall|q: int|
        from <= q < to ==> (#[trigger] root.named_children@[q]).start_byte
            >= root.named_children@[q].end_byte
}

/// Empty children change nothing.
proof fn lemma_skip_empty(
    source: Seq<char>,
    root: SyntaxNode,
    max: nat,
    lo: int,
    hi: int,
    from: int,
    to: int,
)
    requires
        0 <= from <= to <= root.named_children@.len(),
        only_empty(root, from, to),
    ensures
        progress_after(source, root, max, lo, hi, to as nat) == progress_after(
            source,
            root,
            max,
            lo,
            hi,
            from as nat,
        ),
    decreases to,
{
    if from < to {
        lemma_skip_empty(source, root, max, lo, hi, from, to - 1);
        let child = root.named_children@[to - 1];
        assert(child.start_byte >= child.end_byte);
        assert(!takes_part(child, lo, hi));
    }
}

/// Whether one of chunks starts at a place and reaches another.
spec fn starts_chunk(chunks: Seq<ChunkModel>, start: int, end: int) -> bool {
    exists|i: int| 0 <= i < chunks.len() && (#[trigger] chunks[i]).start == start && end
        <= chunks[i].end
}

/// Whether a chunk that starts at a place and reaches another is finished or
/// being formed.
spec fn kept_from(progress: Progress, start: int, end: int) -> bool {
    ||| starts_chunk(progress.chunks, start, end)
    ||| progress.run is Some && progress.run->0.start == start && end <= progress.end
}

proof fn lemma_starts_extends(
    chunks: Seq<ChunkModel>,
    longer: Seq<ChunkModel>,
    start: int,
    end: int,
)
    requires
        starts_chunk(chunks, start, end),
        extends(chunks, longer),
    ensures
        starts_chunk(longer, start, end),
{
    let i = choose|i: int|
        0 <= i < chunks.len() && (#[trigger] chunks[i]).start == start && end <= chunks[i].end;
    assert(longer.take(chunks.len() as int)[i] == longer[i]);
}

proof fn lemma_close_keeps_from(
    source: Seq<char>,
    progress: Progress,
    gap_end: int,
    max: nat,
    start: int,
    end: int,
)
    requires
        kept_from(progress, start, end),
        start < end,
        progress.end <= gap_end,
    ensures
        starts_chunk(close_run(source, progress, gap_end, max), start, end),
{
    let closed = close_run(source, progress, gap_end, max);
    lemma_close_run_extends(source, progress, gap_end, max);
    if starts_chunk(progress.chunks, start, end) {
        lemma_starts_extends(progress.chunks, closed, start, end);
    } else {
        assert(closed[progress.chunks.len() as int].start == start);
    }
}

proof fn lemma_kept_from(
    source: Seq<char>,
    root: SyntaxNode,
    max: nat,
    earlier: nat,
    later: nat,
    start: int,
    end: int,
)
    requires
        fits_source(source, root),
        max >= 1,
        earlier <= later <= root.named_children@.len(),
        start < end,
        kept_from(
            progress_after(
                source,
                root,
                max,
                root.start_byte as int,
                root.end_byte as int,
                earlier,
            ),
            start,
            end,
        ),
    ensures
        kept_from(
            progress_after(
                source,
                root,
                max,
                root.start_byte as int,
                root.end_byte as int,
                later,
            ),
            start,
            end,
        ),
    decreases later,
{
    if earlier < later {
        let lo = root.start_byte as int;
        let hi = root.end_byte as int;
        let fewer = (later - 1) as nat;
        lemma_kept_from(source, root, max, earlier, fewer, start, end);
        lemma_progress_sound(source, root, max, fewer);
        let before = progress_after(source, root, max, lo, hi, fewer);
        let child = root.named_children@[later - 1];
        assert(before.end <= child.start_byte);
        if takes_part(child, lo, hi) {
            let closed = close_run(source, before, child.start_byte as int, max);
            lemma_close_keeps_from(source, before, child.start_byte as int, max, start, end);
            let inner = node_chunks(
                source,
                child,
                max,
                child.start_byte as int,
                child.end_byte as int,
            );
            lemma_extends_concat(closed, inner);
            lemma_starts_extends(closed, closed + inner, start, end);
        }
    }
}

/// The chunk that holds a child that fits starts where the run started that the
/// child is part of.
proof fn lemma_run_of_child(source: Seq<char>, root: SyntaxNode, max: nat, i: int, k: int)
    requires
        fits_source(source, root),
        max >= 1,
        node_ink(source, root) > max,
        0 <= i < root.named_children@.len(),
        root.named_children@[i].start_byte < root.named_children@[i].end_byte,
        node_ink(source, root.named_children@[i]) <= max,
        0 <= k < tree_chunks(source, root, max).len(),
        chunk_holds(
            tree_chunks(source, root, max)[k],
            root.named_children@[i].start_byte as int,
            root.named_children@[i].end_byte as int,
        ),
    ensures
        ({
            let after = progress_after(
                source,
                root,
                max,
                root.start_byte as int,
                root.end_byte as int,
                (i + 1) as nat,
            );
            &&& after.run is Some
            &&& after.end == root.named_children@[i].end_byte
            &&& after.run->0.start <= root.named_children@[i].start_byte
            &&& after.run->0.start == tree_chunks(source, root, max)[k].start
        }),
{
    let lo = root.start_byte as int;
    let hi = root.end_byte as int;
    let child = root.named_children@[i];
    let start = child.start_byte as int;
    let end = child.end_byte as int;
    let count = root.named_children@.len();
    lemma_ink_not_empty(source, lo, hi);
    lemma_progress_sound(source, root, max, i as nat);
    assert(fits_source(source, child));
    assert(takes_part(child, lo, hi));
    let after = progress_after(source, root, max, lo, hi, (i + 1) as nat);
    let first = after.run->0.start;
    assert(kept_from(after, first, end));
    lemma_kept_from(source, root, max, (i + 1) as nat, count, first, end);
    let last = progress_after(source, root, max, lo, hi, count);
    lemma_progress_sound(source, root, max, count);
    lemma_close_keeps_from(source, last, hi, max, first, end);
    let chunks = tree_chunks(source, root, max);
    let j = choose|j: int|
        0 <= j < chunks.len() && (#[trigger] chunks[j]).start == first && end <= chunks[j].end;
    assert(chunk_holds(chunks[j], start, end));
    lemma_one_holder(source, root, max, start, end);
}

/// Neighbours that fit are merged as long as the chunk they form fits: the chunk
/// that holds a child also holds the next child that is not empty, if and only
/// if that child fits and the text from the start of the chunk to the end of that
/// child fits.
pub proof fn law_merged_neighbours(
    source: Seq<char>,
    root: SyntaxNode,
    max: nat,
    i: int,
    j: int,
    k: int,
)
    requires
        fits_source(source, root),
        max >= 1,
        node_ink(source, root) > max,
        0 <= i < j < root.named_children@.len(),
        only_empty(root, i + 1, j),
        root.named_children@[i].start_byte < root.named_children@[i].end_byte,
        root.named_children@[j].start_byte < root.named_children@[j].end_byte,
        node_ink(source, root.named_children@[i]) <= max,
        0 <= k < tree_chunks(source, root, max).len(),
        chunk_holds(
            tree_chunks(source, root, max)[k],
            root.named_children@[i].start_byte as int,
            root.named_children@[i].end_byte as int,
        ),
    ensures
        chunk_holds(
            tree_chunks(source, root, max)[k],
            root.named_children@[j].start_byte as int,
            root.named_children@[j].end_byte as int,
        ) <==> node_ink(source, root.named_children@[j]) <= max && text::ink_between(
            source,
            tree_chunks(source, root, max)[k].start,
            root.named_children@[j].end_byte as int,
        ) <= max,
{
    let lo = root.start_byte as int;
    let hi = root.end_byte as int;
    let next = root.named_children@[j];
    let start = next.start_byte as int;
    let end = next.end_byte as int;
    let chunks = tree_chunks(source, root, max);
    let one = chunks[k];
    lemma_run_of_child(source, root, max, i, k);
    lemma_skip_empty(source, root, max, lo, hi, i + 1, j);
    assert(fits_source(source, next));
    assert(takes_part(next, lo, hi));
    law_tree_chunks(source, root, max);
    let ranges = chunk::spans(chunks);
    assert(ranges[k] == (one.start, one.end));
    assert(text::is_boundary(source, ranges[k].0) && text::is_boundary(source, ranges[k].1));
    if chunk_holds(one, start, end) {
        text::law_ink_between(source, one.start, start, one.end);
        text::law_ink_between(source, start, end, one.end);
        text::law_ink_between(source, one.start, end, one.end);
    }
    if node_ink(source, next) <= max && text::ink_between(source, one.start, end) <= max {
        let after = progress_after(source, root, max, lo, hi, (j + 1) as nat);
        assert(after.run->0.start == one.start);
        assert(kept_from(after, one.start, end));
        let count = root.named_children@.len();
        lemma_progress_sound(source, root, max, (j + 1) as nat);
        lemma_kept_from(source, root, max, (j + 1) as nat, count, one.start, end);
        lemma_progress_sound(source, root, max, count);
        let last = progress_after(source, root, max, lo, hi, count);
        lemma_close_keeps_from(source, last, hi, max, one.start, end);
        let m = choose|m: int|
            0 <= m < chunks.len() && (#[trigger] chunks[m]).start == one.start && end
                <= chunks[m].end;
        let child = root.named_children@[i];
        assert(child.end_byte <= next.start_byte);
        assert(chunk_holds(chunks[m], child.start_byte as int, child.end_byte as int));
        lemma_one_holder(
            source,
            root,
            max,
            child.start_byte as int,
            child.end_byte as int,
        );
    }
}

/// Where a child ends the chunk that holds it, what stands between it and the
/// next child that is not empty, or the end of the node, goes to the chunk if it
/// then still fits; else the chunk ends with the child, and what stands between
/// is cut as plain text.
pub proof fn law_chunk_end(
    source: Seq<char>,
    root: SyntaxNode,
    max: nat,
    i: int,
    j: int,
    k: int,
)
    requires
        fits_source(source, root),
        max >= 1,
        node_ink(source, root) > max,
        0 <= i < j <= root.named_children@.len(),
        only_empty(root, i + 1, j),
        root.named_children@[i].start_byte < root.named_children@[i].end_byte,
        node_ink(source, root.named_children@[i]) <= max,
        0 <= k < tree_chunks(source, root, max).len(),
        chunk_holds(
            tree_chunks(source, root, max)[k],
            root.named_children@[i].start_byte as int,
            root.named_children@[i].end_byte as int,
        ),
        j < root.named_children@.len() ==> root.named_children@[j].start_byte
            < root.named_children@[j].end_byte && !chunk_holds(
            tree_chunks(source, root, max)[k],
            root.named_children@[j].start_byte as int,
            root.named_children@[j].end_byte as int,
        ),
    ensures
        ({
            let chunks = tree_chunks(source, root, max);
            let end = root.named_children@[i].end_byte as int;
            let gap_end = if j < root.named_children@.len() {
                root.named_children@[j].start_byte as int
            } else {
                root.end_byte as int
            };
            if text::ink_between(source, chunks[k].start, gap_end) <= max {
                chunks[k].end == gap_end
            } else {
                chunks[k].end == end && occur_in(
                    chunk::fallback_chunks(source, end, gap_end, max),
                    chunks,
                )
            }
        }),
{
    let lo = root.start_byte as int;
    let hi = root.end_byte as int;
    let chunks = tree_chunks(source, root, max);
    let one = chunks[k];
    let count = root.named_children@.len();
    let child = root.named_children@[i];
    let end = child.end_byte as int;
    let gap_end = if j < count {
        root.named_children@[j].start_byte as int
    } else {
        hi
    };
    lemma_run_of_child(source, root, max, i, k);
    lemma_skip_empty(source, root, max, lo, hi, i + 1, j);
    let before = progress_after(source, root, max, lo, hi, j as nat);
    let closed = close_run(source, before, gap_end, max);
    lemma_progress_sound(source, root, max, j as nat);
    if j < count {
        let next = root.named_children@[j];
        assert(fits_source(source, next));
        assert(takes_part(next, lo, hi));
        law_merged_neighbours(source, root, max, i, j, k);
        let after = progress_after(source, root, max, lo, hi, (j + 1) as nat);
        let inner = node_chunks(source, next, max, gap_end, next.end_byte as int);
        lemma_extends_concat(closed, inner);
        lemma_extends_concat(closed, Seq::empty());
        assert(closed + Seq::<ChunkModel>::empty() =~= closed);
        assert(extends(closed, after.chunks));
        lemma_node_chunks_extend(source, root, max, lo, hi, (j + 1) as nat);
        lemma_extends_transitive(closed, after.chunks, chunks);
    } else {
        lemma_extends_concat(closed, Seq::empty());
        assert(closed + Seq::<ChunkModel>::empty() =~= closed);
    }
    let m = before.chunks.len() as int;
    let fits = text::ink_between(source, one.start, gap_end) <= max;
    assert(closed[m].start == one.start);
    assert(closed[m].end == if fits {
        gap_end
    } else {
        end
    });
    assert(chunks[m] == chunks.take(closed.len() as int)[m]);
    assert(chunk_holds(chunks[m], child.start_byte as int, end));
    lemma_one_holder(source, root, max, child.start_byte as int, end);
    assert(m == k);
    if !fits {
        let gap = chunk::fallback_chunks(source, end, gap_end, max);
        let head = closed.take(m + 1);
        assert(closed =~= head + gap + Seq::<ChunkModel>::empty()) by {
            assert(closed.skip(m + 1) =~= gap);
        }
        lemma_occur(head, gap, Seq::empty());
        lemma_occur_extends(gap, closed, chunks);
    }
}

/// Where the first child starts that a chunk holds, the chunk starts, if the
/// child before fits: that one is in another chunk. If there is no child before,
/// or one that does not fit, the chunk starts where that child ends, or where the
/// node starts, if it then fits; else what stands before the child is cut as
/// plain text.
pub proof fn law_chunk_start(
    source: Seq<char>,
    root: SyntaxNode,
    max: nat,
    h: int,
    i: int,
    k: int,
)
    requires
        fits_source(source, root),
        max >= 1,
        node_ink(source, root) > max,
        -1 <= h < i < root.named_children@.len(),
        only_empty(root, h + 1, i),
        root.named_children@[i].start_byte < root.named_children@[i].end_byte,
        node_ink(source, root.named_children@[i]) <= max,
        0 <= k < tree_chunks(source, root, max).len(),
        chunk_holds(
            tree_chunks(source, root, max)[k],
            root.named_children@[i].start_byte as int,
            root.named_children@[i].end_byte as int,
        ),
        h >= 0 ==> root.named_children@[h].start_byte < root.named_children@[h].end_byte
            && !chunk_holds(
            tree_chunks(source, root, max)[k],
            root.named_children@[h].start_byte as int,
            root.named_children@[h].end_byte as int,
        ),
    ensures
        ({
            let chunks = tree_chunks(source, root, max);
            let child = root.named_children@[i];
            let gap_start = if h >= 0 {
                root.named_children@[h].end_byte as int
            } else {
                root.start_byte as int
            };
            if h >= 0 && node_ink(source, root.named_children@[h]) <= max {
                chunks[k].start == child.start_byte
            } else if text::ink_between(source, gap_start, child.end_byte as int) <= max {
                chunks[k].start == gap_start
            } else {
                chunks[k].start == child.start_byte && occur_in(
                    chunk::fallback_chunks(source, gap_start, child.start_byte as int, max),
                    chunks,
                )
            }
        }),
{
    let lo = root.start_byte as int;
    let hi = root.end_byte as int;
    let chunks = tree_chunks(source, root, max);
    let child = root.named_children@[i];
    let start = child.start_byte as int;
    let end = child.end_byte as int;
    let one = chunks[k];
    lemma_run_of_child(source, root, max, i, k);
    lemma_skip_empty(source, root, max, lo, hi, h + 1, i);
    let before = progress_after(source, root, max, lo, hi, i as nat);
    let after = progress_after(source, root, max, lo, hi, (i + 1) as nat);
    assert(fits_source(source, child));
    assert(takes_part(child, lo, hi));
    if h >= 0 {
        let other = root.named_children@[h];
        assert(fits_source(source, other));
        assert(takes_part(other, lo, hi));
        assert(before.end == other.end_byte);
        if node_ink(source, other) <= max {
            law_fitting_child_whole(source, root, max, h);
            let m = choose|m: int|
                0 <= m < chunks.len() && chunk_holds(
                    #[trigger] chunks[m],
                    other.start_byte as int,
                    other.end_byte as int,
                );
            lemma_run_of_child(source, root, max, h, m);
            law_merged_neighbours(source, root, max, h, i, m);
            if chunk_holds(chunks[m], start, end) {
                lemma_one_holder(source, root, max, start, end);
            }
        } else {
            assert(before.run is None);
        }
    } else {
        assert(progress_after(source, root, max, lo, hi, 0).run is None);
        assert(before.end == lo);
    }
    if before.run is None && text::ink_between(source, before.end, end) > max {
        let gap = chunk::fallback_chunks(source, before.end, start, max);
        assert(after.chunks == before.chunks + gap);
        assert(after.chunks =~= before.chunks + gap + Seq::<ChunkModel>::empty());
        lemma_occur(before.chunks, gap, Seq::empty());
        lemma_node_chunks_extend(source, root, max, lo, hi, (i + 1) as nat);
        lemma_ink_not_empty(source, lo, hi);
        lemma_occur_extends(gap, after.chunks, chunks);
    }
}

/// What stands between two children that do not fit, with only empty children
/// between them, is cut as plain text; so is what stands before the first child
/// and after the last, where these do not fit, and all of a node without children
/// that are not empty.
pub proof fn law_gap_between_large(
    source: Seq<char>,
    root: SyntaxNode,
    max: nat,
    h: int,
    j: int,
)
    requires
        fits_source(source, root),
        max >= 1,
        node_ink(source, root) > max,
        -1 <= h < j <= root.named_children@.len(),
        only_empty(root, h + 1, j),
        h >= 0 ==> node_ink(source, root.named_children@[h]) > max,
        j < root.named_children@.len() ==> node_ink(source, root.named_children@[j]) > max,
    ensures
        occur_in(
            chunk::fallback_chunks(
                source,
                if h >= 0 {
                    root.named_children@[h].end_byte as int
                } else {
                    root.start_byte as int
                },
                if j < root.named_children@.len() {
                    root.named_children@[j].start_byte as int
                } else {
                    root.end_byte as int
                },
                max,
            ),
            tree_chunks(source, root, max),
        ),
{
    let lo = root.start_byte as int;
    let hi = root.end_byte as int;
    let chunks = tree_chunks(source, root, max);
    let count = root.named_children@.len();
    lemma_ink_not_empty(source, lo, hi);
    let none = Seq::<ChunkModel>::empty();
    if count == 0 {
        assert(chunks =~= none + chunks + none);
        lemma_occur(none, chunks, none);
    } else {
        lemma_skip_empty(source, root, max, lo, hi, h + 1, j);
        let before = progress_after(source, root, max, lo, hi, j as nat);
        if h >= 0 {
            let other = root.named_children@[h];
            assert(fits_source(source, other));
            lemma_ink_not_empty(source, other.start_byte as int, other.end_byte as int);
            assert(takes_part(other, lo, hi));
        }
        assert(before.run is None);
        let gap_end = if j < count {
            root.named_children@[j].start_byte as int
        } else {
            hi
        };
        let gap = chunk::fallback_chunks(source, before.end, gap_end, max);
        if j < count {
            let next = root.named_children@[j];
            assert(fits_source(source, next));
            lemma_ink_not_empty(source, next.start_byte as int, next.end_byte as int);
            assert(takes_part(next, lo, hi));
            let after = progress_after(source, root, max, lo, hi, (j + 1) as nat);
            let inner = node_chunks(source, next, max, gap_end, next.end_byte as int);
            assert(after.chunks == before.chunks + gap + inner);
            lemma_occur(before.chunks, gap, inner);
            lemma_node_chunks_extend(source, root, max, lo, hi, (j + 1) as nat);
            lemma_occur_extends(gap, after.chunks, chunks);
        } else {
            assert(chunks =~= before.chunks + gap + none);
            lemma_occur(before.chunks, gap, none);
        }
    }
}

/// A root covers a buffer exactly if it starts with it and does not end before
/// it.
pub proof fn law_covers_buffer(root: SyntaxNode, length: int)
    ensures
        covers_buffer(root, length) <==> root.start_byte == 0 && length <= root.end_byte,
{
}

/// What a buffer is cut into is what its selected root is cut into, without gap
/// or overlap; it is not cut where that is switched off, or where no root covers
/// it.
pub proof fn law_buffer_cut(
    source: Seq<char>,
    roots: Seq<SyntaxNode>,
    options: CastChunkingOptions,
)
    ensures
        !options.enabled ==> buffer_chunks(source, roots, options) is None,
        (forall|i: int|
            0 <= i < roots.len() ==> !(#[trigger] roots[i].start_byte == 0 && roots[i].end_byte
                >= text::byte_len(source))) ==> buffer_chunks(source, roots, options) is None,
        buffer_chunks(source, roots, options) matches Some(chunks) ==> {
            let best = longest_root(roots, text::byte_len(source) as int, roots.len());
            &&& best is Some
            &&& chunks == tree_chunks(
                source,
                roots[best->0],
                if options.max_size < 1 {
                    1
                } else {
                    options.max_size as nat
                },
            )
            &&& chunk::joined(source, chunk::spans(chunks)) == source
        },
{
    law_longest_root(roots, text::byte_len(source) as int, roots.len());
    if let Some(best) = longest_root(roots, text::byte_len(source) as int, roots.len()) {
        assert(roots[best].start_byte == 0);
    }
    if let Some(chunks) = buffer_chunks(source, roots, options) {
        chunk::law_valid_chunks_reconstruct(chunks, source);
    }
}

} // verus!
