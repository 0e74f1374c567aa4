//! Indexed chunks of a source and how they relate to one another.

use crate::chunk;
use crate::chunk::{CastChunk, ChunkModel};
use crate::scope;
use crate::span;
use crate::split;
use crate::text;
use crate::tokens;
use std::ops::Range;
use vstd::prelude::*;

verus! {

/// The number by which an indexed chunk is known.
#[derive(Clone, Copy, Debug, Eq, PartialEq, Hash, Ord, PartialOrd, Structural)]
pub struct CodeChunkId(pub usize);

/// A declaration that a chunk stands in.
#[derive(Debug, Eq, PartialEq)]
pub struct EnclosingSymbol {
    pub name: String,
    pub kind: Option<String>,
    pub byte_range: Range<usize>,
    pub line_range: Range<u32>,
}

/// How a chunk relates to the other chunks of its file.
#[derive(Debug, Eq, PartialEq)]
pub struct CodeChunkTopology {
    pub parent: Option<CodeChunkId>,
    pub children: Vec<CodeChunkId>,
    pub previous_sibling: Option<CodeChunkId>,
    pub next_sibling: Option<CodeChunkId>,
    pub enclosing_symbols: Vec<EnclosingSymbol>,
}

/// A chunk as the index holds it.
#[derive(Debug, PartialEq)]
pub struct IndexedCodeChunk {
    pub id: CodeChunkId,
    pub worktree_id: Option<u64>,
    pub path: String,
    pub byte_range: Range<usize>,
    pub line_range: Range<u32>,
    pub text: String,
    pub non_whitespace_size: usize,
    pub primary_node_kind: Option<String>,
    pub topology: CodeChunkTopology,
    /// The components of the embedding, as the bits of single-precision
    /// numbers.
    pub embedding: Vec<u32>,
    pub lexical_terms: Vec<String>,
}

/// An enclosing symbol as a mathematical value.
pub struct SymbolModel {
    pub name: Seq<char>,
    pub kind: Option<Seq<char>>,
    pub span: (int, int),
    pub lines: (int, int),
}

/// A chunk's relations as a mathematical value.
#[verifier::ext_equal]
pub struct TopologyModel {
    pub parent: Option<int>,
    pub children: Seq<int>,
    pub previous: Option<int>,
    pub next: Option<int>,
    pub symbols: Seq<SymbolModel>,
}

/// An indexed chunk as a mathematical value.
#[verifier::ext_equal]
pub struct IndexedModel {
    pub id: int,
    pub worktree: Option<u64>,
    pub path: Seq<char>,
    pub span: (int, int),
    pub lines: (int, int),
    pub text: Seq<char>,
    pub size: nat,
    pub kind: Option<Seq<char>>,
    pub topology: TopologyModel,
    pub embedding: Seq<u32>,
    pub terms: Seq<Seq<char>>,
}

/// An optional identifier as a number.
pub open spec fn id_number(id: Option<CodeChunkId>) -> Option<int> {
    match id {
        Some(id) => Some(id.0 as int),
        None => None,
    }
}

/// Identifiers as numbers.
pub open spec fn id_numbers(ids: Seq<CodeChunkId>) -> Seq<int> {
    Seq::new(ids.len(), |i: int| ids[i].0 as int)
}

impl View for EnclosingSymbol {
    type V = SymbolModel;

    open spec fn view(&self) -> SymbolModel {
        SymbolModel {
            name: self.name@,
            kind: text::optional_text(self.kind),
            span: (self.byte_range.start as int, self.byte_range.end as int),
            lines: (self.line_range.start as int, self.line_range.end as int),
        }
    }
}

/// Enclosing symbols as mathematical values.
pub open spec fn symbol_models(symbols: Seq<EnclosingSymbol>) -> Seq<SymbolModel> {
    Seq::new(symbols.len(), |i: int| symbols[i]@)
}

impl View for CodeChunkTopology {
    type V = TopologyModel;

    open spec fn view(&self) -> TopologyModel {
        TopologyModel {
            parent: id_number(self.parent),
            children: id_numbers(self.children@),
            previous: id_number(self.previous_sibling),
            next: id_number(self.next_sibling),
            symbols: symbol_models(self.enclosing_symbols@),
        }
    }
}

impl View for IndexedCodeChunk {
    type V = IndexedModel;

    open spec fn view(&self) -> IndexedModel {
        IndexedModel {
            id: self.id.0 as int,
            worktree: self.worktree_id,
            path: self.path@,
            span: (self.byte_range.start as int, self.byte_range.end as int),
            lines: (self.line_range.start as int, self.line_range.end as int),
            text: self.text@,
            size: self.non_whitespace_size as nat,
            kind: text::optional_text(self.primary_node_kind),
            topology: self.topology@,
            embedding: self.embedding@,
            terms: tokens::texts(self.lexical_terms@),
        }
    }
}

/// Indexed chunks as mathematical values.
pub open spec fn index_models(chunks: Seq<IndexedCodeChunk>) -> Seq<IndexedModel> {
    Seq::new(chunks.len(), |i: int| chunks[i]@)
}

/// The chunks of a file as chunks know one another before they are related.
pub open spec fn unrelated(previous: Option<int>, next: Option<int>) -> TopologyModel {
    TopologyModel {
        parent: None,
        children: Seq::empty(),
        previous,
        next,
        symbols: Seq::empty(),
    }
}

/// The text of a chunk of `source`; empty where its range is no slice.
pub open spec fn chunk_text(source: Seq<char>, chunk: ChunkModel) -> Seq<char> {
    match text::slice_chars(source, chunk.start, chunk.end) {
        Some(slice) => slice,
        None => Seq::empty(),
    }
}

/// Whether a chunk opens a scope for the chunks after it.
pub open spec fn parent_like(kind: Option<Seq<char>>, text: Seq<char>) -> bool {
    ||| kind is Some && scope::parent_like_kind(kind->0)
    ||| scope::parent_like_text(text)
}

/// Whether one range holds another.
pub open spec fn holds(outer: (int, int), inner: (int, int)) -> bool {
    outer.0 <= inner.0 && outer.1 >= inner.1
}

/// The length of a range; zero where it ends before it starts.
pub open spec fn length(range: (int, int)) -> int {
    if range.1 < range.0 {
        0
    } else {
        range.1 - range.0
    }
}

/// The shortest of the first `count` ranges that holds the range at `index`
/// and is not that range; the first of the shortest.
pub open spec fn container(ranges: Seq<(int, int)>, index: int, count: int) -> Option<int>
    decreases count,
{
    if count <= 0 {
        None
    } else {
        let best = container(ranges, index, count - 1);
        let candidate = count - 1;
        if candidate != index && holds(ranges[candidate], ranges[index]) && (best is None || length(
            ranges[candidate],
        ) < length(ranges[best->0])) {
            Some(candidate)
        } else {
            best
        }
    }
}

/// The scope that is active before the chunk at `index`, with the index of
/// the chunk that opened it: the last chunk before that opens scopes decides.
pub open spec fn active_scope(source: Seq<char>, chunks: Seq<ChunkModel>, index: int) -> Option<
    (int, (int, int)),
>
    decreases index,
{
    if index <= 0 {
        None
    } else {
        let last = chunks[index - 1];
        if parent_like(last.kind, chunk_text(source, last)) {
            match scope::brace_scope(source, last.start, last.end) {
                Some(range) => Some((index - 1, range)),
                None => None,
            }
        } else {
            active_scope(source, chunks, index - 1)
        }
    }
}

/// The chunk in whose scope the chunk at `index` lies, if it opens no scope
/// itself.
pub open spec fn scope_owner(source: Seq<char>, chunks: Seq<ChunkModel>, index: int) -> Option<int> {
    let chunk = chunks[index];
    if parent_like(chunk.kind, chunk_text(source, chunk)) {
        None
    } else {
        match active_scope(source, chunks, index) {
            Some((owner, range)) => if holds(range, (chunk.start, chunk.end)) {
                Some(owner)
            } else {
                None
            },
            None => None,
        }
    }
}

/// The index of a chunk's parent: the shortest chunk that holds it, else the
/// chunk in whose scope it lies.
pub open spec fn parent_of(source: Seq<char>, chunks: Seq<ChunkModel>, index: int) -> Option<int> {
    match container(chunk::spans(chunks), index, chunks.len() as int) {
        Some(parent) => Some(parent),
        None => scope_owner(source, chunks, index),
    }
}

/// The identifiers of those of the first `count` chunks that the chunk at
/// `parent` holds as their parent.
pub open spec fn held_children(chunks: Seq<ChunkModel>, parent: int, count: int) -> Seq<int>
    decreases count,
{
    if count <= 0 {
        Seq::empty()
    } else {
        let before = held_children(chunks, parent, count - 1);
        if container(chunk::spans(chunks), count - 1, chunks.len() as int) == Some(parent) {
            before.push(count)
        } else {
            before
        }
    }
}

/// The identifiers of those of the first `count` chunks that no chunk holds
/// and that lie in the scope of the chunk at `parent`.
pub open spec fn scoped_children(
    source: Seq<char>,
    chunks: Seq<ChunkModel>,
    parent: int,
    count: int,
) -> Seq<int>
    decreases count,
{
    if count <= 0 {
        Seq::empty()
    } else {
        let before = scoped_children(source, chunks, parent, count - 1);
        if container(chunk::spans(chunks), count - 1, chunks.len() as int) is None && scope_owner(
            source,
            chunks,
            count - 1,
        ) == Some(parent) {
            before.push(count)
        } else {
            before
        }
    }
}

/// What a parent is called: its first line without white space around it and
/// without opening braces at its end, else its kind, else `parent`.
pub open spec fn symbol_name(text: Seq<char>, kind: Option<Seq<char>>) -> Seq<char> {
    let line = text::trim_of(
        text::trim_end_char_of(text::trim_of(text::first_line_of(text)), '{'),
    );
    if line.len() > 0 {
        line
    } else {
        match kind {
            Some(kind) => kind,
            None => "parent"@,
        }
    }
}

/// The symbol that a parent is to its children.
pub open spec fn symbol_of(parent: IndexedModel) -> SymbolModel {
    SymbolModel {
        name: symbol_name(parent.text, parent.kind),
        kind: parent.kind,
        span: parent.span,
        lines: parent.lines,
    }
}

/// The identifier before that of the chunk at `index`.
pub open spec fn previous_id(index: int) -> Option<int> {
    if index > 0 {
        Some(index)
    } else {
        None
    }
}

/// The identifier after that of the chunk at `index`, of `count` chunks.
pub open spec fn next_id(index: int, count: int) -> Option<int> {
    if index + 1 < count {
        Some(index + 2)
    } else {
        None
    }
}

/// The indexed chunk at `index`, before parents are known.
pub open spec fn plain_chunk(
    path: Seq<char>,
    source: Seq<char>,
    chunks: Seq<ChunkModel>,
    index: int,
) -> IndexedModel {
    let chunk = chunks[index];
    IndexedModel {
        id: index + 1,
        worktree: None,
        path,
        span: (chunk.start, chunk.end),
        lines: scope::line_span(source, chunk.start, chunk.end),
        text: chunk_text(source, chunk),
        size: chunk.size,
        kind: chunk.kind,
        topology: unrelated(previous_id(index), next_id(index, chunks.len() as int)),
        embedding: Seq::empty(),
        terms: tokens::words(chunk_text(source, chunk)),
    }
}

/// The relations of the chunk at `index`.
pub open spec fn topology_of(
    path: Seq<char>,
    source: Seq<char>,
    chunks: Seq<ChunkModel>,
    index: int,
) -> TopologyModel {
    let count = chunks.len() as int;
    let parent = parent_of(source, chunks, index);
    TopologyModel {
        parent: match parent {
            Some(parent) => Some(parent + 1),
            None => None,
        },
        children: held_children(chunks, index, count) + scoped_children(
            source,
            chunks,
            index,
            count,
        ),
        previous: previous_id(index),
        next: next_id(index, count),
        symbols: match parent {
            Some(parent) => seq![symbol_of(plain_chunk(path, source, chunks, parent))],
            None => Seq::empty(),
        },
    }
}

/// The indexed chunk at `index`.
pub open spec fn indexed_chunk(
    path: Seq<char>,
    source: Seq<char>,
    chunks: Seq<ChunkModel>,
    index: int,
) -> IndexedModel {
    IndexedModel {
        topology: topology_of(path, source, chunks, index),
        ..plain_chunk(path, source, chunks, index)
    }
}

/// The indexed chunks of a source that was cut into `chunks`.
pub open spec fn indexed_chunks(path: Seq<char>, source: Seq<char>, chunks: Seq<ChunkModel>) -> Seq<
    IndexedModel,
> {
    Seq::new(chunks.len(), |i: int| indexed_chunk(path, source, chunks, i))
}

// ---------------------------------------------------------------------------
// Executable functions
// ---------------------------------------------------------------------------

/// Whether a chunk opens a scope for the chunks after it.
pub fn is_parent_like_chunk(chunk: &IndexedCodeChunk) -> (opens: bool)
    ensures
        opens == parent_like(chunk@.kind, chunk@.text),
{
    let kind_opens: bool = match &chunk.primary_node_kind {
        Some(kind) => scope::is_parent_like_node_kind(kind.as_str()),
        None => false,
    };
    kind_opens || scope::is_parent_like_source_text(chunk.text.as_str())
}

/// What a parent is called.
pub fn parent_symbol_name(parent: &IndexedCodeChunk) -> (name: String)
    ensures
        name@ == symbol_name(parent@.text, parent@.kind),
{
    let line = text::trim(
        text::trim_end_char(text::trim(text::first_line(parent.text.as_str())), '{'),
    );
    if !line.is_empty() {
        line.to_string()
    } else {
        match &parent.primary_node_kind {
            Some(kind) => kind.clone(),
            None => "parent".to_string(),
        }
    }
}

/// The symbol that a parent is to its children.
pub fn enclosing_symbol_for_parent(parent: &IndexedCodeChunk) -> (symbol: EnclosingSymbol)
    ensures
        symbol@ == symbol_of(parent@),
{
    EnclosingSymbol {
        name: parent_symbol_name(parent),
        kind: text::clone_optional(&parent.primary_node_kind),
        byte_range: parent.byte_range.start..parent.byte_range.end,
        line_range: parent.line_range.start..parent.line_range.end,
    }
}

/// The scope that a chunk opens for the chunks after it.
pub struct ParentScope {
    pub parent_id: CodeChunkId,
    pub byte_range: Range<usize>,
}

impl ParentScope {
    /// The scope that `parent` opens, if it opens one.
    pub fn new(source: &str, parent: &IndexedCodeChunk) -> (opened: Option<Self>)
        ensures
            opened is Some == scope::brace_scope(source@, parent@.span.0, parent@.span.1) is Some,
            opened matches Some(opened) ==> opened.parent_id == parent.id && scope::brace_scope(
                source@,
                parent@.span.0,
                parent@.span.1,
            ) == Some((opened.byte_range.start as int, opened.byte_range.end as int)),
    {
        match scope::matching_brace_scope(source, parent.byte_range.start..parent.byte_range.end) {
            Some(byte_range) => Some(Self { parent_id: parent.id, byte_range }),
            None => None,
        }
    }

    /// Whether a chunk lies in the scope.
    pub fn contains(&self, chunk: &IndexedCodeChunk) -> (inside: bool)
        ensures
            inside == holds(
                (self.byte_range.start as int, self.byte_range.end as int),
                chunk@.span,
            ),
    {
        self.byte_range.start <= chunk.byte_range.start && self.byte_range.end
            >= chunk.byte_range.end
    }
}

/// The indexed chunk for one chunk of a source, before parents are known.
fn plain_indexed_chunk(path: &str, source: &str, chunks: &Vec<CastChunk>, index: usize) -> (indexed:
    IndexedCodeChunk)
    requires
        index < chunks@.len(),
    ensures
        indexed@ == plain_chunk(path@, source@, chunk::models(chunks@), index as int),
{
    let chunk = &chunks[index];
    let start: usize = chunk.byte_range.start;
    let end: usize = chunk.byte_range.end;
    let text: String = match text::slice_text(source, start, end) {
        Some(slice) => slice.to_string(),
        None => String::new(),
    };
    let lexical_terms = tokens::tokenize_for_search(text.as_str());
    let previous_sibling = if index > 0 {
        Some(CodeChunkId(index))
    } else {
        None
    };
    let next_sibling = if index < chunks.len() - 1 {
        Some(CodeChunkId(index + 2))
    } else {
        None
    };
    let indexed = IndexedCodeChunk {
        id: CodeChunkId(index + 1),
        worktree_id: None,
        path: path.to_string(),
        byte_range: start..end,
        line_range: scope::byte_range_to_line_range(source, start..end),
        text,
        non_whitespace_size: chunk.non_whitespace_size,
        primary_node_kind: text::clone_optional(&chunk.primary_node_kind),
        topology: CodeChunkTopology {
            parent: None,
            children: Vec::new(),
            previous_sibling,
            next_sibling,
            enclosing_symbols: Vec::new(),
        },
        embedding: Vec::new(),
        lexical_terms,
    };
    assert(indexed@ =~= plain_chunk(path@, source@, chunk::models(chunks@), index as int)) by {
        let model = chunk::models(chunks@)[index as int];
        assert(model == chunk@);
        assert(text@ =~= chunk_text(source@, model));
        assert(indexed@.topology =~= unrelated(
            previous_id(index as int),
            next_id(index as int, chunks@.len() as int),
        ));
    }
    indexed
}

/// An optional index as a number.
pub open spec fn index_number(index: Option<usize>) -> Option<int> {
    match index {
        Some(index) => Some(index as int),
        None => None,
    }
}

proof fn lemma_container_range(ranges: Seq<(int, int)>, index: int, count: int)
    ensures
        container(ranges, index, count) matches Some(found) ==> 0 <= found < count && found
            != index && holds(ranges[found], ranges[index]),
    decreases count,
{
    if count > 0 {
        lemma_container_range(ranges, index, count - 1);
    }
}

proof fn lemma_active_scope_range(source: Seq<char>, chunks: Seq<ChunkModel>, index: int)
    ensures
        active_scope(source, chunks, index) matches Some((owner, range)) ==> 0 <= owner < index,
    decreases index,
{
    if index > 0 {
        lemma_active_scope_range(source, chunks, index - 1);
    }
}

proof fn lemma_parent_range(source: Seq<char>, chunks: Seq<ChunkModel>, index: int)
    requires
        0 <= index < chunks.len(),
    ensures
        parent_of(source, chunks, index) matches Some(parent) ==> 0 <= parent < chunks.len()
            && parent != index,
{
    lemma_container_range(chunk::spans(chunks), index, chunks.len() as int);
    lemma_active_scope_range(source, chunks, index);
}

/// The index of the shortest chunk that holds the one at `child`.
fn smallest_container(chunks: &Vec<IndexedCodeChunk>, child: usize, Ghost(ranges): Ghost<
    Seq<(int, int)>,
>) -> (found: Option<usize>)
    requires
        child < chunks@.len(),
        ranges.len() == chunks@.len(),
        forall|i: int| 0 <= i < ranges.len() ==> #[trigger] chunks@[i]@.span == ranges[i],
    ensures
        index_number(found) == container(ranges, child as int, ranges.len() as int),
{
    let mut best: Option<usize> = None;
    let start: usize = chunks[child].byte_range.start;
    let end: usize = chunks[child].byte_range.end;
    assert(chunks@[child as int]@.span == ranges[child as int]);
    for candidate in 0..chunks.len()
        invariant
            child < chunks@.len(),
            ranges.len() == chunks@.len(),
            forall|i: int| 0 <= i < ranges.len() ==> #[trigger] chunks@[i]@.span == ranges[i],
            ranges[child as int] == (start as int, end as int),
            index_number(best) == container(ranges, child as int, candidate as int),
            best matches Some(found) ==> found < chunks@.len(),
    {
        let range = &chunks[candidate].byte_range;
        assert(chunks@[candidate as int]@.span == ranges[candidate as int]);
        if candidate != child && range.start <= start && range.end >= end {
            let shorter: bool = match best {
                None => true,
                Some(found) => {
                    let other = &chunks[found].byte_range;
                    assert(chunks@[found as int]@.span == ranges[found as int]);
                    range.end.saturating_sub(range.start) < other.end.saturating_sub(other.start)
                },
            };
            if shorter {
                best = Some(candidate);
            }
        }
    }
    best
}

/// For each chunk the index of the chunk in whose scope it lies.
fn scope_owners(source: &str, chunks: &Vec<IndexedCodeChunk>, Ghost(models): Ghost<
    Seq<ChunkModel>,
>) -> (owners: Vec<Option<usize>>)
    requires
        models.len() == chunks@.len(),
        forall|i: int|
            0 <= i < models.len() ==> (#[trigger] chunks@[i]@).id == i + 1 && chunks@[i]@.span == (
                models[i].start,
                models[i].end,
            ) && chunks@[i]@.kind == models[i].kind && chunks@[i]@.text == chunk_text(
                source@,
                models[i],
            ),
    ensures
        owners@.len() == models.len(),
        forall|i: int|
            0 <= i < models.len() ==> index_number(#[trigger] owners@[i]) == scope_owner(
                source@,
                models,
                i,
            ),
{
    let mut owners: Vec<Option<usize>> = Vec::new();
    let mut active: Option<ParentScope> = None;
    for index in 0..chunks.len()
        invariant
            models.len() == chunks@.len(),
            forall|i: int|
                0 <= i < models.len() ==> (#[trigger] chunks@[i]@).id == i + 1 && chunks@[i]@.span
                    == (models[i].start, models[i].end) && chunks@[i]@.kind == models[i].kind
                    && chunks@[i]@.text == chunk_text(source@, models[i]),
            owners@.len() == index,
            forall|i: int|
                0 <= i < index ==> index_number(#[trigger] owners@[i]) == scope_owner(
                    source@,
                    models,
                    i,
                ),
            active is Some == active_scope(source@, models, index as int) is Some,
            active matches Some(opened) ==> opened.parent_id.0 >= 1 && active_scope(
                source@,
                models,
                index as int,
            ) == Some(
                (
                    opened.parent_id.0 - 1,
                    (opened.byte_range.start as int, opened.byte_range.end as int),
                ),
            ),
    {
        let chunk = &chunks[index];
        assert(chunks@[index as int]@.id == index + 1);
        let owner: Option<usize> = if is_parent_like_chunk(chunk) {
            active = ParentScope::new(source, chunk);
            None
        } else {
            match &active {
                Some(opened) => if opened.contains(chunk) {
                    Some(opened.parent_id.0 - 1)
                } else {
                    None
                },
                None => None,
            }
        };
        owners.push(owner);
    }
    owners
}

/// The identifiers of the chunks whose parent is the chunk at `parent`: first
/// those that it holds, then those in its scope.
fn children_of(
    containers: &Vec<Option<usize>>,
    owners: &Vec<Option<usize>>,
    parent: usize,
    Ghost(source): Ghost<Seq<char>>,
    Ghost(models): Ghost<Seq<ChunkModel>>,
) -> (children: Vec<CodeChunkId>)
    requires
        containers@.len() == models.len(),
        owners@.len() == models.len(),
        forall|i: int|
            0 <= i < models.len() ==> index_number(#[trigger] containers@[i]) == container(
                chunk::spans(models),
                i,
                models.len() as int,
            ),
        forall|i: int|
            0 <= i < models.len() ==> index_number(#[trigger] owners@[i]) == scope_owner(
                source,
                models,
                i,
            ),
    ensures
        id_numbers(children@) == held_children(models, parent as int, models.len() as int)
            + scoped_children(source, models, parent as int, models.len() as int),
{
    let mut children: Vec<CodeChunkId> = Vec::new();
    assert(id_numbers(children@) =~= held_children(models, parent as int, 0));
    for index in 0..containers.len()
        invariant
            containers@.len() == models.len(),
            forall|i: int|
                0 <= i < models.len() ==> index_number(#[trigger] containers@[i]) == container(
                    chunk::spans(models),
                    i,
                    models.len() as int,
                ),
            id_numbers(children@) == held_children(models, parent as int, index as int),
    {
        assert(index_number(containers@[index as int]) == container(
            chunk::spans(models),
            index as int,
            models.len() as int,
        ));
        let ghost before = children@;
        if let Some(holder) = containers[index] {
            if holder == parent {
                children.push(CodeChunkId(index + 1));
                assert(id_numbers(children@) =~= id_numbers(before).push(index + 1));
            }
        }
    }
    let ghost held = held_children(models, parent as int, models.len() as int);
    assert(held + scoped_children(source, models, parent as int, 0) =~= held);
    for index in 0..owners.len()
        invariant
            containers@.len() == models.len(),
            owners@.len() == models.len(),
            forall|i: int|
                0 <= i < models.len() ==> index_number(#[trigger] containers@[i]) == container(
                    chunk::spans(models),
                    i,
                    models.len() as int,
                ),
            forall|i: int|
                0 <= i < models.len() ==> index_number(#[trigger] owners@[i]) == scope_owner(
                    source,
                    models,
                    i,
                ),
            id_numbers(children@) == held + scoped_children(
                source,
                models,
                parent as int,
                index as int,
            ),
    {
        assert(index_number(containers@[index as int]) == container(
            chunk::spans(models),
            index as int,
            models.len() as int,
        ));
        assert(index_number(owners@[index as int]) == scope_owner(source, models, index as int));
        let ghost before = children@;
        if containers[index].is_none() {
            if let Some(owner) = owners[index] {
                if owner == parent {
                    children.push(CodeChunkId(index + 1));
                    assert(id_numbers(children@) =~= id_numbers(before).push(index + 1));
                    assert(id_numbers(children@) =~= held + scoped_children(
                        source,
                        models,
                        parent as int,
                        index as int,
                    ).push(index + 1));
                }
            }
        }
    }
    children
}

/// Indexes the chunks that a source was cut into: numbers them from one, and
/// relates each to its neighbours, its parent and its children.
pub fn build_indexed_chunks(path: &str, source: &str, chunks: Vec<CastChunk>) -> (indexed: Vec<
    IndexedCodeChunk,
>)
    ensures
        index_models(indexed@) == indexed_chunks(path@, source@, chunk::models(chunks@)),
{
    let ghost models = chunk::models(chunks@);
    let ghost ranges = chunk::spans(models);
    let count: usize = chunks.len();
    let mut indexed: Vec<IndexedCodeChunk> = Vec::new();
    for index in 0..count
        invariant
            count == chunks@.len(),
            models == chunk::models(chunks@),
            indexed@.len() == index,
            forall|i: int|
                0 <= i < index ==> (#[trigger] indexed@[i])@ == plain_chunk(
                    path@,
                    source@,
                    models,
                    i,
                ),
    {
        let chunk = plain_indexed_chunk(path, source, &chunks, index);
        indexed.push(chunk);
    }
    let mut containers: Vec<Option<usize>> = Vec::new();
    for index in 0..count
        invariant
            count == indexed@.len(),
            models.len() == count,
            ranges == chunk::spans(models),
            forall|i: int|
                0 <= i < count ==> (#[trigger] indexed@[i])@ == plain_chunk(
                    path@,
                    source@,
                    models,
                    i,
                ),
            containers@.len() == index,
            forall|i: int|
                0 <= i < index ==> index_number(#[trigger] containers@[i]) == container(
                    ranges,
                    i,
                    models.len() as int,
                ),
    {
        let found = smallest_container(&indexed, index, Ghost(ranges));
        containers.push(found);
    }
    let owners = scope_owners(source, &indexed, Ghost(models));
    for index in 0..count
        invariant
            count == indexed@.len(),
            models.len() == count,
            ranges == chunk::spans(models),
            containers@.len() == count,
            owners@.len() == count,
            forall|i: int|
                0 <= i < models.len() ==> index_number(#[trigger] containers@[i]) == container(
                    chunk::spans(models),
                    i,
                    models.len() as int,
                ),
            forall|i: int|
                0 <= i < models.len() ==> index_number(#[trigger] owners@[i]) == scope_owner(
                    source@,
                    models,
                    i,
                ),
            forall|i: int|
                0 <= i < index ==> (#[trigger] indexed@[i])@ == indexed_chunk(
                    path@,
                    source@,
                    models,
                    i,
                ),
            forall|i: int|
                index <= i < count ==> (#[trigger] indexed@[i])@ == plain_chunk(
                    path@,
                    source@,
                    models,
                    i,
                ),
    {
        let ghost before = indexed@;
        let parent: Option<usize> = match containers[index] {
            Some(holder) => Some(holder),
            None => owners[index],
        };
        proof {
            assert(index_number(containers@[index as int]) == container(
                ranges,
                index as int,
                models.len() as int,
            ));
            assert(index_number(owners@[index as int]) == scope_owner(
                source@,
                models,
                index as int,
            ));
            assert(index_number(parent) == parent_of(source@, models, index as int));
            lemma_parent_range(source@, models, index as int);
        }
        let mut enclosing_symbols: Vec<EnclosingSymbol> = Vec::new();
        let mut parent_id: Option<CodeChunkId> = None;
        if let Some(parent) = parent {
            let symbol = enclosing_symbol_for_parent(&indexed[parent]);
            assert(symbol@ == symbol_of(plain_chunk(path@, source@, models, parent as int)));
            enclosing_symbols.push(symbol);
            parent_id = Some(CodeChunkId(parent + 1));
        }
        let children = children_of(&containers, &owners, index, Ghost(source@), Ghost(models));
        let previous_sibling = indexed[index].topology.previous_sibling;
        let next_sibling = indexed[index].topology.next_sibling;
        let topology = CodeChunkTopology {
            parent: parent_id,
            children,
            previous_sibling,
            next_sibling,
            enclosing_symbols,
        };
        proof {
            assert(before[index as int]@ == plain_chunk(path@, source@, models, index as int));
            assert(topology@.symbols =~= topology_of(
                path@,
                source@,
                models,
                index as int,
            ).symbols);
            assert(topology@ =~= topology_of(path@, source@, models, index as int));
        }
        indexed[index].topology = topology;
        proof {
            assert(indexed@[index as int]@ =~= indexed_chunk(
                path@,
                source@,
                models,
                index as int,
            ));
            assert forall|i: int| 0 <= i < count && i != index implies indexed@[i]
                == #[trigger] before[i] by {}
        }
    }
    assert(index_models(indexed@) =~= indexed_chunks(path@, source@, models));
    indexed
}

/// The chunks of a source that is cut as plain text and indexed.
pub open spec fn plain_text_chunks(source: Seq<char>, max: nat) -> Seq<ChunkModel> {
    chunk::text_chunks(source, 0, split::pieces_of(source, max, false))
}

/// Cuts a source as plain text, at line ends where that is possible, and
/// indexes the chunks.
pub fn build_fallback_indexed_text_chunks(
    path: &str,
    source: &str,
    max_non_whitespace_size: usize,
) -> (indexed: Vec<IndexedCodeChunk>)
    ensures
        index_models(indexed@) == indexed_chunks(
            path@,
            source@,
            plain_text_chunks(source@, chunk::effective_max(max_non_whitespace_size as int)),
        ),
{
    let max_size: usize = if max_non_whitespace_size < 1 {
        1
    } else {
        max_non_whitespace_size
    };
    let length: usize = text::byte_count(source);
    let ranges = split::split_ranges(source, 0, max_size, false);
    let ghost parts = split::pieces_of(source@, max_size as nat, false);
    let ghost wanted = plain_text_chunks(source@, max_size as nat);
    proof {
        split::lemma_pieces_tile(source@, 0, 0, max_size as nat, false);
        span::lemma_tiles_bounds(parts, 0, source@.len() as int);
        assert(split::range_pairs(ranges@).len() == parts.len());
    }
    let mut chunks: Vec<CastChunk> = Vec::new();
    assert(chunk::models(chunks@) =~= wanted.take(0));
    for index in 0..ranges.len()
        invariant
            wanted == chunk::text_chunks(source@, 0, parts),
            ranges@.len() == parts.len(),
            split::range_pairs(ranges@) == split::byte_ranges(source@, 0, parts),
            chunk::models(chunks@) == wanted.take(index as int),
            forall|i: int|
                0 <= i < parts.len() ==> 0 <= (#[trigger] parts[i]).0 < parts[i].1 <= source@.len(),
    {
        let piece: Range<usize> = ranges[index].start..ranges[index].end;
        let non_whitespace_size: usize = text::range_non_whitespace_size(
            source,
            piece.start..piece.end,
        );
        let ghost before = chunks@;
        proof {
            let part = parts[index as int];
            assert(split::range_pairs(ranges@)[index as int] == split::byte_ranges(
                source@,
                0,
                parts,
            )[index as int]);
            lemma_whole_text_piece(source@, part);
            assert(wanted.take(index + 1) =~= wanted.take(index as int).push(
                wanted[index as int],
            ));
        }
        chunks.push(
            CastChunk {
                byte_range: piece,
                non_whitespace_size,
                primary_node_kind: None,
                merged_node_count: 0,
            },
        );
        assert(chunk::models(chunks@) =~= chunk::models(before).push(chunks@[index as int]@));
    }
    assert(wanted.take(wanted.len() as int) =~= wanted);
    build_indexed_chunks(path, source, chunks)
}

/// A piece of a text is the slice between its byte offsets.
proof fn lemma_whole_text_piece(source: Seq<char>, part: (int, int))
    requires
        0 <= part.0 <= part.1 <= source.len(),
    ensures
        ({
            let chunk = chunk::text_chunk(source, 0, part);
            &&& text::is_boundary(source, chunk.start)
            &&& text::is_boundary(source, chunk.end)
            &&& chunk.start <= chunk.end
            &&& text::slice_chars(source, chunk.start, chunk.end) == Some(
                source.subrange(part.0, part.1),
            )
            &&& chunk.size == text::ink_between(source, chunk.start, chunk.end)
        }),
{
    text::lemma_offsets(source, part.0, part.1);
}

// ---------------------------------------------------------------------------
// Laws
// ---------------------------------------------------------------------------

/// The numbers of `held_children` are increasing and are those of the chunks
/// that the parent holds.
proof fn lemma_held_children(chunks: Seq<ChunkModel>, parent: int, count: int)
    requires
        0 <= count <= chunks.len(),
    ensures
        forall|i: int| #[trigger]
            held_children(chunks, parent, count).contains(i) <==> 1 <= i <= count && container(
                chunk::spans(chunks),
                i - 1,
                chunks.len() as int,
            ) == Some(parent),
        held_children(chunks, parent, count).no_duplicates(),
    decreases count,
{
    if count > 0 {
        lemma_held_children(chunks, parent, count - 1);
        let before = held_children(chunks, parent, count - 1);
        let after = held_children(chunks, parent, count);
        assert forall|i: int| #[trigger] after.contains(i) <==> 1 <= i <= count && container(
            chunk::spans(chunks),
            i - 1,
            chunks.len() as int,
        ) == Some(parent) by {
            if after != before {
                assert(after == before.push(count));
                assert(after[before.len() as int] == count);
                if before.contains(i) {
                    let k = choose|k: int| 0 <= k < before.len() && before[k] == i;
                    assert(after[k] == i);
                }
                if after.contains(i) && i != count {
                    let k = choose|k: int| 0 <= k < after.len() && after[k] == i;
                    assert(before[k] == i);
                }
            }
        }
        assert(!before.contains(count));
    }
}

proof fn lemma_scoped_children(
    source: Seq<char>,
    chunks: Seq<ChunkModel>,
    parent: int,
    count: int,
)
    requires
        0 <= count <= chunks.len(),
    ensures
        forall|i: int| #[trigger]
            scoped_children(source, chunks, parent, count).contains(i) <==> 1 <= i <= count
                && container(chunk::spans(chunks), i - 1, chunks.len() as int) is None
                && scope_owner(source, chunks, i - 1) == Some(parent),
        scoped_children(source, chunks, parent, count).no_duplicates(),
    decreases count,
{
    if count > 0 {
        lemma_scoped_children(source, chunks, parent, count - 1);
        let before = scoped_children(source, chunks, parent, count - 1);
        let after = scoped_children(source, chunks, parent, count);
        assert forall|i: int| #[trigger] after.contains(i) <==> 1 <= i <= count && container(
            chunk::spans(chunks),
            i - 1,
            chunks.len() as int,
        ) is None && scope_owner(source, chunks, i - 1) == Some(parent) by {
            if after != before {
                assert(after == before.push(count));
                assert(after[before.len() as int] == count);
                if before.contains(i) {
                    let k = choose|k: int| 0 <= k < before.len() && before[k] == i;
                    assert(after[k] == i);
                }
                if after.contains(i) && i != count {
                    let k = choose|k: int| 0 <= k < after.len() && after[k] == i;
                    assert(before[k] == i);
                }
            }
        }
        assert(!before.contains(count));
    }
}

/// Whether the relations of indexed chunks fit together: chunks are numbered
/// from one; each knows the chunk before and after it; a chunk names a parent
/// exactly where that parent lists the chunk, once, among its children; no
/// chunk is its own parent.
pub open spec fn related(indexed: Seq<IndexedModel>) -> bool {
    &&& forall|i: int| 0 <= i < indexed.len() ==> (#[trigger] indexed[i]).id == i + 1
    &&& forall|i: int|
        0 <= i < indexed.len() ==> (#[trigger] indexed[i]).topology.previous == (if i > 0 {
            Some(i)
        } else {
            None
        }) && indexed[i].topology.next == (if i < indexed.len() - 1 {
            Some(i + 2)
        } else {
            None
        })
    &&& forall|i: int, p: int|
        0 <= i < indexed.len() && 0 <= p < indexed.len() ==> ((#[trigger] indexed[i]).topology.parent
            == Some((#[trigger] indexed[p]).id) <==> indexed[p].topology.children.contains(
            indexed[i].id,
        ))
    &&& forall|i: int|
        0 <= i < indexed.len() ==> (#[trigger] indexed[i]).topology.children.no_duplicates()
            && indexed[i].topology.parent != Some(indexed[i].id)
    &&& forall|i: int|
        0 <= i < indexed.len() && (#[trigger] indexed[i]).topology.parent is Some ==> 1
            <= indexed[i].topology.parent->0 <= indexed.len()
    &&& forall|i: int, k: int|
        0 <= i < indexed.len() && 0 <= k < (#[trigger] indexed[i]).topology.children.len() ==> 1
            <= #[trigger] indexed[i].topology.children[k] <= indexed.len()
}

/// The relations that indexing gives to chunks fit together, however the
/// source was cut.
pub proof fn law_indexed_chunks_related(
    path: Seq<char>,
    source: Seq<char>,
    chunks: Seq<ChunkModel>,
)
    ensures
        related(indexed_chunks(path, source, chunks)),
{
    let indexed = indexed_chunks(path, source, chunks);
    let count = chunks.len() as int;
    assert forall|i: int, p: int| 0 <= i < count && 0 <= p < count implies ((
    #[trigger] indexed[i]).topology.parent == Some((#[trigger] indexed[p]).id)
        <==> indexed[p].topology.children.contains(indexed[i].id)) by {
        lemma_children(source, chunks, p);
        assert(indexed[p].topology.children == held_children(chunks, p, count) + scoped_children(
            source,
            chunks,
            p,
            count,
        ));
    }
    assert forall|i: int| 0 <= i < count implies (
    #[trigger] indexed[i]).topology.children.no_duplicates() && indexed[i].topology.parent != Some(
        indexed[i].id,
    ) by {
        lemma_children(source, chunks, i);
        lemma_parent_range(source, chunks, i);
    }
    assert forall|i: int|
        0 <= i < indexed.len() && (#[trigger] indexed[i]).topology.parent is Some implies 1
        <= indexed[i].topology.parent->0 <= indexed.len() by {
        lemma_parent_range(source, chunks, i);
    }
    assert forall|i: int, k: int|
        0 <= i < indexed.len() && 0 <= k < (
        #[trigger] indexed[i]).topology.children.len() implies 1
        <= #[trigger] indexed[i].topology.children[k] <= indexed.len() by {
        lemma_children(source, chunks, i);
        assert(indexed[i].topology.children.contains(indexed[i].topology.children[k]));
    }
}

proof fn lemma_children(source: Seq<char>, chunks: Seq<ChunkModel>, parent: int)
    requires
        0 <= parent < chunks.len(),
    ensures
        ({
            let children = held_children(chunks, parent, chunks.len() as int) + scoped_children(
                source,
                chunks,
                parent,
                chunks.len() as int,
            );
            &&& children.no_duplicates()
            &&& forall|i: int| #[trigger]
                children.contains(i) <==> 1 <= i <= chunks.len() && parent_of(
                    source,
                    chunks,
                    i - 1,
                ) == Some(parent)
        }),
{
    let count = chunks.len() as int;
    let held = held_children(chunks, parent, count);
    let scoped = scoped_children(source, chunks, parent, count);
    let children = held + scoped;
    lemma_held_children(chunks, parent, count);
    lemma_scoped_children(source, chunks, parent, count);
    assert forall|i: int| #[trigger] children.contains(i) <==> held.contains(i) || scoped.contains(
        i,
    ) by {
        if held.contains(i) {
            let k = choose|k: int| 0 <= k < held.len() && held[k] == i;
            assert(children[k] == i);
        }
        if scoped.contains(i) {
            let k = choose|k: int| 0 <= k < scoped.len() && scoped[k] == i;
            assert(children[held.len() + k] == i);
        }
        if children.contains(i) {
            let k = choose|k: int| 0 <= k < children.len() && children[k] == i;
            if k < held.len() {
                assert(held[k] == i);
            } else {
                assert(scoped[k - held.len()] == i);
            }
        }
    }
    assert forall|a: int, b: int| 0 <= a < b < children.len() implies children[a]
        != children[b] by {
        if b < held.len() {
        } else if a >= held.len() {
            assert(scoped[a - held.len()] != scoped[b - held.len()]);
        } else {
            assert(held.contains(held[a]));
            assert(scoped.contains(scoped[b - held.len()]));
        }
    }
}

/// A chunk that another chunk holds has as its parent the shortest chunk that
/// holds it, the first of those where there are several.
pub proof fn law_container(ranges: Seq<(int, int)>, index: int, count: int)
    ensures
        ({
            let found = container(ranges, index, count);
            &&& found is None <==> forall|i: int|
                0 <= i < count && i != index ==> !holds(#[trigger] ranges[i], ranges[index])
            &&& found matches Some(best) ==> 0 <= best < count && best != index && holds(
                ranges[best],
                ranges[index],
            )
            &&& found matches Some(best) ==> forall|i: int|
                0 <= i < count && i != index && holds(#[trigger] ranges[i], ranges[index])
                    ==> length(ranges[best]) < length(ranges[i]) || (length(ranges[best])
                    == length(ranges[i]) && best <= i)
        }),
    decreases count,
{
    if count > 0 {
        law_container(ranges, index, count - 1);
        let before = container(ranges, index, count - 1);
        if before is Some {
            assert(holds(ranges[before->0], ranges[index]));
        }
        if container(ranges, index, count) is None {
            assert forall|i: int| 0 <= i < count && i != index implies !holds(
                #[trigger] ranges[i],
                ranges[index],
            ) by {}
        } else {
            let best = container(ranges, index, count)->0;
            assert(holds(ranges[best], ranges[index]));
        }
    }
}

/// The texts of indexed chunks, joined.
pub open spec fn joined_texts(indexed: Seq<IndexedModel>) -> Seq<char>
    decreases indexed.len(),
{
    if indexed.len() == 0 {
        Seq::empty()
    } else {
        joined_texts(indexed.drop_last()) + indexed.last().text
    }
}

proof fn lemma_joined_texts(
    path: Seq<char>,
    source: Seq<char>,
    chunks: Seq<ChunkModel>,
    count: int,
)
    requires
        0 <= count <= chunks.len(),
    ensures
        joined_texts(indexed_chunks(path, source, chunks).take(count)) == chunk::joined(
            source,
            chunk::spans(chunks).take(count),
        ),
    decreases count,
{
    let indexed = indexed_chunks(path, source, chunks);
    let ranges = chunk::spans(chunks);
    if count > 0 {
        lemma_joined_texts(path, source, chunks, count - 1);
        assert(indexed.take(count).drop_last() =~= indexed.take(count - 1));
        assert(ranges.take(count).drop_last() =~= ranges.take(count - 1));
    }
}

/// Indexing chunks that cover the source loses nothing: the texts of the
/// indexed chunks, joined, are the source.
pub proof fn law_indexed_texts_join(path: Seq<char>, source: Seq<char>, chunks: Seq<ChunkModel>)
    requires
        chunk::covers(chunks, source),
    ensures
        joined_texts(indexed_chunks(path, source, chunks)) == source,
{
    let indexed = indexed_chunks(path, source, chunks);
    let ranges = chunk::spans(chunks);
    lemma_joined_texts(path, source, chunks, chunks.len() as int);
    assert(indexed.take(chunks.len() as int) =~= indexed);
    assert(ranges.take(chunks.len() as int) =~= ranges);
    chunk::law_valid_chunks_reconstruct(chunks, source);
}

/// A source that is cut as plain text is covered by its chunks, unless it is
/// empty; the texts of its indexed chunks, joined, are the source. Each chunk
/// records how many of its characters are not white space; where that exceeds
/// the limit, it does so by one, and the chunk lies within a line. Two
/// neighbouring chunks together exceed the limit.
pub proof fn law_plain_text_chunks(path: Seq<char>, source: Seq<char>, max: nat)
    requires
        max >= 1,
    ensures
        ({
            let chunks = plain_text_chunks(source, max);
            &&& source.len() > 0 ==> chunk::covers(chunks, source)
            &&& source.len() == 0 ==> chunks.len() == 0
            &&& joined_texts(indexed_chunks(path, source, chunks)) == source
            &&& forall|i: int|
                0 <= i < chunks.len() ==> (#[trigger] chunks[i]).size == text::ink_between(
                    source,
                    chunks[i].start,
                    chunks[i].end,
                ) && chunks[i].kind is None && chunks[i].merged == 0
            &&& forall|i: int|
                0 <= i < chunks.len() ==> #[trigger] split::fits_loosely(
                    source,
                    split::pieces_of(source, max, false)[i],
                    max,
                )
            &&& forall|i: int|
                0 <= i < chunks.len() - 1 ==> (#[trigger] chunks[i]).size + chunks[i + 1].size
                    > max
        }),
{
    let parts = split::pieces_of(source, max, false);
    let chunks = plain_text_chunks(source, max);
    let ranges = chunk::spans(chunks);
    split::lemma_pieces_tile(source, 0, 0, max, false);
    span::lemma_tiles_bounds(parts, 0, source.len() as int);
    split::lemma_loose_pieces_fit(source, 0, 0, max);
    split::lemma_pieces_packed(source, 0, 0, max, false);
    assert forall|i: int| 0 <= i < chunks.len() - 1 implies (#[trigger] chunks[i]).size
        + chunks[i + 1].size > max by {
        chunk::lemma_neighbours(source, parts, i);
        assert(text::ink(source.subrange(parts[i].0, parts[i + 1].1)) > max);
    }
    split::lemma_byte_ranges_tile(source, 0, parts, 0, source.len() as int);
    assert(source.take(0) =~= Seq::empty());
    assert(source.take(source.len() as int) =~= source);
    assert(ranges =~= split::byte_ranges(source, 0, parts));
    assert forall|i: int| 0 <= i < chunks.len() implies (#[trigger] chunks[i]).size
        == text::ink_between(source, chunks[i].start, chunks[i].end) by {
        lemma_whole_text_piece(source, parts[i]);
    }
    assert forall|i: int| 0 <= i < ranges.len() implies text::is_boundary(
        source,
        (#[trigger] ranges[i]).0,
    ) && text::is_boundary(source, ranges[i].1) by {
        lemma_whole_text_piece(source, parts[i]);
    }
    if source.len() > 0 {
        law_indexed_texts_join(path, source, chunks);
    } else {
        assert(indexed_chunks(path, source, chunks) =~= Seq::empty());
        assert(joined_texts(indexed_chunks(path, source, chunks)) =~= source);
    }
}

/// Whether one chunk holds the range of another.
pub open spec fn chunk_covers(outer: ChunkModel, inner: ChunkModel) -> bool {
    outer.start <= inner.start && inner.end <= outer.end
}

/// Whether the range of the chunk at `index` is held by another chunk.
pub open spec fn is_held(chunks: Seq<ChunkModel>, index: int) -> bool {
    exists|k: int|
        0 <= k < chunks.len() && k != index && chunk_covers(#[trigger] chunks[k], chunks[index])
}

/// Whether the chunk at `index` opens a scope: its node is of a kind that holds
/// declarations, or its text starts with a word that does.
pub open spec fn opens_scope(source: Seq<char>, chunks: Seq<ChunkModel>, index: int) -> bool {
    ||| chunks[index].kind matches Some(kind) && scope::parent_like_kind(kind)
    ||| scope::parent_like_text(chunk_text(source, chunks[index]))
}

proof fn lemma_held(chunks: Seq<ChunkModel>, index: int)
    requires
        0 <= index < chunks.len(),
    ensures
        container(chunk::spans(chunks), index, chunks.len() as int) is Some <==> is_held(
            chunks,
            index,
        ),
{
    let ranges = chunk::spans(chunks);
    law_container(ranges, index, chunks.len() as int);
    if is_held(chunks, index) {
        let k = choose|k: int|
            0 <= k < chunks.len() && k != index && chunk_covers(
                #[trigger] chunks[k],
                chunks[index],
            );
        assert(holds(ranges[k], ranges[index]));
    }
    if let Some(best) = container(ranges, index, chunks.len() as int) {
        assert(chunk_covers(chunks[best], chunks[index]));
    }
}

proof fn lemma_active_scope_is(
    source: Seq<char>,
    chunks: Seq<ChunkModel>,
    opener: int,
    index: int,
)
    requires
        0 <= opener < index <= chunks.len(),
        opens_scope(source, chunks, opener),
        forall|k: int| opener < k < index ==> !#[trigger] opens_scope(source, chunks, k),
    ensures
        active_scope(source, chunks, index) == match scope::brace_scope(
            source,
            chunks[opener].start,
            chunks[opener].end,
        ) {
            Some(range) => Some((opener, range)),
            None => None,
        },
    decreases index,
{
    if opener < index - 1 {
        assert(!opens_scope(source, chunks, index - 1));
        lemma_active_scope_is(source, chunks, opener, index - 1);
    }
}

proof fn lemma_no_active_scope(source: Seq<char>, chunks: Seq<ChunkModel>, index: int)
    requires
        0 <= index <= chunks.len(),
        forall|k: int| 0 <= k < index ==> !#[trigger] opens_scope(source, chunks, k),
    ensures
        active_scope(source, chunks, index) is None,
    decreases index,
{
    if index > 0 {
        assert(!opens_scope(source, chunks, index - 1));
        lemma_no_active_scope(source, chunks, index - 1);
    }
}

/// A chunk that no other chunk holds and that opens no scope belongs to the
/// last chunk before it that opens one, however many chunks stand between
/// them, if the braces that this chunk opens enclose it; otherwise it has no
/// parent.
pub proof fn law_scope_parent(
    path: Seq<char>,
    source: Seq<char>,
    chunks: Seq<ChunkModel>,
    opener: int,
    index: int,
)
    requires
        0 <= opener < index < chunks.len(),
        !is_held(chunks, index),
        opens_scope(source, chunks, opener),
        forall|k: int| opener < k <= index ==> !#[trigger] opens_scope(source, chunks, k),
    ensures
        ({
            let enclosed = scope::brace_scope(source, chunks[opener].start, chunks[opener].end)
                matches Some(range) && range.0 <= chunks[index].start && chunks[index].end
                <= range.1;
            let topology = indexed_chunks(path, source, chunks)[index].topology;
            &&& topology.parent == if enclosed {
                Some(opener + 1)
            } else {
                None
            }
            &&& topology.symbols.len() == if enclosed {
                1nat
            } else {
                0nat
            }
        }),
{
    lemma_held(chunks, index);
    assert(!opens_scope(source, chunks, index));
    lemma_active_scope_is(source, chunks, opener, index);
}

/// A chunk that no other chunk holds has no parent where it opens a scope
/// itself, or where no chunk before it opens one.
pub proof fn law_no_scope_parent(
    path: Seq<char>,
    source: Seq<char>,
    chunks: Seq<ChunkModel>,
    index: int,
)
    requires
        0 <= index < chunks.len(),
        !is_held(chunks, index),
        opens_scope(source, chunks, index) || forall|k: int|
            0 <= k < index ==> !#[trigger] opens_scope(source, chunks, k),
    ensures
        indexed_chunks(path, source, chunks)[index].topology.parent is None,
        indexed_chunks(path, source, chunks)[index].topology.symbols.len() == 0,
{
    lemma_held(chunks, index);
    if !opens_scope(source, chunks, index) {
        lemma_no_active_scope(source, chunks, index);
    }
}

/// The parent of a chunk that other chunks hold is the shortest of them, the
/// first where several are shortest.
pub proof fn law_held_parent(
    path: Seq<char>,
    source: Seq<char>,
    chunks: Seq<ChunkModel>,
    index: int,
)
    requires
        0 <= index < chunks.len(),
        is_held(chunks, index),
        forall|k: int| 0 <= k < chunks.len() ==> (#[trigger] chunks[k]).start <= chunks[k].end,
    ensures
        ({
            let parent = indexed_chunks(path, source, chunks)[index].topology.parent;
            &&& parent is Some
            &&& 1 <= parent->0 <= chunks.len()
            &&& parent->0 != index + 1
            &&& chunk_covers(chunks[parent->0 - 1], chunks[index])
            &&& forall|k: int|
                0 <= k < chunks.len() && k != index && chunk_covers(
                    #[trigger] chunks[k],
                    chunks[index],
                ) ==> {
                    let best = chunks[parent->0 - 1].end - chunks[parent->0 - 1].start;
                    let other = chunks[k].end - chunks[k].start;
                    best < other || (best == other && parent->0 - 1 <= k)
                }
        }),
{
    let ranges = chunk::spans(chunks);
    lemma_held(chunks, index);
    law_container(ranges, index, chunks.len() as int);
    let best = container(ranges, index, chunks.len() as int)->0;
    assert(ranges[best] == (chunks[best].start, chunks[best].end));
    assert forall|k: int|
        0 <= k < chunks.len() && k != index && chunk_covers(
            #[trigger] chunks[k],
            chunks[index],
        ) implies {
        let short = chunks[best].end - chunks[best].start;
        let other = chunks[k].end - chunks[k].start;
        short < other || (short == other && best <= k)
    } by {
        assert(holds(ranges[k], ranges[index]));
        assert(chunks[best].start <= chunks[best].end);
        assert(length(ranges[best]) <= length(ranges[k]));
    }
}

/// An indexed chunk keeps what the chunk is: its range, size and kind. It has
/// the path of its file, the text between the ends of its range, the words of
/// that text, and the lines of its range; its worktree and embedding are still
/// to come.
pub proof fn law_indexed_chunk(
    path: Seq<char>,
    source: Seq<char>,
    chunks: Seq<ChunkModel>,
    index: int,
)
    requires
        0 <= index < chunks.len(),
    ensures
        indexed_chunks(path, source, chunks).len() == chunks.len(),
        ({
            let indexed = indexed_chunks(path, source, chunks)[index];
            let chunk = chunks[index];
            &&& indexed.id == index + 1
            &&& indexed.path == path
            &&& indexed.span == (chunk.start, chunk.end)
            &&& indexed.size == chunk.size
            &&& indexed.kind == chunk.kind
            &&& indexed.lines == scope::line_span(source, chunk.start, chunk.end)
            &&& text::slice_chars(source, chunk.start, chunk.end) is Some ==> indexed.text
                == text::slice_chars(source, chunk.start, chunk.end)->0
            &&& text::slice_chars(source, chunk.start, chunk.end) is None ==> indexed.text.len() == 0
            &&& indexed.terms == tokens::words(indexed.text)
            &&& indexed.embedding.len() == 0
            &&& indexed.worktree is None
        }),
{
}

/// The symbol that a chunk stands in is its parent: it has the kind, the range
/// and the lines of the parent, and the name that the parent's text gives.
pub proof fn law_enclosing_symbol(
    path: Seq<char>,
    source: Seq<char>,
    chunks: Seq<ChunkModel>,
    index: int,
)
    requires
        0 <= index < chunks.len(),
    ensures
        ({
            let indexed = indexed_chunks(path, source, chunks);
            let topology = indexed[index].topology;
            match topology.parent {
                None => topology.symbols.len() == 0,
                Some(parent) => {
                    let symbol = topology.symbols[0];
                    &&& topology.symbols.len() == 1
                    &&& symbol.kind == indexed[parent - 1].kind
                    &&& symbol.span == indexed[parent - 1].span
                    &&& symbol.lines == indexed[parent - 1].lines
                    &&& symbol.name == symbol_name(
                        indexed[parent - 1].text,
                        indexed[parent - 1].kind,
                    )
                },
            }
        }),
{
    lemma_parent_range(source, chunks, index);
}

/// The name of a parent is what its first line says, without white space around
/// it and without the opening braces at its end, with the white space before
/// them.
pub proof fn law_symbol_name(
    before: Seq<char>,
    name: Seq<char>,
    space: Seq<char>,
    braces: Seq<char>,
    after: Seq<char>,
    rest: Seq<char>,
    kind: Option<Seq<char>>,
)
    requires
        name.len() > 0,
        !text::white_space(name.first()),
        !text::white_space(name.last()),
        name.last() != '{',
        forall|i: int| 0 <= i < name.len() ==> #[trigger] name[i] != '\n',
        forall|i: int|
            0 <= i < before.len() ==> text::white_space(#[trigger] before[i]) && before[i] != '\n',
        forall|i: int|
            0 <= i < space.len() ==> text::white_space(#[trigger] space[i]) && space[i] != '\n',
        forall|i: int| 0 <= i < braces.len() ==> #[trigger] braces[i] == '{',
        forall|i: int|
            0 <= i < after.len() ==> text::white_space(#[trigger] after[i]) && after[i] != '\n',
    ensures
        symbol_name(before + name + space + braces + after, kind) == name,
        symbol_name(before + name + space + braces + after + seq!['\n'] + rest, kind) == name,
{
    let line = before + name + space + braces + after;
    assert forall|i: int| 0 <= i < line.len() implies #[trigger] line[i] != '\n' by {
        let a = before.len();
        let b = a + name.len();
        let c = b + space.len();
        let d = c + braces.len();
        if i < a {
            assert(line[i] == before[i]);
        } else if i < b {
            assert(line[i] == name[i - a]);
        } else if i < c {
            assert(line[i] == space[i - b]);
        } else if i < d {
            assert(line[i] == braces[i - c]);
        } else {
            assert(line[i] == after[i - d]);
        }
    }
    text::law_first_line(line, rest);
    let none = Seq::<char>::empty();
    if braces.len() == 0 {
        let tail = space + after;
        assert forall|i: int| 0 <= i < tail.len() implies text::white_space(#[trigger] tail[i]) by {
            if i < space.len() {
                assert(tail[i] == space[i]);
            } else {
                assert(tail[i] == after[i - space.len()]);
            }
        }
        assert(line =~= before + name + tail);
        text::law_trimmed(before, name, tail);
        assert(name + none =~= name);
        text::law_trimmed_char(name, none, '{');
        assert(none + name + none =~= name);
        text::law_trimmed(none, name, none);
    } else {
        let body = name + space + braces;
        assert(line =~= before + body + after);
        assert(body.first() == name.first());
        assert(body.last() == braces[braces.len() - 1]);
        text::law_trimmed(before, body, after);
        let head = name + space;
        assert(body =~= head + braces);
        if space.len() > 0 {
            assert(head.last() == space[space.len() - 1]);
        } else {
            assert(head.last() == name.last());
        }
        text::law_trimmed_char(head, braces, '{');
        assert(none + name + space =~= head);
        text::law_trimmed(none, name, space);
    }
}

/// A parent whose first line says nothing is called by its kind, or `parent`
/// where it has none.
pub proof fn law_symbol_name_default(space: Seq<char>, rest: Seq<char>, kind: Option<Seq<char>>)
    requires
        forall|i: int|
            0 <= i < space.len() ==> text::white_space(#[trigger] space[i]) && space[i] != '\n',
    ensures
        symbol_name(space + seq!['\n'] + rest, kind) == match kind {
            Some(kind) => kind,
            None => "parent"@,
        },
{
    let none = Seq::<char>::empty();
    text::law_first_line(space, rest);
    assert(space + none + none =~= space);
    text::law_trimmed(space, none, none);
    assert(none + none =~= none);
    text::law_trimmed_char(none, none, '{');
    assert(none + none + none =~= none);
    text::law_trimmed(none, none, none);
}

proof fn lemma_children_ascend(
    source: Seq<char>,
    chunks: Seq<ChunkModel>,
    parent: int,
    count: int,
)
    requires
        0 <= count <= chunks.len(),
    ensures
        ({
            let held = held_children(chunks, parent, count);
            let scoped = scoped_children(source, chunks, parent, count);
            &&& forall|a: int, b: int| 0 <= a < b < held.len() ==> held[a] < held[b]
            &&& forall|a: int, b: int| 0 <= a < b < scoped.len() ==> scoped[a] < scoped[b]
        }),
    decreases count,
{
    if count > 0 {
        lemma_children_ascend(source, chunks, parent, count - 1);
        lemma_held_children(chunks, parent, count - 1);
        lemma_scoped_children(source, chunks, parent, count - 1);
        let held = held_children(chunks, parent, count - 1);
        let scoped = scoped_children(source, chunks, parent, count - 1);
        assert forall|a: int| 0 <= a < held.len() implies #[trigger] held[a] < count by {
            assert(held.contains(held[a]));
        }
        assert forall|a: int| 0 <= a < scoped.len() implies #[trigger] scoped[a] < count by {
            assert(scoped.contains(scoped[a]));
        }
    }
}

/// The children of a chunk come in the order of their identifiers, those that
/// are held by a chunk before those that only lie in its scope.
pub proof fn law_children_order(
    path: Seq<char>,
    source: Seq<char>,
    chunks: Seq<ChunkModel>,
    parent: int,
    a: int,
    b: int,
)
    requires
        0 <= parent < chunks.len(),
        0 <= a < b < indexed_chunks(path, source, chunks)[parent].topology.children.len(),
    ensures
        ({
            let children = indexed_chunks(path, source, chunks)[parent].topology.children;
            let first_held = is_held(chunks, children[a] - 1);
            let second_held = is_held(chunks, children[b] - 1);
            if first_held == second_held {
                children[a] < children[b]
            } else {
                first_held
            }
        }),
{
    let count = chunks.len() as int;
    let held = held_children(chunks, parent, count);
    let scoped = scoped_children(source, chunks, parent, count);
    let children = held + scoped;
    lemma_children_ascend(source, chunks, parent, count);
    lemma_held_children(chunks, parent, count);
    lemma_scoped_children(source, chunks, parent, count);
    assert forall|i: int| 0 <= i < children.len() implies 1 <= #[trigger] children[i] <= count && (
    is_held(chunks, children[i] - 1) <==> i < held.len()) by {
        if i < held.len() {
            assert(held.contains(held[i]));
        } else {
            assert(scoped.contains(scoped[i - held.len()]));
        }
        lemma_held(chunks, children[i] - 1);
    }
    assert(children[a] >= 1 && children[b] >= 1);
}

/// Of the chunks of a source that is cut as plain text, every one but the last
/// goes as far as whole lines go. It ends with a line, or else is full and holds
/// no line end but at its start; where it is just full, a visible character
/// follows.
pub proof fn law_plain_text_chunks_reach(source: Seq<char>, max: nat)
    requires
        max >= 1,
    ensures
        ({
            let chunks = plain_text_chunks(source, max);
            let end = text::byte_len(source) as int;
            forall|i: int|
                0 <= i < chunks.len() - 1 ==> {
                    let one = #[trigger] chunks[i];
                    let own = text::slice_chars(source, one.start, one.end)->0;
                    &&& chunk::no_line_end_fits(source, one, end, max)
                    &&& {
                        ||| own.last() == '\n'
                        ||| {
                            &&& one.size >= max
                            &&& forall|k: int| 0 < k < own.len() ==> #[trigger] own[k] != '\n'
                            &&& one.size == max ==> !text::white_space(
                                text::slice_chars(source, one.end, end)->0.first(),
                            )
                        }
                    }
                }
        }),
{
    let end = text::byte_len(source) as int;
    let parts = split::pieces_of(source, max, false);
    let chunks = plain_text_chunks(source, max);
    let length = source.len() as int;
    assert(source.take(0) =~= Seq::empty());
    assert(source.take(length) =~= source);
    text::lemma_offsets(source, 0, length);
    assert(source.subrange(0, length) =~= source);
    split::lemma_pieces_tile(source, 0, 0, max, false);
    span::lemma_tiles_bounds(parts, 0, length);
    split::lemma_pieces_reach(source, 0, 0, max, false);
    split::lemma_loose_pieces_stop(source, 0, 0, max);
    assert forall|i: int| 0 <= i < chunks.len() - 1 implies {
        let one = #[trigger] chunks[i];
        let own = text::slice_chars(source, one.start, one.end)->0;
        &&& chunk::no_line_end_fits(source, one, end, max)
        &&& {
            ||| own.last() == '\n'
            ||| {
                &&& one.size >= max
                &&& forall|k: int| 0 < k < own.len() ==> #[trigger] own[k] != '\n'
                &&& one.size == max ==> !text::white_space(
                    text::slice_chars(source, one.end, end)->0.first(),
                )
            }
        }
    } by {
        let part = parts[i];
        let one = chunks[i];
        assert(0 <= part.0 < part.1 <= length);
        assert(parts[i + 1].0 < parts[i + 1].1 <= length);
        span::lemma_tiles_apart(parts, 0, length, i, i + 1);
        chunk::lemma_no_line_end_fits(source, 0, end, part, max);
        lemma_whole_text_piece(source, part);
        assert(split::ends_loosely(source, part, max));
        let own = source.subrange(part.0, part.1);
        assert(own.last() == source[part.1 - 1]);
        text::lemma_offsets(source, part.1, length);
        assert(source.subrange(part.1, length).first() == source[part.1]);
        assert forall|k: int| 0 < k < own.len() implies own[k] == #[trigger] source[part.0 + k] by {}
        if own.last() != '\n' {
            assert forall|k: int| 0 < k < own.len() implies #[trigger] own[k] != '\n' by {
                assert(source[part.0 + k] != '\n');
            }
        }
    }
}

} // verus!
