//! The chunks of a whole project: which files are indexed, and how the chunks
//! of its files get identifiers of their own.

use crate::chunk;
use crate::chunk::CastChunkingOptions;
use crate::index;
use crate::index::{CodeChunkId, IndexedCodeChunk, IndexedModel, TopologyModel};
use crate::store;
use crate::store::CodeSearchIndex;
use crate::syntax;
use crate::syntax::BufferSnapshot;
use std::collections::HashMap;
use vstd::prelude::*;
use vstd::string::*;

verus! {

// ---------------------------------------------------------------------------
// Identifiers
// ---------------------------------------------------------------------------

/// The identifiers of chunks.
pub open spec fn ids(chunks: Seq<IndexedModel>) -> Seq<int> {
    Seq::new(chunks.len(), |i: int| chunks[i].id)
}

/// The last place of an identifier in a list.
pub open spec fn last_place(ids: Seq<int>, id: int) -> Option<int>
    decreases ids.len(),
{
    if ids.len() == 0 {
        None
    } else if ids.last() == id {
        Some(ids.len() - 1)
    } else {
        last_place(ids.drop_last(), id)
    }
}

/// The new identifier for an old one, where the old ones are numbered anew
/// from `first` on.
pub open spec fn renumbered(ids: Seq<int>, first: int, id: int) -> Option<int> {
    match last_place(ids, id) {
        Some(place) => Some(first + place),
        None => None,
    }
}

/// The new identifier for a reference; none where it refers to nothing.
pub open spec fn renumbered_reference(ids: Seq<int>, first: int, reference: Option<int>) -> Option<
    int,
> {
    match reference {
        Some(id) => renumbered(ids, first, id),
        None => None,
    }
}

/// The new identifiers for references, without those that refer to nothing.
pub open spec fn renumbered_references(ids: Seq<int>, first: int, references: Seq<int>) -> Seq<int>
    decreases references.len(),
{
    if references.len() == 0 {
        Seq::empty()
    } else {
        let before = renumbered_references(ids, first, references.drop_last());
        match renumbered(ids, first, references.last()) {
            Some(id) => before.push(id),
            None => before,
        }
    }
}

/// A chunk with new identifiers, in the given worktree.
pub open spec fn reassigned(
    ids: Seq<int>,
    first: int,
    worktree: Option<u64>,
    chunk: IndexedModel,
) -> IndexedModel {
    IndexedModel {
        id: match renumbered(ids, first, chunk.id) {
            Some(id) => id,
            None => chunk.id,
        },
        worktree,
        topology: TopologyModel {
            parent: renumbered_reference(ids, first, chunk.topology.parent),
            children: renumbered_references(ids, first, chunk.topology.children),
            previous: renumbered_reference(ids, first, chunk.topology.previous),
            next: renumbered_reference(ids, first, chunk.topology.next),
            symbols: chunk.topology.symbols,
        },
        ..chunk
    }
}

/// The chunks of a file with identifiers from `first` on, in the given
/// worktree.
pub open spec fn reassigned_all(
    chunks: Seq<IndexedModel>,
    first: int,
    worktree: Option<u64>,
) -> Seq<IndexedModel> {
    Seq::new(chunks.len(), |i: int| reassigned(ids(chunks), first, worktree, chunks[i]))
}

/// Whether a table maps each old identifier to its new one.
pub open spec fn numbers(table: Map<usize, CodeChunkId>, ids: Seq<int>, first: int) -> bool {
    forall|id: usize|
        index::id_number(
            if #[trigger] table.contains_key(id) {
                Some(table[id])
            } else {
                None
            },
        ) == renumbered(ids, first, id as int)
}

/// The new identifier for an optional old one.
pub fn remap_optional_chunk_id(
    chunk_id: Option<CodeChunkId>,
    id_map: &HashMap<usize, CodeChunkId>,
) -> (new_id: Option<CodeChunkId>)
    ensures
        new_id == match chunk_id {
            Some(id) => if id_map@.contains_key(id.0) {
                Some(id_map@[id.0])
            } else {
                None
            },
            None => None,
        },
{
    match chunk_id {
        Some(id) => match id_map.get(&id.0) {
            Some(new_id) => Some(*new_id),
            None => None,
        },
        None => None,
    }
}

/// The new identifiers that a table gives for old ones, without those that the
/// table does not hold.
pub open spec fn looked_up(table: Map<usize, CodeChunkId>, ids: Seq<CodeChunkId>) -> Seq<CodeChunkId>
    decreases ids.len(),
{
    if ids.len() == 0 {
        Seq::empty()
    } else {
        let before = looked_up(table, ids.drop_last());
        if table.contains_key(ids.last().0) {
            before.push(table[ids.last().0])
        } else {
            before
        }
    }
}

/// The new identifiers for old ones, without those that have none.
pub fn remap_chunk_id_list(
    chunk_ids: Vec<CodeChunkId>,
    id_map: &HashMap<usize, CodeChunkId>,
) -> (new_ids: Vec<CodeChunkId>)
    ensures
        new_ids@ == looked_up(id_map@, chunk_ids@),
{
    let mut new_ids: Vec<CodeChunkId> = Vec::new();
    for index in 0..chunk_ids.len()
        invariant
            new_ids@ == looked_up(id_map@, chunk_ids@.take(index as int)),
    {
        assert(chunk_ids@.take(index + 1).drop_last() =~= chunk_ids@.take(index as int));
        if let Some(new_id) = id_map.get(&chunk_ids[index].0) {
            new_ids.push(*new_id);
        }
    }
    assert(chunk_ids@.take(chunk_ids@.len() as int) =~= chunk_ids@);
    new_ids
}

proof fn lemma_looked_up(
    table: Map<usize, CodeChunkId>,
    ids: Seq<int>,
    first: int,
    references: Seq<CodeChunkId>,
)
    requires
        numbers(table, ids, first),
    ensures
        index::id_numbers(looked_up(table, references)) == renumbered_references(
            ids,
            first,
            index::id_numbers(references),
        ),
    decreases references.len(),
{
    let numbers = index::id_numbers(references);
    if references.len() == 0 {
        assert(index::id_numbers(looked_up(table, references)) =~= renumbered_references(
            ids,
            first,
            numbers,
        ));
    } else {
        lemma_looked_up(table, ids, first, references.drop_last());
        assert(numbers.drop_last() =~= index::id_numbers(references.drop_last()));
        let last = references.last();
        assert(numbers.last() == last.0);
        let before = looked_up(table, references.drop_last());
        if table.contains_key(last.0) {
            assert(index::id_numbers(before.push(table[last.0])) =~= index::id_numbers(before).push(
                table[last.0].0 as int,
            ));
        } else {
            assert(!table.contains_key(last.0));
        }
    }
}

/// Gives the chunks of a file identifiers from `next_chunk_id` on, and has
/// them refer to one another by these.
pub fn assign_project_chunk_ids(
    file_chunks: &mut Vec<IndexedCodeChunk>,
    next_chunk_id: &mut usize,
    worktree_id: Option<u64>,
)
    requires
        *old(next_chunk_id) + old(file_chunks)@.len() <= usize::MAX,
    ensures
        *final(next_chunk_id) == *old(next_chunk_id) + old(file_chunks)@.len(),
        index::index_models(final(file_chunks)@) == reassigned_all(
            index::index_models(old(file_chunks)@),
            *old(next_chunk_id) as int,
            worktree_id,
        ),
{
    let ghost models = index::index_models(file_chunks@);
    let ghost old_ids = ids(models);
    let ghost first = *next_chunk_id as int;
    let count: usize = file_chunks.len();
    let mut id_map: HashMap<usize, CodeChunkId> = HashMap::new();
    for index in 0..count
        invariant
            count == file_chunks@.len(),
            models == index::index_models(file_chunks@),
            old_ids == ids(models),
            *next_chunk_id == first + index,
            first + count <= usize::MAX,
            numbers(id_map@, old_ids.take(index as int), first),
    {
        let ghost before = id_map@;
        let old_id: usize = file_chunks[index].id.0;
        let new_id = CodeChunkId(*next_chunk_id);
        *next_chunk_id = *next_chunk_id + 1;
        id_map.insert(old_id, new_id);
        proof {
            let taken = old_ids.take(index + 1);
            assert(taken.drop_last() =~= old_ids.take(index as int));
            assert(taken.last() == old_id);
            assert forall|id: usize|
                index::id_number(
                    if #[trigger] id_map@.contains_key(id) {
                        Some(id_map@[id])
                    } else {
                        None
                    },
                ) == renumbered(taken, first, id as int) by {
                assert(before.contains_key(id) || !before.contains_key(id));
            }
        }
    }
    proof {
        assert(old_ids.take(count as int) =~= old_ids);
    }
    for index in 0..count
        invariant
            count == file_chunks@.len(),
            models.len() == count,
            old_ids == ids(models),
            numbers(id_map@, old_ids, first),
            forall|i: int|
                0 <= i < index ==> (#[trigger] file_chunks@[i])@ == reassigned(
                    old_ids,
                    first,
                    worktree_id,
                    models[i],
                ),
            forall|i: int| index <= i < count ==> (#[trigger] file_chunks@[i])@ == models[i],
    {
        let ghost before = file_chunks@;
        let chunk = &file_chunks[index];
        assert(chunk@ == models[index as int]);
        let mut id = chunk.id;
        if let Some(new_id) = id_map.get(&chunk.id.0) {
            id = *new_id;
        }
        let parent = remap_optional_chunk_id(chunk.topology.parent, &id_map);
        let previous_sibling = remap_optional_chunk_id(chunk.topology.previous_sibling, &id_map);
        let next_sibling = remap_optional_chunk_id(chunk.topology.next_sibling, &id_map);
        let children = remap_chunk_id_list(chunk.topology.children.clone(), &id_map);
        proof {
            lemma_looked_up(id_map@, old_ids, first, chunk.topology.children@);
        }
        file_chunks[index].id = id;
        file_chunks[index].worktree_id = worktree_id;
        file_chunks[index].topology.parent = parent;
        file_chunks[index].topology.previous_sibling = previous_sibling;
        file_chunks[index].topology.next_sibling = next_sibling;
        file_chunks[index].topology.children = children;
        proof {
            assert(file_chunks@[index as int]@ =~= reassigned(
                old_ids,
                first,
                worktree_id,
                models[index as int],
            ));
            assert forall|i: int| 0 <= i < count && i != index implies file_chunks@[i]
                == #[trigger] before[i] by {}
        }
    }
    assert(index::index_models(file_chunks@) =~= reassigned_all(models, first, worktree_id));
}

// ---------------------------------------------------------------------------
// Files
// ---------------------------------------------------------------------------

/// What is indexed of a project, and how finely.
#[derive(Debug)]
pub struct SemanticSearchIndexingSettings {
    pub include_pattern: Option<String>,
    pub max_indexed_file_bytes: usize,
    pub chunk_max_non_whitespace_size: usize,
}

/// An entry of a worktree, with what the worktree's settings say of it.
#[derive(Debug, Eq, PartialEq)]
pub struct ProjectEntry {
    pub worktree_id: u64,
    pub path: String,
    pub display_path: String,
    pub is_file: bool,
    /// Whether the worktree ignores the entry.
    pub is_ignored: bool,
    pub size: u64,
    /// Whether the entry matches the pattern of the files to be taken, where
    /// there is such a pattern.
    pub matches_pattern: Option<bool>,
    pub globally_excluded: bool,
    pub globally_private: bool,
    pub worktree_excluded: bool,
    pub worktree_private: bool,
}

/// A file that is to be indexed.
#[derive(Debug, Eq, PartialEq)]
pub struct ProjectFile {
    pub worktree_id: u64,
    pub path: String,
    pub display_path: String,
    pub size: u64,
}

/// A file that is to be indexed, as a mathematical value.
pub struct FileModel {
    pub worktree: u64,
    pub path: Seq<char>,
    pub display_path: Seq<char>,
    pub size: u64,
}

impl View for ProjectFile {
    type V = FileModel;

    open spec fn view(&self) -> FileModel {
        FileModel {
            worktree: self.worktree_id,
            path: self.path@,
            display_path: self.display_path@,
            size: self.size,
        }
    }
}

/// Files as mathematical values.
pub open spec fn file_models(files: Seq<ProjectFile>) -> Seq<FileModel> {
    Seq::new(files.len(), |i: int| files[i]@)
}

/// The file that an entry stands for.
pub open spec fn file_of(entry: ProjectEntry) -> FileModel {
    FileModel {
        worktree: entry.worktree_id,
        path: entry.path@,
        display_path: entry.display_path@,
        size: entry.size,
    }
}

/// Whether an entry is indexed: it is a file, not ignored, not too large, known
/// to match the pattern where there is one, and neither excluded nor private.
pub open spec fn is_indexed(entry: ProjectEntry, settings: SemanticSearchIndexingSettings) -> bool {
    &&& entry.is_file
    &&& !entry.is_ignored
    &&& entry.size <= settings.max_indexed_file_bytes
    &&& settings.include_pattern is Some ==> entry.matches_pattern == Some(true)
    &&& !entry.globally_excluded
    &&& !entry.globally_private
    &&& !entry.worktree_excluded
    &&& !entry.worktree_private
}

/// The files among entries that are indexed, in the order of the entries.
pub open spec fn indexed_files(
    entries: Seq<ProjectEntry>,
    settings: SemanticSearchIndexingSettings,
) -> Seq<FileModel>
    decreases entries.len(),
{
    if entries.len() == 0 {
        Seq::empty()
    } else {
        let before = indexed_files(entries.drop_last(), settings);
        if is_indexed(entries.last(), settings) {
            before.push(file_of(entries.last()))
        } else {
            before
        }
    }
}

/// The files among the entries of a project that are indexed.
pub fn collect_semantic_search_project_files(
    entries: Vec<ProjectEntry>,
    settings: &SemanticSearchIndexingSettings,
) -> (files: Vec<ProjectFile>)
    ensures
        file_models(files@) == indexed_files(entries@, *settings),
{
    let ghost listed = entries@;
    let max_bytes: u64 = settings.max_indexed_file_bytes as u64;
    let mut files: Vec<ProjectFile> = Vec::new();
    assert(file_models(files@) =~= indexed_files(listed.take(0), *settings));
    for entry in iter: entries.into_iter()
        invariant
            iter.seq() == listed,
            max_bytes == settings.max_indexed_file_bytes,
            file_models(files@) == indexed_files(listed.take(iter.index()), *settings),
    {
        let ghost count = iter.index();
        let ghost before = files@;
        let ghost taken = entry;
        proof {
            assert(listed.take(count + 1).drop_last() =~= listed.take(count));
            assert(listed.take(count + 1).last() == entry);
        }
        let taken_in: bool = settings.include_pattern.is_none() || match entry.matches_pattern {
            Some(matched) => matched,
            None => false,
        };
        if entry.is_file && !entry.is_ignored && entry.size <= max_bytes && taken_in && !(
        entry.globally_excluded || entry.globally_private || entry.worktree_excluded
            || entry.worktree_private) {
            files.push(
                ProjectFile {
                    worktree_id: entry.worktree_id,
                    path: entry.path,
                    display_path: entry.display_path,
                    size: entry.size,
                },
            );
            assert(file_models(files@) =~= file_models(before).push(file_of(taken)));
        }
    }
    assert(listed.take(listed.len() as int) =~= listed);
    files
}

/// What is reported of a pattern that cannot be used.
pub fn invalid_include_pattern(error: &str) -> (message: String)
    ensures
        message@ == "invalid include_pattern: "@ + error@,
{
    let mut message: String = "invalid include_pattern: ".to_string();
    message.append(error);
    message
}

// ---------------------------------------------------------------------------
// The index of a project
// ---------------------------------------------------------------------------

/// The indexed chunks of one file: along its syntax where that covers the
/// text, else as plain text.
pub open spec fn file_chunks(path: Seq<char>, snapshot: BufferSnapshot, max_size: usize) -> Seq<
    IndexedModel,
> {
    let source = snapshot.text@;
    match syntax::buffer_chunks(
        source,
        snapshot.syntax_layers@,
        CastChunkingOptions { enabled: true, max_size },
    ) {
        Some(chunks) => index::indexed_chunks(path, source, chunks),
        None => index::indexed_chunks(
            path,
            source,
            index::plain_text_chunks(source, chunk::effective_max(max_size as int)),
        ),
    }
}

/// Indexes one file.
pub fn index_file(
    display_path: &str,
    snapshot: &BufferSnapshot,
    settings: &SemanticSearchIndexingSettings,
) -> (chunks: Vec<IndexedCodeChunk>)
    ensures
        index::index_models(chunks@) == file_chunks(
            display_path@,
            *snapshot,
            settings.chunk_max_non_whitespace_size,
        ),
{
    let max_size: usize = settings.chunk_max_non_whitespace_size;
    match syntax::cast_chunks_for_buffer(snapshot, CastChunkingOptions::enabled(max_size)) {
        Some(chunks) => index::build_indexed_chunks(display_path, snapshot.text.as_str(), chunks),
        None => index::build_fallback_indexed_text_chunks(
            display_path,
            snapshot.text.as_str(),
            max_size,
        ),
    }
}

/// The chunks of the files of a project that were indexed so far.
pub struct ProjectIndexBuilder {
    chunks: Vec<IndexedCodeChunk>,
    next_chunk_id: usize,
}

impl View for ProjectIndexBuilder {
    type V = Seq<IndexedModel>;

    closed spec fn view(&self) -> Seq<IndexedModel> {
        index::index_models(self.chunks@)
    }
}

impl ProjectIndexBuilder {
    /// The next identifier is the number of chunks and one.
    #[verifier::type_invariant]
    spec fn counted(self) -> bool {
        self.next_chunk_id == self.chunks@.len() + 1
    }

    /// A project without files.
    pub fn new() -> (builder: Self)
        ensures
            builder@ == Seq::<IndexedModel>::empty(),
    {
        let builder = ProjectIndexBuilder { chunks: Vec::new(), next_chunk_id: 1 };
        assert(builder@ =~= Seq::empty());
        builder
    }

    /// How many chunks there are.
    pub fn len(&self) -> (count: usize)
        ensures
            count == self@.len(),
    {
        self.chunks.len()
    }

    /// Adds the chunks of a file, with identifiers that continue those of the
    /// chunks before.
    pub fn add_file(self, file_chunks: Vec<IndexedCodeChunk>, worktree_id: Option<u64>) -> (grown:
        Self)
        requires
            self@.len() + file_chunks@.len() < usize::MAX,
        ensures
            grown@ == self@ + reassigned_all(
                index::index_models(file_chunks@),
                self@.len() as int + 1,
                worktree_id,
            ),
    {
        proof {
            use_type_invariant(&self);
        }
        let ghost before = self@;
        let mut added = file_chunks;
        let mut next_chunk_id: usize = self.next_chunk_id;
        assign_project_chunk_ids(&mut added, &mut next_chunk_id, worktree_id);
        let ghost reassigned = index::index_models(added@);
        assert(reassigned.len() == file_chunks@.len());
        let mut chunks = self.chunks;
        chunks.append(&mut added);
        let grown = ProjectIndexBuilder { chunks, next_chunk_id };
        assert(grown@ =~= before + reassigned);
        grown
    }

    /// The index of all chunks.
    pub fn finish(self) -> (index: CodeSearchIndex)
        ensures
            index@ == store::gathered(self@),
    {
        CodeSearchIndex::from_chunks(self.chunks)
    }
}

// ---------------------------------------------------------------------------
// Laws
// ---------------------------------------------------------------------------

/// A reference that is moved by `shift`.
pub open spec fn shifted_reference(reference: Option<int>, shift: int) -> Option<int> {
    match reference {
        Some(id) => Some(id + shift),
        None => None,
    }
}

/// A chunk whose identifier and references are moved by `shift`.
pub open spec fn shifted(chunk: IndexedModel, shift: int, worktree: Option<u64>) -> IndexedModel {
    IndexedModel {
        id: chunk.id + shift,
        worktree,
        topology: TopologyModel {
            parent: shifted_reference(chunk.topology.parent, shift),
            children: chunk.topology.children.map_values(|id: int| id + shift),
            previous: shifted_reference(chunk.topology.previous, shift),
            next: shifted_reference(chunk.topology.next, shift),
            symbols: chunk.topology.symbols,
        },
        ..chunk
    }
}

proof fn lemma_last_place(ids: Seq<int>, id: int)
    requires
        forall|i: int| 0 <= i < ids.len() ==> ids[i] == i + 1,
        1 <= id <= ids.len(),
    ensures
        last_place(ids, id) == Some(id - 1),
    decreases ids.len(),
{
    assert(ids[ids.len() - 1] == ids.len());
    if id < ids.len() {
        lemma_last_place(ids.drop_last(), id);
    }
}

proof fn lemma_renumbered_references(ids: Seq<int>, first: int, references: Seq<int>)
    requires
        forall|i: int| 0 <= i < ids.len() ==> ids[i] == i + 1,
        forall|k: int| 0 <= k < references.len() ==> 1 <= #[trigger] references[k] <= ids.len(),
    ensures
        renumbered_references(ids, first, references) == references.map_values(
            |id: int| id + (first - 1),
        ),
    decreases references.len(),
{
    let moved = references.map_values(|id: int| id + (first - 1));
    if references.len() == 0 {
        assert(renumbered_references(ids, first, references) =~= moved);
    } else {
        let rest = references.drop_last();
        assert forall|k: int| 0 <= k < rest.len() implies 1 <= #[trigger] rest[k] <= ids.len() by {
            assert(rest[k] == references[k]);
        }
        lemma_renumbered_references(ids, first, rest);
        assert(1 <= references[references.len() - 1] <= ids.len());
        lemma_last_place(ids, references.last());
        assert(moved =~= rest.map_values(|id: int| id + (first - 1)).push(
            references.last() + (first - 1),
        ));
    }
}

/// New identifiers keep the relations of a file's chunks: identifiers are
/// consecutive from the first on, and every reference leads to the same chunk
/// as before. Nothing but the worktree changes besides.
pub proof fn law_reassigned(chunks: Seq<IndexedModel>, first: int, worktree: Option<u64>)
    requires
        index::related(chunks),
    ensures
        reassigned_all(chunks, first, worktree).len() == chunks.len(),
        forall|i: int|
            0 <= i < chunks.len() ==> #[trigger] reassigned_all(chunks, first, worktree)[i]
                == shifted(chunks[i], first - 1, worktree),
        forall|i: int|
            0 <= i < chunks.len() ==> (#[trigger] reassigned_all(chunks, first, worktree)[i]).id
                == first + i,
{
    let numbers = ids(chunks);
    let after = reassigned_all(chunks, first, worktree);
    assert forall|i: int| 0 <= i < numbers.len() implies numbers[i] == i + 1 by {
        assert(numbers[i] == chunks[i].id);
    }
    assert forall|i: int| 0 <= i < chunks.len() implies #[trigger] after[i] == shifted(
        chunks[i],
        first - 1,
        worktree,
    ) by {
        let chunk = chunks[i];
        lemma_last_place(numbers, chunk.id);
        if chunk.topology.parent is Some {
            lemma_last_place(numbers, chunk.topology.parent->0);
        }
        if chunk.topology.previous is Some {
            lemma_last_place(numbers, chunk.topology.previous->0);
        }
        if chunk.topology.next is Some {
            lemma_last_place(numbers, chunk.topology.next->0);
        }
        assert forall|k: int| 0 <= k < chunk.topology.children.len() implies 1
            <= #[trigger] chunk.topology.children[k] <= numbers.len() by {
            assert(1 <= chunks[i].topology.children[k] <= chunks.len());
        }
        lemma_renumbered_references(numbers, first, chunk.topology.children);
        assert(after[i].topology =~= shifted(chunk, first - 1, worktree).topology);
    }
    assert forall|i: int| 0 <= i < chunks.len() implies (#[trigger] after[i]).id == first + i by {
        assert(after[i] == shifted(chunks[i], first - 1, worktree));
        assert(chunks[i].id == i + 1);
    }
}

/// Whether chunks are numbered from one.
pub open spec fn numbered(chunks: Seq<IndexedModel>) -> bool {
    forall|i: int| 0 <= i < chunks.len() ==> (#[trigger] chunks[i]).id == i + 1
}

/// Adding the chunks of a file to a project whose chunks are numbered from one
/// leaves them so numbered: no identifier is used twice.
pub proof fn law_added_file_numbered(
    before: Seq<IndexedModel>,
    path: Seq<char>,
    snapshot: BufferSnapshot,
    max_size: usize,
    worktree: Option<u64>,
)
    requires
        numbered(before),
    ensures
        numbered(
            before + reassigned_all(
                file_chunks(path, snapshot, max_size),
                before.len() as int + 1,
                worktree,
            ),
        ),
{
    let chunks = file_chunks(path, snapshot, max_size);
    let source = snapshot.text@;
    let options = CastChunkingOptions { enabled: true, max_size };
    let cut = match syntax::buffer_chunks(source, snapshot.syntax_layers@, options) {
        Some(cut) => cut,
        None => index::plain_text_chunks(source, chunk::effective_max(max_size as int)),
    };
    index::law_indexed_chunks_related(path, source, cut);
    let first = before.len() as int + 1;
    law_reassigned(chunks, first, worktree);
    let after = reassigned_all(chunks, first, worktree);
    let all = before + after;
    assert forall|i: int| 0 <= i < all.len() implies (#[trigger] all[i]).id == i + 1 by {
        if i >= before.len() {
            assert(all[i] == after[i - before.len()]);
        } else {
            assert(all[i] == before[i]);
        }
    }
}

/// A file is indexed exactly where one of the entries is to be indexed and
/// stands for it. With a pattern, such an entry matches it.
pub proof fn law_indexed_files(
    entries: Seq<ProjectEntry>,
    settings: SemanticSearchIndexingSettings,
    file: FileModel,
)
    ensures
        indexed_files(entries, settings).contains(file) <==> exists|i: int|
            0 <= i < entries.len() && is_indexed(#[trigger] entries[i], settings) && file_of(
                entries[i],
            ) == file,
        indexed_files(entries, settings).contains(file) && settings.include_pattern is Some
            ==> exists|i: int|
            0 <= i < entries.len() && (#[trigger] entries[i]).matches_pattern == Some(true)
                && file_of(entries[i]) == file,
    decreases entries.len(),
{
    if entries.len() > 0 {
        let rest = entries.drop_last();
        let before = indexed_files(rest, settings);
        let after = indexed_files(entries, settings);
        law_indexed_files(rest, settings, file);
        if after.contains(file) {
            let k = choose|k: int| 0 <= k < after.len() && after[k] == file;
            if k < before.len() {
                assert(before[k] == file);
                let i = choose|i: int|
                    0 <= i < rest.len() && is_indexed(#[trigger] rest[i], settings) && file_of(
                        rest[i],
                    ) == file;
                assert(entries[i] == rest[i]);
            } else {
                assert(entries[entries.len() - 1] == entries.last());
            }
        }
        if exists|i: int|
            0 <= i < entries.len() && is_indexed(#[trigger] entries[i], settings) && file_of(
                entries[i],
            ) == file {
            let i = choose|i: int|
                0 <= i < entries.len() && is_indexed(#[trigger] entries[i], settings) && file_of(
                    entries[i],
                ) == file;
            if i < rest.len() {
                assert(rest[i] == entries[i]);
                let k = choose|k: int| 0 <= k < before.len() && before[k] == file;
                assert(after[k] == file);
            } else {
                assert(after[before.len() as int] == file);
            }
        }
    }
}

/// An entry is indexed exactly if it is a file, is not ignored, has no more bytes
/// than a file may have, matches the pattern where there is one, and is neither
/// excluded nor private, by the global settings or by those of its worktree.
pub proof fn law_is_indexed(entry: ProjectEntry, settings: SemanticSearchIndexingSettings)
    ensures
        is_indexed(entry, settings) <==> !(!entry.is_file || entry.is_ignored || entry.size
            > settings.max_indexed_file_bytes || (settings.include_pattern is Some && (
        entry.matches_pattern is None || !entry.matches_pattern->0)) || entry.globally_excluded
            || entry.worktree_excluded || entry.globally_private || entry.worktree_private),
{
}

/// The files that are indexed are those of the entries that are to be indexed,
/// one for each, in the order of the entries, each with the worktree, the paths
/// and the size of its entry.
pub proof fn law_indexed_files_order(
    entries: Seq<ProjectEntry>,
    settings: SemanticSearchIndexingSettings,
)
    ensures
        indexed_files(entries, settings) == entries.filter(
            |entry: ProjectEntry| is_indexed(entry, settings),
        ).map_values(
            |entry: ProjectEntry|
                (FileModel {
                    worktree: entry.worktree_id,
                    path: entry.path@,
                    display_path: entry.display_path@,
                    size: entry.size,
                }),
        ),
    decreases entries.len(),
{
    reveal(Seq::filter);
    let taken = |entry: ProjectEntry| is_indexed(entry, settings);
    let file = |entry: ProjectEntry|
        (FileModel {
            worktree: entry.worktree_id,
            path: entry.path@,
            display_path: entry.display_path@,
            size: entry.size,
        });
    if entries.len() > 0 {
        law_indexed_files_order(entries.drop_last(), settings);
    }
    assert(indexed_files(entries, settings) =~= entries.filter(taken).map_values(file));
}

/// Indexing a file loses nothing of it: the texts of its chunks, joined, are its
/// text. The chunks follow its syntax wherever that can be cut; each has the
/// path of the file.
pub proof fn law_file_chunks(path: Seq<char>, snapshot: BufferSnapshot, max_size: usize)
    ensures
        ({
            let source = snapshot.text@;
            let chunks = file_chunks(path, snapshot, max_size);
            let options = CastChunkingOptions { enabled: true, max_size };
            &&& index::joined_texts(chunks) == source
            &&& index::related(chunks)
            &&& forall|i: int| 0 <= i < chunks.len() ==> (#[trigger] chunks[i]).path == path
            &&& syntax::buffer_chunks(source, snapshot.syntax_layers@, options) matches Some(cut)
                ==> chunks.len() == cut.len() && forall|i: int|
                0 <= i < chunks.len() ==> (#[trigger] chunks[i]).span == (cut[i].start, cut[i].end)
                    && chunks[i].kind == cut[i].kind
        }),
{
    let source = snapshot.text@;
    let options = CastChunkingOptions { enabled: true, max_size };
    let max = chunk::effective_max(max_size as int);
    match syntax::buffer_chunks(source, snapshot.syntax_layers@, options) {
        Some(cut) => {
            index::law_indexed_texts_join(path, source, cut);
            index::law_indexed_chunks_related(path, source, cut);
        },
        None => {
            let cut = index::plain_text_chunks(source, max);
            index::law_plain_text_chunks(path, source, max);
            index::law_indexed_chunks_related(path, source, cut);
        },
    }
}

/// References are looked up one by one, in their order; those that the table does
/// not hold are dropped.
pub proof fn law_looked_up(table: Map<usize, CodeChunkId>, ids: Seq<CodeChunkId>)
    ensures
        looked_up(table, ids) == ids.filter(
            |id: CodeChunkId| table.contains_key(id.0),
        ).map_values(|id: CodeChunkId| table[id.0]),
    decreases ids.len(),
{
    reveal(Seq::filter);
    if ids.len() > 0 {
        law_looked_up(table, ids.drop_last());
    }
    assert(looked_up(table, ids) =~= ids.filter(
        |id: CodeChunkId| table.contains_key(id.0),
    ).map_values(|id: CodeChunkId| table[id.0]));
}

} // verus!
