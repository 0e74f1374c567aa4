//! The surroundings of chunks: parents and siblings, within a budget of bytes.

use crate::index;
use crate::index::{CodeChunkId, IndexedModel};
use crate::store::CodeSearchIndex;
use crate::text;
use std::collections::HashSet;
use vstd::prelude::*;

verus! {

/// Which surroundings are added to chunks, and how many bytes of them.
#[derive(Clone, Copy, Debug, Eq, PartialEq)]
pub struct TopologyExpansionRuntimeSettings {
    pub include_parent: bool,
    pub include_siblings: bool,
    pub max_parent_bytes: usize,
    pub max_total_expanded_bytes: usize,
}

/// What has been gathered so far: the chunks, and the bytes of their texts.
#[verifier::ext_equal]
pub struct Expansion {
    pub ids: Seq<CodeChunkId>,
    pub bytes: int,
}

/// Nothing gathered yet.
pub open spec fn nothing() -> Expansion {
    Expansion { ids: Seq::empty(), bytes: 0 }
}

/// Whether a chunk that is in the index and is not gathered yet keeps both
/// limits.
pub open spec fn fits(
    index: Map<usize, IndexedModel>,
    bytes: int,
    id: CodeChunkId,
    max_chunk: Option<usize>,
    max_total: usize,
) -> bool {
    let size = text::byte_len(index[id.0].text);
    &&& max_chunk matches Some(max) ==> size <= max
    &&& bytes + size <= max_total
}

/// Adds a chunk if it is in the index, is not gathered yet and keeps the
/// limits.
pub open spec fn added(
    index: Map<usize, IndexedModel>,
    expansion: Expansion,
    id: CodeChunkId,
    max_chunk: Option<usize>,
    max_total: usize,
) -> Expansion {
    if !expansion.ids.contains(id) && index.contains_key(id.0) && fits(
        index,
        expansion.bytes,
        id,
        max_chunk,
        max_total,
    ) {
        Expansion {
            ids: expansion.ids.push(id),
            bytes: expansion.bytes + text::byte_len(index[id.0].text),
        }
    } else {
        expansion
    }
}

/// Adds the chunk that a reference leads to, where that is asked for.
pub open spec fn added_reference(
    index: Map<usize, IndexedModel>,
    expansion: Expansion,
    wanted: bool,
    reference: Option<int>,
    max_chunk: Option<usize>,
    max_total: usize,
) -> Expansion {
    match reference {
        Some(id) => if wanted {
            added(index, expansion, CodeChunkId(id as usize), max_chunk, max_total)
        } else {
            expansion
        },
        None => expansion,
    }
}

/// Adds a chunk with its surroundings: its parent, the chunk before it, the
/// chunk itself, the chunk after it.
pub open spec fn surrounded(
    index: Map<usize, IndexedModel>,
    expansion: Expansion,
    id: CodeChunkId,
    settings: TopologyExpansionRuntimeSettings,
) -> Expansion {
    if !index.contains_key(id.0) {
        expansion
    } else {
        let topology = index[id.0].topology;
        let max_total = settings.max_total_expanded_bytes;
        let with_parent = added_reference(
            index,
            expansion,
            settings.include_parent,
            topology.parent,
            Some(settings.max_parent_bytes),
            max_total,
        );
        let with_previous = added_reference(
            index,
            with_parent,
            settings.include_siblings,
            topology.previous,
            None,
            max_total,
        );
        let with_chunk = added(index, with_previous, id, None, max_total);
        added_reference(
            index,
            with_chunk,
            settings.include_siblings,
            topology.next,
            None,
            max_total,
        )
    }
}

/// The chunks of a list with their surroundings.
pub open spec fn expansion(
    index: Map<usize, IndexedModel>,
    ids: Seq<CodeChunkId>,
    settings: TopologyExpansionRuntimeSettings,
) -> Expansion
    decreases ids.len(),
{
    if ids.len() == 0 {
        nothing()
    } else {
        surrounded(index, expansion(index, ids.drop_last(), settings), ids.last(), settings)
    }
}

/// Whether a set holds exactly the chunks that are gathered.
pub open spec fn marks(seen: Set<usize>, ids: Seq<CodeChunkId>) -> bool {
    forall|id: usize| #[trigger] seen.contains(id) <==> ids.contains(CodeChunkId(id))
}

/// Adds a chunk, unless it was added before, is not in the index, is too
/// large, or does not fit into what is left of the total.
pub fn add_chunk_if_within_budget(
    index: &CodeSearchIndex,
    chunk_id: CodeChunkId,
    max_chunk_bytes: Option<usize>,
    max_total_bytes: usize,
    total_bytes: &mut usize,
    seen: &mut HashSet<usize>,
    expanded: &mut Vec<CodeChunkId>,
)
    ensures
        ({
            let takes = !old(seen)@.contains(chunk_id.0) && index@.contains_key(chunk_id.0) && fits(
                index@,
                *old(total_bytes) as int,
                chunk_id,
                max_chunk_bytes,
                max_total_bytes,
            );
            &&& takes ==> {
                &&& final(expanded)@ == old(expanded)@.push(chunk_id)
                &&& final(seen)@ == old(seen)@.insert(chunk_id.0)
                &&& *final(total_bytes) == *old(total_bytes) + text::byte_len(
                    index@[chunk_id.0].text,
                )
            }
            &&& !takes ==> {
                &&& final(expanded)@ == old(expanded)@
                &&& final(seen)@ == old(seen)@
                &&& *final(total_bytes) == *old(total_bytes)
            }
        }),
{
    if seen.contains(&chunk_id.0) {
        return ;
    }
    let chunk = match index.chunk(chunk_id) {
        Some(chunk) => chunk,
        None => {
            return ;
        },
    };
    let chunk_bytes: usize = text::byte_count(chunk.text.as_str());
    if let Some(max_chunk_bytes) = max_chunk_bytes {
        if chunk_bytes > max_chunk_bytes {
            return ;
        }
    }
    let next_total_bytes: usize = match total_bytes.checked_add(chunk_bytes) {
        Some(next_total_bytes) => next_total_bytes,
        None => {
            return ;
        },
    };
    if next_total_bytes > max_total_bytes {
        return ;
    }
    seen.insert(chunk_id.0);
    *total_bytes = next_total_bytes;
    expanded.push(chunk_id);
}

/// What is gathered, as the expansion that it stands for.
spec fn gathers(
    expansion: Expansion,
    ids: Seq<CodeChunkId>,
    bytes: int,
    seen: Set<usize>,
) -> bool {
    &&& expansion.ids == ids
    &&& expansion.bytes == bytes
    &&& marks(seen, ids)
}

proof fn lemma_marks_push(seen: Set<usize>, ids: Seq<CodeChunkId>, id: CodeChunkId)
    requires
        marks(seen, ids),
    ensures
        marks(seen.insert(id.0), ids.push(id)),
{
    let grown = ids.push(id);
    assert forall|other: usize| #[trigger] seen.insert(id.0).contains(other) <==> grown.contains(
        CodeChunkId(other),
    ) by {
        assert(grown[ids.len() as int] == id);
        assert(CodeChunkId(id.0) == id);
        if ids.contains(CodeChunkId(other)) {
            let k = choose|k: int| 0 <= k < ids.len() && ids[k] == CodeChunkId(other);
            assert(grown[k] == CodeChunkId(other));
        }
        if grown.contains(CodeChunkId(other)) && other != id.0 {
            let k = choose|k: int| 0 <= k < grown.len() && grown[k] == CodeChunkId(other);
            assert(ids[k] == CodeChunkId(other));
        }
    }
}

/// Adds the chunk that a reference leads to, where that is asked for.
fn add_reference(
    index: &CodeSearchIndex,
    wanted: bool,
    reference: Option<CodeChunkId>,
    max_chunk_bytes: Option<usize>,
    max_total_bytes: usize,
    total_bytes: &mut usize,
    seen: &mut HashSet<usize>,
    expanded: &mut Vec<CodeChunkId>,
    Ghost(before): Ghost<Expansion>,
)
    requires
        gathers(before, old(expanded)@, *old(total_bytes) as int, old(seen)@),
    ensures
        gathers(
            added_reference(
                index@,
                before,
                wanted,
                index::id_number(reference),
                max_chunk_bytes,
                max_total_bytes,
            ),
            final(expanded)@,
            *final(total_bytes) as int,
            final(seen)@,
        ),
{
    if wanted {
        if let Some(id) = reference {
            proof {
                assert(CodeChunkId(id.0) == id);
                lemma_marks_push(seen@, expanded@, id);
            }
            add_chunk_if_within_budget(
                index,
                id,
                max_chunk_bytes,
                max_total_bytes,
                total_bytes,
                seen,
                expanded,
            );
        }
    }
}

/// The given chunks with their surroundings, each once, as far as the budget
/// goes.
pub fn expand_topology(
    index: &CodeSearchIndex,
    chunk_ids: &[CodeChunkId],
    settings: &TopologyExpansionRuntimeSettings,
) -> (expanded: Vec<CodeChunkId>)
    ensures
        expanded@ == expansion(index@, chunk_ids@, *settings).ids,
{
    let mut expanded: Vec<CodeChunkId> = Vec::new();
    let mut seen: HashSet<usize> = HashSet::new();
    let mut total_bytes: usize = 0;
    let max_total: usize = settings.max_total_expanded_bytes;
    assert(chunk_ids@.take(0) =~= Seq::empty());
    for position in 0..chunk_ids.len()
        invariant
            max_total == settings.max_total_expanded_bytes,
            gathers(
                expansion(index@, chunk_ids@.take(position as int), *settings),
                expanded@,
                total_bytes as int,
                seen@,
            ),
    {
        let chunk_id = chunk_ids[position];
        let ghost before = expansion(index@, chunk_ids@.take(position as int), *settings);
        proof {
            assert(chunk_ids@.take(position + 1).drop_last() =~= chunk_ids@.take(position as int));
            assert(chunk_ids@.take(position + 1).last() == chunk_id);
        }
        if let Some(chunk) = index.chunk(chunk_id) {
            let topology = &chunk.topology;
            let ghost model = index@[chunk_id.0].topology;
            assert(topology@ == model);
            add_reference(
                index,
                settings.include_parent,
                topology.parent,
                Some(settings.max_parent_bytes),
                max_total,
                &mut total_bytes,
                &mut seen,
                &mut expanded,
                Ghost(before),
            );
            let ghost with_parent = added_reference(
                index@,
                before,
                settings.include_parent,
                model.parent,
                Some(settings.max_parent_bytes),
                max_total,
            );
            add_reference(
                index,
                settings.include_siblings,
                topology.previous_sibling,
                None,
                max_total,
                &mut total_bytes,
                &mut seen,
                &mut expanded,
                Ghost(with_parent),
            );
            let ghost with_previous = added_reference(
                index@,
                with_parent,
                settings.include_siblings,
                model.previous,
                None,
                max_total,
            );
            add_reference(
                index,
                true,
                Some(chunk_id),
                None,
                max_total,
                &mut total_bytes,
                &mut seen,
                &mut expanded,
                Ghost(with_previous),
            );
            let ghost with_chunk = added(index@, with_previous, chunk_id, None, max_total);
            assert(CodeChunkId(chunk_id.0) == chunk_id);
            add_reference(
                index,
                settings.include_siblings,
                topology.next_sibling,
                None,
                max_total,
                &mut total_bytes,
                &mut seen,
                &mut expanded,
                Ghost(with_chunk),
            );
        }
    }
    assert(chunk_ids@.take(chunk_ids@.len() as int) =~= chunk_ids@);
    expanded
}

// ---------------------------------------------------------------------------
// Laws
// ---------------------------------------------------------------------------

/// The bytes of the texts of chunks.
pub open spec fn total_bytes(index: Map<usize, IndexedModel>, ids: Seq<CodeChunkId>) -> nat
    decreases ids.len(),
{
    if ids.len() == 0 {
        0
    } else {
        total_bytes(index, ids.drop_last()) + text::byte_len(index[ids.last().0].text)
    }
}

/// Whether a chunk is one of the given chunks, or belongs to the surroundings
/// of one of them that the settings ask for.
pub open spec fn asked_for(
    index: Map<usize, IndexedModel>,
    ids: Seq<CodeChunkId>,
    settings: TopologyExpansionRuntimeSettings,
    id: CodeChunkId,
) -> bool {
    exists|i: int|
        0 <= i < ids.len() && index.contains_key((#[trigger] ids[i]).0) && {
            let topology = index[ids[i].0].topology;
            ||| id == ids[i]
            ||| settings.include_parent && topology.parent is Some && id == CodeChunkId(
                topology.parent->0 as usize,
            )
            ||| settings.include_siblings && topology.previous is Some && id == CodeChunkId(
                topology.previous->0 as usize,
            )
            ||| settings.include_siblings && topology.next is Some && id == CodeChunkId(
                topology.next->0 as usize,
            )
        }
}

/// Whether an expansion is sound: no chunk comes twice, every chunk is in the
/// index, and the texts keep the total.
pub open spec fn sound(
    index: Map<usize, IndexedModel>,
    expansion: Expansion,
    max_total: usize,
) -> bool {
    &&& expansion.ids.no_duplicates()
    &&& forall|i: int|
        0 <= i < expansion.ids.len() ==> index.contains_key((#[trigger] expansion.ids[i]).0)
    &&& expansion.bytes == total_bytes(index, expansion.ids)
    &&& expansion.bytes <= max_total
}

proof fn lemma_added_sound(
    index: Map<usize, IndexedModel>,
    before: Expansion,
    id: CodeChunkId,
    max_chunk: Option<usize>,
    max_total: usize,
)
    requires
        sound(index, before, max_total),
    ensures
        sound(index, added(index, before, id, max_chunk, max_total), max_total),
{
    let after = added(index, before, id, max_chunk, max_total);
    if after != before {
        assert(after.ids.drop_last() =~= before.ids);
        assert forall|i: int| 0 <= i < after.ids.len() implies index.contains_key(
            (#[trigger] after.ids[i]).0,
        ) by {
            if i < before.ids.len() {
                assert(after.ids[i] == before.ids[i]);
            }
        }
    }
}

proof fn lemma_surrounded(
    index: Map<usize, IndexedModel>,
    ids: Seq<CodeChunkId>,
    before: Expansion,
    settings: TopologyExpansionRuntimeSettings,
)
    requires
        ids.len() > 0,
        sound(index, before, settings.max_total_expanded_bytes),
        forall|i: int|
            0 <= i < before.ids.len() ==> asked_for(index, ids, settings, #[trigger] before.ids[i]),
    ensures
        ({
            let after = surrounded(index, before, ids.last(), settings);
            &&& sound(index, after, settings.max_total_expanded_bytes)
            &&& forall|i: int|
                0 <= i < after.ids.len() ==> asked_for(
                    index,
                    ids,
                    settings,
                    #[trigger] after.ids[i],
                )
        }),
{
    let id = ids.last();
    let max_total = settings.max_total_expanded_bytes;
    assert(ids[ids.len() - 1] == id);
    if index.contains_key(id.0) {
        let topology = index[id.0].topology;
        let parent = added_reference(
            index,
            before,
            settings.include_parent,
            topology.parent,
            Some(settings.max_parent_bytes),
            max_total,
        );
        let previous = added_reference(
            index,
            parent,
            settings.include_siblings,
            topology.previous,
            None,
            max_total,
        );
        let chunk = added(index, previous, id, None, max_total);
        if topology.parent is Some {
            lemma_added_sound(
                index,
                before,
                CodeChunkId(topology.parent->0 as usize),
                Some(settings.max_parent_bytes),
                max_total,
            );
        }
        if topology.previous is Some {
            lemma_added_sound(
                index,
                parent,
                CodeChunkId(topology.previous->0 as usize),
                None,
                max_total,
            );
        }
        lemma_added_sound(index, previous, id, None, max_total);
        if topology.next is Some {
            lemma_added_sound(
                index,
                chunk,
                CodeChunkId(topology.next->0 as usize),
                None,
                max_total,
            );
        }
        assert forall|i: int| 0 <= i < parent.ids.len() implies asked_for(
            index,
            ids,
            settings,
            #[trigger] parent.ids[i],
        ) by {
            if i < before.ids.len() {
                assert(parent.ids[i] == before.ids[i]);
            }
        }
        assert forall|i: int| 0 <= i < previous.ids.len() implies asked_for(
            index,
            ids,
            settings,
            #[trigger] previous.ids[i],
        ) by {
            if i < parent.ids.len() {
                assert(previous.ids[i] == parent.ids[i]);
            }
        }
        assert forall|i: int| 0 <= i < chunk.ids.len() implies asked_for(
            index,
            ids,
            settings,
            #[trigger] chunk.ids[i],
        ) by {
            if i < previous.ids.len() {
                assert(chunk.ids[i] == previous.ids[i]);
            }
        }
        let after = surrounded(index, before, id, settings);
        assert forall|i: int| 0 <= i < after.ids.len() implies asked_for(
            index,
            ids,
            settings,
            #[trigger] after.ids[i],
        ) by {
            if i < chunk.ids.len() {
                assert(after.ids[i] == chunk.ids[i]);
            }
        }
    }
}

/// An expansion brings no chunk twice, only chunks of the index, only what was
/// asked for, and no more bytes than the total allows.
pub proof fn law_expansion(
    index: Map<usize, IndexedModel>,
    ids: Seq<CodeChunkId>,
    settings: TopologyExpansionRuntimeSettings,
)
    ensures
        sound(index, expansion(index, ids, settings), settings.max_total_expanded_bytes),
        forall|i: int|
            0 <= i < expansion(index, ids, settings).ids.len() ==> asked_for(
                index,
                ids,
                settings,
                #[trigger] expansion(index, ids, settings).ids[i],
            ),
    decreases ids.len(),
{
    if ids.len() > 0 {
        let rest = ids.drop_last();
        law_expansion(index, rest, settings);
        let before = expansion(index, rest, settings);
        assert forall|i: int| 0 <= i < before.ids.len() implies asked_for(
            index,
            ids,
            settings,
            #[trigger] before.ids[i],
        ) by {
            let id = before.ids[i];
            assert(asked_for(index, rest, settings, id));
            let k = choose|k: int|
                0 <= k < rest.len() && index.contains_key((#[trigger] rest[k]).0) && {
                    let topology = index[rest[k].0].topology;
                    ||| id == rest[k]
                    ||| settings.include_parent && topology.parent is Some && id == CodeChunkId(
                        topology.parent->0 as usize,
                    )
                    ||| settings.include_siblings && topology.previous is Some && id
                        == CodeChunkId(topology.previous->0 as usize)
                    ||| settings.include_siblings && topology.next is Some && id == CodeChunkId(
                        topology.next->0 as usize,
                    )
                };
            assert(ids[k] == rest[k]);
        }
        lemma_surrounded(index, ids, before, settings);
    }
}

/// Whether a chunk is one of the given chunks, or a sibling of one of them
/// where siblings are asked for.
pub open spec fn given_or_sibling(
    index: Map<usize, IndexedModel>,
    ids: Seq<CodeChunkId>,
    settings: TopologyExpansionRuntimeSettings,
    id: CodeChunkId,
) -> bool {
    exists|i: int|
        0 <= i < ids.len() && index.contains_key((#[trigger] ids[i]).0) && {
            let topology = index[ids[i].0].topology;
            ||| id == ids[i]
            ||| settings.include_siblings && topology.previous is Some && id == CodeChunkId(
                topology.previous->0 as usize,
            )
            ||| settings.include_siblings && topology.next is Some && id == CodeChunkId(
                topology.next->0 as usize,
            )
        }
}

/// Whether a chunk is given or a sibling, or else keeps the limit for parents.
pub open spec fn modest(
    index: Map<usize, IndexedModel>,
    ids: Seq<CodeChunkId>,
    settings: TopologyExpansionRuntimeSettings,
    id: CodeChunkId,
) -> bool {
    given_or_sibling(index, ids, settings, id) || text::byte_len(index[id.0].text)
        <= settings.max_parent_bytes
}

/// A chunk that is added only as a parent has no more bytes than parents may
/// have.
pub proof fn law_parents_modest(
    index: Map<usize, IndexedModel>,
    ids: Seq<CodeChunkId>,
    settings: TopologyExpansionRuntimeSettings,
)
    ensures
        forall|i: int|
            0 <= i < expansion(index, ids, settings).ids.len() ==> modest(
                index,
                ids,
                settings,
                #[trigger] expansion(index, ids, settings).ids[i],
            ),
    decreases ids.len(),
{
    if ids.len() > 0 {
        let rest = ids.drop_last();
        let id = ids.last();
        law_parents_modest(index, rest, settings);
        let before = expansion(index, rest, settings);
        let after = expansion(index, ids, settings);
        assert(ids[ids.len() - 1] == id);
        assert forall|i: int| 0 <= i < after.ids.len() implies modest(
            index,
            ids,
            settings,
            #[trigger] after.ids[i],
        ) by {
            let one = after.ids[i];
            if i < before.ids.len() {
                lemma_surrounded_extends(index, before, id, settings);
                assert(one == before.ids[i]);
                assert(modest(index, rest, settings, one));
                if given_or_sibling(index, rest, settings, one) {
                    let k = choose|k: int|
                        0 <= k < rest.len() && index.contains_key((#[trigger] rest[k]).0) && {
                            let topology = index[rest[k].0].topology;
                            ||| one == rest[k]
                            ||| settings.include_siblings && topology.previous is Some && one
                                == CodeChunkId(topology.previous->0 as usize)
                            ||| settings.include_siblings && topology.next is Some && one
                                == CodeChunkId(topology.next->0 as usize)
                        };
                    assert(ids[k] == rest[k]);
                }
            } else {
                let topology = index[id.0].topology;
                let parent = added_reference(
                    index,
                    before,
                    settings.include_parent,
                    topology.parent,
                    Some(settings.max_parent_bytes),
                    settings.max_total_expanded_bytes,
                );
                let previous = added_reference(
                    index,
                    parent,
                    settings.include_siblings,
                    topology.previous,
                    None,
                    settings.max_total_expanded_bytes,
                );
                let chunk = added(index, previous, id, None, settings.max_total_expanded_bytes);
                if i < parent.ids.len() {
                    assert(one == parent.ids[i]);
                } else if i < previous.ids.len() {
                    assert(one == previous.ids[i]);
                } else if i < chunk.ids.len() {
                    assert(one == chunk.ids[i]);
                }
            }
        }
    }
}

/// Adding a chunk with its surroundings keeps what was gathered.
proof fn lemma_surrounded_extends(
    index: Map<usize, IndexedModel>,
    before: Expansion,
    id: CodeChunkId,
    settings: TopologyExpansionRuntimeSettings,
)
    ensures
        surrounded(index, before, id, settings).ids.len() >= before.ids.len(),
        forall|i: int|
            0 <= i < before.ids.len() ==> surrounded(index, before, id, settings).ids[i]
                == #[trigger] before.ids[i],
{
}

/// Where neither parents nor siblings are asked for, a chunk alone expands to
/// itself if its text keeps the total, else to nothing.
pub proof fn law_expansion_of_one(
    index: Map<usize, IndexedModel>,
    id: CodeChunkId,
    settings: TopologyExpansionRuntimeSettings,
)
    requires
        !settings.include_parent,
        !settings.include_siblings,
        index.contains_key(id.0),
    ensures
        expansion(index, seq![id], settings).ids == if text::byte_len(index[id.0].text)
            <= settings.max_total_expanded_bytes {
            seq![id]
        } else {
            Seq::empty()
        },
{
    assert(seq![id].drop_last() =~= Seq::empty());
    assert(expansion(index, seq![id].drop_last(), settings) == nothing());
    assert(Seq::empty().push(id) =~= seq![id]);
}

/// A chunk's parent, where it is added for that chunk alone, comes before it.
pub proof fn law_parent_first(
    index: Map<usize, IndexedModel>,
    id: CodeChunkId,
    settings: TopologyExpansionRuntimeSettings,
)
    requires
        index.contains_key(id.0),
        index[id.0].topology.parent is Some,
        0 <= index[id.0].topology.parent->0 <= usize::MAX,
        ({
            let parent = index[id.0].topology.parent->0 as usize;
            let size = text::byte_len(index[parent].text);
            &&& index.contains_key(parent)
            &&& size <= settings.max_parent_bytes
            &&& size <= settings.max_total_expanded_bytes
        }),
        settings.include_parent,
    ensures
        expansion(index, seq![id], settings).ids.len() > 0,
        expansion(index, seq![id], settings).ids[0].0 == index[id.0].topology.parent->0,
{
    assert(seq![id].drop_last() =~= Seq::empty());
    assert(expansion(index, seq![id].drop_last(), settings) == nothing());
}

/// The chunk that a reference leads to, where that is asked for, the index
/// holds it, and it keeps the limit for its size.
pub open spec fn wanted_reference(
    index: Map<usize, IndexedModel>,
    asked: bool,
    reference: Option<int>,
    max_bytes: Option<usize>,
) -> Seq<CodeChunkId> {
    if asked && reference is Some && index.contains_key(reference->0 as usize) && (max_bytes is None
        || text::byte_len(index[reference->0 as usize].text) <= max_bytes->0) {
        seq![CodeChunkId(reference->0 as usize)]
    } else {
        Seq::empty()
    }
}

/// A chunk with all its surroundings that the settings ask for and the index
/// holds: parent, previous, the chunk, next.
pub open spec fn surroundings(
    index: Map<usize, IndexedModel>,
    id: CodeChunkId,
    settings: TopologyExpansionRuntimeSettings,
) -> Seq<CodeChunkId> {
    let topology = index[id.0].topology;
    wanted_reference(
        index,
        settings.include_parent,
        topology.parent,
        Some(settings.max_parent_bytes),
    ) + wanted_reference(index, settings.include_siblings, topology.previous, None) + seq![id]
        + wanted_reference(index, settings.include_siblings, topology.next, None)
}

/// The members of a list, each once, where it first occurs.
pub open spec fn each_once(ids: Seq<CodeChunkId>) -> Seq<CodeChunkId>
    decreases ids.len(),
{
    if ids.len() == 0 {
        Seq::empty()
    } else {
        let before = each_once(ids.drop_last());
        if before.contains(ids.last()) {
            before
        } else {
            before.push(ids.last())
        }
    }
}

proof fn lemma_reference_added(
    index: Map<usize, IndexedModel>,
    before: Expansion,
    listed: Seq<CodeChunkId>,
    asked: bool,
    reference: Option<int>,
    max_bytes: Option<usize>,
    max_total: usize,
)
    requires
        before.ids == each_once(listed),
        before.bytes <= total_bytes(index, listed),
        total_bytes(index, listed + wanted_reference(index, asked, reference, max_bytes))
            <= max_total,
    ensures
        ({
            let after = added_reference(index, before, asked, reference, max_bytes, max_total);
            let grown = listed + wanted_reference(index, asked, reference, max_bytes);
            after.ids == each_once(grown) && after.bytes <= total_bytes(index, grown)
        }),
{
    let wanted = wanted_reference(index, asked, reference, max_bytes);
    let grown = listed + wanted;
    if wanted.len() > 0 {
        assert(grown.drop_last() =~= listed);
        assert(grown.last() == wanted[0]);
    } else {
        assert(grown =~= listed);
    }
}

proof fn lemma_total_bytes_order(
    index: Map<usize, IndexedModel>,
    listed: Seq<CodeChunkId>,
    more: Seq<CodeChunkId>,
)
    ensures
        total_bytes(index, listed) <= total_bytes(index, listed + more),
    decreases more.len(),
{
    if more.len() == 0 {
        assert(listed + more =~= listed);
    } else {
        assert((listed + more).drop_last() =~= listed + more.drop_last());
        lemma_total_bytes_order(index, listed, more.drop_last());
    }
}

/// Where the total allows it, a chunk expands to all its surroundings that the
/// settings ask for and the index holds, each once: its parent, if that keeps
/// the limit for parents, the chunk before it, the chunk itself and the chunk
/// after it, in this order.
pub proof fn law_surroundings_complete(
    index: Map<usize, IndexedModel>,
    id: CodeChunkId,
    settings: TopologyExpansionRuntimeSettings,
)
    requires
        index.contains_key(id.0),
        total_bytes(index, surroundings(index, id, settings))
            <= settings.max_total_expanded_bytes,
    ensures
        expansion(index, seq![id], settings).ids == each_once(surroundings(index, id, settings)),
        forall|i: int|
            0 <= i < surroundings(index, id, settings).len() ==> expansion(
                index,
                seq![id],
                settings,
            ).ids.contains(#[trigger] surroundings(index, id, settings)[i]),
{
    let topology = index[id.0].topology;
    let max_total = settings.max_total_expanded_bytes;
    let max_parent = Some(settings.max_parent_bytes);
    let none = Seq::<CodeChunkId>::empty();
    let p = wanted_reference(index, settings.include_parent, topology.parent, max_parent);
    let b = wanted_reference(index, settings.include_siblings, topology.previous, None);
    let n = wanted_reference(index, settings.include_siblings, topology.next, None);
    let all = surroundings(index, id, settings);
    let own = wanted_reference(index, true, Some(id.0 as int), None);
    assert(own =~= seq![id]);
    assert(none + p =~= p);
    lemma_total_bytes_order(index, p, b + seq![id] + n);
    lemma_total_bytes_order(index, p + b, seq![id] + n);
    lemma_total_bytes_order(index, p + b + seq![id], n);
    assert(p + (b + seq![id] + n) =~= all);
    assert((p + b) + (seq![id] + n) =~= all);
    assert(seq![id].drop_last() =~= none);
    let s0 = nothing();
    assert(expansion(index, seq![id].drop_last(), settings) == s0);
    lemma_reference_added(
        index,
        s0,
        none,
        settings.include_parent,
        topology.parent,
        max_parent,
        max_total,
    );
    let s1 = added_reference(
        index,
        s0,
        settings.include_parent,
        topology.parent,
        max_parent,
        max_total,
    );
    lemma_reference_added(
        index,
        s1,
        p,
        settings.include_siblings,
        topology.previous,
        None,
        max_total,
    );
    let s2 = added_reference(
        index,
        s1,
        settings.include_siblings,
        topology.previous,
        None,
        max_total,
    );
    lemma_reference_added(index, s2, p + b, true, Some(id.0 as int), None, max_total);
    let s3 = added(index, s2, id, None, max_total);
    assert(CodeChunkId(id.0) == id);
    lemma_reference_added(
        index,
        s3,
        p + b + seq![id],
        settings.include_siblings,
        topology.next,
        None,
        max_total,
    );
    lemma_each_once(all);
}

proof fn lemma_each_once(ids: Seq<CodeChunkId>)
    ensures
        forall|i: int| 0 <= i < ids.len() ==> each_once(ids).contains(#[trigger] ids[i]),
    decreases ids.len(),
{
    if ids.len() > 0 {
        let rest = ids.drop_last();
        lemma_each_once(rest);
        let before = each_once(rest);
        let after = each_once(ids);
        assert forall|i: int| 0 <= i < ids.len() implies after.contains(#[trigger] ids[i]) by {
            if i < rest.len() {
                assert(rest[i] == ids[i]);
                let k = choose|k: int| 0 <= k < before.len() && before[k] == ids[i];
                assert(after[k] == ids[i]);
            } else if !before.contains(ids.last()) {
                assert(after[before.len() as int] == ids.last());
            }
        }
    }
}

/// Whether a chunk is asked for by the chunk at `place` of a list: it is that
/// chunk, a sibling of it where siblings are asked for, or its parent where
/// parents are asked for and it keeps the limit for them.
pub open spec fn called_for(
    index: Map<usize, IndexedModel>,
    ids: Seq<CodeChunkId>,
    settings: TopologyExpansionRuntimeSettings,
    place: int,
    id: CodeChunkId,
) -> bool {
    let topology = index[ids[place].0].topology;
    ||| id == ids[place]
    ||| settings.include_siblings && topology.previous == Some(id.0 as int)
    ||| settings.include_siblings && topology.next == Some(id.0 as int)
    ||| settings.include_parent && topology.parent == Some(id.0 as int) && text::byte_len(
        index[id.0].text,
    ) <= settings.max_parent_bytes
}

/// Whether a chunk is gathered, or does not fit into what is left.
spec fn settled(
    index: Map<usize, IndexedModel>,
    expansion: Expansion,
    id: CodeChunkId,
    max_total: usize,
) -> bool {
    expansion.ids.contains(id) || expansion.bytes + text::byte_len(index[id.0].text) > max_total
}

proof fn lemma_added_settles(
    index: Map<usize, IndexedModel>,
    before: Expansion,
    asked: bool,
    reference: Option<int>,
    max_bytes: Option<usize>,
    max_total: usize,
    id: CodeChunkId,
)
    requires
        index.contains_key(id.0),
        settled(index, before, id, max_total) || (asked && reference == Some(id.0 as int) && (
        max_bytes is None || text::byte_len(index[id.0].text) <= max_bytes->0)),
    ensures
        settled(
            index,
            added_reference(index, before, asked, reference, max_bytes, max_total),
            id,
            max_total,
        ),
{
    let after = added_reference(index, before, asked, reference, max_bytes, max_total);
    assert(CodeChunkId(id.0) == id);
    if before.ids.contains(id) {
        let k = choose|k: int| 0 <= k < before.ids.len() && before.ids[k] == id;
        assert(after.ids[k] == id);
    } else if after.ids.len() > before.ids.len() {
        assert(after.ids[before.ids.len() as int] == after.ids.last());
    }
}

proof fn lemma_surrounded_settles(
    index: Map<usize, IndexedModel>,
    before: Expansion,
    ids: Seq<CodeChunkId>,
    settings: TopologyExpansionRuntimeSettings,
    id: CodeChunkId,
)
    requires
        ids.len() > 0,
        index.contains_key(id.0),
        settled(index, before, id, settings.max_total_expanded_bytes) || (index.contains_key(
            ids.last().0,
        ) && called_for(index, ids, settings, ids.len() - 1, id)),
    ensures
        settled(
            index,
            surrounded(index, before, ids.last(), settings),
            id,
            settings.max_total_expanded_bytes,
        ),
{
    let own = ids.last();
    if index.contains_key(own.0) {
        let topology = index[own.0].topology;
        let max_total = settings.max_total_expanded_bytes;
        let max_parent = Some(settings.max_parent_bytes);
        let s1 = added_reference(
            index,
            before,
            settings.include_parent,
            topology.parent,
            max_parent,
            max_total,
        );
        let s2 = added_reference(
            index,
            s1,
            settings.include_siblings,
            topology.previous,
            None,
            max_total,
        );
        assert(CodeChunkId(own.0) == own);
        let s3 = added_reference(index, s2, true, Some(own.0 as int), None, max_total);
        assert(s3 == added(index, s2, own, None, max_total));
        let is_parent = settings.include_parent && topology.parent == Some(id.0 as int)
            && text::byte_len(index[id.0].text) <= settings.max_parent_bytes;
        let is_previous = settings.include_siblings && topology.previous == Some(id.0 as int);
        if settled(index, before, id, max_total) || is_parent {
            lemma_added_settles(
                index,
                before,
                settings.include_parent,
                topology.parent,
                max_parent,
                max_total,
                id,
            );
        }
        if settled(index, s1, id, max_total) || is_previous {
            lemma_added_settles(
                index,
                s1,
                settings.include_siblings,
                topology.previous,
                None,
                max_total,
                id,
            );
        }
        if settled(index, s2, id, max_total) || id == own {
            lemma_added_settles(index, s2, true, Some(own.0 as int), None, max_total, id);
        }
        lemma_added_settles(
            index,
            s3,
            settings.include_siblings,
            topology.next,
            None,
            max_total,
            id,
        );
    }
}

proof fn lemma_expansion_settles(
    index: Map<usize, IndexedModel>,
    ids: Seq<CodeChunkId>,
    settings: TopologyExpansionRuntimeSettings,
    place: int,
    id: CodeChunkId,
)
    requires
        0 <= place < ids.len(),
        index.contains_key(ids[place].0),
        index.contains_key(id.0),
        called_for(index, ids, settings, place, id),
    ensures
        settled(
            index,
            expansion(index, ids, settings),
            id,
            settings.max_total_expanded_bytes,
        ),
    decreases ids.len(),
{
    let rest = ids.drop_last();
    if place < rest.len() {
        assert(rest[place] == ids[place]);
        lemma_expansion_settles(index, rest, settings, place, id);
    }
    lemma_surrounded_settles(index, expansion(index, rest, settings), ids, settings, id);
}

/// Nothing that is called for is left out while there is room: a chunk of the
/// index that one of the given chunks calls for is in the expansion, or its
/// text would exceed the total if it were added.
pub proof fn law_nothing_left_out(
    index: Map<usize, IndexedModel>,
    ids: Seq<CodeChunkId>,
    settings: TopologyExpansionRuntimeSettings,
    place: int,
    id: CodeChunkId,
)
    requires
        0 <= place < ids.len(),
        index.contains_key(ids[place].0),
        index.contains_key(id.0),
        called_for(index, ids, settings, place, id),
    ensures
        expansion(index, ids, settings).ids.contains(id) || total_bytes(
            index,
            expansion(index, ids, settings).ids,
        ) + text::byte_len(index[id.0].text) > settings.max_total_expanded_bytes,
{
    lemma_expansion_settles(index, ids, settings, place, id);
    law_expansion(index, ids, settings);
}

/// More chunks only add to an expansion: what the first chunks of a list expand
/// to comes first, and stays as it is.
pub proof fn law_expansion_grows(
    index: Map<usize, IndexedModel>,
    ids: Seq<CodeChunkId>,
    more: Seq<CodeChunkId>,
    settings: TopologyExpansionRuntimeSettings,
)
    ensures
        expansion(index, ids, settings).ids.is_prefix_of(
            expansion(index, ids + more, settings).ids,
        ),
    decreases more.len(),
{
    if more.len() == 0 {
        assert(ids + more =~= ids);
    } else {
        let all = ids + more;
        assert(all.drop_last() =~= ids + more.drop_last());
        law_expansion_grows(index, ids, more.drop_last(), settings);
        let head = expansion(index, ids, settings).ids;
        let before = expansion(index, all.drop_last(), settings);
        let after = expansion(index, all, settings);
        lemma_surrounded_extends(index, before, all.last(), settings);
        assert(head =~= after.ids.subrange(0, head.len() as int)) by {
            assert(head =~= before.ids.subrange(0, head.len() as int));
            assert forall|i: int| 0 <= i < head.len() implies head[i] == after.ids[i] by {
                assert(before.ids[i] == before.ids.subrange(0, head.len() as int)[i]);
            }
        }
    }
}

/// The surroundings of all given chunks that are in the index, one after another.
pub open spec fn all_surroundings(
    index: Map<usize, IndexedModel>,
    ids: Seq<CodeChunkId>,
    settings: TopologyExpansionRuntimeSettings,
) -> Seq<CodeChunkId>
    decreases ids.len(),
{
    if ids.len() == 0 {
        Seq::empty()
    } else {
        let before = all_surroundings(index, ids.drop_last(), settings);
        if index.contains_key(ids.last().0) {
            before + surroundings(index, ids.last(), settings)
        } else {
            before
        }
    }
}

/// What is gathered of chunks that are gone through in order.
spec fn gathered_of(
    index: Map<usize, IndexedModel>,
    listed: Seq<CodeChunkId>,
    max_total: usize,
) -> Expansion
    decreases listed.len(),
{
    if listed.len() == 0 {
        nothing()
    } else {
        added(
            index,
            gathered_of(index, listed.drop_last(), max_total),
            listed.last(),
            None,
            max_total,
        )
    }
}

proof fn lemma_reference_gathered(
    index: Map<usize, IndexedModel>,
    listed: Seq<CodeChunkId>,
    asked: bool,
    reference: Option<int>,
    max_bytes: Option<usize>,
    max_total: usize,
)
    ensures
        added_reference(
            index,
            gathered_of(index, listed, max_total),
            asked,
            reference,
            max_bytes,
            max_total,
        ) == gathered_of(
            index,
            listed + wanted_reference(index, asked, reference, max_bytes),
            max_total,
        ),
{
    let wanted = wanted_reference(index, asked, reference, max_bytes);
    let grown = listed + wanted;
    if wanted.len() > 0 {
        assert(grown.drop_last() =~= listed);
        assert(grown.last() == wanted[0]);
    } else {
        assert(grown =~= listed);
    }
}

proof fn lemma_expansion_gathered(
    index: Map<usize, IndexedModel>,
    ids: Seq<CodeChunkId>,
    settings: TopologyExpansionRuntimeSettings,
)
    ensures
        expansion(index, ids, settings) == gathered_of(
            index,
            all_surroundings(index, ids, settings),
            settings.max_total_expanded_bytes,
        ),
    decreases ids.len(),
{
    if ids.len() > 0 {
        let rest = ids.drop_last();
        lemma_expansion_gathered(index, rest, settings);
        let id = ids.last();
        if index.contains_key(id.0) {
            let topology = index[id.0].topology;
            let max_total = settings.max_total_expanded_bytes;
            let max_parent = Some(settings.max_parent_bytes);
            let l0 = all_surroundings(index, rest, settings);
            let p = wanted_reference(index, settings.include_parent, topology.parent, max_parent);
            let b = wanted_reference(index, settings.include_siblings, topology.previous, None);
            let n = wanted_reference(index, settings.include_siblings, topology.next, None);
            let own = wanted_reference(index, true, Some(id.0 as int), None);
            assert(CodeChunkId(id.0) == id);
            assert(own =~= seq![id]);
            lemma_reference_gathered(
                index,
                l0,
                settings.include_parent,
                topology.parent,
                max_parent,
                max_total,
            );
            lemma_reference_gathered(
                index,
                l0 + p,
                settings.include_siblings,
                topology.previous,
                None,
                max_total,
            );
            lemma_reference_gathered(index, l0 + p + b, true, Some(id.0 as int), None, max_total);
            lemma_reference_gathered(
                index,
                l0 + p + b + seq![id],
                settings.include_siblings,
                topology.next,
                None,
                max_total,
            );
            assert(l0 + surroundings(index, id, settings) =~= l0 + p + b + seq![id] + n);
        }
    }
}

proof fn lemma_gathered_members(
    index: Map<usize, IndexedModel>,
    listed: Seq<CodeChunkId>,
    max_total: usize,
)
    ensures
        sound(index, gathered_of(index, listed, max_total), max_total),
        forall|i: int|
            0 <= i < gathered_of(index, listed, max_total).ids.len() ==> listed.contains(
                #[trigger] gathered_of(index, listed, max_total).ids[i],
            ),
    decreases listed.len(),
{
    if listed.len() > 0 {
        let rest = listed.drop_last();
        lemma_gathered_members(index, rest, max_total);
        let before = gathered_of(index, rest, max_total);
        let after = gathered_of(index, listed, max_total);
        lemma_added_sound(index, before, listed.last(), None, max_total);
        assert forall|i: int| 0 <= i < after.ids.len() implies listed.contains(
            #[trigger] after.ids[i],
        ) by {
            if i < before.ids.len() {
                assert(after.ids[i] == before.ids[i]);
                let k = choose|k: int| 0 <= k < rest.len() && rest[k] == before.ids[i];
                assert(listed[k] == before.ids[i]);
            } else {
                assert(listed[listed.len() - 1] == after.ids[i]);
            }
        }
    }
}

proof fn lemma_filter_members(ids: Seq<CodeChunkId>, p: spec_fn(CodeChunkId) -> bool)
    requires
        forall|i: int| 0 <= i < ids.len() ==> p(#[trigger] ids[i]),
    ensures
        ids.filter(p) == ids,
    decreases ids.len(),
{
    reveal(Seq::filter);
    if ids.len() > 0 {
        let rest = ids.drop_last();
        assert forall|i: int| 0 <= i < rest.len() implies p(#[trigger] rest[i]) by {
            assert(rest[i] == ids[i]);
        }
        lemma_filter_members(rest, p);
        assert(p(ids[ids.len() - 1]));
        assert(ids =~= rest.push(ids.last()));
    }
}

/// What was gathered of the first chunks is what is gathered of them in the end.
proof fn lemma_gathered_prefix(
    index: Map<usize, IndexedModel>,
    listed: Seq<CodeChunkId>,
    place: int,
    count: int,
    max_total: usize,
)
    requires
        0 <= place <= count <= listed.len(),
    ensures
        gathered_of(index, listed.take(count), max_total).ids.filter(
            |other: CodeChunkId| listed.take(place).contains(other),
        ) == gathered_of(index, listed.take(place), max_total).ids,
        gathered_of(index, listed.take(count), max_total).bytes >= gathered_of(
            index,
            listed.take(place),
            max_total,
        ).bytes,
        forall|i: int|
            0 <= i < place ==> settled(
                index,
                gathered_of(index, listed.take(count), max_total),
                #[trigger] listed[i],
                max_total,
            ) || !index.contains_key(listed[i].0),
    decreases count,
{
    let head = listed.take(place);
    let p = |other: CodeChunkId| head.contains(other);
    let base = gathered_of(index, head, max_total);
    if count == place {
        lemma_gathered_members(index, head, max_total);
        assert forall|i: int| 0 <= i < base.ids.len() implies p(#[trigger] base.ids[i]) by {
            assert(head.contains(base.ids[i]));
        }
        lemma_filter_members(base.ids, p);
        if place > 0 {
            let shorter = listed.take(place - 1);
            assert(head.drop_last() =~= shorter);
            assert(head.last() == listed[place - 1]);
            lemma_gathered_prefix(index, listed, place - 1, place - 1, max_total);
            let before = gathered_of(index, shorter, max_total);
            assert forall|i: int| 0 <= i < place implies settled(
                index,
                base,
                #[trigger] listed[i],
                max_total,
            ) || !index.contains_key(listed[i].0) by {
                lemma_step_settles(index, before, listed[place - 1], listed[i], max_total);
            }
        }
    } else {
        lemma_gathered_prefix(index, listed, place, count - 1, max_total);
        let shorter = listed.take(count - 1);
        let before = gathered_of(index, shorter, max_total);
        let after = gathered_of(index, listed.take(count), max_total);
        let last = listed[count - 1];
        assert(listed.take(count).drop_last() =~= shorter);
        assert(listed.take(count).last() == last);
        reveal(Seq::filter);
        if after.ids != before.ids {
            assert(after.ids.drop_last() =~= before.ids);
            assert(after.ids.last() == last);
            if head.contains(last) {
                let k = choose|k: int| 0 <= k < head.len() && head[k] == last;
                assert(listed[k] == last);
            }
        }
        assert forall|i: int| 0 <= i < place implies settled(
            index,
            after,
            #[trigger] listed[i],
            max_total,
        ) || !index.contains_key(listed[i].0) by {
            lemma_step_settles(index, before, last, listed[i], max_total);
        }
    }
}

proof fn lemma_step_settles(
    index: Map<usize, IndexedModel>,
    before: Expansion,
    step: CodeChunkId,
    id: CodeChunkId,
    max_total: usize,
)
    ensures
        settled(index, before, id, max_total) ==> settled(
            index,
            added(index, before, step, None, max_total),
            id,
            max_total,
        ),
        index.contains_key(step.0) ==> settled(
            index,
            added(index, before, step, None, max_total),
            step,
            max_total,
        ),
{
    let after = added(index, before, step, None, max_total);
    if before.ids.contains(id) {
        let k = choose|k: int| 0 <= k < before.ids.len() && before.ids[k] == id;
        assert(after.ids[k] == id);
    }
    if before.ids.contains(step) {
        let k = choose|k: int| 0 <= k < before.ids.len() && before.ids[k] == step;
        assert(after.ids[k] == step);
    } else if after.ids.len() > before.ids.len() {
        assert(after.ids[before.ids.len() as int] == step);
    }
}

/// The total is spent in order: the given chunks are gone through one by one, and
/// of each first its parent, then the chunk before it, then itself, then the
/// chunk after it. A chunk is added, where it first comes up, exactly if it fits
/// beside those of the chunks that came up before it and were added. What is
/// added comes in that order.
pub proof fn law_spent_in_order(
    index: Map<usize, IndexedModel>,
    ids: Seq<CodeChunkId>,
    settings: TopologyExpansionRuntimeSettings,
    place: int,
)
    requires
        0 <= place < all_surroundings(index, ids, settings).len(),
        ({
            let listed = all_surroundings(index, ids, settings);
            !listed.take(place).contains(listed[place])
        }),
    ensures
        ({
            let listed = all_surroundings(index, ids, settings);
            let id = listed[place];
            let result = expansion(index, ids, settings).ids;
            let earlier = result.filter(
                |other: CodeChunkId| listed.take(place).contains(other),
            );
            &&& result.contains(id) <==> total_bytes(index, earlier) + text::byte_len(
                index[id.0].text,
            ) <= settings.max_total_expanded_bytes
            &&& earlier.is_prefix_of(result)
            &&& result.contains(id) ==> earlier.push(id).is_prefix_of(result)
        }),
{
    let listed = all_surroundings(index, ids, settings);
    let max_total = settings.max_total_expanded_bytes;
    let id = listed[place];
    lemma_expansion_gathered(index, ids, settings);
    lemma_surroundings_filed(index, ids, settings);
    assert(index.contains_key(id.0));
    let head = listed.take(place);
    let next = listed.take(place + 1);
    assert(next.drop_last() =~= head);
    assert(next.last() == id);
    let before = gathered_of(index, head, max_total);
    let after = gathered_of(index, next, max_total);
    let result = gathered_of(index, listed, max_total).ids;
    lemma_gathered_members(index, head, max_total);
    lemma_gathered_prefix(index, listed, place, listed.len() as int, max_total);
    lemma_gathered_prefix(index, listed, place + 1, listed.len() as int, max_total);
    assert(listed.take(listed.len() as int) =~= listed);
    lemma_gathered_grows(index, listed, place, max_total);
    lemma_gathered_grows(index, listed, place + 1, max_total);
    if before.ids.contains(id) {
        let k = choose|k: int| 0 <= k < before.ids.len() && before.ids[k] == id;
        assert(head.contains(before.ids[k]));
    }
    let q = |other: CodeChunkId| next.contains(other);
    assert(next[place] == id);
    if result.contains(id) {
        let k = choose|k: int| 0 <= k < result.len() && result[k] == id;
        result.lemma_filter_contains(q, k);
        assert(after.ids.contains(id));
        let m = choose|m: int| 0 <= m < after.ids.len() && after.ids[m] == id;
        if m < before.ids.len() {
            assert(before.ids[m] == id);
        }
        assert(after.ids == before.ids.push(id));
    } else {
        if after.ids.len() > before.ids.len() {
            assert(after.ids[before.ids.len() as int] == id);
            assert(result[before.ids.len() as int] == id);
        }
    }
}

proof fn lemma_gathered_grows(
    index: Map<usize, IndexedModel>,
    listed: Seq<CodeChunkId>,
    place: int,
    max_total: usize,
)
    requires
        0 <= place <= listed.len(),
    ensures
        gathered_of(index, listed.take(place), max_total).ids.is_prefix_of(
            gathered_of(index, listed, max_total).ids,
        ),
    decreases listed.len() - place,
{
    let head = gathered_of(index, listed.take(place), max_total).ids;
    let all = gathered_of(index, listed, max_total).ids;
    if place == listed.len() {
        assert(listed.take(place) =~= listed);
        assert(head =~= all.subrange(0, head.len() as int));
    } else {
        lemma_gathered_grows(index, listed, place + 1, max_total);
        let next = listed.take(place + 1);
        assert(next.drop_last() =~= listed.take(place));
        let middle = gathered_of(index, next, max_total).ids;
        assert(head =~= all.subrange(0, head.len() as int)) by {
            assert forall|i: int| 0 <= i < head.len() implies head[i] == all[i] by {
                assert(head[i] == middle[i]);
                assert(middle[i] == all.subrange(0, middle.len() as int)[i]);
            }
        }
    }
}

proof fn lemma_surroundings_filed(
    index: Map<usize, IndexedModel>,
    ids: Seq<CodeChunkId>,
    settings: TopologyExpansionRuntimeSettings,
)
    ensures
        forall|i: int|
            0 <= i < all_surroundings(index, ids, settings).len() ==> index.contains_key(
                (#[trigger] all_surroundings(index, ids, settings)[i]).0,
            ),
    decreases ids.len(),
{
    if ids.len() > 0 {
        let rest = ids.drop_last();
        lemma_surroundings_filed(index, rest, settings);
        let before = all_surroundings(index, rest, settings);
        let all = all_surroundings(index, ids, settings);
        let own = surroundings(index, ids.last(), settings);
        assert forall|i: int| 0 <= i < all.len() implies index.contains_key(
            (#[trigger] all[i]).0,
        ) by {
            if i < before.len() {
                assert(all[i] == before[i]);
            } else {
                assert(all[i] == own[i - before.len()]);
            }
        }
    }
}

} // verus!
