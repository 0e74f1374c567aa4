//! The index of a project: its chunks by their identifiers.

use crate::decimal;
use crate::index;
use crate::index::{CodeChunkId, IndexedCodeChunk, IndexedModel};
use crate::tokens;
use std::collections::BTreeMap;
use vstd::prelude::*;
use vstd::std_specs::cmp::OrdSpec;
use vstd::std_specs::iter::IteratorSpec;
use vstd::string::*;

verus! {

broadcast use vstd::laws_cmp::group_laws_cmp;

/// The chunks of a project, each under its identifier.
#[derive(Debug)]
pub struct CodeSearchIndex {
    chunks: BTreeMap<usize, IndexedCodeChunk>,
}

impl View for CodeSearchIndex {
    type V = Map<usize, IndexedModel>;

    closed spec fn view(&self) -> Map<usize, IndexedModel> {
        self.chunks@.map_values(|chunk: IndexedCodeChunk| chunk@)
    }
}

/// Whether `ids` lists the members of a set from the least to the greatest.
pub open spec fn ascending(ids: Seq<usize>, members: Set<usize>) -> bool {
    &&& forall|i: int, j: int| 0 <= i < j < ids.len() ==> ids[i] < ids[j]
    &&& forall|id: usize| #[trigger] ids.contains(id) <==> members.contains(id)
}

/// The members of a finite set from the least to the greatest.
pub open spec fn ids_of(members: Set<usize>) -> Seq<usize> {
    choose|ids: Seq<usize>| ascending(ids, members)
}

/// The map from identifiers to chunks that a list of chunks gives. Of two
/// chunks with one identifier the later stays.
pub open spec fn gathered(chunks: Seq<IndexedModel>) -> Map<usize, IndexedModel>
    decreases chunks.len(),
{
    if chunks.len() == 0 {
        Map::empty()
    } else {
        gathered(chunks.drop_last()).insert(chunks.last().id as usize, chunks.last())
    }
}

/// There is only one way to list a set from the least to the greatest.
pub proof fn lemma_ascending_unique(a: Seq<usize>, b: Seq<usize>, members: Set<usize>)
    requires
        ascending(a, members),
        ascending(b, members),
    ensures
        a == b,
    decreases a.len(),
{
    if a.len() == 0 {
        if b.len() > 0 {
            assert(b.contains(b[0]));
            assert(a.contains(b[0]));
        }
        assert(a =~= b);
    } else {
        assert(a.contains(a.last()));
        assert(b.contains(a.last()));
        assert(b.contains(b.last()));
        assert(a.contains(b.last()));
        let last = a.last();
        assert(b.last() == last);
        let rest = members.remove(last);
        lemma_ascending_drop_last(a, members);
        lemma_ascending_drop_last(b, members);
        lemma_ascending_unique(a.drop_last(), b.drop_last(), rest);
        assert(a =~= a.drop_last().push(last));
        assert(b =~= b.drop_last().push(last));
    }
}

proof fn lemma_ascending_drop_last(ids: Seq<usize>, members: Set<usize>)
    requires
        ascending(ids, members),
        ids.len() > 0,
    ensures
        ascending(ids.drop_last(), members.remove(ids.last())),
{
    let rest = ids.drop_last();
    assert forall|id: usize| #[trigger] rest.contains(id) <==> members.remove(
        ids.last(),
    ).contains(id) by {
        if rest.contains(id) {
            let k = choose|k: int| 0 <= k < rest.len() && rest[k] == id;
            assert(ids[k] == id);
            assert(ids.contains(id));
        }
        if members.contains(id) && id != ids.last() {
            assert(ids.contains(id));
            let k = choose|k: int| 0 <= k < ids.len() && ids[k] == id;
            assert(rest[k] == id);
        }
    }
}

impl CodeSearchIndex {
    /// Each chunk is found under its own identifier.
    #[verifier::type_invariant]
    spec fn filed(self) -> bool {
        forall|id: usize| #[trigger]
            self.chunks@.contains_key(id) ==> self.chunks@[id].id.0 == id
    }

    /// The index of a list of chunks.
    pub fn from_chunks(chunks: Vec<IndexedCodeChunk>) -> (index: Self)
        ensures
            index@ == gathered(index::index_models(chunks@)),
    {
        let ghost models = index::index_models(chunks@);
        let mut map: BTreeMap<usize, IndexedCodeChunk> = BTreeMap::new();
        assert(map@.map_values(|chunk: IndexedCodeChunk| chunk@) =~= gathered(models.take(0)));
        for chunk in iter: chunks.into_iter()
            invariant
                models == index::index_models(iter.seq()),
                map@.map_values(|chunk: IndexedCodeChunk| chunk@) =~= gathered(
                    models.take(iter.index()),
                ),
                forall|id: usize| #[trigger] map@.contains_key(id) ==> map@[id].id.0 == id,
        {
            let ghost before = map@;
            map.insert(chunk.id.0, chunk);
            proof {
                let count = iter.index();
                assert(models.take(count + 1).drop_last() =~= models.take(count));
                assert(models.take(count + 1).last() == chunk@);
                assert(map@.map_values(|chunk: IndexedCodeChunk| chunk@) =~= before.map_values(
                    |chunk: IndexedCodeChunk| chunk@,
                ).insert(chunk.id.0, chunk@));
            }
        }
        assert(models.take(models.len() as int) =~= models);
        CodeSearchIndex { chunks: map }
    }

    /// The chunk with the given identifier.
    pub fn chunk(&self, chunk_id: CodeChunkId) -> (chunk: Option<&IndexedCodeChunk>)
        ensures
            chunk is Some == self@.contains_key(chunk_id.0),
            chunk matches Some(found) ==> found@ == self@[chunk_id.0] && found.id == chunk_id,
    {
        proof {
            use_type_invariant(self);
        }
        self.chunks.get(&chunk_id.0)
    }

    /// The identifiers of all chunks, in ascending order.
    pub fn chunk_ids(&self) -> (ids: Vec<usize>)
        ensures
            ids@ == ids_of(self@.dom()),
            ascending(ids@, self@.dom()),
    {
        let mut ids: Vec<usize> = Vec::new();
        let entries = self.chunks.keys();
        let ghost listed = entries.remaining();
        for id in iter: entries
            invariant
                iter.seq() == listed,
                ids@.len() == iter.index(),
                forall|i: int| 0 <= i < ids@.len() ==> ids@[i] == *#[trigger] listed[i],
        {
            ids.push(*id);
        }
        proof {
            assert(listed.unref() =~= ids@);
            assert forall|id: usize| #[trigger] ids@.contains(id) <==> self@.dom().contains(id) by {
                assert(ids@.to_set().contains(id) <==> self.chunks@.dom().contains(id));
            }
            assert forall|i: int, j: int| 0 <= i < j < ids@.len() implies ids@[i] < ids@[j] by {
                assert(vstd::std_specs::btree::increasing_seq(listed));
                assert(vstd::laws_cmp::obeys_cmp::<&usize>());
                assert(OrdSpec::cmp_spec(&listed[i], &listed[j]) is Less);
                assert(*listed[i] < *listed[j]);
            }
            assert(ascending(ids@, self@.dom()));
            lemma_ascending_unique(ids@, ids_of(self@.dom()), self@.dom());
        }
        ids
    }

    /// All chunks, in ascending order of their identifiers.
    pub fn chunks(&self) -> (listed: Vec<&IndexedCodeChunk>)
        ensures
            ascending(ids_of(self@.dom()), self@.dom()),
            listed@.len() == ids_of(self@.dom()).len(),
            forall|i: int|
                0 <= i < listed@.len() ==> (#[trigger] listed@[i])@ == self@[ids_of(
                    self@.dom(),
                )[i]] && listed@[i].id.0 == ids_of(self@.dom())[i],
    {
        let ids = self.chunk_ids();
        let mut listed: Vec<&IndexedCodeChunk> = Vec::new();
        for index in 0..ids.len()
            invariant
                ids@ == ids_of(self@.dom()),
                ascending(ids@, self@.dom()),
                listed@.len() == index,
                forall|i: int|
                    0 <= i < listed@.len() ==> (#[trigger] listed@[i])@ == self@[ids@[i]]
                        && listed@[i].id.0 == ids@[i],
        {
            assert(ids@.contains(ids@[index as int]));
            if let Some(chunk) = self.chunk(CodeChunkId(ids[index])) {
                listed.push(chunk);
            }
        }
        listed
    }
}

/// The texts of an index's chunks, in ascending order of identifiers.
pub open spec fn texts_of(index: Map<usize, IndexedModel>) -> Seq<Seq<char>> {
    let ids = ids_of(index.dom());
    Seq::new(ids.len(), |i: int| index[ids[i]].text)
}

/// The texts to be embedded: those of all chunks, in ascending order of
/// identifiers.
pub fn embedding_texts(index: &CodeSearchIndex) -> (texts: Vec<String>)
    ensures
        tokens::texts(texts@) == texts_of(index@),
{
    let listed = index.chunks();
    let mut texts: Vec<String> = Vec::new();
    for position in 0..listed.len()
        invariant
            listed@.len() == ids_of(index@.dom()).len(),
            forall|i: int|
                0 <= i < listed@.len() ==> (#[trigger] listed@[i])@ == index@[ids_of(
                    index@.dom(),
                )[i]],
            texts@.len() == position,
            forall|i: int|
                0 <= i < position ==> (#[trigger] texts@[i])@ == index@[ids_of(
                    index@.dom(),
                )[i]].text,
    {
        let text = listed[position].text.clone();
        assert(listed@[position as int]@.text == text@);
        texts.push(text);
    }
    assert(tokens::texts(texts@) =~= texts_of(index@));
    texts
}

/// What is reported where a provider returns the wrong number of embeddings.
pub open spec fn embedding_count_message(returned: nat, expected: nat) -> Seq<char> {
    "embedding provider returned "@ + decimal::decimal(returned) + " embeddings for "@
        + decimal::decimal(expected) + " indexed chunks"@
}

/// Whether `after` is `before` with the embeddings in their places: the chunk
/// with the least identifier has the first of them, and so on.
pub open spec fn embedded(
    before: Map<usize, IndexedModel>,
    after: Map<usize, IndexedModel>,
    embeddings: Seq<Vec<u32>>,
) -> bool {
    let ids = ids_of(before.dom());
    &&& after.dom() == before.dom()
    &&& forall|i: int|
        0 <= i < ids.len() ==> after[#[trigger] ids[i]] == (IndexedModel {
            embedding: embeddings[i]@,
            ..before[ids[i]]
        })
}

/// Gives each chunk of an index its embedding. The embeddings come in
/// ascending order of the chunks' identifiers, one for each chunk.
pub fn embed_code_search_index(index: CodeSearchIndex, embeddings: Vec<Vec<u32>>) -> (result: Result<
    CodeSearchIndex,
    String,
>)
    ensures
        result is Ok == (embeddings@.len() == ids_of(index@.dom()).len()),
        result matches Ok(after) ==> embedded(index@, after@, embeddings@),
        result matches Err(message) ==> message@ == embedding_count_message(
            embeddings@.len(),
            ids_of(index@.dom()).len(),
        ),
{
    let ids = index.chunk_ids();
    if embeddings.len() != ids.len() {
        let mut message: String = "embedding provider returned ".to_string();
        decimal::push_decimal(&mut message, embeddings.len() as u128);
        message.append(" embeddings for ");
        decimal::push_decimal(&mut message, ids.len() as u128);
        message.append(" indexed chunks");
        return Err(message);
    }
    proof {
        use_type_invariant(&index);
    }
    let ghost before = index@;
    let mut map = index.chunks;
    let ghost stored = map@;
    let count: usize = ids.len();
    let mut position: usize = 0;
    proof {
        assert forall|i: int| 0 <= i < ids@.len() implies stored.contains_key(
            #[trigger] ids@[i],
        ) by {
            assert(ids@.contains(ids@[i]));
        }
    }
    for embedding in iter: embeddings.into_iter()
        invariant
            position == iter.index(),
            count == ids@.len(),
            ids@.len() == iter.seq().len(),
            iter.seq() == embeddings@,
            forall|i: int, j: int| 0 <= i < j < ids@.len() ==> ids@[i] < ids@[j],
            forall|i: int| 0 <= i < ids@.len() ==> stored.contains_key(#[trigger] ids@[i]),
            map@.dom() == stored.dom(),
            forall|id: usize| #[trigger] map@.contains_key(id) ==> map@[id].id.0 == id,
            forall|i: int|
                0 <= i < iter.index() ==> map@[#[trigger] ids@[i]]@ == (IndexedModel {
                    embedding: embeddings@[i]@,
                    ..stored[ids@[i]]@
                }),
            forall|i: int| iter.index() <= i < ids@.len() ==> map@[#[trigger] ids@[i]] == stored[ids@[i]],
    {
        let id: usize = ids[position];
        let ghost earlier = map@;
        if let Some(mut chunk) = map.remove(&id) {
            chunk.embedding = embedding;
            map.insert(id, chunk);
        }
        proof {
            assert(map@.dom() =~= earlier.dom());
            assert(map@[id]@ =~= (IndexedModel { embedding: embedding@, ..stored[id]@ }));
            assert forall|other: usize| other != id && earlier.contains_key(other) implies map@[other]
                == #[trigger] earlier[other] by {}
            assert forall|i: int| 0 <= i < ids@.len() && i != position implies map@[
                #[trigger] ids@[i]
            ] == earlier[ids@[i]] by {
                if i < position {
                    assert(ids@[i] < ids@[position as int]);
                } else {
                    assert(ids@[position as int] < ids@[i]);
                }
            }
        }
        position += 1;
    }
    proof {
        let after = map@.map_values(|chunk: IndexedCodeChunk| chunk@);
        assert(after.dom() =~= before.dom());
        assert(embedded(before, after, embeddings@));
    }
    Ok(CodeSearchIndex { chunks: map })
}

/// An index files each chunk under its own identifier, holds exactly the
/// identifiers of the chunks that it was made from, and, of chunks that share
/// no identifier, holds every one.
pub proof fn law_gathered(chunks: Seq<IndexedModel>)
    requires
        forall|i: int| 0 <= i < chunks.len() ==> 0 <= (#[trigger] chunks[i]).id <= usize::MAX,
    ensures
        forall|id: usize| #[trigger]
            gathered(chunks).contains_key(id) ==> gathered(chunks)[id].id == id && chunks.contains(
                gathered(chunks)[id],
            ),
        forall|i: int|
            0 <= i < chunks.len() ==> gathered(chunks).contains_key(
                (#[trigger] chunks[i]).id as usize,
            ),
        (forall|i: int, j: int|
            0 <= i < j < chunks.len() ==> (#[trigger] chunks[i]).id != (
            #[trigger] chunks[j]).id) ==> forall|i: int|
            0 <= i < chunks.len() ==> gathered(chunks)[(#[trigger] chunks[i]).id as usize]
                == chunks[i],
    decreases chunks.len(),
{
    if chunks.len() > 0 {
        let rest = chunks.drop_last();
        assert forall|i: int| 0 <= i < rest.len() implies 0 <= (#[trigger] rest[i]).id
            <= usize::MAX by {
            assert(rest[i] == chunks[i]);
        }
        law_gathered(rest);
        assert forall|id: usize| #[trigger]
            gathered(chunks).contains_key(id) implies gathered(chunks)[id].id == id
            && chunks.contains(gathered(chunks)[id]) by {
            if id == chunks.last().id as usize {
                assert(chunks[chunks.len() - 1] == chunks.last());
            } else {
                assert(gathered(rest).contains_key(id));
                let k = choose|k: int| 0 <= k < rest.len() && rest[k] == gathered(rest)[id];
                assert(chunks[k] == gathered(rest)[id]);
            }
        }
        assert forall|i: int| 0 <= i < chunks.len() implies gathered(chunks).contains_key(
            (#[trigger] chunks[i]).id as usize,
        ) by {
            if i < chunks.len() - 1 {
                assert(rest[i] == chunks[i]);
            }
        }
        if forall|i: int, j: int|
            0 <= i < j < chunks.len() ==> (#[trigger] chunks[i]).id != (#[trigger] chunks[j]).id {
            assert forall|i: int, j: int| 0 <= i < j < rest.len() implies (#[trigger] rest[i]).id
                != (#[trigger] rest[j]).id by {
                assert(rest[i] == chunks[i] && rest[j] == chunks[j]);
            }
            assert forall|i: int| 0 <= i < chunks.len() implies gathered(chunks)[(
            #[trigger] chunks[i]).id as usize] == chunks[i] by {
                if i < chunks.len() - 1 {
                    assert(rest[i] == chunks[i]);
                    assert(chunks[i].id != chunks[chunks.len() - 1].id);
                }
            }
        }
    }
}

proof fn lemma_ascending_insert(ids: Seq<usize>, members: Set<usize>, id: usize)
    requires
        ascending(ids, members),
        !members.contains(id),
    ensures
        exists|grown: Seq<usize>| ascending(grown, members.insert(id)),
    decreases ids.len(),
{
    let all = members.insert(id);
    if ids.len() == 0 || ids.last() < id {
        let grown = ids.push(id);
        assert forall|other: usize| #[trigger] grown.contains(other) <==> all.contains(other) by {
            assert(grown[ids.len() as int] == id);
            if ids.contains(other) {
                let k = choose|k: int| 0 <= k < ids.len() && ids[k] == other;
                assert(grown[k] == other);
            }
            if grown.contains(other) && other != id {
                let k = choose|k: int| 0 <= k < grown.len() && grown[k] == other;
                assert(ids[k] == other);
            }
        }
        assert forall|i: int, j: int| 0 <= i < j < grown.len() implies grown[i] < grown[j] by {
            if j == ids.len() && i < ids.len() - 1 {
                assert(ids[i] < ids[ids.len() - 1]);
            }
        }
        assert(ascending(grown, all));
    } else {
        let last = ids.last();
        let rest = members.remove(last);
        assert(ids.contains(ids[ids.len() - 1]));
        lemma_ascending_drop_last(ids, members);
        lemma_ascending_insert(ids.drop_last(), rest, id);
        let before = choose|grown: Seq<usize>| ascending(grown, rest.insert(id));
        let grown = before.push(last);
        assert forall|other: usize| #[trigger] grown.contains(other) <==> all.contains(other) by {
            assert(grown[before.len() as int] == last);
            assert(before.contains(other) <==> rest.insert(id).contains(other));
            if before.contains(other) {
                let k = choose|k: int| 0 <= k < before.len() && before[k] == other;
                assert(grown[k] == other);
            }
            if grown.contains(other) && other != last {
                let k = choose|k: int| 0 <= k < grown.len() && grown[k] == other;
                assert(before[k] == other);
            }
        }
        assert forall|i: int, j: int| 0 <= i < j < grown.len() implies grown[i] < grown[j] by {
            if j == before.len() {
                assert(before.contains(before[i]));
                assert(rest.insert(id).contains(before[i]));
                if before[i] != id {
                    assert(ids.contains(before[i]));
                    let k = choose|k: int| 0 <= k < ids.len() && ids[k] == before[i];
                    assert(ids[k] < ids[ids.len() - 1]);
                }
            }
        }
        assert(ascending(grown, all));
    }
}

proof fn lemma_ascending_exists(members: Set<usize>)
    requires
        members.finite(),
    ensures
        exists|ids: Seq<usize>| ascending(ids, members),
    decreases members.len(),
{
    if members.len() == 0 {
        let none = Seq::<usize>::empty();
        assert forall|id: usize| #[trigger] none.contains(id) <==> members.contains(id) by {
            assert(members =~= Set::empty());
        }
        assert(ascending(none, members));
    } else {
        let id = members.choose();
        let rest = members.remove(id);
        lemma_ascending_exists(rest);
        let ids = choose|ids: Seq<usize>| ascending(ids, rest);
        lemma_ascending_insert(ids, rest, id);
        assert(rest.insert(id) =~= members);
    }
}

/// The identifiers of an index are listed from the least to the greatest, each
/// once, and none but these.
pub proof fn law_ids_of(members: Set<usize>)
    requires
        members.finite(),
    ensures
        ids_of(members).len() == members.len(),
        forall|i: int, j: int|
            0 <= i < j < ids_of(members).len() ==> ids_of(members)[i] < ids_of(members)[j],
        forall|id: usize| #[trigger] members.contains(id) <==> ids_of(members).contains(id),
{
    lemma_ascending_exists(members);
    let ids = ids_of(members);
    assert(ascending(ids, members));
    assert(ids.no_duplicates());
    ids.unique_seq_to_set();
    assert(ids.to_set() =~= members) by {
        assert forall|id: usize| #[trigger] ids.to_set().contains(id) <==> members.contains(id) by {
            assert(ids.contains(id) <==> members.contains(id));
        }
    }
}

/// Of chunks that share an identifier the last stays.
pub proof fn law_last_chunk_stays(chunks: Seq<IndexedModel>, i: int)
    requires
        0 <= i < chunks.len(),
        forall|j: int|
            i < j < chunks.len() ==> (#[trigger] chunks[j]).id as usize != chunks[i].id as usize,
    ensures
        gathered(chunks).contains_key(chunks[i].id as usize),
        gathered(chunks)[chunks[i].id as usize] == chunks[i],
    decreases chunks.len(),
{
    let rest = chunks.drop_last();
    if i < rest.len() {
        assert(rest[i] == chunks[i]);
        assert forall|j: int| i < j < rest.len() implies (#[trigger] rest[j]).id as usize
            != rest[i].id as usize by {
            assert(rest[j] == chunks[j]);
        }
        law_last_chunk_stays(rest, i);
        assert(chunks[chunks.len() - 1].id as usize != chunks[i].id as usize);
    }
}

/// Each chunk gets the embedding of its own text: that at the place at which
/// its text stands among the texts to be embedded. Nothing else of it changes,
/// and no chunk comes or goes.
pub proof fn law_embedded(
    before: Map<usize, IndexedModel>,
    after: Map<usize, IndexedModel>,
    embeddings: Seq<Vec<u32>>,
    id: usize,
)
    requires
        before.dom().finite(),
        embedded(before, after, embeddings),
    ensures
        texts_of(before).len() == before.dom().len(),
        after.contains_key(id) <==> before.contains_key(id),
        before.contains_key(id) ==> exists|i: int|
            0 <= i < texts_of(before).len() && #[trigger] texts_of(before)[i] == before[id].text
                && after[id] == (IndexedModel { embedding: embeddings[i]@, ..before[id] }) && i
                == Set::new(|other: usize| before.contains_key(other) && other < id).len(),
{
    law_ids_of(before.dom());
    let ids = ids_of(before.dom());
    assert(after.dom().contains(id) <==> before.dom().contains(id));
    if before.contains_key(id) {
        assert(before.dom().contains(id));
        assert(ids.contains(id));
        let i = choose|i: int| 0 <= i < ids.len() && ids[i] == id;
        assert(texts_of(before)[i] == before[id].text);
        let less = Set::new(|other: usize| before.contains_key(other) && other < id);
        let head = ids.take(i);
        assert(head.no_duplicates());
        head.unique_seq_to_set();
        assert(head.to_set() =~= less) by {
            assert forall|other: usize| #[trigger]
                head.to_set().contains(other) <==> less.contains(other) by {
                if head.contains(other) {
                    let k = choose|k: int| 0 <= k < head.len() && head[k] == other;
                    assert(ids[k] == other);
                    assert(ids.contains(other));
                    assert(before.dom().contains(other));
                }
                if less.contains(other) {
                    assert(before.dom().contains(other));
                    assert(ids.contains(other));
                    let k = choose|k: int| 0 <= k < ids.len() && ids[k] == other;
                    if k >= i {
                        if k > i {
                            assert(ids[i] < ids[k]);
                        }
                    }
                    assert(head[k] == other);
                }
            }
        }
    }
}

} // verus!
