//! Ranking chunks by scores, and the ranks that chunks have in several lists.

use crate::index::{CodeChunkId, IndexedCodeChunk, IndexedModel};
use crate::score;
use crate::score::Score;
use crate::tokens;
use std::collections::HashMap;
use vstd::hash_set::StringHashSet;
use vstd::prelude::*;
use vstd::relations::*;

verus! {

/// A chunk with a score.
#[derive(Clone, Copy, Debug, Eq, PartialEq, Structural)]
pub struct ScoredChunk {
    pub chunk_id: CodeChunkId,
    pub score: Score,
}

/// The key by which scored chunks are ordered: a greater score comes first;
/// of equal scores, the lesser identifier.
pub open spec fn rank_key(chunk: ScoredChunk) -> (int, int) {
    (-score::total_place(chunk.score), chunk.chunk_id.0 as int)
}

/// Whether one scored chunk may come before another.
pub open spec fn comes_before(left: ScoredChunk, right: ScoredChunk) -> bool {
    let a = rank_key(left);
    let b = rank_key(right);
    a.0 < b.0 || (a.0 == b.0 && a.1 <= b.1)
}

/// The order of scored chunks.
pub open spec fn rank_order() -> spec_fn(ScoredChunk, ScoredChunk) -> bool {
    |left: ScoredChunk, right: ScoredChunk| comes_before(left, right)
}

/// Scored chunks in the order of their ranks.
pub open spec fn ranked(chunks: Seq<ScoredChunk>) -> Seq<ScoredChunk> {
    chunks.sort_by(rank_order())
}

/// The key of a scored chunk.
fn sort_key(chunk: &ScoredChunk) -> (key: (i64, usize))
    ensures
        key.0 == rank_key(*chunk).0,
        key.1 == rank_key(*chunk).1,
{
    (-chunk.score.place(), chunk.chunk_id.0)
}

/// `sort_by_key` of slices in the standard library, with the key that
/// [`sort_key`] computes: afterwards the vector holds the same elements, each
/// as often as before, in ascending order of their keys. Pairs of integers are
/// ordered by their first parts, and by their second parts where those are
/// equal.
#[verifier::external_body]
fn sort_by_rank(chunks: &mut Vec<ScoredChunk>)
    ensures
        final(chunks)@.to_multiset() == old(chunks)@.to_multiset(),
        sorted_by(final(chunks)@, rank_order()),
{
    chunks.sort_by_key(|chunk| sort_key(chunk));
}

proof fn lemma_rank_order()
    ensures
        total_ordering(rank_order()),
{
    assert forall|x: ScoredChunk, y: ScoredChunk|
        #[trigger] (rank_order())(x, y) && #[trigger] (rank_order())(y, x) implies x == y by {
        score::law_total_order(x.score, y.score);
    }
}

/// Puts scored chunks in the order of their ranks.
fn rank(chunks: Vec<ScoredChunk>) -> (result: Vec<ScoredChunk>)
    ensures
        result@ == ranked(chunks@),
{
    let mut result = chunks;
    sort_by_rank(&mut result);
    proof {
        lemma_rank_order();
        chunks@.lemma_sort_by_ensures(rank_order());
        vstd::seq_lib::lemma_sorted_unique(result@, ranked(chunks@), rank_order());
    }
    result
}

/// Ranks chunks by the similarity of their embeddings to that of the query.
pub fn rank_by_vector_similarity(similarities: Vec<ScoredChunk>) -> (ranking: Vec<ScoredChunk>)
    ensures
        ranking@ == ranked(similarities@),
{
    rank(similarities)
}

// ---------------------------------------------------------------------------
// Lexical overlap
// ---------------------------------------------------------------------------

/// How many of `terms` are among `wanted`.
pub open spec fn overlap(terms: Seq<Seq<char>>, wanted: Seq<Seq<char>>) -> nat
    decreases terms.len(),
{
    if terms.len() == 0 {
        0
    } else {
        overlap(terms.drop_last(), wanted) + if wanted.contains(terms.last()) {
            1nat
        } else {
            0nat
        }
    }
}

/// The chunks that share words with the query, each with the number of its
/// words that are words of the query.
pub open spec fn overlapping(query: Seq<char>, chunks: Seq<IndexedModel>) -> Seq<ScoredChunk>
    decreases chunks.len(),
{
    if chunks.len() == 0 {
        Seq::empty()
    } else {
        let before = overlapping(query, chunks.drop_last());
        let count = overlap(chunks.last().terms, tokens::words(query));
        if count > 0 {
            before.push(
                ScoredChunk {
                    chunk_id: CodeChunkId(chunks.last().id as usize),
                    score: Score { bits: score::count_bits(count) as u32 },
                },
            )
        } else {
            before
        }
    }
}

/// Chunks behind references, as mathematical values.
pub open spec fn referenced(chunks: Seq<&IndexedCodeChunk>) -> Seq<IndexedModel> {
    Seq::new(chunks.len(), |i: int| chunks[i]@)
}

fn count_overlap(terms: &Vec<String>, wanted: &StringHashSet, Ghost(words): Ghost<
    Seq<Seq<char>>,
>) -> (count: usize)
    requires
        forall|word: Seq<char>| #[trigger] wanted@.contains(word) <==> words.contains(word),
    ensures
        count == overlap(tokens::texts(terms@), words),
{
    let ghost listed = tokens::texts(terms@);
    let mut count: usize = 0;
    for index in 0..terms.len()
        invariant
            forall|word: Seq<char>| #[trigger] wanted@.contains(word) <==> words.contains(word),
            listed == tokens::texts(terms@),
            count == overlap(listed.take(index as int), words),
            count <= index,
    {
        proof {
            assert(listed.take(index + 1).drop_last() =~= listed.take(index as int));
            assert(listed.take(index + 1).last() == terms@[index as int]@);
        }
        if wanted.contains(terms[index].as_str()) {
            count += 1;
        }
    }
    assert(listed.take(listed.len() as int) =~= listed);
    count
}

/// Ranks the chunks that share words with the query by how many of their words
/// are words of the query.
pub fn rank_by_lexical_overlap(query: &str, candidates: &Vec<&IndexedCodeChunk>) -> (ranking: Vec<
    ScoredChunk,
>)
    ensures
        ranking@ == ranked(overlapping(query@, referenced(candidates@))),
{
    let query_terms = tokens::tokenize_for_search(query);
    let ghost words = tokens::words(query@);
    let mut wanted = StringHashSet::new();
    for term in iter: query_terms.into_iter()
        invariant
            words == tokens::texts(iter.seq()),
            forall|word: Seq<char>| #[trigger]
                wanted@.contains(word) <==> words.take(iter.index()).contains(word),
    {
        let ghost count = iter.index();
        let ghost before = wanted@;
        wanted.insert(term);
        proof {
            let taken = words.take(count + 1);
            assert(taken =~= words.take(count).push(term@));
            assert forall|word: Seq<char>| #[trigger] wanted@.contains(word) <==> taken.contains(
                word,
            ) by {
                assert(taken[count] == term@);
                assert(before.contains(word) <==> words.take(count).contains(word));
                if words.take(count).contains(word) {
                    let k = choose|k: int|
                        0 <= k < words.take(count).len() && words.take(count)[k] == word;
                    assert(taken[k] == word);
                }
                if taken.contains(word) && word != term@ {
                    let k = choose|k: int| 0 <= k < taken.len() && taken[k] == word;
                    assert(words.take(count)[k] == word);
                }
            }
        }
    }
    assert(words.take(words.len() as int) =~= words);
    let ghost models = referenced(candidates@);
    let mut scored: Vec<ScoredChunk> = Vec::new();
    for index in 0..candidates.len()
        invariant
            words == tokens::words(query@),
            models == referenced(candidates@),
            forall|word: Seq<char>| #[trigger] wanted@.contains(word) <==> words.contains(word),
            scored@ == overlapping(query@, models.take(index as int)),
    {
        let chunk = candidates[index];
        proof {
            assert(models.take(index + 1).drop_last() =~= models.take(index as int));
            assert(models.take(index + 1).last() == chunk@);
        }
        let count: usize = count_overlap(&chunk.lexical_terms, &wanted, Ghost(words));
        if count > 0 {
            scored.push(
                ScoredChunk { chunk_id: chunk.id, score: score::score_of_count(count) },
            );
        }
    }
    assert(models.take(models.len() as int) =~= models);
    rank(scored)
}

// ---------------------------------------------------------------------------
// Fusion of ranked lists
// ---------------------------------------------------------------------------

/// What is added to a rank, counted from one, before its reciprocal is taken:
/// the score of a chunk is the sum of the reciprocals over its ranks.
pub const RANK_CONSTANT: usize = 60;

/// A chunk with the ranks that it has in ranked lists, counted from zero, in
/// the order of the lists.
#[derive(Debug, Eq, PartialEq)]
pub struct ChunkRanks {
    pub chunk_id: CodeChunkId,
    pub ranks: Vec<usize>,
}

/// The first `count` chunks of a ranked list, each with its rank.
pub open spec fn list_entries(list: Seq<ScoredChunk>, count: nat) -> Seq<(CodeChunkId, usize)> {
    Seq::new(count, |i: int| (list[i].chunk_id, i as usize))
}

/// The chunks of the first `count` lists, each with its rank.
pub open spec fn entries(lists: Seq<Seq<ScoredChunk>>, count: nat) -> Seq<(CodeChunkId, usize)>
    decreases count,
{
    if count == 0 {
        Seq::empty()
    } else {
        entries(lists, (count - 1) as nat) + list_entries(lists[count - 1], lists[count - 1].len())
    }
}

/// Ranked lists as sequences.
pub open spec fn sequences(lists: Seq<Vec<ScoredChunk>>) -> Seq<Seq<ScoredChunk>> {
    Seq::new(lists.len(), |i: int| lists[i]@)
}

/// The ranks of a chunk among entries.
pub open spec fn ranks_of(entries: Seq<(CodeChunkId, usize)>, id: CodeChunkId) -> Seq<usize>
    decreases entries.len(),
{
    if entries.len() == 0 {
        Seq::empty()
    } else {
        let before = ranks_of(entries.drop_last(), id);
        if entries.last().0 == id {
            before.push(entries.last().1)
        } else {
            before
        }
    }
}

/// The chunks among entries, each once, in the order in which they first
/// occur.
pub open spec fn chunks_in(entries: Seq<(CodeChunkId, usize)>) -> Seq<CodeChunkId>
    decreases entries.len(),
{
    if entries.len() == 0 {
        Seq::empty()
    } else {
        let before = chunks_in(entries.drop_last());
        if before.contains(entries.last().0) {
            before
        } else {
            before.push(entries.last().0)
        }
    }
}

/// Whether `tally` lists the chunks among entries with their ranks.
pub open spec fn tallies(tally: Seq<ChunkRanks>, entries: Seq<(CodeChunkId, usize)>) -> bool {
    &&& tally.len() == chunks_in(entries).len()
    &&& forall|i: int|
        0 <= i < tally.len() ==> (#[trigger] tally[i]).chunk_id == chunks_in(entries)[i]
            && tally[i].ranks@ == ranks_of(entries, tally[i].chunk_id)
}

/// Whether a table leads from each chunk to its place.
spec fn locates(places: Map<usize, usize>, ids: Seq<CodeChunkId>) -> bool {
    &&& forall|id: usize| #[trigger]
        places.contains_key(id) ==> places[id] < ids.len() && ids[places[id] as int].0 == id
    &&& forall|i: int| 0 <= i < ids.len() ==> places.contains_key((#[trigger] ids[i]).0)
}

proof fn lemma_ranks_of_push(
    entries: Seq<(CodeChunkId, usize)>,
    entry: (CodeChunkId, usize),
    id: CodeChunkId,
)
    ensures
        ranks_of(entries.push(entry), id) == if entry.0 == id {
            ranks_of(entries, id).push(entry.1)
        } else {
            ranks_of(entries, id)
        },
{
    assert(entries.push(entry).drop_last() =~= entries);
}

pub proof fn lemma_chunks_in(entries: Seq<(CodeChunkId, usize)>)
    ensures
        chunks_in(entries).no_duplicates(),
        forall|id: CodeChunkId| #[trigger]
            chunks_in(entries).contains(id) <==> ranks_of(entries, id).len() > 0,
    decreases entries.len(),
{
    if entries.len() > 0 {
        let rest = entries.drop_last();
        lemma_chunks_in(rest);
        let before = chunks_in(rest);
        let after = chunks_in(entries);
        assert forall|id: CodeChunkId| #[trigger] after.contains(id) <==> ranks_of(
            entries,
            id,
        ).len() > 0 by {
            assert(before.contains(id) <==> ranks_of(rest, id).len() > 0);
            if after != before {
                assert(after[before.len() as int] == entries.last().0);
                if before.contains(id) {
                    let k = choose|k: int| 0 <= k < before.len() && before[k] == id;
                    assert(after[k] == id);
                }
                if after.contains(id) && id != entries.last().0 {
                    let k = choose|k: int| 0 <= k < after.len() && after[k] == id;
                    assert(before[k] == id);
                }
            }
        }
    }
}

/// Notes one more rank of a chunk.
fn note_rank(
    tally: &mut Vec<ChunkRanks>,
    places: &mut HashMap<usize, usize>,
    chunk_id: CodeChunkId,
    rank: usize,
    Ghost(seen): Ghost<Seq<(CodeChunkId, usize)>>,
)
    requires
        tallies(old(tally)@, seen),
        locates(old(places)@, chunks_in(seen)),
    ensures
        tallies(final(tally)@, seen.push((chunk_id, rank))),
        locates(final(places)@, chunks_in(seen.push((chunk_id, rank)))),
{
    let ghost entry = (chunk_id, rank);
    let ghost ids = chunks_in(seen);
    let ghost before = tally@;
    proof {
        assert(seen.push(entry).drop_last() =~= seen);
        lemma_chunks_in(seen);
        assert(CodeChunkId(chunk_id.0) == chunk_id);
        assert forall|id: CodeChunkId| true implies #[trigger] ranks_of(seen.push(entry), id)
            == if chunk_id == id {
            ranks_of(seen, id).push(rank)
        } else {
            ranks_of(seen, id)
        } by {
            lemma_ranks_of_push(seen, entry, id);
        }
    }
    match places.get(&chunk_id.0) {
        Some(found) => {
            let place: usize = *found;
            proof {
                assert(ids[place as int] == chunk_id);
                assert(ids.contains(chunk_id));
                assert(before[place as int].chunk_id == chunk_id);
            }
            tally[place].ranks.push(rank);
            proof {
                assert forall|i: int| 0 <= i < tally@.len() implies (
                #[trigger] tally@[i]).chunk_id == ids[i] && tally@[i].ranks@ == ranks_of(
                    seen.push(entry),
                    tally@[i].chunk_id,
                ) by {
                    assert(before[i].chunk_id == ids[i]);
                    if i != place {
                        assert(tally@[i] == before[i]);
                        assert(ids[i] != ids[place as int]);
                    }
                }
            }
        },
        None => {
            let place: usize = tally.len();
            let mut ranks: Vec<usize> = Vec::new();
            ranks.push(rank);
            proof {
                if ids.contains(chunk_id) {
                    let k = choose|k: int| 0 <= k < ids.len() && ids[k] == chunk_id;
                    assert(places@.contains_key(ids[k].0));
                }
                assert(ranks_of(seen, chunk_id) =~= Seq::empty());
                assert(ranks@ =~= ranks_of(seen.push(entry), chunk_id));
            }
            tally.push(ChunkRanks { chunk_id, ranks });
            places.insert(chunk_id.0, place);
            proof {
                let grown = chunks_in(seen.push(entry));
                assert(grown == ids.push(chunk_id));
                assert forall|i: int| 0 <= i < tally@.len() implies (
                #[trigger] tally@[i]).chunk_id == grown[i] && tally@[i].ranks@ == ranks_of(
                    seen.push(entry),
                    tally@[i].chunk_id,
                ) by {
                    if i < place {
                        assert(tally@[i] == before[i]);
                        assert(before[i].chunk_id == ids[i]);
                        assert(ids.contains(ids[i]));
                    }
                }
                assert forall|i: int| 0 <= i < grown.len() implies places@.contains_key(
                    (#[trigger] grown[i]).0,
                ) by {
                    if i < ids.len() {
                        assert(grown[i] == ids[i]);
                    }
                }
            }
        },
    }
}

/// The ranks of each chunk in ranked lists.
pub fn fusion_ranks(ranked_lists: &[Vec<ScoredChunk>]) -> (tally: Vec<ChunkRanks>)
    ensures
        tallies(tally@, entries(sequences(ranked_lists@), ranked_lists@.len())),
{
    let mut tally: Vec<ChunkRanks> = Vec::new();
    let mut places: HashMap<usize, usize> = HashMap::new();
    for number in 0..ranked_lists.len()
        invariant
            tallies(tally@, entries(sequences(ranked_lists@), number as nat)),
            locates(places@, chunks_in(entries(sequences(ranked_lists@), number as nat))),
    {
        let list = &ranked_lists[number];
        let ghost earlier = entries(sequences(ranked_lists@), number as nat);
        assert(earlier + list_entries(list@, 0) =~= earlier);
        for rank in 0..list.len()
            invariant
                tallies(tally@, earlier + list_entries(list@, rank as nat)),
                locates(places@, chunks_in(earlier + list_entries(list@, rank as nat))),
        {
            let chunk_id = list[rank].chunk_id;
            let ghost seen = earlier + list_entries(list@, rank as nat);
            assert(earlier + list_entries(list@, (rank + 1) as nat) =~= seen.push(
                (chunk_id, rank),
            ));
            note_rank(&mut tally, &mut places, chunk_id, rank, Ghost(seen));
        }
    }
    tally
}

/// The first `limit` elements.
pub open spec fn limited<A>(items: Seq<A>, limit: nat) -> Seq<A> {
    if items.len() <= limit {
        items
    } else {
        items.take(limit as int)
    }
}

/// The best of scored chunks, in the order of their ranks.
pub fn rank_fused(scored: Vec<ScoredChunk>, limit: usize) -> (best: Vec<ScoredChunk>)
    ensures
        best@ == limited(ranked(scored@), limit as nat),
{
    let mut best = rank(scored);
    best.truncate(limit);
    best
}

// ---------------------------------------------------------------------------
// Laws
// ---------------------------------------------------------------------------

/// Ranking keeps the chunks, each as often as it was there, puts none with a
/// lesser score before one with a greater score, and orders equal scores by
/// identifiers.
pub proof fn law_ranked(chunks: Seq<ScoredChunk>)
    ensures
        ranked(chunks).to_multiset() == chunks.to_multiset(),
        ranked(chunks).len() == chunks.len(),
        forall|i: int, j: int|
            0 <= i < j < ranked(chunks).len() ==> comes_before(
                #[trigger] ranked(chunks)[i],
                #[trigger] ranked(chunks)[j],
            ),
        forall|i: int, j: int|
            0 <= i < j < ranked(chunks).len() ==> {
                let upper = #[trigger] ranked(chunks)[i];
                let lower = #[trigger] ranked(chunks)[j];
                &&& !score::less(upper.score, lower.score)
                &&& upper.score == lower.score ==> upper.chunk_id.0 <= lower.chunk_id.0
            },
{
    lemma_rank_order();
    chunks.lemma_sort_by_ensures(rank_order());
    let result = ranked(chunks);
    assert(result.len() == chunks.len()) by {
        vstd::seq_lib::to_multiset_len(result);
        vstd::seq_lib::to_multiset_len(chunks);
    }
    assert forall|i: int, j: int| 0 <= i < j < result.len() implies comes_before(
        #[trigger] result[i],
        #[trigger] result[j],
    ) by {
        assert((rank_order())(result[i], result[j]));
    }
    assert forall|i: int, j: int| 0 <= i < j < result.len() implies {
        let upper = #[trigger] result[i];
        let lower = #[trigger] result[j];
        &&& !score::less(upper.score, lower.score)
        &&& upper.score == lower.score ==> upper.chunk_id.0 <= lower.chunk_id.0
    } by {
        assert(comes_before(result[i], result[j]));
        score::law_total_order(result[i].score, result[j].score);
    }
}

/// The chunk that ranking by words lists for an indexed chunk.
pub open spec fn overlap_entry(query: Seq<char>, chunk: IndexedModel) -> ScoredChunk {
    ScoredChunk {
        chunk_id: CodeChunkId(chunk.id as usize),
        score: Score {
            bits: score::count_bits(overlap(chunk.terms, tokens::words(query))) as u32,
        },
    }
}

/// Ranking by words lists exactly the chunks that share a word with the query,
/// each with the number of its words that are words of the query as its score.
pub proof fn law_overlapping(query: Seq<char>, chunks: Seq<IndexedModel>, scored: ScoredChunk)
    ensures
        overlapping(query, chunks).contains(scored) <==> exists|i: int|
            0 <= i < chunks.len() && overlap(
                (#[trigger] chunks[i]).terms,
                tokens::words(query),
            ) > 0 && scored == overlap_entry(query, chunks[i]),
    decreases chunks.len(),
{
    if chunks.len() > 0 {
        let rest = chunks.drop_last();
        let before = overlapping(query, rest);
        let after = overlapping(query, chunks);
        let words = tokens::words(query);
        law_overlapping(query, rest, scored);
        if after.contains(scored) {
            let k = choose|k: int| 0 <= k < after.len() && after[k] == scored;
            if k < before.len() {
                assert(before[k] == scored);
                let i = choose|i: int|
                    0 <= i < rest.len() && overlap((#[trigger] rest[i]).terms, words) > 0
                        && scored == overlap_entry(query, rest[i]);
                assert(chunks[i] == rest[i]);
            } else {
                assert(chunks[chunks.len() - 1] == chunks.last());
            }
        }
        if exists|i: int|
            0 <= i < chunks.len() && overlap((#[trigger] chunks[i]).terms, words) > 0 && scored
                == overlap_entry(query, chunks[i]) {
            let i = choose|i: int|
                0 <= i < chunks.len() && overlap((#[trigger] chunks[i]).terms, words) > 0
                    && scored == overlap_entry(query, chunks[i]);
            if i < rest.len() {
                assert(rest[i] == chunks[i]);
                let k = choose|k: int| 0 <= k < before.len() && before[k] == scored;
                assert(after[k] == scored);
            } else {
                assert(after[before.len() as int] == scored);
            }
        }
    }
}

/// Fusion lists each chunk of the ranked lists exactly once, and no other
/// chunk.
pub proof fn law_fusion(lists: Seq<Seq<ScoredChunk>>, count: nat)
    requires
        count <= lists.len(),
    ensures
        chunks_in(entries(lists, count)).no_duplicates(),
        forall|id: CodeChunkId| #[trigger]
            chunks_in(entries(lists, count)).contains(id) <==> exists|l: int, r: int|
                0 <= l < count && 0 <= r < lists[l].len() && (#[trigger] lists[l][r]).chunk_id
                    == id,
{
    let all = entries(lists, count);
    lemma_chunks_in(all);
    assert forall|id: CodeChunkId| #[trigger] chunks_in(all).contains(id) <==> exists|
        l: int,
        r: int,
    |
        0 <= l < count && 0 <= r < lists[l].len() && (#[trigger] lists[l][r]).chunk_id
            == id by {
        lemma_entries(lists, count, id);
    }
}

proof fn lemma_entries(lists: Seq<Seq<ScoredChunk>>, count: nat, id: CodeChunkId)
    requires
        count <= lists.len(),
    ensures
        ranks_of(entries(lists, count), id).len() > 0 <==> exists|l: int, r: int|
            0 <= l < count && 0 <= r < lists[l].len() && (#[trigger] lists[l][r]).chunk_id == id,
    decreases count,
{
    if count > 0 {
        let fewer = (count - 1) as nat;
        let list = lists[fewer as int];
        lemma_entries(lists, fewer, id);
        lemma_list_entries(entries(lists, fewer), list, list.len(), id);
        if ranks_of(entries(lists, count), id).len() > 0 {
            if ranks_of(entries(lists, fewer), id).len() > 0 {
                let (l, r) = choose|l: int, r: int|
                    0 <= l < fewer && 0 <= r < lists[l].len() && (
                    #[trigger] lists[l][r]).chunk_id == id;
                assert(lists[l][r].chunk_id == id);
            } else {
                let r = choose|r: int| 0 <= r < list.len() && (#[trigger] list[r]).chunk_id == id;
                assert(lists[fewer as int][r].chunk_id == id);
            }
        }
        if exists|l: int, r: int|
            0 <= l < count && 0 <= r < lists[l].len() && (#[trigger] lists[l][r]).chunk_id
                == id {
            let (l, r) = choose|l: int, r: int|
                0 <= l < count && 0 <= r < lists[l].len() && (#[trigger] lists[l][r]).chunk_id
                    == id;
            if l == fewer {
                assert(list[r].chunk_id == id);
            } else {
                assert(lists[l][r].chunk_id == id);
            }
        }
    }
}

proof fn lemma_list_entries(
    earlier: Seq<(CodeChunkId, usize)>,
    list: Seq<ScoredChunk>,
    count: nat,
    id: CodeChunkId,
)
    requires
        count <= list.len(),
    ensures
        ranks_of(earlier + list_entries(list, count), id).len() > 0 <==> ranks_of(
            earlier,
            id,
        ).len() > 0 || exists|r: int| 0 <= r < count && (#[trigger] list[r]).chunk_id == id,
    decreases count,
{
    if count == 0 {
        assert(earlier + list_entries(list, count) =~= earlier);
    } else {
        let fewer = (count - 1) as nat;
        lemma_list_entries(earlier, list, fewer, id);
        let entry = (list[fewer as int].chunk_id, fewer as usize);
        assert(earlier + list_entries(list, count) =~= (earlier + list_entries(list, fewer)).push(
            entry,
        ));
        lemma_ranks_of_push(earlier + list_entries(list, fewer), entry, id);
        if list[fewer as int].chunk_id == id {
            assert(exists|r: int| 0 <= r < count && (#[trigger] list[r]).chunk_id == id);
        }
    }
}

/// Whether one scored chunk ranks above another: its score is greater, or the
/// scores are the same and its identifier is less.
pub open spec fn precedes(left: ScoredChunk, right: ScoredChunk) -> bool {
    ||| score::total_place(left.score) > score::total_place(right.score)
    ||| left.score == right.score && left.chunk_id.0 < right.chunk_id.0
}

/// The scored chunks that rank above the given one.
pub open spec fn above(chunk: ScoredChunk) -> spec_fn(ScoredChunk) -> bool {
    |other: ScoredChunk| precedes(other, chunk)
}

/// How many of scored chunks rank above the given one.
pub open spec fn rank_among(chunks: Seq<ScoredChunk>, chunk: ScoredChunk) -> nat {
    chunks.filter(above(chunk)).len()
}

proof fn lemma_count_of_permutation(
    a: Seq<ScoredChunk>,
    b: Seq<ScoredChunk>,
    p: spec_fn(ScoredChunk) -> bool,
)
    requires
        a.to_multiset() == b.to_multiset(),
    ensures
        a.filter(p).len() == b.filter(p).len(),
    decreases a.len(),
{
    a.to_multiset_ensures();
    b.to_multiset_ensures();
    reveal(Seq::filter);
    if a.len() == 0 {
        assert(b.len() == 0);
    } else {
        let x = a.last();
        let rest = a.drop_last();
        assert(rest.push(x) =~= a);
        assert(a.contains(a[a.len() - 1]));
        assert(a.to_multiset().count(x) > 0);
        assert(b.contains(x));
        let i = choose|i: int| 0 <= i < b.len() && b[i] == x;
        let fewer = b.remove(i);
        assert(a.remove(a.len() - 1) =~= rest);
        assert(rest.to_multiset() == fewer.to_multiset());
        lemma_count_of_permutation(rest, fewer, p);
        let head = b.take(i);
        let tail = b.skip(i + 1);
        assert(b =~= head + seq![x] + tail);
        assert(fewer =~= head + tail);
        Seq::filter_distributes_over_add(head + seq![x], tail, p);
        Seq::filter_distributes_over_add(head, seq![x], p);
        Seq::filter_distributes_over_add(head, tail, p);
        assert(seq![x].drop_last() =~= Seq::empty());
        assert(seq![x].filter(p).len() == if p(x) {
            1nat
        } else {
            0nat
        }) by {
            reveal_with_fuel(Seq::filter, 2);
        }
    }
}

proof fn lemma_filter_all(chunks: Seq<ScoredChunk>, p: spec_fn(ScoredChunk) -> bool)
    requires
        forall|i: int| 0 <= i < chunks.len() ==> p(#[trigger] chunks[i]),
    ensures
        chunks.filter(p).len() == chunks.len(),
    decreases chunks.len(),
{
    reveal(Seq::filter);
    if chunks.len() > 0 {
        let rest = chunks.drop_last();
        assert forall|i: int| 0 <= i < rest.len() implies p(#[trigger] rest[i]) by {
            assert(rest[i] == chunks[i]);
        }
        lemma_filter_all(rest, p);
        assert(p(chunks[chunks.len() - 1]));
    }
}

proof fn lemma_filter_none(chunks: Seq<ScoredChunk>, p: spec_fn(ScoredChunk) -> bool)
    requires
        forall|i: int| 0 <= i < chunks.len() ==> !p(#[trigger] chunks[i]),
    ensures
        chunks.filter(p).len() == 0,
    decreases chunks.len(),
{
    reveal(Seq::filter);
    if chunks.len() > 0 {
        let rest = chunks.drop_last();
        assert forall|i: int| 0 <= i < rest.len() implies !p(#[trigger] rest[i]) by {
            assert(rest[i] == chunks[i]);
        }
        lemma_filter_none(rest, p);
        assert(!p(chunks[chunks.len() - 1]));
    }
}

/// The place of a chunk in a ranking, that is the first of its places, is the
/// number of chunks that rank above it.
pub proof fn law_rank(chunks: Seq<ScoredChunk>, place: int)
    requires
        0 <= place < ranked(chunks).len(),
        forall|i: int| 0 <= i < place ==> #[trigger] ranked(chunks)[i] != ranked(chunks)[place],
    ensures
        place == rank_among(chunks, ranked(chunks)[place]),
{
    law_ranked(chunks);
    let list = ranked(chunks);
    let chunk = list[place];
    let p = above(chunk);
    lemma_count_of_permutation(list, chunks, p);
    let head = list.take(place);
    let tail = list.skip(place);
    assert(list =~= head + tail);
    Seq::filter_distributes_over_add(head, tail, p);
    assert forall|i: int| 0 <= i < head.len() implies p(#[trigger] head[i]) by {
        assert(head[i] == list[i]);
        assert(comes_before(list[i], chunk));
        score::law_total_order(list[i].score, chunk.score);
        assert(CodeChunkId(list[i].chunk_id.0) == list[i].chunk_id);
        assert(CodeChunkId(chunk.chunk_id.0) == chunk.chunk_id);
    }
    assert forall|i: int| 0 <= i < tail.len() implies !p(#[trigger] tail[i]) by {
        assert(tail[i] == list[place + i]);
        if i > 0 {
            assert(comes_before(chunk, list[place + i]));
        }
    }
    lemma_filter_all(head, p);
    lemma_filter_none(tail, p);
}

/// The number of words of a chunk that are words of the query.
pub open spec fn shared_words(query: Seq<char>, terms: Seq<Seq<char>>) -> nat {
    terms.filter(|term: Seq<char>| tokens::words(query).contains(term)).len()
}

/// The overlap of a chunk with a query is the number of its words that are
/// words of the query, each as often as it occurs.
pub proof fn law_overlap(query: Seq<char>, terms: Seq<Seq<char>>)
    ensures
        overlap(terms, tokens::words(query)) == shared_words(query, terms),
        shared_words(query, terms) > 0 <==> exists|i: int|
            0 <= i < terms.len() && tokens::words(query).contains(#[trigger] terms[i]),
    decreases terms.len(),
{
    let p = |term: Seq<char>| tokens::words(query).contains(term);
    reveal(Seq::filter);
    if terms.len() > 0 {
        law_overlap(query, terms.drop_last());
        assert(terms.last() == terms[terms.len() - 1]);
        assert forall|i: int| 0 <= i < terms.len() - 1 implies terms[i]
            == #[trigger] terms.drop_last()[i] by {}
        if exists|i: int|
            0 <= i < terms.len() && tokens::words(query).contains(#[trigger] terms[i]) {
            let i = choose|i: int|
                0 <= i < terms.len() && tokens::words(query).contains(#[trigger] terms[i]);
            if i < terms.len() - 1 {
                assert(terms.drop_last()[i] == terms[i]);
            }
        }
    }
}

/// How many entries there are for a chunk among the first `count` of a list.
spec fn entries_for(list: Seq<ScoredChunk>, id: CodeChunkId) -> nat {
    list.filter(|entry: ScoredChunk| entry.chunk_id == id).len()
}

proof fn lemma_ranks_in_list(
    earlier: Seq<(CodeChunkId, usize)>,
    list: Seq<ScoredChunk>,
    count: nat,
    id: CodeChunkId,
)
    requires
        count <= list.len() <= usize::MAX,
    ensures
        ({
            let before = ranks_of(earlier, id);
            let after = ranks_of(earlier + list_entries(list, count), id);
            &&& after.len() == before.len() + entries_for(list.take(count as int), id)
            &&& forall|i: int| 0 <= i < before.len() ==> after[i] == before[i]
            &&& forall|i: int|
                before.len() <= i < after.len() ==> #[trigger] after[i] < count
                    && list[after[i] as int].chunk_id == id
        }),
    decreases count,
{
    let p = |entry: ScoredChunk| entry.chunk_id == id;
    reveal(Seq::filter);
    if count == 0 {
        assert(earlier + list_entries(list, count) =~= earlier);
        assert(list.take(0) =~= Seq::empty());
    } else {
        let fewer = (count - 1) as nat;
        lemma_ranks_in_list(earlier, list, fewer, id);
        let entry = (list[fewer as int].chunk_id, fewer as usize);
        assert(earlier + list_entries(list, count) =~= (earlier + list_entries(list, fewer)).push(
            entry,
        ));
        lemma_ranks_of_push(earlier + list_entries(list, fewer), entry, id);
        assert(list.take(count as int).drop_last() =~= list.take(fewer as int));
        assert(list.take(count as int).last() == list[fewer as int]);
    }
}

/// The ranks that a chunk has in two rankings: those in the first, then those
/// in the second. Each is the number of entries that rank above the chunk's
/// entry there; where a ranking has one entry for the chunk, it gives one rank.
pub proof fn law_ranks_of_two(
    first: Seq<ScoredChunk>,
    second: Seq<ScoredChunk>,
    a: Option<ScoredChunk>,
    b: Option<ScoredChunk>,
    id: CodeChunkId,
)
    requires
        first.len() <= usize::MAX,
        second.len() <= usize::MAX,
        sole_entry(first, a, id),
        sole_entry(second, b, id),
    ensures
        ranks_of(entries(seq![ranked(first), ranked(second)], 2), id).map_values(
            |rank: usize| rank as nat,
        ) == (match a {
            Some(entry) => seq![rank_among(first, entry)],
            None => Seq::empty(),
        }) + (match b {
            Some(entry) => seq![rank_among(second, entry)],
            None => Seq::empty(),
        }),
{
    let lists = seq![ranked(first), ranked(second)];
    let one = entries(lists, 1);
    let none = entries(lists, 0);
    reveal_with_fuel(entries, 3);
    let list_a = ranked(first);
    let list_b = ranked(second);
    law_ranked(first);
    law_ranked(second);
    lemma_ranks_in_list(none, list_a, list_a.len(), id);
    assert(none =~= Seq::empty());
    assert(one == none + list_entries(list_a, list_a.len()));
    lemma_ranks_in_list(one, list_b, list_b.len(), id);
    assert(list_a.take(list_a.len() as int) =~= list_a);
    assert(list_b.take(list_b.len() as int) =~= list_b);
    let p = |entry: ScoredChunk| entry.chunk_id == id;
    lemma_count_of_permutation(list_a, first, p);
    lemma_count_of_permutation(list_b, second, p);
    let ranks = ranks_of(entries(lists, 2), id);
    let before = ranks_of(one, id);
    if let Some(entry) = a {
        lemma_sole_place(first, entry, id, before[0] as int);
        assert(ranks[0] == before[0]);
    }
    if let Some(entry) = b {
        lemma_sole_place(second, entry, id, ranks[before.len() as int] as int);
    }
    assert(ranks.map_values(|rank: usize| rank as nat) =~= (match a {
        Some(entry) => seq![rank_among(first, entry)],
        None => Seq::empty(),
    }) + (match b {
        Some(entry) => seq![rank_among(second, entry)],
        None => Seq::empty(),
    }));
}

/// Whether a list has the given entry for a chunk and no other, or none where
/// none is given.
pub open spec fn sole_entry(
    list: Seq<ScoredChunk>,
    entry: Option<ScoredChunk>,
    id: CodeChunkId,
) -> bool {
    match entry {
        Some(entry) => {
            &&& entry.chunk_id == id
            &&& list.filter(|other: ScoredChunk| other.chunk_id == id) == seq![entry]
        },
        None => list.filter(|other: ScoredChunk| other.chunk_id == id).len() == 0,
    }
}

proof fn lemma_sole_place(
    chunks: Seq<ScoredChunk>,
    entry: ScoredChunk,
    id: CodeChunkId,
    place: int,
)
    requires
        sole_entry(chunks, Some(entry), id),
        0 <= place < ranked(chunks).len(),
        ranked(chunks)[place].chunk_id == id,
    ensures
        place == rank_among(chunks, entry),
{
    let p = |other: ScoredChunk| other.chunk_id == id;
    let list = ranked(chunks);
    law_ranked(chunks);
    lemma_count_of_permutation(list, chunks, p);
    let chunk = list[place];
    assert(list.contains(chunk));
    list.to_multiset_ensures();
    chunks.to_multiset_ensures();
    assert(list.to_multiset().count(chunk) > 0);
    assert(chunks.contains(chunk));
    let k = choose|k: int| 0 <= k < chunks.len() && chunks[k] == chunk;
    chunks.lemma_filter_contains(p, k);
    assert(chunk == entry);
    assert forall|i: int| 0 <= i < place implies #[trigger] list[i] != list[place] by {
        if list[i] == list[place] {
            let head = list.take(i + 1);
            let tail = list.skip(i + 1);
            assert(list =~= head + tail);
            Seq::filter_distributes_over_add(head, tail, p);
            head.lemma_filter_contains(p, i);
            assert(tail[place - i - 1] == chunk);
            tail.lemma_filter_contains(p, place - i - 1);
            assert(head.filter(p).len() >= 1);
            assert(tail.filter(p).len() >= 1);
            assert(list.filter(p).len() >= 2);
        }
    }
    law_rank(chunks, place);
}

pub proof fn lemma_overlap_bound(terms: Seq<Seq<char>>, wanted: Seq<Seq<char>>)
    ensures
        overlap(terms, wanted) <= terms.len(),
    decreases terms.len(),
{
    if terms.len() > 0 {
        lemma_overlap_bound(terms.drop_last(), wanted);
    }
}

} // verus!
