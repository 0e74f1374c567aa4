//! One search: the candidates that are reranked, the matches, and the second
//! pass with a hypothetical description of the code.

use crate::decimal;
use crate::index::{CodeChunkId, IndexedCodeChunk, IndexedModel};
use crate::provider::RerankResult;
use crate::ranking;
use crate::ranking::{ChunkRanks, ScoredChunk};
use crate::score;
use crate::score::Score;
use crate::settings::{
    HyDEMode, LanguageModelSelection, SemanticSearchHyDESettings, SemanticSearchRuntimeSettings,
};
use crate::store;
use crate::store::CodeSearchIndex;
use crate::text;
use crate::tokens;
use vstd::prelude::*;
use vstd::string::*;

verus! {

/// What the matches of a first pass are marked with.
pub const FIRST_PASS_SOURCE: &'static str = "reranked";

/// What the matches of a second pass are marked with.
pub const SECOND_PASS_SOURCE: &'static str = "hyde_fallback";

/// One of the two passes that answer a query: the first with the query itself,
/// the second with a hypothetical description of what is sought.
#[derive(Clone, Copy, Debug, Eq, PartialEq, Structural)]
pub enum SearchPass {
    First,
    Second,
}

/// What the matches of a pass are marked with.
pub open spec fn pass_source(pass: SearchPass) -> &'static str {
    match pass {
        SearchPass::First => FIRST_PASS_SOURCE,
        SearchPass::Second => SECOND_PASS_SOURCE,
    }
}

impl SearchPass {
    /// What the matches of the pass are marked with.
    pub fn source(self) -> (source: &'static str)
        ensures
            source == pass_source(self),
            self is First ==> source@ == "reranked"@,
            self is Second ==> source@ == "hyde_fallback"@,
    {
        match self {
            SearchPass::First => FIRST_PASS_SOURCE,
            SearchPass::Second => SECOND_PASS_SOURCE,
        }
    }
}

/// A chunk that answers a query.
#[derive(Clone, Copy, Debug, PartialEq)]
pub struct SemanticSearchMatch {
    pub chunk_id: CodeChunkId,
    pub rerank_score: Score,
    pub source: &'static str,
}

/// The answer to a query.
#[derive(Debug, PartialEq)]
pub struct SemanticSearchResult {
    pub matches: Vec<SemanticSearchMatch>,
    pub used_hyde: bool,
}

// ---------------------------------------------------------------------------
// Candidates
// ---------------------------------------------------------------------------

/// All chunks of an index, in ascending order of their identifiers.
pub open spec fn listed(index: Map<usize, IndexedModel>) -> Seq<IndexedModel> {
    let ids = store::ids_of(index.dom());
    Seq::new(ids.len(), |i: int| index[ids[i]])
}

/// The two lists that a query gives: one by the similarity of embeddings, one
/// by words.
pub open spec fn query_lists(
    index: Map<usize, IndexedModel>,
    query: Seq<char>,
    similarities: Seq<ScoredChunk>,
) -> Seq<Seq<ScoredChunk>> {
    seq![
        ranking::ranked(similarities),
        ranking::ranked(ranking::overlapping(query, listed(index))),
    ]
}

/// The ranks of chunks in the two lists that a query gives.
pub fn query_ranks(index: &CodeSearchIndex, query: &str, similarities: Vec<ScoredChunk>) -> (ranks:
    Vec<ChunkRanks>)
    ensures
        ranking::tallies(
            ranks@,
            ranking::entries(query_lists(index@, query@, similarities@), 2),
        ),
{
    let dense = ranking::rank_by_vector_similarity(similarities);
    let chunks: Vec<&IndexedCodeChunk> = index.chunks();
    assert(ranking::referenced(chunks@) =~= listed(index@));
    let lexical = ranking::rank_by_lexical_overlap(query, &chunks);
    let ghost wanted = query_lists(index@, query@, similarities@);
    let mut lists: Vec<Vec<ScoredChunk>> = Vec::new();
    lists.push(dense);
    lists.push(lexical);
    assert(ranking::sequences(lists@) =~= wanted);
    ranking::fusion_ranks(lists.as_slice())
}

/// Those of scored chunks that are in the index.
pub open spec fn present(index: Map<usize, IndexedModel>, chunks: Seq<ScoredChunk>) -> Seq<
    ScoredChunk,
>
    decreases chunks.len(),
{
    if chunks.len() == 0 {
        Seq::empty()
    } else {
        let before = present(index, chunks.drop_last());
        if index.contains_key(chunks.last().chunk_id.0) {
            before.push(chunks.last())
        } else {
            before
        }
    }
}

/// The best of scored chunks: as many as may be candidates.
pub open spec fn best_fused(
    scored: Seq<ScoredChunk>,
    settings: SemanticSearchRuntimeSettings,
) -> Seq<ScoredChunk> {
    ranking::limited(ranking::ranked(scored), settings.candidate_limit as nat)
}

/// The chunks that are reranked: the best ones, as far as they are in the
/// index.
pub open spec fn rerank_candidates(
    index: Map<usize, IndexedModel>,
    scored: Seq<ScoredChunk>,
    settings: SemanticSearchRuntimeSettings,
) -> Seq<ScoredChunk> {
    present(
        index,
        ranking::limited(best_fused(scored, settings), settings.rerank_limit as nat),
    )
}

/// The texts of chunks.
pub open spec fn documents_of(index: Map<usize, IndexedModel>, chunks: Seq<ScoredChunk>) -> Seq<
    Seq<char>,
> {
    Seq::new(chunks.len(), |i: int| index[chunks[i].chunk_id.0].text)
}

/// What is to be reranked.
#[derive(Debug)]
pub struct RerankPlan {
    pub candidates: Vec<ScoredChunk>,
    pub documents: Vec<String>,
    pub top_n: usize,
}

/// What follows after candidates are found: the end, or reranking.
#[derive(Debug)]
pub enum PassStep {
    Finished(SemanticSearchResult),
    Rerank(RerankPlan),
}

/// Chooses what is reranked of chunks with fused scores. Where there is
/// nothing, the pass ends without matches.
pub fn plan_rerank(
    index: &CodeSearchIndex,
    scored: Vec<ScoredChunk>,
    settings: &SemanticSearchRuntimeSettings,
    pass: SearchPass,
) -> (step: PassStep)
    ensures
        ({
            let candidates = rerank_candidates(index@, scored@, *settings);
            if candidates.len() == 0 {
                step matches PassStep::Finished(result) && result.matches@.len() == 0
                    && result.used_hyde == (pass is Second)
            } else {
                step matches PassStep::Rerank(plan) && plan.candidates@ == candidates
                    && tokens::texts(plan.documents@) == documents_of(index@, candidates)
                    && plan.top_n == settings.max_results
            }
        }),
{
    let fused = ranking::rank_fused(scored, settings.candidate_limit);
    let ghost best = ranking::limited(fused@, settings.rerank_limit as nat);
    let count: usize = if fused.len() <= settings.rerank_limit {
        fused.len()
    } else {
        settings.rerank_limit
    };
    let mut candidates: Vec<ScoredChunk> = Vec::new();
    let mut documents: Vec<String> = Vec::new();
    assert(best =~= fused@.take(count as int));
    assert(tokens::texts(documents@) =~= documents_of(index@, candidates@));
    for position in 0..count
        invariant
            count <= fused@.len(),
            best == fused@.take(count as int),
            candidates@ == present(index@, best.take(position as int)),
            tokens::texts(documents@) == documents_of(index@, candidates@),
    {
        let candidate = fused[position];
        let ghost earlier = documents@;
        let ghost before = candidates@;
        proof {
            assert(best.take(position + 1).drop_last() =~= best.take(position as int));
            assert(best.take(position + 1).last() == candidate);
        }
        if let Some(chunk) = index.chunk(candidate.chunk_id) {
            documents.push(chunk.text.clone());
            candidates.push(candidate);
            proof {
                assert(tokens::texts(earlier).len() == before.len());
                assert(tokens::texts(documents@) =~= tokens::texts(earlier).push(
                    index@[candidate.chunk_id.0].text,
                ));
                assert(documents_of(index@, candidates@) =~= documents_of(index@, before).push(
                    index@[candidate.chunk_id.0].text,
                ));
            }
        }
    }
    assert(best.take(count as int) =~= best);
    if candidates.len() == 0 {
        PassStep::Finished(
            SemanticSearchResult {
                matches: Vec::new(),
                used_hyde: pass == SearchPass::Second,
            },
        )
    } else {
        PassStep::Rerank(RerankPlan { candidates, documents, top_n: settings.max_results })
    }
}

// ---------------------------------------------------------------------------
// Matches
// ---------------------------------------------------------------------------

/// The first result that names no candidate, of those from `from` on.
pub open spec fn first_stray(results: Seq<RerankResult>, candidates: nat, from: int) -> Option<int>
    decreases results.len() - from,
{
    if from >= results.len() {
        None
    } else if results[from].document_index >= candidates {
        Some(from)
    } else {
        first_stray(results, candidates, from + 1)
    }
}

/// What is reported of a result that names no candidate.
pub open spec fn stray_message(index: nat, candidates: nat) -> Seq<char> {
    "reranker returned document index "@ + decimal::decimal(index) + " but only "@
        + decimal::decimal(candidates) + " rerank candidates were provided"@
}

/// The match that a result stands for.
pub open spec fn match_of(
    candidates: Seq<ScoredChunk>,
    result: RerankResult,
    pass: SearchPass,
) -> SemanticSearchMatch {
    SemanticSearchMatch {
        chunk_id: candidates[result.document_index as int].chunk_id,
        rerank_score: result.score,
        source: pass_source(pass),
    }
}

/// The matches that results stand for.
pub open spec fn matches_of(
    candidates: Seq<ScoredChunk>,
    results: Seq<RerankResult>,
    pass: SearchPass,
) -> Seq<SemanticSearchMatch> {
    Seq::new(results.len(), |i: int| match_of(candidates, results[i], pass))
}

fn stray_index_error(index: usize, candidates: usize) -> (message: String)
    ensures
        message@ == stray_message(index as nat, candidates as nat),
{
    let mut message: String = "reranker returned document index ".to_string();
    decimal::push_decimal(&mut message, index as u128);
    message.append(" but only ");
    decimal::push_decimal(&mut message, candidates as u128);
    message.append(" rerank candidates were provided");
    message
}

/// The matches of a pass: the results of the reranker, in its order, no more
/// than are wanted. A result among these that names no candidate is an error.
pub fn run_semantic_search_pass(
    candidates: &Vec<ScoredChunk>,
    reranked: &Vec<RerankResult>,
    settings: &SemanticSearchRuntimeSettings,
    pass: SearchPass,
) -> (outcome: Result<SemanticSearchResult, String>)
    ensures
        ({
            let taken = ranking::limited(reranked@, settings.max_results as nat);
            match first_stray(taken, candidates@.len(), 0) {
                Some(stray) => outcome matches Err(message) && message@ == stray_message(
                    taken[stray].document_index as nat,
                    candidates@.len(),
                ),
                None => outcome matches Ok(result) && result.matches@ == matches_of(
                    candidates@,
                    taken,
                    pass,
                ) && result.used_hyde == (pass is Second),
            }
        }),
{
    let ghost taken = ranking::limited(reranked@, settings.max_results as nat);
    let count: usize = if reranked.len() <= settings.max_results {
        reranked.len()
    } else {
        settings.max_results
    };
    let mut matches: Vec<SemanticSearchMatch> = Vec::new();
    assert(taken =~= reranked@.take(count as int));
    for position in 0..count
        invariant
            count <= reranked@.len(),
            taken == ranking::limited(reranked@, settings.max_results as nat),
            taken == reranked@.take(count as int),
            first_stray(taken, candidates@.len(), 0) == first_stray(
                taken,
                candidates@.len(),
                position as int,
            ),
            matches@ == matches_of(candidates@, taken, pass).take(position as int),
    {
        let result = reranked[position];
        assert(taken[position as int] == result);
        if result.document_index >= candidates.len() {
            return Err(stray_index_error(result.document_index, candidates.len()));
        }
        let ghost all = matches_of(candidates@, taken, pass);
        assert(all.take(position + 1) =~= all.take(position as int).push(all[position as int]));
        matches.push(
            SemanticSearchMatch {
                chunk_id: candidates[result.document_index].chunk_id,
                rerank_score: result.score,
                source: pass.source(),
            },
        );
    }
    proof {
        let all = matches_of(candidates@, taken, pass);
        assert(all.take(count as int) =~= all);
    }
    Ok(
        SemanticSearchResult {
            matches,
            used_hyde: pass == SearchPass::Second,
        },
    )
}

// ---------------------------------------------------------------------------
// The second pass
// ---------------------------------------------------------------------------

/// The score of the first match.
pub open spec fn top_score(result: SemanticSearchResult) -> Option<Score> {
    if result.matches@.len() > 0 {
        Some(result.matches@[0].rerank_score)
    } else {
        None
    }
}

/// The score of the first match, zero where there is none.
pub open spec fn top_or_zero(result: SemanticSearchResult) -> Score {
    match top_score(result) {
        Some(score) => score,
        None => score::zero(),
    }
}

/// Whether a best score calls for a second pass: there is none, or it is below
/// the threshold.
pub open spec fn is_low(best: Option<Score>, threshold: Score) -> bool {
    match best {
        Some(best) => score::less(best, threshold),
        None => true,
    }
}

/// Whether a first pass is followed by a second one.
pub open spec fn second_pass_due(
    settings: SemanticSearchRuntimeSettings,
    first_pass: SemanticSearchResult,
) -> bool {
    settings.hyde_mode == HyDEMode::Fallback && is_low(
        top_score(first_pass),
        settings.hyde_threshold,
    )
}

/// Whether a best score calls for a second pass.
pub fn should_run_hyde_fallback(best_score: Option<Score>, threshold: Score) -> (due: bool)
    ensures
        due == is_low(best_score, threshold),
{
    match best_score {
        Some(best_score) => best_score.is_less_than(threshold),
        None => true,
    }
}

/// The score of the first match.
pub fn best_score(result: &SemanticSearchResult) -> (best: Option<Score>)
    ensures
        best == top_score(*result),
{
    if result.matches.len() > 0 {
        Some(result.matches[0].rerank_score)
    } else {
        None
    }
}

/// Whether a first pass is followed by a second one.
pub fn needs_hyde_pass(
    settings: &SemanticSearchRuntimeSettings,
    first_pass: &SemanticSearchResult,
) -> (due: bool)
    ensures
        due == second_pass_due(*settings, *first_pass),
{
    settings.hyde_mode == HyDEMode::Fallback && should_run_hyde_fallback(
        best_score(first_pass),
        settings.hyde_threshold,
    )
}

/// The answer after a second pass: its matches, if it was due, brought a
/// result, and its best score is greater than that of the first pass; else
/// the first pass as it is.
pub fn run_semantic_search_hyde_fallback(
    settings: &SemanticSearchRuntimeSettings,
    first_pass: SemanticSearchResult,
    hyde_pass: Option<SemanticSearchResult>,
) -> (result: SemanticSearchResult)
    ensures
        if second_pass_due(*settings, first_pass) && hyde_pass is Some && score::less(
            top_or_zero(first_pass),
            top_or_zero(hyde_pass->0),
        ) {
            result.matches == hyde_pass->0.matches && result.used_hyde
        } else {
            result == first_pass
        },
{
    if needs_hyde_pass(settings, &first_pass) {
        if let Some(hyde_pass) = hyde_pass {
            let first: Score = best_score(&first_pass).unwrap_or(Score::zero());
            let second: Score = best_score(&hyde_pass).unwrap_or(Score::zero());
            if first.is_less_than(second) {
                return SemanticSearchResult { matches: hyde_pass.matches, used_hyde: true };
            }
        }
    }
    first_pass
}

// ---------------------------------------------------------------------------
// The hypothetical description
// ---------------------------------------------------------------------------

/// What a language model is asked for a hypothetical description.
pub fn build_hyde_prompt(query: &str) -> (prompt: String)
    ensures
        prompt@
            == "You are helping search a codebase. Rewrite the user's request as a concise hypothetical code description and list likely identifiers, method names, class names, and comments that may appear in relevant code. Do not answer the user's question. Return only search text.\n\nUser request:\n"@
            + query@,
{
    let mut prompt: String =
        "You are helping search a codebase. Rewrite the user's request as a concise hypothetical code description and list likely identifiers, method names, class names, and comments that may appear in relevant code. Do not answer the user's question. Return only search text.\n\nUser request:\n".to_string();
    prompt.append(query);
    prompt
}

/// The language model that writes hypothetical descriptions.
pub fn configured_hyde_model(hyde_settings: &SemanticSearchHyDESettings) -> (model: Result<
    &LanguageModelSelection,
    String,
>)
    ensures
        model is Ok == hyde_settings.model is Some,
        model matches Ok(selection) ==> hyde_settings.model == Some(*selection),
        model matches Err(message) ==> message@
            == "HyDE fallback requires `agent.semantic_search.hyde.model`."@,
{
    match &hyde_settings.model {
        Some(selection) => Ok(selection),
        None => Err("HyDE fallback requires `agent.semantic_search.hyde.model`.".to_string()),
    }
}

/// What is reported of a language model that cannot be had.
pub fn hyde_model_unavailable(selection: &LanguageModelSelection) -> (message: String)
    ensures
        message@
            == "Configured HyDE model `agent.semantic_search.hyde.model` is not available: provider `"@
            + selection.provider@ + "`, model `"@ + selection.model@ + "`"@,
{
    let mut message: String =
        "Configured HyDE model `agent.semantic_search.hyde.model` is not available: provider `".to_string();
    message.append(selection.provider.as_str());
    message.append("`, model `");
    message.append(selection.model.as_str());
    message.append("`");
    message
}

/// Pieces of text, joined.
pub open spec fn joined(pieces: Seq<Seq<char>>) -> Seq<char>
    decreases pieces.len(),
{
    if pieces.len() == 0 {
        Seq::empty()
    } else {
        joined(pieces.drop_last()) + pieces.last()
    }
}

/// The description that a language model wrote in pieces.
pub fn hyde_search_text(pieces: &Vec<String>) -> (description: String)
    ensures
        description@ == text::trim_of(joined(tokens::texts(pieces@))),
{
    let ghost all = tokens::texts(pieces@);
    let mut search_text: String = String::new();
    for index in 0..pieces.len()
        invariant
            all == tokens::texts(pieces@),
            search_text@ == joined(all.take(index as int)),
    {
        search_text.append(pieces[index].as_str());
        assert(all.take(index + 1).drop_last() =~= all.take(index as int));
    }
    assert(all.take(all.len() as int) =~= all);
    text::trim(search_text.as_str()).to_string()
}

// ---------------------------------------------------------------------------
// Laws
// ---------------------------------------------------------------------------

proof fn lemma_present(index: Map<usize, IndexedModel>, chunks: Seq<ScoredChunk>)
    ensures
        present(index, chunks).len() <= chunks.len(),
        forall|i: int|
            0 <= i < present(index, chunks).len() ==> index.contains_key(
                (#[trigger] present(index, chunks)[i]).chunk_id.0,
            ) && chunks.contains(present(index, chunks)[i]),
    decreases chunks.len(),
{
    if chunks.len() > 0 {
        let rest = chunks.drop_last();
        lemma_present(index, rest);
        let before = present(index, rest);
        let after = present(index, chunks);
        assert forall|i: int| 0 <= i < after.len() implies index.contains_key(
            (#[trigger] after[i]).chunk_id.0,
        ) && chunks.contains(after[i]) by {
            if i < before.len() {
                assert(after[i] == before[i]);
                let k = choose|k: int| 0 <= k < rest.len() && rest[k] == before[i];
                assert(chunks[k] == before[i]);
            } else {
                assert(chunks[chunks.len() - 1] == after[i]);
            }
        }
    }
}

/// Candidates are chunks of the index that have scores; there are no more of
/// them than may be candidates, or than may be reranked.
pub proof fn law_candidates(
    index: Map<usize, IndexedModel>,
    scored: Seq<ScoredChunk>,
    settings: SemanticSearchRuntimeSettings,
)
    ensures
        ({
            let candidates = rerank_candidates(index, scored, settings);
            &&& candidates.len() <= settings.rerank_limit
            &&& candidates.len() <= settings.candidate_limit
            &&& candidates.len() <= scored.len()
            &&& forall|i: int|
                0 <= i < candidates.len() ==> index.contains_key(
                    (#[trigger] candidates[i]).chunk_id.0,
                ) && scored.contains(candidates[i])
        }),
{
    let sorted = ranking::ranked(scored);
    let best = ranking::limited(best_fused(scored, settings), settings.rerank_limit as nat);
    lemma_present(index, best);
    ranking::law_ranked(scored);
    let candidates = rerank_candidates(index, scored, settings);
    assert forall|i: int| 0 <= i < candidates.len() implies index.contains_key(
        (#[trigger] candidates[i]).chunk_id.0,
    ) && scored.contains(candidates[i]) by {
        let k = choose|k: int| 0 <= k < best.len() && best[k] == candidates[i];
        assert(sorted[k] == candidates[i]);
        assert(sorted.contains(candidates[i]));
        vstd::seq_lib::to_multiset_contains(sorted, candidates[i]);
        vstd::seq_lib::to_multiset_contains(scored, candidates[i]);
    }
}

proof fn lemma_first_stray(results: Seq<RerankResult>, candidates: nat, from: int)
    requires
        0 <= from,
    ensures
        match first_stray(results, candidates, from) {
            Some(stray) => {
                &&& from <= stray < results.len()
                &&& results[stray].document_index >= candidates
                &&& forall|i: int|
                    from <= i < stray ==> (#[trigger] results[i]).document_index < candidates
            },
            None => forall|i: int|
                from <= i < results.len() ==> (#[trigger] results[i]).document_index < candidates,
        },
    decreases results.len() - from,
{
    if from < results.len() && results[from].document_index < candidates {
        lemma_first_stray(results, candidates, from + 1);
    }
}

/// Whether a chunk is one of the candidates.
pub open spec fn is_candidate(candidates: Seq<ScoredChunk>, id: CodeChunkId) -> bool {
    exists|k: int| 0 <= k < candidates.len() && (#[trigger] candidates[k]).chunk_id == id
}

/// A pass succeeds exactly if each result that is taken names a candidate.
/// Its matches are then candidates, and no more than are wanted. Those of a
/// first pass are marked as reranked, those of a second as from the fallback.
pub proof fn law_matches(
    candidates: Seq<ScoredChunk>,
    results: Seq<RerankResult>,
    settings: SemanticSearchRuntimeSettings,
    pass: SearchPass,
)
    ensures
        ({
            let taken = ranking::limited(results, settings.max_results as nat);
            let matches = matches_of(candidates, taken, pass);
            &&& first_stray(taken, candidates.len(), 0) is None <==> forall|i: int|
                0 <= i < taken.len() ==> (#[trigger] taken[i]).document_index < candidates.len()
            &&& matches.len() <= settings.max_results
            &&& forall|i: int|
                0 <= i < matches.len() ==> (#[trigger] matches[i]).source@ == match pass {
                    SearchPass::First => "reranked"@,
                    SearchPass::Second => "hyde_fallback"@,
                }
            &&& first_stray(taken, candidates.len(), 0) is None ==> forall|i: int|
                0 <= i < matches.len() ==> is_candidate(
                    candidates,
                    (#[trigger] matches[i]).chunk_id,
                )
        }),
{
    let taken = ranking::limited(results, settings.max_results as nat);
    let matches = matches_of(candidates, taken, pass);
    lemma_first_stray(taken, candidates.len(), 0);
    if first_stray(taken, candidates.len(), 0) is Some {
        let stray = first_stray(taken, candidates.len(), 0)->0;
        assert(taken[stray].document_index >= candidates.len());
    }
    if first_stray(taken, candidates.len(), 0) is None {
        assert forall|i: int| 0 <= i < matches.len() implies is_candidate(
            candidates,
            (#[trigger] matches[i]).chunk_id,
        ) by {
            assert(taken[i].document_index < candidates.len());
            assert(matches[i].chunk_id == candidates[taken[i].document_index as int].chunk_id);
        }
    }
}

/// There is a second pass exactly if the fallback is switched on, and the first
/// pass brought nothing, or its first match has a score below the threshold.
pub proof fn law_second_pass(
    settings: SemanticSearchRuntimeSettings,
    first_pass: SemanticSearchResult,
)
    ensures
        second_pass_due(settings, first_pass) <==> settings.hyde_mode == HyDEMode::Fallback && (
        first_pass.matches@.len() == 0 || score::less(
            first_pass.matches@[0].rerank_score,
            settings.hyde_threshold,
        )),
        top_or_zero(first_pass) == if first_pass.matches@.len() > 0 {
            first_pass.matches@[0].rerank_score
        } else {
            Score { bits: 0 }
        },
{
}

/// Whether a chunk of an index shares a word with a query.
pub open spec fn shares_word(
    index: Map<usize, IndexedModel>,
    query: Seq<char>,
    id: usize,
) -> bool {
    index.contains_key(id) && exists|i: int|
        0 <= i < index[id].terms.len() && tokens::words(query).contains(
            #[trigger] index[id].terms[i],
        )
}

/// The score that a chunk of an index has by words: the number of its words
/// that are words of the query.
pub open spec fn word_score(index: Map<usize, IndexedModel>, query: Seq<char>, id: usize) -> int {
    score::count_bits(ranking::shared_words(query, index[id].terms))
}

/// The rank that a chunk of an index has by words: the number of chunks that
/// share more words with the query, or as many and have a lesser identifier.
pub open spec fn word_rank(index: Map<usize, IndexedModel>, query: Seq<char>, id: usize) -> nat {
    Set::new(
        |other: usize|
            {
                &&& shares_word(index, query, other)
                &&& {
                    ||| word_score(index, query, other) > word_score(index, query, id)
                    ||| word_score(index, query, other) == word_score(index, query, id) && other
                        < id
                }
            },
    ).len()
}

/// Whether an index files each chunk under its own identifier.
pub open spec fn filed(index: Map<usize, IndexedModel>) -> bool {
    forall|id: usize| #[trigger] index.contains_key(id) ==> index[id].id == id
}

/// The entries of a list have ascending identifiers.
spec fn ids_ascend(chunks: Seq<ScoredChunk>) -> bool {
    forall|i: int, j: int|
        0 <= i < j < chunks.len() ==> (#[trigger] chunks[i]).chunk_id.0 < (
        #[trigger] chunks[j]).chunk_id.0
}

proof fn lemma_overlapping_ascends(query: Seq<char>, chunks: Seq<IndexedModel>)
    requires
        forall|i: int| 0 <= i < chunks.len() ==> 0 <= (#[trigger] chunks[i]).id <= usize::MAX,
        forall|i: int, j: int|
            0 <= i < j < chunks.len() ==> (#[trigger] chunks[i]).id < (#[trigger] chunks[j]).id,
    ensures
        ids_ascend(ranking::overlapping(query, chunks)),
        ranking::overlapping(query, chunks).len() <= chunks.len(),
        forall|i: int|
            0 <= i < ranking::overlapping(query, chunks).len() ==> (
            #[trigger] ranking::overlapping(query, chunks)[i]).chunk_id.0 <= chunks.last().id,
    decreases chunks.len(),
{
    if chunks.len() > 0 {
        let rest = chunks.drop_last();
        assert forall|i: int| 0 <= i < rest.len() implies 0 <= (#[trigger] rest[i]).id
            <= usize::MAX by {
            assert(rest[i] == chunks[i]);
        }
        assert forall|i: int, j: int| 0 <= i < j < rest.len() implies (#[trigger] rest[i]).id < (
        #[trigger] rest[j]).id by {
            assert(rest[i] == chunks[i] && rest[j] == chunks[j]);
        }
        lemma_overlapping_ascends(query, rest);
        let before = ranking::overlapping(query, rest);
        let last = chunks[chunks.len() - 1];
        assert(0 <= last.id <= usize::MAX);
        assert forall|i: int| 0 <= i < before.len() implies (#[trigger] before[i]).chunk_id.0
            < last.id by {
            assert(rest.len() > 0);
            assert(rest.last() == chunks[chunks.len() - 2]);
        }
    }
}

proof fn lemma_filter_ascends(chunks: Seq<ScoredChunk>, p: spec_fn(ScoredChunk) -> bool)
    requires
        ids_ascend(chunks),
    ensures
        ids_ascend(chunks.filter(p)),
        forall|i: int|
            0 <= i < chunks.filter(p).len() ==> chunks.contains(#[trigger] chunks.filter(p)[i])
                && p(chunks.filter(p)[i]),
    decreases chunks.len(),
{
    reveal(Seq::filter);
    if chunks.len() > 0 {
        let rest = chunks.drop_last();
        assert forall|i: int, j: int| 0 <= i < j < rest.len() implies (
        #[trigger] rest[i]).chunk_id.0 < (#[trigger] rest[j]).chunk_id.0 by {
            assert(rest[i] == chunks[i] && rest[j] == chunks[j]);
        }
        lemma_filter_ascends(rest, p);
        let before = rest.filter(p);
        let after = chunks.filter(p);
        assert forall|i: int| 0 <= i < before.len() implies (#[trigger] before[i]).chunk_id.0
            < chunks.last().chunk_id.0 && chunks.contains(before[i]) by {
            let k = choose|k: int| 0 <= k < rest.len() && rest[k] == before[i];
            assert(chunks[k] == before[i]);
            assert(chunks[k].chunk_id.0 < chunks[chunks.len() - 1].chunk_id.0);
        }
        assert forall|i: int| 0 <= i < after.len() implies chunks.contains(#[trigger] after[i])
            && p(after[i]) by {
            if i < before.len() {
                assert(after[i] == before[i]);
            } else {
                assert(chunks[chunks.len() - 1] == after[i]);
            }
        }
    }
}

proof fn lemma_sole_entry(chunks: Seq<ScoredChunk>, id: CodeChunkId, place: int)
    requires
        ids_ascend(chunks),
        0 <= place < chunks.len(),
        chunks[place].chunk_id == id,
    ensures
        ranking::sole_entry(chunks, Some(chunks[place]), id),
{
    let p = |other: ScoredChunk| other.chunk_id == id;
    lemma_filter_ascends(chunks, p);
    chunks.lemma_filter_contains(p, place);
    let found = chunks.filter(p);
    let k = choose|k: int| 0 <= k < found.len() && found[k] == chunks[place];
    if found.len() > 1 {
        assert(found[0].chunk_id.0 < found[1].chunk_id.0);
    }
    assert(found =~= seq![chunks[place]]);
}

/// What ranking by words lists of an index: an entry for each chunk that shares
/// a word with the query, one only, and no other.
proof fn lemma_word_entries(index: Map<usize, IndexedModel>, query: Seq<char>)
    requires
        index.dom().finite(),
        filed(index),
    ensures
        ({
            let listed_words = ranking::overlapping(query, listed(index));
            &&& ids_ascend(listed_words)
            &&& listed_words.len() <= index.dom().len()
            &&& forall|entry: ScoredChunk| #[trigger]
                listed_words.contains(entry) <==> shares_word(index, query, entry.chunk_id.0)
                    && entry == ranking::overlap_entry(query, index[entry.chunk_id.0])
        }),
{
    let chunks = listed(index);
    let ids = store::ids_of(index.dom());
    let entries = ranking::overlapping(query, chunks);
    store::law_ids_of(index.dom());
    assert forall|i: int| 0 <= i < chunks.len() implies (#[trigger] chunks[i]).id == ids[i]
        && index.contains_key(ids[i]) && chunks[i] == index[ids[i]] by {
        assert(ids.contains(ids[i]));
        assert(index.dom().contains(ids[i]));
    }
    lemma_overlapping_ascends(query, chunks);
    assert forall|entry: ScoredChunk| #[trigger] entries.contains(entry) <==> shares_word(
        index,
        query,
        entry.chunk_id.0,
    ) && entry == ranking::overlap_entry(query, index[entry.chunk_id.0]) by {
        ranking::law_overlapping(query, chunks, entry);
        assert(CodeChunkId(entry.chunk_id.0) == entry.chunk_id);
        if entries.contains(entry) {
            let i = choose|i: int|
                0 <= i < chunks.len() && ranking::overlap(
                    (#[trigger] chunks[i]).terms,
                    tokens::words(query),
                ) > 0 && entry == ranking::overlap_entry(query, chunks[i]);
            ranking::law_overlap(query, chunks[i].terms);
            assert(chunks[i].id == ids[i]);
        }
        if shares_word(index, query, entry.chunk_id.0) && entry == ranking::overlap_entry(
            query,
            index[entry.chunk_id.0],
        ) {
            assert(index.dom().contains(entry.chunk_id.0));
            assert(ids.contains(entry.chunk_id.0));
            let i = choose|i: int| 0 <= i < ids.len() && ids[i] == entry.chunk_id.0;
            assert(chunks[i] == index[ids[i]]);
            ranking::law_overlap(query, chunks[i].terms);
        }
    }
}

proof fn lemma_word_rank(index: Map<usize, IndexedModel>, query: Seq<char>, id: usize)
    requires
        index.dom().finite(),
        filed(index),
        shares_word(index, query, id),
        index.dom().len() <= usize::MAX,
        forall|other: usize|
            index.contains_key(other) ==> (#[trigger] index[other]).terms.len() <= usize::MAX,
    ensures
        ranking::rank_among(
            ranking::overlapping(query, listed(index)),
            ranking::overlap_entry(query, index[id]),
        ) == word_rank(index, query, id),
{
    let entries = ranking::overlapping(query, listed(index));
    let entry = ranking::overlap_entry(query, index[id]);
    let p = ranking::above(entry);
    lemma_word_entries(index, query);
    lemma_filter_ascends(entries, p);
    let found = entries.filter(p);
    let ids = found.map_values(|chunk: ScoredChunk| chunk.chunk_id.0);
    assert(ids.no_duplicates()) by {
        assert forall|i: int, j: int| 0 <= i < ids.len() && 0 <= j < ids.len() && i
            != j implies ids[i] != ids[j] by {
            if i < j {
                assert(found[i].chunk_id.0 < found[j].chunk_id.0);
            } else {
                assert(found[j].chunk_id.0 < found[i].chunk_id.0);
            }
        }
    }
    ids.unique_seq_to_set();
    let better = Set::new(
        |other: usize|
            {
                &&& shares_word(index, query, other)
                &&& {
                    ||| word_score(index, query, other) > word_score(index, query, id)
                    ||| word_score(index, query, other) == word_score(index, query, id) && other
                        < id
                }
            },
    );
    assert(index[id].id == id);
    assert forall|other: usize| #[trigger] ids.to_set().contains(other) <==> better.contains(
        other,
    ) by {
        if shares_word(index, query, other) {
            lemma_entry_order(index, query, other, id);
        }
        if ids.contains(other) {
            let k = choose|k: int| 0 <= k < ids.len() && ids[k] == other;
            assert(found[k].chunk_id.0 == other);
            assert(entries.contains(found[k]));
        }
        if better.contains(other) {
            let one = ranking::overlap_entry(query, index[other]);
            assert(one.chunk_id.0 == other);
            assert(entries.contains(one));
            let k = choose|k: int| 0 <= k < entries.len() && entries[k] == one;
            entries.lemma_filter_contains(p, k);
            let j = choose|j: int| 0 <= j < found.len() && found[j] == one;
            assert(ids[j] == other);
        }
    }
    assert(ids.to_set() =~= better);
}

/// Entries by words are ordered by the number of shared words, then by
/// identifiers.
proof fn lemma_entry_order(
    index: Map<usize, IndexedModel>,
    query: Seq<char>,
    left: usize,
    right: usize,
)
    requires
        filed(index),
        shares_word(index, query, left),
        shares_word(index, query, right),
        index[left].terms.len() <= usize::MAX,
        index[right].terms.len() <= usize::MAX,
    ensures
        ranking::precedes(
            ranking::overlap_entry(query, index[left]),
            ranking::overlap_entry(query, index[right]),
        ) <==> {
            ||| word_score(index, query, left) > word_score(index, query, right)
            ||| word_score(index, query, left) == word_score(index, query, right) && left < right
        },
        ranking::overlap_entry(query, index[left]).chunk_id.0 == left,
{
    assert(index[left].id == left);
    assert(index[right].id == right);
    ranking::law_overlap(query, index[left].terms);
    ranking::law_overlap(query, index[right].terms);
    ranking::lemma_overlap_bound(index[left].terms, tokens::words(query));
    ranking::lemma_overlap_bound(index[right].terms, tokens::words(query));
    score::law_count_bits(ranking::shared_words(query, index[left].terms));
    score::law_count_bits(ranking::shared_words(query, index[right].terms));
}

/// The words of a query count beside its embedding. A chunk has one rank for its
/// similarity, where it has one, and after it one for its words, where it shares
/// a word with the query, be there a similarity or not: the number of chunks
/// that share more words, or as many and have a lesser identifier. A chunk with
/// neither is not ranked at all.
pub proof fn law_query_ranks(
    index: Map<usize, IndexedModel>,
    query: Seq<char>,
    similarities: Seq<ScoredChunk>,
    ranks: Seq<ChunkRanks>,
    id: CodeChunkId,
    similarity: Option<ScoredChunk>,
)
    requires
        index.dom().finite(),
        filed(index),
        index.dom().len() <= usize::MAX,
        similarities.len() <= usize::MAX,
        forall|other: usize|
            index.contains_key(other) ==> (#[trigger] index[other]).terms.len() <= usize::MAX,
        ranking::sole_entry(similarities, similarity, id),
        ranking::tallies(ranks, ranking::entries(query_lists(index, query, similarities), 2)),
    ensures
        ({
            let by_words = shares_word(index, query, id.0);
            &&& (exists|i: int| 0 <= i < ranks.len() && (#[trigger] ranks[i]).chunk_id == id)
                <==> similarity is Some || by_words
            &&& forall|i: int|
                0 <= i < ranks.len() && (#[trigger] ranks[i]).chunk_id == id
                    ==> ranks[i].ranks@.map_values(|rank: usize| rank as nat) == (
                match similarity {
                    Some(entry) => seq![ranking::rank_among(similarities, entry)],
                    None => Seq::empty(),
                }) + (if by_words {
                    seq![word_rank(index, query, id.0)]
                } else {
                    Seq::empty()
                })
            &&& forall|i: int, j: int|
                0 <= i < j < ranks.len() ==> (#[trigger] ranks[i]).chunk_id != (
                #[trigger] ranks[j]).chunk_id
        }),
{
    let words = ranking::overlapping(query, listed(index));
    let lists = query_lists(index, query, similarities);
    let all = ranking::entries(lists, 2);
    lemma_word_entries(index, query);
    assert(CodeChunkId(id.0) == id);
    let entry = if shares_word(index, query, id.0) {
        Some(ranking::overlap_entry(query, index[id.0]))
    } else {
        None
    };
    if shares_word(index, query, id.0) {
        lemma_word_rank(index, query, id.0);
        assert(index[id.0].id == id.0);
        assert(words.contains(entry->0));
        let k = choose|k: int| 0 <= k < words.len() && words[k] == entry->0;
        lemma_sole_entry(words, id, k);
    } else {
        let p = |other: ScoredChunk| other.chunk_id == id;
        lemma_filter_ascends(words, p);
        if words.filter(p).len() > 0 {
            assert(words.contains(words.filter(p)[0]));
        }
    }
    ranking::law_ranks_of_two(similarities, words, similarity, entry, id);
    assert(lists =~= seq![ranking::ranked(similarities), ranking::ranked(words)]);
    ranking::lemma_chunks_in(all);
    let ids = ranking::chunks_in(all);
    let found = ranking::ranks_of(all, id);
    assert(found.map_values(|rank: usize| rank as nat).len() == found.len());
    if ids.contains(id) {
        let i = choose|i: int| 0 <= i < ids.len() && ids[i] == id;
        assert(ranks[i].chunk_id == id);
    }
    assert forall|i: int| 0 <= i < ranks.len() && (#[trigger] ranks[i]).chunk_id == id implies ids.contains(
        id,
    ) by {
        assert(ids[i] == id);
    }
    assert forall|i: int, j: int| 0 <= i < j < ranks.len() implies (#[trigger] ranks[i]).chunk_id
        != (#[trigger] ranks[j]).chunk_id by {
        assert(ids[i] != ids[j]);
    }
}

proof fn lemma_present_filter(index: Map<usize, IndexedModel>, chunks: Seq<ScoredChunk>)
    ensures
        present(index, chunks) == chunks.filter(
            |chunk: ScoredChunk| index.contains_key(chunk.chunk_id.0),
        ),
    decreases chunks.len(),
{
    reveal(Seq::filter);
    if chunks.len() > 0 {
        lemma_present_filter(index, chunks.drop_last());
    }
}

/// What is reranked is the best there is: a scored chunk of the index is a
/// candidate exactly if fewer scored chunks rank above it than may be
/// candidates, and than may be reranked.
pub proof fn law_best_candidates(
    index: Map<usize, IndexedModel>,
    scored: Seq<ScoredChunk>,
    settings: SemanticSearchRuntimeSettings,
    chunk: ScoredChunk,
)
    ensures
        rerank_candidates(index, scored, settings).contains(chunk) <==> {
            &&& scored.contains(chunk)
            &&& index.contains_key(chunk.chunk_id.0)
            &&& ranking::rank_among(scored, chunk) < settings.candidate_limit
            &&& ranking::rank_among(scored, chunk) < settings.rerank_limit
        },
{
    let sorted = ranking::ranked(scored);
    let best = ranking::limited(best_fused(scored, settings), settings.rerank_limit as nat);
    let p = |one: ScoredChunk| index.contains_key(one.chunk_id.0);
    let candidates = rerank_candidates(index, scored, settings);
    lemma_present_filter(index, best);
    ranking::law_ranked(scored);
    sorted.to_multiset_ensures();
    scored.to_multiset_ensures();
    assert(sorted.contains(chunk) <==> scored.contains(chunk)) by {
        assert(sorted.to_multiset().count(chunk) == scored.to_multiset().count(chunk));
    }
    assert forall|i: int| 0 <= i < best.len() implies #[trigger] best[i] == sorted[i] by {}
    if candidates.contains(chunk) {
        best.lemma_filter_contains_rev(p, chunk);
        let k = choose|k: int| 0 <= k < candidates.len() && candidates[k] == chunk;
        best.lemma_filter_pred(p, k);
        let i = choose|i: int| 0 <= i < best.len() && best[i] == chunk;
        assert(sorted[i] == chunk);
        assert(sorted.contains(chunk));
        let place = lemma_first_place(sorted, chunk, i);
        ranking::law_rank(scored, place);
    }
    if scored.contains(chunk) {
        let i = choose|i: int| 0 <= i < sorted.len() && sorted[i] == chunk;
        let place = lemma_first_place(sorted, chunk, i);
        ranking::law_rank(scored, place);
        if index.contains_key(chunk.chunk_id.0) && place < settings.candidate_limit && place
            < settings.rerank_limit {
            assert(best[place] == chunk);
            best.lemma_filter_contains(p, place);
        }
    }
}

proof fn lemma_first_place(chunks: Seq<ScoredChunk>, chunk: ScoredChunk, at: int) -> (place: int)
    requires
        0 <= at < chunks.len(),
        chunks[at] == chunk,
    ensures
        0 <= place <= at,
        chunks[place] == chunk,
        forall|i: int| 0 <= i < place ==> #[trigger] chunks[i] != chunks[place],
    decreases at,
{
    if exists|i: int| 0 <= i < at && chunks[i] == chunk {
        let i = choose|i: int| 0 <= i < at && chunks[i] == chunk;
        lemma_first_place(chunks, chunk, i)
    } else {
        at
    }
}

proof fn lemma_filter_keeps_order(
    chunks: Seq<ScoredChunk>,
    p: spec_fn(ScoredChunk) -> bool,
)
    requires
        forall|i: int, j: int|
            0 <= i < j < chunks.len() ==> ranking::comes_before(
                #[trigger] chunks[i],
                #[trigger] chunks[j],
            ),
    ensures
        forall|i: int, j: int|
            0 <= i < j < chunks.filter(p).len() ==> ranking::comes_before(
                #[trigger] chunks.filter(p)[i],
                #[trigger] chunks.filter(p)[j],
            ),
    decreases chunks.len(),
{
    reveal(Seq::filter);
    if chunks.len() > 0 {
        let rest = chunks.drop_last();
        assert forall|i: int, j: int| 0 <= i < j < rest.len() implies ranking::comes_before(
            #[trigger] rest[i],
            #[trigger] rest[j],
        ) by {
            assert(rest[i] == chunks[i] && rest[j] == chunks[j]);
        }
        lemma_filter_keeps_order(rest, p);
        let before = rest.filter(p);
        assert forall|i: int| 0 <= i < before.len() implies ranking::comes_before(
            #[trigger] before[i],
            chunks.last(),
        ) by {
            assert(before.contains(before[i]));
            rest.lemma_filter_contains_rev(p, before[i]);
            let k = choose|k: int| 0 <= k < rest.len() && rest[k] == before[i];
            assert(chunks[k] == before[i]);
            assert(ranking::comes_before(chunks[k], chunks[chunks.len() - 1]));
        }
    }
}

/// Candidates come in the order of their ranks, each with the text of its chunk
/// as the document to be reranked.
pub proof fn law_candidates_order(
    index: Map<usize, IndexedModel>,
    scored: Seq<ScoredChunk>,
    settings: SemanticSearchRuntimeSettings,
)
    ensures
        ({
            let candidates = rerank_candidates(index, scored, settings);
            let documents = documents_of(index, candidates);
            &&& forall|i: int, j: int|
                0 <= i < j < candidates.len() ==> !ranking::precedes(
                    #[trigger] candidates[j],
                    #[trigger] candidates[i],
                )
            &&& documents.len() == candidates.len()
            &&& forall|i: int|
                0 <= i < candidates.len() ==> #[trigger] documents[i]
                    == index[candidates[i].chunk_id.0].text
        }),
{
    let best = ranking::limited(best_fused(scored, settings), settings.rerank_limit as nat);
    let sorted = ranking::ranked(scored);
    let p = |one: ScoredChunk| index.contains_key(one.chunk_id.0);
    ranking::law_ranked(scored);
    lemma_present_filter(index, best);
    assert forall|i: int, j: int| 0 <= i < j < best.len() implies ranking::comes_before(
        #[trigger] best[i],
        #[trigger] best[j],
    ) by {
        assert(best[i] == sorted[i] && best[j] == sorted[j]);
    }
    lemma_filter_keeps_order(best, p);
    let candidates = rerank_candidates(index, scored, settings);
    assert forall|i: int, j: int| 0 <= i < j < candidates.len() implies !ranking::precedes(
        #[trigger] candidates[j],
        #[trigger] candidates[i],
    ) by {
        assert(ranking::comes_before(candidates[i], candidates[j]));
    }
}

/// The matches of a pass are the results of the reranker, in its order, one for
/// one, as many as are wanted: each has the chunk of the candidate that the
/// result names, and the score of the result.
pub proof fn law_matches_follow_results(
    candidates: Seq<ScoredChunk>,
    results: Seq<RerankResult>,
    settings: SemanticSearchRuntimeSettings,
    pass: SearchPass,
)
    ensures
        ({
            let taken = ranking::limited(results, settings.max_results as nat);
            let matches = matches_of(candidates, taken, pass);
            &&& matches.len() == if results.len() <= settings.max_results {
                results.len()
            } else {
                settings.max_results as nat
            }
            &&& forall|i: int|
                0 <= i < matches.len() ==> (#[trigger] matches[i]).chunk_id
                    == candidates[results[i].document_index as int].chunk_id
                    && matches[i].rerank_score == results[i].score
        }),
{
}

/// What is wrong with results is told of the first one that is taken and names
/// no candidate.
pub proof fn law_first_stray(results: Seq<RerankResult>, candidates: nat, place: int)
    requires
        0 <= place < results.len(),
        results[place].document_index >= candidates,
        forall|i: int| 0 <= i < place ==> (#[trigger] results[i]).document_index < candidates,
    ensures
        first_stray(results, candidates, 0) == Some(place),
{
    lemma_first_stray(results, candidates, 0);
    let stray = first_stray(results, candidates, 0)->0;
    if stray > place {
        assert(results[place].document_index < candidates);
    }
}

/// The pieces of a description are joined one after another.
pub proof fn law_joined(left: Seq<Seq<char>>, right: Seq<Seq<char>>)
    ensures
        joined(left + right) == joined(left) + joined(right),
        forall|piece: Seq<char>| #[trigger] joined(seq![piece]) == piece,
    decreases right.len(),
{
    assert forall|piece: Seq<char>| #[trigger] joined(seq![piece]) == piece by {
        reveal_with_fuel(joined, 2);
        assert(seq![piece].drop_last() =~= Seq::empty());
        assert(Seq::<char>::empty() + piece =~= piece);
    }
    if right.len() == 0 {
        assert(left + right =~= left);
        assert(joined(left) + joined(right) =~= joined(left));
    } else {
        law_joined(left, right.drop_last());
        assert((left + right).drop_last() =~= left + right.drop_last());
        assert(joined(left + right) =~= joined(left) + joined(right));
    }
}

} // verus!
