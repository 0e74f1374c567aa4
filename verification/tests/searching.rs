use semantic_search::index::{CodeChunkId, CodeChunkTopology, IndexedCodeChunk};
use semantic_search::provider::RerankResult;
use semantic_search::ranking::{
    fusion_ranks, rank_by_lexical_overlap, rank_by_vector_similarity, rank_fused, ChunkRanks,
    ScoredChunk, RANK_CONSTANT,
};
use semantic_search::score::Score;
use semantic_search::search::{
    best_score, build_hyde_prompt, configured_hyde_model, hyde_model_unavailable,
    hyde_search_text, needs_hyde_pass, plan_rerank, query_ranks,
    run_semantic_search_hyde_fallback, run_semantic_search_pass, should_run_hyde_fallback,
    PassStep, SearchPass, SemanticSearchMatch, SemanticSearchResult, FIRST_PASS_SOURCE,
    SECOND_PASS_SOURCE,
};
use semantic_search::settings::{
    HyDEMode, LanguageModelSelection, SemanticSearchHyDESettings, SemanticSearchRuntimeSettings,
};
use semantic_search::store::CodeSearchIndex;
use semantic_search::tokens::tokenize_for_search;
use semantic_search::topology::{
    add_chunk_if_within_budget, expand_topology, TopologyExpansionRuntimeSettings,
};
use std::collections::{HashMap, HashSet, VecDeque};

fn score(value: f32) -> Score {
    Score {
        bits: value.to_bits(),
    }
}

fn value(score: Score) -> f32 {
    f32::from_bits(score.bits)
}

fn bits(values: &[f32]) -> Vec<u32> {
    values.iter().map(|value| value.to_bits()).collect()
}

fn scored(id: usize, value: f32) -> ScoredChunk {
    ScoredChunk {
        chunk_id: CodeChunkId(id),
        score: score(value),
    }
}

fn chunk(id: usize, text: &str, parent: Option<usize>) -> IndexedCodeChunk {
    IndexedCodeChunk {
        id: CodeChunkId(id),
        worktree_id: None,
        path: "root/src/lib.rs".to_string(),
        byte_range: 0..text.len(),
        line_range: 0..1,
        text: text.to_string(),
        non_whitespace_size: text.chars().filter(|ch| !ch.is_whitespace()).count(),
        primary_node_kind: None,
        topology: CodeChunkTopology {
            parent: parent.map(CodeChunkId),
            children: Vec::new(),
            previous_sibling: None,
            next_sibling: None,
            enclosing_symbols: Vec::new(),
        },
        embedding: match id {
            1 => bits(&[0.9, 0.1]),
            2 => bits(&[0.1, 0.9]),
            _ => Vec::new(),
        },
        lexical_terms: tokenize_for_search(text),
    }
}

fn settings_for_test(max_results: usize) -> SemanticSearchRuntimeSettings {
    SemanticSearchRuntimeSettings {
        candidate_limit: 80,
        rerank_limit: 30,
        max_results,
        hyde_mode: HyDEMode::Off,
        hyde_threshold: score(0.6),
        topology_expansion: TopologyExpansionRuntimeSettings {
            include_parent: true,
            include_siblings: false,
            max_parent_bytes: 12_000,
            max_total_expanded_bytes: 24_000,
        },
    }
}

fn cosine_similarity(left: &[f32], right: &[f32]) -> f32 {
    if left.len() != right.len() || left.is_empty() {
        return 0.0;
    }
    let dot_product = left
        .iter()
        .zip(right.iter())
        .map(|(left, right)| left * right)
        .sum::<f32>();
    let left_norm = left.iter().map(|value| value * value).sum::<f32>().sqrt();
    let right_norm = right.iter().map(|value| value * value).sum::<f32>().sqrt();
    if left_norm == 0.0 || right_norm == 0.0 {
        0.0
    } else {
        dot_product / (left_norm * right_norm)
    }
}

fn similarities(query: &[f32], candidates: &[(CodeChunkId, Vec<f32>)]) -> Vec<ScoredChunk> {
    candidates
        .iter()
        .map(|(chunk_id, embedding)| ScoredChunk {
            chunk_id: *chunk_id,
            score: score(cosine_similarity(query, embedding)),
        })
        .collect()
}

fn fused_scores(ranks: Vec<ChunkRanks>, rank_constant: usize) -> Vec<ScoredChunk> {
    ranks
        .into_iter()
        .map(|chunk| {
            let total: f32 = chunk
                .ranks
                .iter()
                .map(|rank| 1.0 / (rank_constant as f32 + *rank as f32 + 1.0))
                .sum();
            ScoredChunk {
                chunk_id: chunk.chunk_id,
                score: score(total),
            }
        })
        .collect()
}

struct FakeProviders {
    embeddings: HashMap<String, Vec<f32>>,
    reranks: VecDeque<Vec<(usize, f32)>>,
}

impl FakeProviders {
    fn new(embeddings: Vec<(&str, Vec<f32>)>, reranks: Vec<Vec<(usize, f32)>>) -> Self {
        Self {
            embeddings: embeddings
                .into_iter()
                .map(|(text, embedding)| (text.to_string(), embedding))
                .collect(),
            reranks: reranks.into_iter().collect(),
        }
    }

    fn run_pass(
        &mut self,
        index: &CodeSearchIndex,
        query: &str,
        settings: &SemanticSearchRuntimeSettings,
        pass: SearchPass,
    ) -> Result<SemanticSearchResult, String> {
        let query_embedding = self
            .embeddings
            .get(query)
            .cloned()
            .ok_or_else(|| format!("missing fake embedding for {query}"))?;
        let candidates: Vec<(CodeChunkId, Vec<f32>)> = index
            .chunks()
            .into_iter()
            .map(|chunk| {
                let embedding = chunk.embedding.iter().map(|b| f32::from_bits(*b)).collect();
                (chunk.id, embedding)
            })
            .collect();
        let ranks = query_ranks(index, query, similarities(&query_embedding, &candidates));
        match plan_rerank(index, fused_scores(ranks, RANK_CONSTANT), settings, pass) {
            PassStep::Finished(result) => Ok(result),
            PassStep::Rerank(plan) => {
                assert_eq!(plan.candidates.len(), plan.documents.len());
                let reranked: Vec<RerankResult> = self
                    .reranks
                    .pop_front()
                    .expect("a fake rerank result should be there")
                    .into_iter()
                    .take(plan.top_n)
                    .map(|(document_index, value)| RerankResult {
                        document_index,
                        score: score(value),
                    })
                    .collect();
                run_semantic_search_pass(&plan.candidates, &reranked, settings, pass)
            }
        }
    }

    fn run_query(
        &mut self,
        index: &CodeSearchIndex,
        query: &str,
        settings: &SemanticSearchRuntimeSettings,
        hyde_search_text: Option<&str>,
    ) -> Result<SemanticSearchResult, String> {
        let first_pass = self.run_pass(index, query, settings, SearchPass::First)?;
        let hyde_pass = match hyde_search_text {
            Some(text) if needs_hyde_pass(settings, &first_pass) => {
                self.run_pass(index, text, settings, SearchPass::Second).ok()
            }
            _ => None,
        };
        Ok(run_semantic_search_hyde_fallback(
            settings, first_pass, hyde_pass,
        ))
    }
}

fn two_chunk_index() -> CodeSearchIndex {
    CodeSearchIndex::from_chunks(vec![
        chunk(1, "authentication retry backoff", None),
        chunk(2, "render button layout", None),
    ])
}

#[test]
fn hyde_prompt_asks_for_search_text_not_answer() {
    let prompt = build_hyde_prompt("Where is movement smoothing implemented?");
    assert!(prompt.contains("Do not answer the user's question"));
    assert!(prompt.contains("movement smoothing"));
    assert!(prompt.contains("likely identifiers"));
    assert!(prompt.ends_with("\n\nUser request:\nWhere is movement smoothing implemented?"));
}

#[test]
fn hyde_model_missing_error_names_provider_and_model() {
    let selection = LanguageModelSelection {
        provider: "missing-provider".to_string(),
        model: "missing-model".to_string(),
    };

    let error = hyde_model_unavailable(&selection);

    assert!(error.contains("agent.semantic_search.hyde.model"));
    assert!(error.contains("missing-provider"));
    assert!(error.contains("missing-model"));
    let mut settings = SemanticSearchHyDESettings {
        mode: HyDEMode::Fallback,
        threshold: score(0.6),
        model: None,
    };
    assert_eq!(
        configured_hyde_model(&settings).unwrap_err(),
        "HyDE fallback requires `agent.semantic_search.hyde.model`."
    );
    settings.model = Some(selection);
    assert_eq!(
        configured_hyde_model(&settings).unwrap().model,
        "missing-model"
    );
}

#[test]
fn hyde_generation_streams_search_text_without_tools() {
    assert!(
        build_hyde_prompt("Where is movement smoothing implemented?")
            .contains("Return only search text")
    );
    let pieces = vec![
        "movement_smoothing".to_string(),
        " interpolate_position".to_string(),
    ];
    assert_eq!(
        hyde_search_text(&pieces),
        "movement_smoothing interpolate_position"
    );
    assert_eq!(hyde_search_text(&vec![" a".to_string(), "b\n".to_string()]), "ab");
    assert_eq!(hyde_search_text(&Vec::new()), "");
}

#[test]
fn cosine_similarity_orders_closest_vector_first() {
    let query = vec![1.0, 0.0];
    let farther = vec![0.2, 0.8];
    let closer = vec![0.9, 0.1];
    let candidates = vec![(CodeChunkId(1), farther), (CodeChunkId(2), closer)];
    let ranked = rank_by_vector_similarity(similarities(&query, &candidates));
    assert_eq!(ranked[0].chunk_id, CodeChunkId(2));
}

#[test]
fn mismatched_embedding_dimensions_score_zero() {
    let query = vec![1.0, 0.0];
    let mismatched = vec![1.0];
    let valid = vec![0.9, 0.1];
    let candidates = vec![(CodeChunkId(1), mismatched), (CodeChunkId(2), valid)];
    let ranked = rank_by_vector_similarity(similarities(&query, &candidates));
    assert_eq!(ranked[0].chunk_id, CodeChunkId(2));
    assert_eq!(value(ranked[1].score), 0.0);
}

#[test]
fn rankings_put_greater_scores_first_and_break_ties_by_identifier() {
    let ranked = rank_by_vector_similarity(vec![
        scored(4, 0.5),
        scored(9, -0.0),
        scored(3, f32::NAN),
        scored(2, 0.5),
        scored(1, -2.0),
        scored(8, 0.0),
        scored(2, 0.5),
    ]);
    assert_eq!(
        ranked.iter().map(|chunk| chunk.chunk_id.0).collect::<Vec<_>>(),
        vec![3, 2, 2, 4, 8, 9, 1]
    );
}

#[test]
fn lexical_overlap_excludes_chunks_without_matching_terms() {
    let first = chunk(1, "authentication retry backoff", None);
    let second = chunk(2, "render button layout", None);
    let third = chunk(3, "authentication token", None);

    let ranked = rank_by_lexical_overlap("authentication", &vec![&first, &second, &third]);

    assert_eq!(ranked, vec![scored(1, 1.0), scored(3, 1.0)]);
}

#[test]
fn lexical_overlap_counts_every_occurrence() {
    let first = chunk(1, "retry Retry backoff", None);
    let second = chunk(2, "retry", None);
    let ranked = rank_by_lexical_overlap("retry, backoff; retry", &vec![&second, &first]);
    assert_eq!(ranked, vec![scored(1, 3.0), scored(2, 1.0)]);
    assert!(rank_by_lexical_overlap("", &vec![&first]).is_empty());
}

#[test]
fn reciprocal_rank_fusion_combines_dense_and_lexical_ranks() {
    let dense = vec![scored(1, 0.9), scored(2, 0.8)];
    let lexical = vec![scored(2, 10.0), scored(3, 1.0)];
    let ranks = fusion_ranks(&[dense, lexical]);
    assert_eq!(
        ranks,
        vec![
            ChunkRanks {
                chunk_id: CodeChunkId(1),
                ranks: vec![0],
            },
            ChunkRanks {
                chunk_id: CodeChunkId(2),
                ranks: vec![1, 0],
            },
            ChunkRanks {
                chunk_id: CodeChunkId(3),
                ranks: vec![1],
            },
        ]
    );
    let fused = rank_fused(fused_scores(ranks, 60), 10);
    assert_eq!(fused[0].chunk_id, CodeChunkId(2));
    assert_eq!(fused.len(), 3);
    assert_eq!(rank_fused(fused.clone(), 2).len(), 2);
    assert!(rank_fused(fused, 0).is_empty());
}

#[test]
fn query_pipeline_reranks_fused_candidates() {
    let index = two_chunk_index();
    let mut providers = FakeProviders::new(
        vec![("auth retry", vec![1.0, 0.0])],
        vec![vec![(0, 0.95), (1, 0.2)]],
    );
    let result = providers
        .run_query(&index, "auth retry", &settings_for_test(2), None)
        .unwrap();
    assert_eq!(result.matches[0].chunk_id, CodeChunkId(1));
    assert_eq!(value(result.matches[0].rerank_score), 0.95);
}

#[test]
fn semantic_query_pipeline_returns_reranked_matches() {
    let index = two_chunk_index();
    let mut providers = FakeProviders::new(
        vec![("auth retry", vec![1.0, 0.0])],
        vec![vec![(0, 0.95), (1, 0.2)]],
    );

    let result = providers
        .run_query(&index, "auth retry", &settings_for_test(2), None)
        .expect("query should succeed");

    assert_eq!(result.matches[0].chunk_id, CodeChunkId(1));
    assert_eq!(value(result.matches[0].rerank_score), 0.95);
    assert_eq!(result.matches[0].source, "reranked");
    assert!(!result.used_hyde);
}

#[test]
fn semantic_query_pipeline_uses_hyde_when_first_pass_score_is_low() {
    let index = two_chunk_index();
    let mut providers = FakeProviders::new(
        vec![
            ("unclear request", vec![0.1, 0.9]),
            ("retry backoff implementation", vec![1.0, 0.0]),
        ],
        vec![vec![(1, 0.2), (0, 0.1)], vec![(0, 0.91), (1, 0.1)]],
    );
    let mut settings = settings_for_test(2);
    settings.hyde_mode = HyDEMode::Fallback;
    settings.hyde_threshold = score(0.6);

    let result = providers
        .run_query(
            &index,
            "unclear request",
            &settings,
            Some("retry backoff implementation"),
        )
        .expect("query should succeed");

    assert_eq!(result.matches[0].chunk_id, CodeChunkId(1));
    assert_eq!(result.matches[0].source, "hyde_fallback");
    assert!(result.used_hyde);
}

#[test]
fn hyde_failure_keeps_first_pass_matches() {
    let index = two_chunk_index();
    let mut providers = FakeProviders::new(
        vec![("unclear request", vec![1.0, 0.0])],
        vec![vec![(0, 0.2), (1, 0.1)]],
    );
    let mut settings = settings_for_test(2);
    settings.hyde_mode = HyDEMode::Fallback;
    settings.hyde_threshold = score(0.6);

    let result = providers
        .run_query(&index, "unclear request", &settings, None)
        .expect("first pass should be returned when hyde text is unavailable");

    assert_eq!(result.matches[0].chunk_id, CodeChunkId(1));
    assert_eq!(result.matches[0].source, "reranked");
    assert!(!result.used_hyde);
}

#[test]
fn semantic_query_pipeline_keeps_first_pass_when_hyde_fallback_errors() {
    let index = two_chunk_index();
    let mut providers = FakeProviders::new(
        vec![("unclear request", vec![0.1, 0.9])],
        vec![vec![(1, 0.2), (0, 0.1)]],
    );
    let mut settings = settings_for_test(2);
    settings.hyde_mode = HyDEMode::Fallback;
    settings.hyde_threshold = score(0.6);

    let result = providers
        .run_query(
            &index,
            "unclear request",
            &settings,
            Some("missing hyde embedding"),
        )
        .expect("HyDE fallback error should not fail the query");

    assert_eq!(result.matches[0].chunk_id, CodeChunkId(1));
    assert_eq!(value(result.matches[0].rerank_score), 0.2);
    assert_eq!(result.matches[0].source, "reranked");
    assert!(!result.used_hyde);
}

#[test]
fn semantic_query_pipeline_errors_on_invalid_rerank_document_index() {
    let index = two_chunk_index();
    let mut providers = FakeProviders::new(
        vec![("auth retry", vec![1.0, 0.0])],
        vec![vec![(2, 0.95)]],
    );

    let error = providers
        .run_query(&index, "auth retry", &settings_for_test(2), None)
        .unwrap_err();

    assert!(error.contains("document index 2"));
    assert!(error.contains("2 rerank candidates"));
    assert_eq!(
        error,
        "reranker returned document index 2 but only 2 rerank candidates were provided"
    );
}

#[test]
fn semantic_query_pipeline_returns_empty_without_reranking_empty_candidates() {
    let index = CodeSearchIndex::from_chunks(Vec::new());
    let mut providers =
        FakeProviders::new(vec![("missing code", vec![1.0, 0.0])], Vec::new());

    let result = providers
        .run_query(&index, "missing code", &settings_for_test(2), None)
        .expect("empty candidate query should succeed without reranking");

    assert!(result.matches.is_empty());
    assert!(!result.used_hyde);
}

#[test]
fn hyde_fallback_runs_only_below_threshold() {
    let decision = should_run_hyde_fallback(Some(score(0.59)), score(0.6));
    assert!(decision);
    let decision = should_run_hyde_fallback(Some(score(0.6)), score(0.6));
    assert!(!decision);
    let decision = should_run_hyde_fallback(None, score(0.6));
    assert!(decision);
    assert!(!should_run_hyde_fallback(Some(score(f32::NAN)), score(0.6)));
}

#[test]
fn only_results_that_are_wanted_can_go_astray() {
    let candidates = vec![scored(5, 0.1), scored(6, 0.1)];
    let results = vec![
        RerankResult {
            document_index: 1,
            score: score(0.4),
        },
        RerankResult {
            document_index: 7,
            score: score(0.3),
        },
    ];
    let one =
        run_semantic_search_pass(&candidates, &results, &settings_for_test(1), SearchPass::First)
            .unwrap();
    assert_eq!(one.matches.len(), 1);
    assert_eq!(one.matches[0].source, "reranked");
    assert!(!one.used_hyde);
    let second =
        run_semantic_search_pass(&candidates, &results, &settings_for_test(1), SearchPass::Second)
            .unwrap();
    assert_eq!(second.matches[0].source, "hyde_fallback");
    assert!(second.used_hyde);
    assert_eq!(SearchPass::First.source(), FIRST_PASS_SOURCE);
    assert_eq!(SearchPass::Second.source(), SECOND_PASS_SOURCE);
    assert_eq!(one.matches[0].chunk_id, CodeChunkId(6));
    assert_eq!(best_score(&one), Some(score(0.4)));
    assert!(
        run_semantic_search_pass(&candidates, &results, &settings_for_test(2), SearchPass::First)
            .is_err()
    );
}

#[test]
fn only_chunks_of_the_index_are_reranked() {
    let index = two_chunk_index();
    let mut settings = settings_for_test(4);
    settings.rerank_limit = 3;
    let fused = || vec![scored(1, 0.6), scored(9, 0.9), scored(7, 0.7), scored(2, 0.8)];
    match plan_rerank(&index, fused(), &settings, SearchPass::First) {
        PassStep::Rerank(plan) => {
            assert_eq!(plan.candidates, vec![scored(2, 0.8)]);
            assert_eq!(plan.documents, vec!["render button layout"]);
            assert_eq!(plan.top_n, 4);
        }
        PassStep::Finished(_) => panic!("one candidate is in the index"),
    }
    settings.rerank_limit = 30;
    settings.candidate_limit = 2;
    match plan_rerank(&index, fused(), &settings, SearchPass::First) {
        PassStep::Rerank(plan) => assert_eq!(plan.candidates, vec![scored(2, 0.8)]),
        PassStep::Finished(_) => panic!("one candidate is among the best two"),
    }
    match plan_rerank(&index, vec![scored(9, 0.9)], &settings, SearchPass::Second) {
        PassStep::Finished(result) => {
            assert!(result.matches.is_empty());
            assert!(result.used_hyde);
        }
        PassStep::Rerank(_) => panic!("no candidate is in the index"),
    }
}

#[test]
fn a_second_pass_counts_only_if_it_is_better() {
    let mut settings = settings_for_test(2);
    settings.hyde_mode = HyDEMode::Fallback;
    let result = |values: &[f32], source: &'static str| SemanticSearchResult {
        matches: values
            .iter()
            .map(|value| SemanticSearchMatch {
                chunk_id: CodeChunkId(1),
                rerank_score: score(*value),
                source,
            })
            .collect(),
        used_hyde: false,
    };
    let merged = |first: &[f32], second: Option<&[f32]>, settings: &SemanticSearchRuntimeSettings| {
        run_semantic_search_hyde_fallback(
            settings,
            result(first, "reranked"),
            second.map(|second| result(second, "hyde_fallback")),
        )
        .used_hyde
    };
    assert!(merged(&[0.2], Some(&[0.3]), &settings));
    assert!(!merged(&[0.2], Some(&[0.2]), &settings));
    assert!(!merged(&[0.7], Some(&[0.9]), &settings));
    assert!(merged(&[], Some(&[0.1]), &settings));
    assert!(!merged(&[], Some(&[]), &settings));
    assert!(!merged(&[], Some(&[-0.1]), &settings));
    assert!(merged(&[-0.5], Some(&[]), &settings));
    assert!(!merged(&[0.1], None, &settings));
    settings.hyde_mode = HyDEMode::Off;
    assert!(!merged(&[0.1], Some(&[0.9]), &settings));
}

#[test]
fn topology_expansion_adds_parent_before_child() {
    let mut parent = chunk(1, "class Player {\n    void Move() {}\n}", None);
    parent.topology.children.push(CodeChunkId(2));
    let child = chunk(2, "void Move() {}", Some(1));
    let index = CodeSearchIndex::from_chunks(vec![parent, child]);
    let settings = TopologyExpansionRuntimeSettings {
        include_parent: true,
        include_siblings: false,
        max_parent_bytes: 1000,
        max_total_expanded_bytes: 2000,
    };
    let expanded = expand_topology(&index, &[CodeChunkId(2)], &settings);
    assert_eq!(expanded, vec![CodeChunkId(1), CodeChunkId(2)]);
}

#[test]
fn topology_expansion_keeps_its_budget() {
    let mut first = chunk(1, "aaaa", None);
    first.topology.next_sibling = Some(CodeChunkId(2));
    let mut second = chunk(2, "bbbb", Some(9));
    second.topology.previous_sibling = Some(CodeChunkId(1));
    second.topology.next_sibling = Some(CodeChunkId(3));
    let third = chunk(3, "cccc", None);
    let index = CodeSearchIndex::from_chunks(vec![first, second, third]);
    let settings = |siblings, total| TopologyExpansionRuntimeSettings {
        include_parent: true,
        include_siblings: siblings,
        max_parent_bytes: 3,
        max_total_expanded_bytes: total,
    };
    let expand = |ids: &[usize], siblings, total| {
        let ids: Vec<CodeChunkId> = ids.iter().map(|id| CodeChunkId(*id)).collect();
        expand_topology(&index, &ids, &settings(siblings, total))
            .into_iter()
            .map(|id| id.0)
            .collect::<Vec<_>>()
    };
    assert_eq!(expand(&[2], true, 100), vec![1, 2, 3]);
    assert_eq!(expand(&[2], true, 11), vec![1, 2]);
    assert_eq!(expand(&[2], true, 7), vec![1]);
    assert_eq!(expand(&[2], false, 100), vec![2]);
    assert_eq!(expand(&[2, 2, 7, 3], false, 100), vec![2, 3]);
    assert!(expand(&[2], false, 3).is_empty());
    let mut child = chunk(5, "d", Some(6));
    child.topology.next_sibling = Some(CodeChunkId(7));
    let index = CodeSearchIndex::from_chunks(vec![
        child,
        chunk(6, "large parent", None),
        chunk(7, "large sibling", None),
    ]);
    assert_eq!(
        expand_topology(&index, &[CodeChunkId(5)], &settings(true, 100)),
        vec![CodeChunkId(5), CodeChunkId(7)]
    );
}

#[test]
fn large_parents_and_repeated_chunks_are_passed_over() {
    let index = CodeSearchIndex::from_chunks(vec![chunk(1, "aaaa", None)]);
    let mut total = 5;
    let mut seen = HashSet::new();
    let mut expanded = Vec::new();
    add_chunk_if_within_budget(
        &index, CodeChunkId(1), Some(3), 100, &mut total, &mut seen, &mut expanded,
    );
    assert_eq!(total, 5);
    add_chunk_if_within_budget(
        &index, CodeChunkId(2), None, 100, &mut total, &mut seen, &mut expanded,
    );
    assert!(expanded.is_empty());
    add_chunk_if_within_budget(
        &index, CodeChunkId(1), Some(4), 9, &mut total, &mut seen, &mut expanded,
    );
    add_chunk_if_within_budget(
        &index, CodeChunkId(1), Some(4), 100, &mut total, &mut seen, &mut expanded,
    );
    assert_eq!(total, 9);
    assert_eq!(expanded, vec![CodeChunkId(1)]);
    assert!(seen.contains(&1));
}
