use semantic_search::index::CodeChunkId;
use semantic_search::output::{
    format_semantic_search_matches, tool_result_content, SemanticSearchCodeMatch,
    SemanticSearchCodeToolOutput,
};
use semantic_search::project::{
    collect_semantic_search_project_files, index_file, ProjectEntry, ProjectIndexBuilder,
    SemanticSearchIndexingSettings,
};
use semantic_search::provider::RerankResult;
use semantic_search::ranking::{ScoredChunk, RANK_CONSTANT};
use semantic_search::score::Score;
use semantic_search::search::{
    plan_rerank, query_ranks, run_semantic_search_pass, PassStep, SearchPass, SemanticSearchMatch,
    SemanticSearchResult,
};
use semantic_search::settings::{
    HyDEMode, LanguageModelSelection, SemanticSearchApiFormat, SemanticSearchHyDESettings,
    SemanticSearchModelSelection, SemanticSearchRuntimeSettings, SemanticSearchSettings,
    SemanticSearchTopologyExpansionSettings,
};
use semantic_search::store::CodeSearchIndex;
use semantic_search::syntax::BufferSnapshot;
use semantic_search::tool::{
    advance, initial_title, semantic_search_cancelled_output, start,
    with_semantic_search_cancellation, SemanticSearchCodeToolInput, ToolAction, ToolEvent,
    ToolState, NAME,
};
use semantic_search::topology::TopologyExpansionRuntimeSettings;
use semantic_search::wide::WideScore;
use std::collections::{HashMap, VecDeque};

fn score(value: f32) -> Score {
    Score {
        bits: value.to_bits(),
    }
}

fn wide(value: f64) -> WideScore {
    WideScore {
        bits: value.to_bits(),
    }
}

fn test_model_selection(
    provider: &str,
    model: &str,
    api_format: SemanticSearchApiFormat,
) -> SemanticSearchModelSelection {
    SemanticSearchModelSelection {
        provider: provider.to_string(),
        model: model.to_string(),
        api_format,
    }
}

fn settings(hyde_mode: HyDEMode, threshold: f32, include_hyde_model: bool) -> SemanticSearchSettings {
    SemanticSearchSettings {
        enabled: true,
        embedding: Some(test_model_selection(
            "local-embeddings",
            "embedding-model",
            SemanticSearchApiFormat::OpenAiEmbeddings,
        )),
        reranker: Some(test_model_selection(
            "local-reranker",
            "reranker-model",
            SemanticSearchApiFormat::JinaRerank,
        )),
        candidate_limit: 80,
        rerank_limit: 30,
        max_results: 8,
        max_indexed_file_bytes: 1_000_000,
        chunk_max_non_whitespace_size: 1600,
        hyde: SemanticSearchHyDESettings {
            mode: hyde_mode,
            threshold: score(threshold),
            model: include_hyde_model.then_some(LanguageModelSelection {
                provider: "local-hyde".to_string(),
                model: "hyde-model".to_string(),
            }),
        },
        topology_expansion: SemanticSearchTopologyExpansionSettings {
            include_parent: true,
            include_siblings: false,
            max_parent_bytes: 12_000,
            max_total_expanded_bytes: 24_000,
        },
    }
}

fn input(query: &str) -> SemanticSearchCodeToolInput {
    SemanticSearchCodeToolInput {
        query: query.to_string(),
        include_pattern: Some("root/src/**/*.rs".to_string()),
        max_results: Some(1),
        expand_context: Some(false),
    }
}

/// A tool call with fakes for everything outside the library.
struct Call {
    files: Vec<(&'static str, &'static str)>,
    embeddings: HashMap<String, Vec<f32>>,
    reranks: VecDeque<Vec<(usize, f32)>>,
    description: Result<String, String>,
    cancel_before: Option<&'static str>,
    made_providers: usize,
    written_descriptions: usize,
    max_results: Option<usize>,
    notices: Vec<String>,
}

impl Call {
    fn new(embeddings: Vec<(&str, Vec<f32>)>, reranks: Vec<Vec<(usize, f32)>>) -> Self {
        Self {
            files: vec![
                ("src/auth.rs", "fn retry_login() { backoff(); }"),
                ("src/ui.rs", "fn render_button() {}"),
            ],
            embeddings: embeddings
                .into_iter()
                .map(|(text, embedding)| (text.to_string(), embedding))
                .collect(),
            reranks: reranks.into_iter().collect(),
            description: Err("no description".to_string()),
            cancel_before: None,
            made_providers: 0,
            written_descriptions: 0,
            max_results: Some(1),
            notices: Vec::new(),
        }
    }

    fn embed(&self, text: &str) -> Result<Vec<f32>, String> {
        self.embeddings
            .get(text)
            .cloned()
            .ok_or_else(|| format!("missing fake embedding for {text}"))
    }

    fn build_index(&self, settings: &SemanticSearchIndexingSettings) -> CodeSearchIndex {
        let entries = self
            .files
            .iter()
            .map(|(path, text)| ProjectEntry {
                worktree_id: 1,
                path: path.to_string(),
                display_path: format!("root/{path}"),
                is_file: true,
                is_ignored: false,
                size: text.len() as u64,
                matches_pattern: settings
                    .include_pattern
                    .as_ref()
                    .map(|_| path.ends_with(".rs")),
                globally_excluded: false,
                globally_private: false,
                worktree_excluded: false,
                worktree_private: false,
            })
            .collect();
        let mut builder = ProjectIndexBuilder::new();
        for file in collect_semantic_search_project_files(entries, settings) {
            let (_, text) = self
                .files
                .iter()
                .find(|(path, _)| *path == file.path)
                .unwrap();
            let snapshot = BufferSnapshot {
                text: text.to_string(),
                syntax_layers: Vec::new(),
            };
            let chunks = index_file(&file.display_path, &snapshot, settings);
            builder = builder.add_file(chunks, Some(file.worktree_id));
        }
        builder.finish()
    }

    fn run_pass(
        &mut self,
        index: &CodeSearchIndex,
        query: &str,
        settings: &SemanticSearchRuntimeSettings,
        pass: SearchPass,
    ) -> Result<SemanticSearchResult, String> {
        let query_embedding = self.embed(query)?;
        let similarities = index
            .chunks()
            .into_iter()
            .map(|chunk| ScoredChunk {
                chunk_id: chunk.id,
                score: score(
                    query_embedding
                        .iter()
                        .zip(chunk.embedding.iter())
                        .map(|(left, right)| left * f32::from_bits(*right))
                        .sum(),
                ),
            })
            .collect();
        let scored = query_ranks(index, query, similarities)
            .into_iter()
            .map(|chunk| ScoredChunk {
                chunk_id: chunk.chunk_id,
                score: score(
                    chunk
                        .ranks
                        .iter()
                        .map(|rank| 1.0 / (RANK_CONSTANT as f32 + *rank as f32 + 1.0))
                        .sum(),
                ),
            })
            .collect();
        match plan_rerank(index, scored, settings, pass) {
            PassStep::Finished(result) => Ok(result),
            PassStep::Rerank(plan) => {
                let reranked: Vec<RerankResult> = self
                    .reranks
                    .pop_front()
                    .expect("a fake rerank result should be there")
                    .into_iter()
                    .take(plan.top_n)
                    .map(|(document_index, value)| RerankResult {
                        document_index,
                        score: score(value),
                    })
                    .collect();
                run_semantic_search_pass(&plan.candidates, &reranked, settings, pass)
            }
        }
    }

    fn run(
        &mut self,
        query: &str,
        settings: SemanticSearchSettings,
    ) -> Result<SemanticSearchCodeToolOutput, SemanticSearchCodeToolOutput> {
        let mut settings = Some(settings);
        let mut step = start();
        let mut cancelled = false;
        loop {
            if let Some(notice) = &step.notice {
                self.notices.push(notice.content.clone());
            }
            let name = match &step.action {
                ToolAction::ReceiveInput => "input",
                ToolAction::ReadSettings => "settings",
                ToolAction::MakeProviders => "providers",
                ToolAction::BuildIndex(_) => "index",
                ToolAction::EmbedTexts(_) => "embeddings",
                ToolAction::AnswerQuery => "query",
                ToolAction::WriteDescription => "description",
                ToolAction::RunSecondPass(_) => "second",
                ToolAction::CheckCancellation => "check",
                ToolAction::Finish(_) => "finish",
            };
            if self.cancel_before == Some(name) {
                cancelled = true;
            }
            let event = match step.action {
                ToolAction::ReceiveInput => {
                    let mut received = input(query);
                    received.max_results = self.max_results;
                    ToolEvent::InputReceived(Some(Ok(received)))
                }
                ToolAction::ReadSettings => ToolEvent::SettingsRead(settings.take().unwrap()),
                ToolAction::MakeProviders => {
                    self.made_providers += 1;
                    ToolEvent::ProvidersMade(Ok(()))
                }
                ToolAction::BuildIndex(indexing) => {
                    ToolEvent::IndexBuilt(Some(Ok(self.build_index(&indexing))))
                }
                ToolAction::EmbedTexts(texts) => ToolEvent::EmbeddingsMade(Some(
                    texts
                        .iter()
                        .map(|text| {
                            self.embed(text).map(|embedding| {
                                embedding.iter().map(|value| value.to_bits()).collect()
                            })
                        })
                        .collect(),
                )),
                ToolAction::AnswerQuery => match &step.state {
                    ToolState::AwaitingAnswer(search, index) => {
                        let answer = self.run_pass(
                            index,
                            &search.input.query,
                            &search.runtime_settings,
                            SearchPass::First,
                        );
                        ToolEvent::QueryAnswered(Some(answer))
                    }
                    _ => panic!("a query needs an index"),
                },
                ToolAction::WriteDescription => {
                    self.written_descriptions += 1;
                    ToolEvent::DescriptionWritten(Some(self.description.clone()))
                }
                ToolAction::RunSecondPass(search_text) => match &step.state {
                    ToolState::AwaitingSecondPass(search, index, _) => {
                        let answer = self.run_pass(
                            index,
                            &search_text,
                            &search.runtime_settings,
                            SearchPass::Second,
                        );
                        ToolEvent::SecondPassRun(Some(answer.ok()))
                    }
                    _ => panic!("a second pass needs a first one"),
                },
                ToolAction::CheckCancellation => ToolEvent::CancellationChecked,
                ToolAction::Finish(report) => return report,
            };
            step = advance(step.state, event, cancelled).expect("the state waits for this event");
        }
    }
}

fn matches_of(output: SemanticSearchCodeToolOutput) -> Vec<SemanticSearchCodeMatch> {
    match output {
        SemanticSearchCodeToolOutput::Success { matches } => matches,
        _ => panic!("expected success output"),
    }
}

fn retry_login_call() -> Call {
    Call::new(
        vec![
            ("retry login", vec![1.0, 0.0]),
            ("unclear request", vec![0.1, 0.9]),
            ("retry backoff implementation", vec![1.0, 0.0]),
            ("fn retry_login() { backoff(); }", vec![0.9, 0.1]),
            ("fn render_button() {}", vec![0.1, 0.9]),
        ],
        vec![vec![(0, 0.93), (1, 0.1)]],
    )
}

#[test]
fn semantic_search_code_returns_ranked_project_snippets() {
    let mut call = retry_login_call();
    let output = call
        .run("retry login", settings(HyDEMode::Off, 0.6, false))
        .expect("tool should succeed");
    let matches = matches_of(output);
    assert_eq!(matches.len(), 1);
    assert!(matches[0].path.ends_with("src/auth.rs"));
    assert!(matches[0].snippet.contains("retry_login"));
    assert_eq!(
        call.notices[..2],
        [
            "Building semantic code index...".to_string(),
            "Running semantic code query...".to_string()
        ]
    );
    assert!(call.notices[2].starts_with("Found 1 semantic code search match:"));
}

#[test]
fn no_more_matches_are_reported_than_were_asked_for() {
    for (asked, reported) in [
        (Some(0), 0),
        (Some(1), 1),
        (Some(2), 2),
        (Some(9), 2),
        (None, 2),
    ] {
        let mut call = retry_login_call();
        call.max_results = asked;
        let output = call
            .run("retry login", settings(HyDEMode::Off, 0.6, false))
            .expect("tool should succeed");
        assert_eq!(matches_of(output).len(), reported, "{asked:?}");
    }
    let mut call = retry_login_call();
    call.max_results = Some(0);
    let output = call
        .run("retry login", settings(HyDEMode::Off, 0.6, false))
        .unwrap();
    assert_eq!(
        tool_result_content(&output),
        "No semantic code search matches found"
    );
}

#[test]
fn semantic_search_code_runs_hyde_after_low_score_first_pass() {
    let mut call = retry_login_call();
    call.reranks = VecDeque::from(vec![
        vec![(1, 0.2), (0, 0.1)],
        vec![(0, 0.91), (1, 0.1)],
    ]);
    call.description = Ok("retry backoff implementation".to_string());
    let output = call
        .run("unclear request", settings(HyDEMode::Fallback, 0.6, true))
        .expect("tool should succeed");
    let matches = matches_of(output);
    assert_eq!(call.written_descriptions, 1);
    assert_eq!(matches[0].source, "hyde_fallback");
    assert!(matches[0].path.ends_with("src/auth.rs"));
    assert_eq!(call.notices[2], "Running HyDE semantic code fallback...");
}

#[test]
fn semantic_search_cancellation_checks_cancelled_state_after_future_completes() {
    let output = with_semantic_search_cancellation(Some("completed"), true)
        .expect_err("helper should return cancellation when cancellation was already signaled");
    let content = tool_result_content(&output);
    assert!(content.to_lowercase().contains("cancel"));
    assert_eq!(output, semantic_search_cancelled_output());
    assert!(with_semantic_search_cancellation::<u8>(None, false).is_err());
    assert_eq!(with_semantic_search_cancellation(Some(3u8), false), Ok(3));
}

#[test]
fn semantic_search_code_cancels_before_provider_call() {
    let mut call = retry_login_call();
    call.cancel_before = Some("input");
    let output = call
        .run("retry login", settings(HyDEMode::Off, 0.6, false))
        .expect_err("tool should return cancellation error");
    let content = tool_result_content(&output);
    assert!(content.to_lowercase().contains("cancel"));
    assert_eq!(call.made_providers, 0);
}

#[test]
fn every_later_cancellation_ends_the_call_too() {
    for moment in ["index", "embeddings", "query", "description", "second", "check"] {
        let mut call = retry_login_call();
        call.reranks = VecDeque::from(vec![vec![(1, 0.2)], vec![(0, 0.91)]]);
        call.description = Ok("retry backoff implementation".to_string());
        call.cancel_before = Some(moment);
        let output = call.run("unclear request", settings(HyDEMode::Fallback, 0.6, true));
        assert_eq!(output, Err(semantic_search_cancelled_output()), "{moment}");
    }
}

#[test]
fn semantic_search_code_skips_hyde_when_first_pass_score_is_high() {
    let mut call = retry_login_call();
    call.description = Ok("unused hyde text".to_string());
    let output = call
        .run("retry login", settings(HyDEMode::Fallback, 0.6, true))
        .expect("tool should succeed");
    let matches = matches_of(output);
    assert_eq!(call.written_descriptions, 0);
    assert_eq!(matches[0].source, "reranked");
    assert!(matches[0].path.ends_with("src/auth.rs"));
}

#[test]
fn a_missing_or_empty_description_keeps_the_first_pass() {
    for description in [Err("down".to_string()), Ok(String::new())] {
        let mut call = retry_login_call();
        call.reranks = VecDeque::from(vec![vec![(0, 0.2)]]);
        call.description = description;
        let output = call
            .run("unclear request", settings(HyDEMode::Fallback, 0.6, true))
            .expect("tool should succeed");
        let matches = matches_of(output);
        assert_eq!(call.written_descriptions, 1);
        assert_eq!(matches[0].source, "reranked");
        assert!(matches[0].path.ends_with("src/ui.rs"));
    }
    let mut call = retry_login_call();
    call.reranks = VecDeque::from(vec![vec![(1, 0.2)]]);
    let output = call.run("unclear request", settings(HyDEMode::Fallback, 0.6, false));
    assert!(output.is_ok());
    assert_eq!(call.written_descriptions, 0);
}

#[test]
fn each_action_comes_with_the_state_that_waits_for_it() {
    let step = start();
    assert!(matches!(step.action, ToolAction::ReceiveInput));
    let event = ToolEvent::InputReceived(Some(Ok(input("q"))));
    let step = advance(step.state, event, false).unwrap();
    assert!(matches!(step.action, ToolAction::ReadSettings));
    assert!(matches!(step.state, ToolState::AwaitingSettings(_)));
    let event = ToolEvent::SettingsRead(settings(HyDEMode::Off, 0.6, false));
    let step = advance(step.state, event, false).unwrap();
    assert!(matches!(step.action, ToolAction::MakeProviders));
    assert!(matches!(step.state, ToolState::AwaitingProviders(_)));
    let step = advance(step.state, ToolEvent::ProvidersMade(Ok(())), false).unwrap();
    assert!(matches!(step.action, ToolAction::BuildIndex(_)));
    assert!(matches!(step.state, ToolState::AwaitingIndex(_)));
    let step = advance(step.state, ToolEvent::IndexBuilt(None), true).unwrap();
    assert!(matches!(step.action, ToolAction::Finish(Err(_))));
    assert!(matches!(step.state, ToolState::Done));
    assert!(advance(step.state, ToolEvent::CancellationChecked, false).is_none());
}

#[test]
fn a_disabled_or_unusable_configuration_ends_the_call() {
    let mut off = settings(HyDEMode::Off, 0.6, false);
    off.enabled = false;
    let mut call = retry_login_call();
    assert_eq!(
        call.run("x", off),
        Ok(SemanticSearchCodeToolOutput::Disabled)
    );
    let mut unusable = settings(HyDEMode::Off, 0.6, false);
    unusable.reranker = None;
    assert_eq!(
        call.run("x", unusable),
        Err(SemanticSearchCodeToolOutput::ConfigurationError {
            message: "Semantic code search requires `agent.semantic_search.reranker`.".to_string()
        })
    );
    assert_eq!(call.made_providers, 0);
}

fn message_of(state: ToolState, event: ToolEvent) -> String {
    let step = advance(state, event, false).expect("the state waits for this event");
    match step.action {
        ToolAction::Finish(Err(SemanticSearchCodeToolOutput::ConfigurationError { message })) => {
            message
        }
        _ => panic!("expected a failure"),
    }
}

#[test]
fn failures_are_reported_with_what_failed() {
    assert_eq!(
        message_of(
            ToolState::AwaitingInput,
            ToolEvent::InputReceived(Some(Err("no json".to_string())))
        ),
        "Failed to receive semantic code search input: no json"
    );
    let search = || match advance(
        ToolState::AwaitingSettings(input("x")),
        ToolEvent::SettingsRead(settings(HyDEMode::Off, 0.6, false)),
        false,
    )
    .unwrap()
    .state
    {
        ToolState::AwaitingProviders(search) => search,
        _ => panic!("providers come after settings"),
    };
    let index = || CodeSearchIndex::from_chunks(Vec::new());
    let error = || Some(Err("broken".to_string()));
    assert_eq!(
        message_of(
            ToolState::AwaitingProviders(search()),
            ToolEvent::ProvidersMade(Err("broken".to_string()))
        ),
        "broken"
    );
    assert_eq!(
        message_of(
            ToolState::AwaitingIndex(search()),
            ToolEvent::IndexBuilt(Some(Err("broken".to_string())))
        ),
        "Failed to build semantic search index: broken"
    );
    assert_eq!(
        message_of(
            ToolState::AwaitingEmbeddings(search(), index()),
            ToolEvent::EmbeddingsMade(error())
        ),
        "Failed to embed semantic search index: broken"
    );
    assert_eq!(
        message_of(
            ToolState::AwaitingEmbeddings(search(), index()),
            ToolEvent::EmbeddingsMade(Some(Ok(vec![Vec::new()])))
        ),
        "Failed to embed semantic search index: embedding provider returned 1 embeddings for 0 indexed chunks"
    );
    assert_eq!(
        message_of(
            ToolState::AwaitingAnswer(search(), index()),
            ToolEvent::QueryAnswered(Some(Err("broken".to_string())))
        ),
        "Semantic code search failed: broken"
    );
    assert!(advance(ToolState::Done, ToolEvent::CancellationChecked, false).is_none());
    assert!(advance(ToolState::AwaitingInput, ToolEvent::CancellationChecked, false).is_none());
}

#[test]
fn titles_name_the_query() {
    assert_eq!(
        initial_title(Some("`retry login`")),
        "Semantically search code for `retry login`"
    );
    assert_eq!(initial_title(None), "Semantically search code");
    assert_eq!(NAME, "semantic_search_code");
}

#[test]
fn disabled_output_is_clear_for_llm() {
    let output = SemanticSearchCodeToolOutput::Disabled;
    let content = tool_result_content(&output);
    assert!(content.contains("Semantic code search is disabled"));
    assert!(content.contains("agent.semantic_search.enabled"));
}

#[test]
fn result_output_includes_path_line_score_and_snippet() {
    let output = SemanticSearchCodeToolOutput::Success {
        matches: vec![SemanticSearchCodeMatch {
            path: "root/src/player.rs".to_string(),
            line_range: 10..14,
            score: wide(0.87),
            source: "reranked".to_string(),
            snippet: "fn movement_speed(&self) -> f32 { self.speed }".to_string(),
            expanded_context: Vec::new(),
        }],
    };
    let content = tool_result_content(&output);
    assert!(content.contains("root/src/player.rs:11-14"));
    assert!(content.contains("score: 0.870"));
    assert!(content.contains("movement_speed"));
}

#[test]
fn success_output_includes_expanded_parent_context() {
    let output = SemanticSearchCodeToolOutput::Success {
        matches: vec![SemanticSearchCodeMatch {
            path: "root/src/player.rs".to_string(),
            line_range: 20..22,
            score: wide(0.91),
            source: "hyde_fallback".to_string(),
            snippet: "fn movement_speed(&self) -> f32 { self.speed }".to_string(),
            expanded_context: vec!["impl Player { ... }".to_string()],
        }],
    };
    let content = tool_result_content(&output);
    assert!(content.contains("hyde_fallback"));
    assert!(content.contains("source: hyde_fallback"));
    assert!(content.contains("Expanded context"));
    assert!(content.contains("impl Player"));
}

#[test]
fn outputs_are_written_exactly() {
    let found = |expanded_context: Vec<String>| SemanticSearchCodeMatch {
        path: "a.rs".to_string(),
        line_range: u32::MAX..7,
        score: wide(0.5),
        source: "reranked".to_string(),
        snippet: "x".to_string(),
        expanded_context,
    };
    let output = SemanticSearchCodeToolOutput::Success {
        matches: vec![found(Vec::new()), found(vec!["y".to_string(), "z".to_string()])],
    };
    assert_eq!(
        tool_result_content(&output),
        "Found 2 semantic code search matches:\n\n## a.rs:4294967295-7\nscore: 0.500\nsource: reranked\n\n```\nx\n```\n\n## a.rs:4294967295-7\nscore: 0.500\nsource: reranked\n\n```\nx\n```\n\nExpanded context:\n\n```\ny\n```\n\n```\nz\n```"
    );
    assert_eq!(
        tool_result_content(&SemanticSearchCodeToolOutput::Success {
            matches: Vec::new()
        }),
        "No semantic code search matches found"
    );
    assert_eq!(
        tool_result_content(&SemanticSearchCodeToolOutput::ConfigurationError {
            message: "m".to_string()
        }),
        "m"
    );
}

#[test]
fn matches_are_reported_with_slashes_and_surroundings() {
    let settings = SemanticSearchIndexingSettings {
        include_pattern: None,
        max_indexed_file_bytes: 100,
        chunk_max_non_whitespace_size: 4,
    };
    let snapshot = BufferSnapshot {
        text: "aaaa\nbbbb\ncccc".to_string(),
        syntax_layers: Vec::new(),
    };
    let index = ProjectIndexBuilder::new()
        .add_file(index_file("root\\src\\a.txt", &snapshot, &settings), None)
        .finish();
    let found = |id| SemanticSearchMatch {
        chunk_id: CodeChunkId(id),
        rerank_score: score(0.25),
        source: "reranked",
    };
    let result = SemanticSearchResult {
        matches: vec![found(2), found(9)],
        used_hyde: false,
    };
    let expansion = TopologyExpansionRuntimeSettings {
        include_parent: true,
        include_siblings: true,
        max_parent_bytes: 100,
        max_total_expanded_bytes: 100,
    };
    let matches = format_semantic_search_matches(&index, &result, &expansion);
    assert_eq!(
        matches,
        vec![SemanticSearchCodeMatch {
            path: "root/src/a.txt".to_string(),
            line_range: 1..3,
            score: wide(0.25),
            source: "reranked".to_string(),
            snippet: "bbbb\n".to_string(),
            expanded_context: vec!["aaaa\n".to_string(), "cccc".to_string()],
        }]
    );
}
