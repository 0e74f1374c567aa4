use semantic_search::provider::{
    allows_empty_semantic_api_key, api_key_env_var, authorization_header, check_status,
    embeddings_endpoint, is_local_endpoint, openai_compatible_api_key_env_var, post_failure,
    rerank_endpoint,
    resolve_semantic_provider_config, resolve_semantic_provider_config_at,
    resolve_semantic_provider_config_from_values, semantic_search_providers,
    validate_semantic_search_model_role, JinaRerankResponse, JinaRerankResponseItem,
    JinaRerankerProvider, OpenAiCompatibleEmbeddingProvider, OpenAiEmbeddingData,
    OpenAiEmbeddingsResponse, PostStep, RerankResult,
    SemanticSearchHttpProviderConfig, SemanticSearchProviderRole, OPEN_AI_API_URL,
};
use semantic_search::score::Score;
use semantic_search::settings::{
    validate_semantic_search_configuration, HyDEMode, SemanticSearchApiFormat,
    SemanticSearchHyDESettings, SemanticSearchModelSelection, SemanticSearchRuntimeSettings,
    SemanticSearchSettings, SemanticSearchTopologyExpansionSettings,
};

fn score(value: f32) -> Score {
    Score {
        bits: value.to_bits(),
    }
}

fn bits(values: &[f32]) -> Vec<u32> {
    values.iter().map(|value| value.to_bits()).collect()
}

fn selection(
    provider: &str,
    model: &str,
    api_format: SemanticSearchApiFormat,
) -> SemanticSearchModelSelection {
    SemanticSearchModelSelection {
        provider: provider.to_string(),
        model: model.to_string(),
        api_format,
    }
}

fn configured_model_selection(
    api_format: SemanticSearchApiFormat,
) -> SemanticSearchModelSelection {
    selection("test-provider", "test-model", api_format)
}

fn default_settings() -> SemanticSearchSettings {
    SemanticSearchSettings {
        enabled: false,
        embedding: None,
        reranker: None,
        candidate_limit: 80,
        rerank_limit: 30,
        max_results: 8,
        max_indexed_file_bytes: 1_000_000,
        chunk_max_non_whitespace_size: 1600,
        hyde: SemanticSearchHyDESettings {
            mode: HyDEMode::Off,
            threshold: score(0.6),
            model: None,
        },
        topology_expansion: SemanticSearchTopologyExpansionSettings {
            include_parent: true,
            include_siblings: false,
            max_parent_bytes: 12_000,
            max_total_expanded_bytes: 24_000,
        },
    }
}

fn resolve_for_test(
    selection: &SemanticSearchModelSelection,
    role: SemanticSearchProviderRole,
    openai_api_url: Option<&str>,
    openai_compatible: Vec<(&str, &str)>,
    api_key: Option<&str>,
) -> Result<SemanticSearchHttpProviderConfig, String> {
    resolve_semantic_provider_config_from_values(
        selection,
        role,
        openai_api_url,
        &openai_compatible
            .into_iter()
            .map(|(provider, api_url)| (provider.to_string(), api_url.to_string()))
            .collect::<Vec<_>>(),
        api_key.map(|key| key.to_string()),
    )
}

#[test]
fn embeddings_endpoint_uses_versioned_api_base() {
    assert_eq!(
        embeddings_endpoint("https://api.openai.com/v1"),
        "https://api.openai.com/v1/embeddings"
    );
    assert_eq!(
        embeddings_endpoint("https://api.openai.com/v1/"),
        "https://api.openai.com/v1/embeddings"
    );
}

#[test]
fn rerank_endpoint_uses_versioned_api_base() {
    assert_eq!(
        rerank_endpoint("https://api.jina.ai/v1"),
        "https://api.jina.ai/v1/rerank"
    );
    assert_eq!(
        rerank_endpoint("https://api.jina.ai/v1/"),
        "https://api.jina.ai/v1/rerank"
    );
}

#[test]
fn openai_compatible_env_var_name_uses_upper_snake_provider_id() {
    assert_eq!(
        openai_compatible_api_key_env_var("local-embeddings"),
        "LOCAL_EMBEDDINGS_API_KEY"
    );
    assert_eq!(
        openai_compatible_api_key_env_var("jina.rerank"),
        "JINA_RERANK_API_KEY"
    );
}

#[test]
fn env_var_names_split_words_at_capitals_and_runs_of_separators() {
    assert_eq!(openai_compatible_api_key_env_var("openAi"), "OPEN_AI_API_KEY");
    assert_eq!(openai_compatible_api_key_env_var("LMStudio"), "L_M_STUDIO_API_KEY");
    assert_eq!(openai_compatible_api_key_env_var("--a..B--"), "A_B_API_KEY");
    assert_eq!(openai_compatible_api_key_env_var("é"), "OPENAI_COMPATIBLE_API_KEY");
    assert_eq!(openai_compatible_api_key_env_var(""), "OPENAI_COMPATIBLE_API_KEY");
    assert_eq!(api_key_env_var("openai"), "OPENAI_API_KEY");
    assert_eq!(api_key_env_var("jina"), "JINA_API_KEY");
}

#[test]
fn local_api_urls_allow_empty_api_key() {
    assert!(allows_empty_semantic_api_key("http://localhost:1234/v1"));
    assert!(allows_empty_semantic_api_key("http://127.0.0.1:8080/v1"));
    assert!(allows_empty_semantic_api_key("http://[::1]:8080/v1"));
    assert!(!allows_empty_semantic_api_key("https://api.openai.com/v1"));
}

#[test]
fn local_api_urls_reject_loopback_lookalike_hosts() {
    assert!(!allows_empty_semantic_api_key("http://localhost.evil:1234/v1"));
    assert!(!allows_empty_semantic_api_key("http://127.0.0.1.evil:8080/v1"));
    assert!(!allows_empty_semantic_api_key("http://127.0.0.2:8080/v1"));
    assert!(!allows_empty_semantic_api_key("https://localhost:1234/v1"));
}

#[test]
fn loopback_addresses_are_known_in_every_notation() {
    assert!(allows_empty_semantic_api_key("http://LOCALHOST/"));
    assert!(allows_empty_semantic_api_key("http://127.1/"));
    assert!(allows_empty_semantic_api_key("http://0x7f000001/"));
    assert!(allows_empty_semantic_api_key("http://[0:0:0:0:0:0:0:1]/"));
    assert!(allows_empty_semantic_api_key("http://[::0.0.0.1]/"));
    assert!(!allows_empty_semantic_api_key("http://[::2]/"));
    assert!(!allows_empty_semantic_api_key("not a url"));
    assert!(!allows_empty_semantic_api_key("http:"));
    assert!(!allows_empty_semantic_api_key("data:text/plain,x"));
}

#[test]
fn the_parts_of_a_url_decide_whether_it_is_local() {
    let parts = |scheme: &str, host: Option<&str>| {
        Some((scheme.to_string(), host.map(|host| host.to_string())))
    };
    assert!(is_local_endpoint(&parts("http", Some("localhost"))));
    assert!(is_local_endpoint(&parts("http", Some("127.0.0.1"))));
    assert!(is_local_endpoint(&parts("http", Some("[::1]"))));
    assert!(!is_local_endpoint(&parts("https", Some("localhost"))));
    assert!(!is_local_endpoint(&parts("http", Some("example.test"))));
    assert!(!is_local_endpoint(&parts("http", None)));
    assert!(!is_local_endpoint(&None));
}

#[test]
fn semantic_provider_config_debug_redacts_api_key() {
    let config = SemanticSearchHttpProviderConfig {
        api_url: "https://api.openai.com/v1".to_string(),
        api_key: Some("secret-key".to_string()),
        model: "text-embedding-3-small".to_string(),
    };

    let debug = format!("{:?}", config.redacted());

    assert!(debug.contains("<redacted>"));
    assert!(!debug.contains("secret-key"));
    assert!(debug.contains("https://api.openai.com/v1"));
    assert!(debug.contains("text-embedding-3-small"));
    let keyless = SemanticSearchHttpProviderConfig {
        api_key: None,
        ..config
    };
    assert_eq!(keyless.redacted().api_key, None);
}

#[test]
fn semantic_provider_config_uses_openai_settings() {
    let selection = selection(
        "openai",
        "text-embedding-3-small",
        SemanticSearchApiFormat::OpenAiEmbeddings,
    );

    let config = resolve_for_test(
        &selection,
        SemanticSearchProviderRole::Embedding,
        Some("https://api.openai.com/v1"),
        Vec::new(),
        Some("test-key"),
    )
    .ok()
    .expect("openai embedding config should resolve");

    assert_eq!(config.api_url, "https://api.openai.com/v1");
    assert_eq!(config.api_key.as_deref(), Some("test-key"));
    assert_eq!(config.model, "text-embedding-3-small");
}

#[test]
fn semantic_provider_config_rejects_unsupported_provider() {
    let selection = selection(
        "ollama",
        "nomic-embed-text",
        SemanticSearchApiFormat::OpenAiEmbeddings,
    );

    let error = resolve_for_test(
        &selection,
        SemanticSearchProviderRole::Embedding,
        None,
        Vec::new(),
        None,
    )
    .err()
    .unwrap();

    assert!(error.contains("Unsupported semantic search provider"));
    assert!(error.contains("language_models.openai_compatible"));
    assert_eq!(
        error,
        "Unsupported semantic search provider `ollama`. Configure it under `language_models.openai_compatible` for semantic search v1."
    );
}

#[test]
fn the_first_provider_of_a_name_counts() {
    let selection = selection("jina", "m", SemanticSearchApiFormat::JinaRerank);
    let listed = vec![
        ("other", "http://localhost/other"),
        ("jina", "http://localhost/first"),
        ("jina", "http://localhost/second"),
    ];
    let config = resolve_for_test(
        &selection,
        SemanticSearchProviderRole::Reranker,
        None,
        listed,
        None,
    )
    .ok()
    .unwrap();
    assert_eq!(config.api_url, "http://localhost/first");
    assert_eq!(config.api_key, None);
}

#[test]
fn every_fault_of_a_provider_is_reported() {
    let embeddings = SemanticSearchApiFormat::OpenAiEmbeddings;
    let rerank = SemanticSearchApiFormat::JinaRerank;
    let fault = |selection: &SemanticSearchModelSelection, role, key: Option<&str>| {
        resolve_for_test(
            selection,
            role,
            None,
            vec![("jina.rerank", "https://rerank.example")],
            key,
        )
        .err()
    };
    assert_eq!(
        fault(
            &selection("openai", "m", rerank),
            SemanticSearchProviderRole::Embedding,
            Some("k")
        )
        .as_deref(),
        Some("Semantic search embedding requires api_format `openai_embeddings`.")
    );
    assert_eq!(
        fault(
            &selection("openai", "m", embeddings),
            SemanticSearchProviderRole::Reranker,
            Some("k")
        )
        .as_deref(),
        Some("Semantic search reranker requires api_format `jina_rerank`.")
    );
    assert_eq!(
        fault(
            &selection("openai", "m", rerank),
            SemanticSearchProviderRole::Reranker,
            Some("k")
        )
        .as_deref(),
        Some("OpenAI is only supported for semantic search embeddings in v1")
    );
    assert_eq!(
        fault(
            &selection("openai", "m", embeddings),
            SemanticSearchProviderRole::Embedding,
            Some("")
        )
        .as_deref(),
        Some("Semantic search provider `openai` requires OPENAI_API_KEY.")
    );
    assert_eq!(
        fault(
            &selection("jina.rerank", "m", rerank),
            SemanticSearchProviderRole::Reranker,
            None
        )
        .as_deref(),
        Some("Semantic search provider `jina.rerank` requires JINA_RERANK_API_KEY.")
    );
    assert_eq!(
        fault(
            &selection("jina.rerank", "m", rerank),
            SemanticSearchProviderRole::Reranker,
            Some("k")
        ),
        None
    );
    assert!(validate_semantic_search_model_role(
        &selection("x", "m", embeddings),
        SemanticSearchProviderRole::Embedding
    )
    .is_ok());
    let local = resolve_semantic_provider_config_at(
        &selection("x", "m", embeddings),
        "http://localhost".to_string(),
        None,
        true,
    );
    assert!(local.is_ok());
    let remote = resolve_semantic_provider_config_at(
        &selection("x", "m", embeddings),
        "http://example.test".to_string(),
        None,
        false,
    );
    assert_eq!(
        remote.err().as_deref(),
        Some("Semantic search provider `x` requires X_API_KEY.")
    );
}

#[test]
fn an_empty_openai_address_is_the_usual_one() {
    let selection = selection("openai", "m", SemanticSearchApiFormat::OpenAiEmbeddings);
    let role = SemanticSearchProviderRole::Embedding;
    let key = || Some("k".to_string());
    let usual = resolve_semantic_provider_config(&selection, role, "", &[], key());
    assert_eq!(usual.ok().unwrap().api_url, OPEN_AI_API_URL);
    let own = resolve_semantic_provider_config(&selection, role, "https://x.test", &[], key());
    assert_eq!(own.ok().unwrap().api_url, "https://x.test");
    let absent = resolve_semantic_provider_config_from_values(&selection, role, None, &[], key());
    assert_eq!(absent.ok().unwrap().api_url, "https://api.openai.com/v1");
}

#[test]
fn openai_embedding_adapter_posts_to_embeddings_endpoint_with_bearer_token() {
    let provider = OpenAiCompatibleEmbeddingProvider::new(
        "https://example.test/".to_string(),
        "  secret-key  ".to_string(),
        "embedding-model".to_string(),
    );

    let request = provider.embed_inputs(vec!["alpha".to_string()]);
    let embeddings = provider
        .embed_batch(Ok(OpenAiEmbeddingsResponse {
            data: vec![OpenAiEmbeddingData {
                embedding: bits(&[0.1, 0.2]),
            }],
        }))
        .unwrap();

    assert_eq!(embeddings, vec![bits(&[0.1, 0.2])]);
    assert_eq!(request.uri, "https://example.test/embeddings");
    assert_eq!(request.authorization, "Bearer secret-key");
    assert_eq!(request.body.model, "embedding-model");
    assert_eq!(request.body.input[0], "alpha");
}

#[test]
fn jina_rerank_adapter_posts_to_rerank_endpoint_with_bearer_token() {
    let provider = JinaRerankerProvider::new(
        "https://rerank.example/".to_string(),
        "  rerank-key  ".to_string(),
        "rerank-model".to_string(),
    );

    let request = provider.rerank_top_n(
        "needle".to_string(),
        vec!["first".to_string(), "second".to_string()],
        1,
    );
    let results = provider
        .rerank_results(Ok(JinaRerankResponse {
            results: vec![JinaRerankResponseItem {
                index: 1,
                relevance_score: score(0.8),
            }],
        }))
        .unwrap();

    assert_eq!(
        results,
        vec![RerankResult {
            document_index: 1,
            score: score(0.8)
        }]
    );
    assert_eq!(request.uri, "https://rerank.example/rerank");
    assert_eq!(request.authorization, "Bearer rerank-key");
    assert_eq!(request.body.model, "rerank-model");
    assert_eq!(request.body.query, "needle");
    assert_eq!(request.body.documents[0], "first");
    assert_eq!(request.body.top_n, 1);
    let all = provider.rerank("needle".to_string(), vec!["a".to_string(), "b".to_string()]);
    assert_eq!(all.body.top_n, 2);
}

#[test]
fn adapter_non_success_error_omits_api_key() {
    let provider = OpenAiCompatibleEmbeddingProvider::new(
        "https://example.test".to_string(),
        "secret-key".to_string(),
        "embedding-model".to_string(),
    );
    let failed = check_status(500, "500 Internal Server Error").unwrap_err();
    let error = provider.embed_batch(Err(failed)).unwrap_err();

    assert!(error.contains("embedding-model"));
    assert!(error.contains("status 500"));
    assert!(!error.contains("secret-key"));
    for status in [200, 204, 299] {
        assert!(check_status(status, "").is_ok());
    }
    for status in [100, 199, 300, 404] {
        assert!(check_status(status, "").is_err());
    }
}

#[test]
fn adapter_malformed_json_error_mentions_deserialization() {
    let provider = JinaRerankerProvider::new(
        "https://rerank.example".to_string(),
        "rerank-key".to_string(),
        "rerank-model".to_string(),
    );
    let parsed = serde_json::from_str::<serde_json::Value>("not json")
        .map(|_| JinaRerankResponse {
            results: Vec::new(),
        })
        .map_err(|error| post_failure(PostStep::DeserializeAnswer, &error.to_string()));

    let error = provider.rerank_results(parsed).unwrap_err();

    assert!(error.contains("rerank-model"));
    assert!(error.contains("deserialize"));
}

#[test]
fn every_failed_step_of_a_request_is_named() {
    let shown = |step| post_failure(step, "e");
    assert_eq!(
        shown(PostStep::SerializeBody),
        "failed to serialize request body: e"
    );
    assert_eq!(
        shown(PostStep::BuildRequest),
        "failed to build HTTP request: e"
    );
    assert_eq!(shown(PostStep::Send), "HTTP request failed: e");
    assert_eq!(
        shown(PostStep::ReadAnswer),
        "failed to read HTTP response: e"
    );
    assert_eq!(
        shown(PostStep::DeserializeAnswer),
        "failed to deserialize response body: e"
    );
}

#[test]
fn env_var_names_keep_the_letters_and_hold_single_underscores() {
    for id in ["local-embeddings", "a__b", "-x-", "HTTPServer2", "é1é", "..."] {
        let name = openai_compatible_api_key_env_var(id);
        assert!(!name.contains("__"), "{name}");
        let kept: String = id.chars().filter(|c| c.is_ascii_alphanumeric()).collect();
        if !kept.is_empty() {
            assert_eq!(
                name.replace('_', ""),
                format!("{}APIKEY", kept.to_ascii_uppercase())
            );
        }
    }
}

#[test]
fn one_text_has_the_first_embedding() {
    let provider = OpenAiCompatibleEmbeddingProvider::new(
        "https://example.test".to_string(),
        String::new(),
        "m".to_string(),
    );
    assert_eq!(
        provider.embed(Ok(vec![vec![1], vec![2], vec![3]])),
        Ok(vec![1])
    );
    assert_eq!(
        provider.embed(Ok(Vec::new())),
        Err(
            "OpenAI-compatible embeddings response for model m did not include an embedding"
                .to_string()
        )
    );
    assert_eq!(
        provider.embed(Err("down".to_string())),
        Err("down".to_string())
    );
    assert_eq!(authorization_header("\t k \n"), "Bearer k");
}

#[test]
fn validate_configuration_rejects_disabled_semantic_search() {
    let settings = default_settings();

    let error = validate_semantic_search_configuration(&settings).unwrap_err();

    assert_eq!(
        error,
        "Semantic code search is disabled. Enable `agent.semantic_search.enabled`."
    );
}

#[test]
fn validate_configuration_rejects_missing_embedding() {
    let mut settings = default_settings();
    settings.enabled = true;
    settings.reranker = Some(configured_model_selection(
        SemanticSearchApiFormat::JinaRerank,
    ));

    let error = validate_semantic_search_configuration(&settings).unwrap_err();

    assert_eq!(
        error,
        "Semantic code search requires `agent.semantic_search.embedding`."
    );
}

#[test]
fn validate_configuration_rejects_missing_reranker() {
    let mut settings = default_settings();
    settings.enabled = true;
    settings.embedding = Some(configured_model_selection(
        SemanticSearchApiFormat::OpenAiEmbeddings,
    ));

    let error = validate_semantic_search_configuration(&settings).unwrap_err();

    assert_eq!(
        error,
        "Semantic code search requires `agent.semantic_search.reranker`."
    );
}

#[test]
fn validate_configuration_rejects_embedding_with_rerank_api_format() {
    let mut settings = default_settings();
    settings.enabled = true;
    settings.embedding = Some(configured_model_selection(
        SemanticSearchApiFormat::JinaRerank,
    ));
    settings.reranker = Some(configured_model_selection(
        SemanticSearchApiFormat::JinaRerank,
    ));

    let error = validate_semantic_search_configuration(&settings).unwrap_err();

    assert_eq!(
        error,
        "Semantic code search embedding must use `openai_embeddings` API format."
    );
}

#[test]
fn validate_configuration_rejects_reranker_with_embedding_api_format() {
    let mut settings = default_settings();
    settings.enabled = true;
    settings.embedding = Some(configured_model_selection(
        SemanticSearchApiFormat::OpenAiEmbeddings,
    ));
    settings.reranker = Some(configured_model_selection(
        SemanticSearchApiFormat::OpenAiEmbeddings,
    ));

    let error = validate_semantic_search_configuration(&settings).unwrap_err();

    assert_eq!(
        error,
        "Semantic code search reranker must use `jina_rerank` API format."
    );
}

#[test]
fn validate_configuration_accepts_enabled_embedding_and_reranker() {
    let mut settings = default_settings();
    settings.enabled = true;
    settings.embedding = Some(configured_model_selection(
        SemanticSearchApiFormat::OpenAiEmbeddings,
    ));
    settings.reranker = Some(configured_model_selection(
        SemanticSearchApiFormat::JinaRerank,
    ));

    validate_semantic_search_configuration(&settings).unwrap();
}

#[test]
fn openai_embeddings_request_serializes_inputs() {
    let provider = OpenAiCompatibleEmbeddingProvider::new(
        "https://example.test".to_string(),
        "key".to_string(),
        "Qwen3-Embedding-4B".to_string(),
    );
    let request = provider.embed_inputs(vec!["alpha".to_string(), "beta".to_string()]);
    assert_eq!(request.body.model, "Qwen3-Embedding-4B");
    assert_eq!(request.body.input[0], "alpha");
    assert_eq!(request.body.input[1], "beta");
    assert_eq!(request.body.input.len(), 2);
}

#[test]
fn jina_rerank_response_maps_document_indexes_and_scores() {
    let response = JinaRerankResponse {
        results: vec![
            JinaRerankResponseItem {
                index: 1,
                relevance_score: score(0.7),
            },
            JinaRerankResponseItem {
                index: 0,
                relevance_score: score(0.9),
            },
        ],
    };
    let mapped = response.into_results();
    assert_eq!(
        mapped[0],
        RerankResult {
            document_index: 1,
            score: score(0.7)
        }
    );
    assert_eq!(
        mapped[1],
        RerankResult {
            document_index: 0,
            score: score(0.9)
        }
    );
}

#[test]
fn both_providers_are_made_or_the_first_fault_is_reported() {
    let mut settings = default_settings();
    let compatible = vec![("local".to_string(), "http://localhost:1/v1".to_string())];
    let make = |settings: &SemanticSearchSettings, embedding: Option<&str>| {
        semantic_search_providers(
            settings,
            "",
            &compatible,
            embedding.map(|key| key.to_string()),
            None,
        )
    };
    assert_eq!(
        make(&settings, None).err().as_deref(),
        Some("Semantic code search requires `agent.semantic_search.embedding`.")
    );
    settings.embedding = Some(selection(
        "openai",
        "e",
        SemanticSearchApiFormat::OpenAiEmbeddings,
    ));
    assert_eq!(
        make(&settings, None).err().as_deref(),
        Some("Semantic code search requires `agent.semantic_search.reranker`.")
    );
    settings.reranker = Some(selection("nowhere", "r", SemanticSearchApiFormat::JinaRerank));
    assert_eq!(
        make(&settings, None).err().as_deref(),
        Some("Semantic search provider `openai` requires OPENAI_API_KEY.")
    );
    assert!(make(&settings, Some("k"))
        .err()
        .unwrap()
        .contains("`nowhere`"));
    settings.reranker = Some(selection("local", "r", SemanticSearchApiFormat::JinaRerank));
    let providers = make(&settings, Some("k")).ok().unwrap();
    assert_eq!(providers.embedding.api_url, OPEN_AI_API_URL);
    assert_eq!(providers.embedding.api_key, "k");
    assert_eq!(providers.embedding.model, "e");
    assert_eq!(providers.reranker.api_url, "http://localhost:1/v1");
    assert_eq!(providers.reranker.api_key, "");
    assert_eq!(providers.reranker.model, "r");
}

#[test]
fn one_search_keeps_the_limits_of_the_settings() {
    let settings = default_settings();
    let limits = |asked| {
        let runtime = SemanticSearchRuntimeSettings::from_settings(&settings, asked, None);
        (
            runtime.max_results,
            runtime.candidate_limit,
            runtime.rerank_limit,
        )
    };
    assert_eq!(limits(None), (8, 80, 30));
    assert_eq!(limits(Some(3)), (3, 80, 30));
    assert_eq!(limits(Some(100)), (8, 80, 30));
    assert_eq!(limits(Some(0)), (1, 80, 30));
    let mut narrow = default_settings();
    narrow.max_results = 50;
    narrow.candidate_limit = 10;
    narrow.topology_expansion.include_siblings = true;
    let runtime = SemanticSearchRuntimeSettings::from_settings(&narrow, None, Some(true));
    assert_eq!(runtime.max_results, 50);
    assert_eq!(runtime.candidate_limit, 50);
    assert_eq!(runtime.rerank_limit, 50);
    assert!(runtime.topology_expansion.include_parent);
    assert!(runtime.topology_expansion.include_siblings);
    let bare = SemanticSearchRuntimeSettings::from_settings(&narrow, None, Some(false));
    assert!(!bare.topology_expansion.include_parent);
    assert!(!bare.topology_expansion.include_siblings);
    assert_eq!(bare.hyde_mode, HyDEMode::Off);
    assert_eq!(bare.hyde_threshold, score(0.6));
    assert_eq!(bare.topology_expansion.max_total_expanded_bytes, 24_000);
}
