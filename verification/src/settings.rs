//! The settings of semantic search, and those of one search.

use crate::score::Score;
use crate::topology::TopologyExpansionRuntimeSettings;
use vstd::prelude::*;
use vstd::string::*;

verus! {

/// The formats of the requests that providers understand.
#[derive(Clone, Copy, Debug, Eq, PartialEq, Structural)]
pub enum SemanticSearchApiFormat {
    OpenAiEmbeddings,
    JinaRerank,
}

/// A model of a provider, and the format in which it is spoken to.
#[derive(Debug, Eq, PartialEq)]
pub struct SemanticSearchModelSelection {
    pub provider: String,
    pub model: String,
    pub api_format: SemanticSearchApiFormat,
}

/// A language model of a provider.
#[derive(Debug, Eq, PartialEq)]
pub struct LanguageModelSelection {
    pub provider: String,
    pub model: String,
}

/// Whether a search is repeated with a hypothetical description of the code.
#[derive(Clone, Copy, Debug, Eq, PartialEq, Structural)]
pub enum HyDEMode {
    Off,
    Fallback,
}

/// The settings of the search with a hypothetical description.
#[derive(Debug, Eq, PartialEq)]
pub struct SemanticSearchHyDESettings {
    pub mode: HyDEMode,
    pub threshold: Score,
    pub model: Option<LanguageModelSelection>,
}

/// The settings of the surroundings that are shown of matches.
#[derive(Clone, Copy, Debug, Eq, PartialEq)]
pub struct SemanticSearchTopologyExpansionSettings {
    pub include_parent: bool,
    pub include_siblings: bool,
    pub max_parent_bytes: usize,
    pub max_total_expanded_bytes: usize,
}

/// The settings of semantic search.
#[derive(Debug, Eq, PartialEq)]
pub struct SemanticSearchSettings {
    pub enabled: bool,
    pub embedding: Option<SemanticSearchModelSelection>,
    pub reranker: Option<SemanticSearchModelSelection>,
    pub candidate_limit: usize,
    pub rerank_limit: usize,
    pub max_results: usize,
    pub max_indexed_file_bytes: usize,
    pub chunk_max_non_whitespace_size: usize,
    pub hyde: SemanticSearchHyDESettings,
    pub topology_expansion: SemanticSearchTopologyExpansionSettings,
}

/// What is wrong with settings; nothing where they can be used.
pub open spec fn configuration_fault(settings: SemanticSearchSettings) -> Option<Seq<char>> {
    if !settings.enabled {
        Some("Semantic code search is disabled. Enable `agent.semantic_search.enabled`."@)
    } else if settings.embedding is None {
        Some("Semantic code search requires `agent.semantic_search.embedding`."@)
    } else if settings.embedding->0.api_format != SemanticSearchApiFormat::OpenAiEmbeddings {
        Some("Semantic code search embedding must use `openai_embeddings` API format."@)
    } else if settings.reranker is None {
        Some("Semantic code search requires `agent.semantic_search.reranker`."@)
    } else if settings.reranker->0.api_format != SemanticSearchApiFormat::JinaRerank {
        Some("Semantic code search reranker must use `jina_rerank` API format."@)
    } else {
        None
    }
}

/// Checks that settings can be used.
pub fn validate_semantic_search_configuration(settings: &SemanticSearchSettings) -> (result: Result<
    (),
    String,
>)
    ensures
        result is Ok == configuration_fault(*settings) is None,
        result matches Err(message) ==> configuration_fault(*settings) == Some(message@),
{
    if !settings.enabled {
        return Err(
            "Semantic code search is disabled. Enable `agent.semantic_search.enabled`.".to_string(),
        );
    }
    match &settings.embedding {
        None => {
            return Err(
                "Semantic code search requires `agent.semantic_search.embedding`.".to_string(),
            );
        },
        Some(embedding) => {
            if embedding.api_format != SemanticSearchApiFormat::OpenAiEmbeddings {
                return Err(
                    "Semantic code search embedding must use `openai_embeddings` API format.".to_string(),
                );
            }
        },
    }
    match &settings.reranker {
        None => {
            return Err(
                "Semantic code search requires `agent.semantic_search.reranker`.".to_string(),
            );
        },
        Some(reranker) => {
            if reranker.api_format != SemanticSearchApiFormat::JinaRerank {
                return Err(
                    "Semantic code search reranker must use `jina_rerank` API format.".to_string(),
                );
            }
        },
    }
    Ok(())
}

/// The settings of one search.
#[derive(Clone, Copy, Debug)]
pub struct SemanticSearchRuntimeSettings {
    pub candidate_limit: usize,
    pub rerank_limit: usize,
    pub max_results: usize,
    pub hyde_mode: HyDEMode,
    pub hyde_threshold: Score,
    pub topology_expansion: TopologyExpansionRuntimeSettings,
}

/// The lesser of two numbers.
pub open spec fn lesser(left: usize, right: usize) -> usize {
    if left <= right {
        left
    } else {
        right
    }
}

/// The greater of two numbers.
pub open spec fn greater(left: usize, right: usize) -> usize {
    if left >= right {
        left
    } else {
        right
    }
}

/// How many results a pass takes: as many as are asked for, but not more than
/// the settings allow, and at least one, so that there is a best score to be
/// looked at. What is reported is limited by what was asked for alone.
pub open spec fn result_limit(settings: SemanticSearchSettings, asked: Option<usize>) -> usize {
    greater(
        lesser(
            match asked {
                Some(asked) => asked,
                None => settings.max_results,
            },
            settings.max_results,
        ),
        1,
    )
}

/// The settings of one search, from the general ones and what is asked for.
pub open spec fn runtime_settings(
    settings: SemanticSearchSettings,
    asked: Option<usize>,
    expand_context: Option<bool>,
) -> SemanticSearchRuntimeSettings {
    let max_results = result_limit(settings, asked);
    let expand = expand_context != Some(false);
    SemanticSearchRuntimeSettings {
        candidate_limit: greater(settings.candidate_limit, max_results),
        rerank_limit: greater(settings.rerank_limit, max_results),
        max_results,
        hyde_mode: settings.hyde.mode,
        hyde_threshold: settings.hyde.threshold,
        topology_expansion: TopologyExpansionRuntimeSettings {
            include_parent: expand && settings.topology_expansion.include_parent,
            include_siblings: expand && settings.topology_expansion.include_siblings,
            max_parent_bytes: settings.topology_expansion.max_parent_bytes,
            max_total_expanded_bytes: settings.topology_expansion.max_total_expanded_bytes,
        },
    }
}

fn max(left: usize, right: usize) -> (result: usize)
    ensures
        result == greater(left, right),
{
    if left >= right {
        left
    } else {
        right
    }
}

impl SemanticSearchRuntimeSettings {
    /// The settings of one search, from the general ones and what is asked
    /// for.
    pub fn from_settings(
        settings: &SemanticSearchSettings,
        input_max_results: Option<usize>,
        expand_context: Option<bool>,
    ) -> (runtime: Self)
        ensures
            runtime == runtime_settings(*settings, input_max_results, expand_context),
    {
        let asked: usize = input_max_results.unwrap_or(settings.max_results);
        let capped: usize = if asked <= settings.max_results {
            asked
        } else {
            settings.max_results
        };
        let max_results: usize = max(capped, 1);
        let expand: bool = expand_context.unwrap_or(true);
        Self {
            candidate_limit: max(settings.candidate_limit, max_results),
            rerank_limit: max(settings.rerank_limit, max_results),
            max_results,
            hyde_mode: settings.hyde.mode,
            hyde_threshold: settings.hyde.threshold,
            topology_expansion: TopologyExpansionRuntimeSettings {
                include_parent: expand && settings.topology_expansion.include_parent,
                include_siblings: expand && settings.topology_expansion.include_siblings,
                max_parent_bytes: settings.topology_expansion.max_parent_bytes,
                max_total_expanded_bytes: settings.topology_expansion.max_total_expanded_bytes,
            },
        }
    }
}

/// A pass takes at least one result. It takes no more than the settings allow
/// and no more than are asked for, each as far as that is at least one, and
/// never looks at fewer candidates than it takes. Without context, no
/// surroundings are added.
pub proof fn law_runtime_settings(
    settings: SemanticSearchSettings,
    asked: Option<usize>,
    expand_context: Option<bool>,
)
    ensures
        ({
            let runtime = runtime_settings(settings, asked, expand_context);
            &&& runtime.max_results >= 1
            &&& settings.max_results >= 1 ==> runtime.max_results <= settings.max_results
            &&& asked matches Some(asked) ==> asked >= 1 ==> runtime.max_results <= asked
            &&& runtime.candidate_limit >= runtime.max_results
            &&& runtime.rerank_limit >= runtime.max_results
            &&& expand_context == Some(false) ==> !runtime.topology_expansion.include_parent
                && !runtime.topology_expansion.include_siblings
        }),
{
}

/// A pass takes exactly as many results as are asked for, or as the settings say
/// where nothing is asked for, but no more than the settings allow, and one at
/// least. It looks at as many candidates as the settings say, or as many as it
/// takes where that is more. Everything else is as the settings say; surroundings
/// are left out only where no context is wanted.
pub proof fn law_runtime_settings_exact(
    settings: SemanticSearchSettings,
    asked: Option<usize>,
    expand_context: Option<bool>,
)
    ensures
        ({
            let runtime = runtime_settings(settings, asked, expand_context);
            let wanted = match asked {
                Some(asked) => asked,
                None => settings.max_results,
            };
            let expansion = settings.topology_expansion;
            &&& 1 <= wanted <= settings.max_results ==> runtime.max_results == wanted
            &&& wanted > settings.max_results && settings.max_results >= 1 ==> runtime.max_results
                == settings.max_results
            &&& wanted == 0 || settings.max_results == 0 ==> runtime.max_results == 1
            &&& settings.candidate_limit >= runtime.max_results ==> runtime.candidate_limit
                == settings.candidate_limit
            &&& settings.candidate_limit < runtime.max_results ==> runtime.candidate_limit
                == runtime.max_results
            &&& settings.rerank_limit >= runtime.max_results ==> runtime.rerank_limit
                == settings.rerank_limit
            &&& settings.rerank_limit < runtime.max_results ==> runtime.rerank_limit
                == runtime.max_results
            &&& runtime.hyde_mode == settings.hyde.mode
            &&& runtime.hyde_threshold == settings.hyde.threshold
            &&& expand_context != Some(false) ==> runtime.topology_expansion.include_parent
                == expansion.include_parent && runtime.topology_expansion.include_siblings
                == expansion.include_siblings
            &&& runtime.topology_expansion.max_parent_bytes == expansion.max_parent_bytes
            &&& runtime.topology_expansion.max_total_expanded_bytes
                == expansion.max_total_expanded_bytes
        }),
{
}

/// Settings can be used exactly if search is switched on and both models are
/// chosen, each in its format.
pub proof fn law_configuration(settings: SemanticSearchSettings)
    ensures
        configuration_fault(settings) is None <==> {
            &&& settings.enabled
            &&& settings.embedding matches Some(embedding) && embedding.api_format
                == SemanticSearchApiFormat::OpenAiEmbeddings
            &&& settings.reranker matches Some(reranker) && reranker.api_format
                == SemanticSearchApiFormat::JinaRerank
        },
{
}

} // verus!
