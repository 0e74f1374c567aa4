//! The tool that searches code: what it does next, after each thing that
//! happens.
//!
//! [`advance`] takes the state of a search and what has happened, and gives
//! the next state with the action to be taken. Whoever runs the tool takes the
//! action, waits for its outcome or for the user to cancel, and calls again.

use crate::output;
use crate::output::{OutputModel, SemanticSearchCodeMatch, SemanticSearchCodeToolOutput};
use crate::project::SemanticSearchIndexingSettings;
use crate::search;
use crate::search::SemanticSearchResult;
use crate::settings;
use crate::settings::{HyDEMode, SemanticSearchRuntimeSettings, SemanticSearchSettings};
use crate::store;
use crate::store::CodeSearchIndex;
use crate::text;
use crate::tokens;
use vstd::prelude::*;
use vstd::string::*;

verus! {

/// The name under which the tool is called.
pub const NAME: &'static str = "semantic_search_code";

/// Searches code semantically using a natural language query.
#[derive(Debug, Eq, PartialEq)]
pub struct SemanticSearchCodeToolInput {
    /// The natural language code search query.
    pub query: String,
    /// A glob pattern for the paths of files to include in the search.
    pub include_pattern: Option<String>,
    /// The maximum number of matches to return.
    pub max_results: Option<usize>,
    /// Whether to include expanded surrounding context for each match.
    pub expand_context: Option<bool>,
}

/// The title of a call before it runs. `query` is the query as inline code,
/// where the input can be read.
pub fn initial_title(query: Option<&str>) -> (title: String)
    ensures
        title@ == match query {
            Some(query) => "Semantically search code for "@ + query@,
            None => "Semantically search code"@,
        },
{
    match query {
        Some(query) => {
            let mut title: String = "Semantically search code for ".to_string();
            title.append(query);
            title
        },
        None => "Semantically search code".to_string(),
    }
}

// ---------------------------------------------------------------------------
// Cancellation
// ---------------------------------------------------------------------------

/// What is reported of a search that the user cancelled.
pub open spec fn cancelled_report() -> OutputModel {
    OutputModel::ConfigurationError("Semantic code search was cancelled by the user."@)
}

/// What is reported of a search that the user cancelled.
pub fn semantic_search_cancelled_output() -> (output: SemanticSearchCodeToolOutput)
    ensures
        output@ == cancelled_report(),
{
    SemanticSearchCodeToolOutput::ConfigurationError {
        message: "Semantic code search was cancelled by the user.".to_string(),
    }
}

/// The outcome of work that the user may cancel. There is none where the user
/// cancelled first; one that came while the user cancelled does not count.
pub fn with_semantic_search_cancellation<T>(outcome: Option<T>, cancelled: bool) -> (result: Result<
    T,
    SemanticSearchCodeToolOutput,
>)
    ensures
        if outcome is None || cancelled {
            result matches Err(output) && output@ == cancelled_report()
        } else {
            result matches Ok(value) && Some(value) == outcome
        },
{
    match outcome {
        Some(value) => {
            if cancelled {
                Err(semantic_search_cancelled_output())
            } else {
                Ok(value)
            }
        },
        None => Err(semantic_search_cancelled_output()),
    }
}

// ---------------------------------------------------------------------------
// States, events, actions
// ---------------------------------------------------------------------------

/// A search that the settings allow.
#[derive(Debug)]
pub struct Search {
    pub input: SemanticSearchCodeToolInput,
    pub settings: SemanticSearchSettings,
    pub runtime_settings: SemanticSearchRuntimeSettings,
}

/// What the tool waits for.
#[derive(Debug)]
pub enum ToolState {
    AwaitingInput,
    AwaitingSettings(SemanticSearchCodeToolInput),
    AwaitingProviders(Search),
    AwaitingIndex(Search),
    AwaitingEmbeddings(Search, CodeSearchIndex),
    AwaitingAnswer(Search, CodeSearchIndex),
    AwaitingDescription(Search, CodeSearchIndex, SemanticSearchResult),
    AwaitingSecondPass(Search, CodeSearchIndex, SemanticSearchResult),
    AwaitingCheck(Vec<SemanticSearchCodeMatch>),
    Done,
}

/// What has happened. Where the user cancelled before an outcome came, there
/// is none.
#[derive(Debug)]
pub enum ToolEvent {
    InputReceived(Option<Result<SemanticSearchCodeToolInput, String>>),
    SettingsRead(SemanticSearchSettings),
    ProvidersMade(Result<(), String>),
    IndexBuilt(Option<Result<CodeSearchIndex, String>>),
    EmbeddingsMade(Option<Result<Vec<Vec<u32>>, String>>),
    QueryAnswered(Option<Result<SemanticSearchResult, String>>),
    DescriptionWritten(Option<Result<String, String>>),
    /// The second pass, where it brought a result.
    SecondPassRun(Option<Option<SemanticSearchResult>>),
    CancellationChecked,
}

/// What is to be done.
#[derive(Debug)]
pub enum ToolAction {
    ReceiveInput,
    ReadSettings,
    MakeProviders,
    BuildIndex(SemanticSearchIndexingSettings),
    EmbedTexts(Vec<String>),
    AnswerQuery,
    WriteDescription,
    RunSecondPass(String),
    CheckCancellation,
    Finish(Result<SemanticSearchCodeToolOutput, SemanticSearchCodeToolOutput>),
}

/// What is shown while the tool runs.
#[derive(Debug)]
pub struct Notice {
    pub title: Option<String>,
    pub content: String,
}

/// The next state, what is shown, and what is to be done.
#[derive(Debug)]
pub struct ToolStep {
    pub state: ToolState,
    pub notice: Option<Notice>,
    pub action: ToolAction,
}

/// Whether an event is what a state waits for.
pub open spec fn awaits(state: ToolState, event: ToolEvent) -> bool {
    match state {
        ToolState::AwaitingInput => event is InputReceived,
        ToolState::AwaitingSettings(_) => event is SettingsRead,
        ToolState::AwaitingProviders(_) => event is ProvidersMade,
        ToolState::AwaitingIndex(_) => event is IndexBuilt,
        ToolState::AwaitingEmbeddings(_, _) => event is EmbeddingsMade,
        ToolState::AwaitingAnswer(_, _) => event is QueryAnswered,
        ToolState::AwaitingDescription(_, _, _) => event is DescriptionWritten,
        ToolState::AwaitingSecondPass(_, _, _) => event is SecondPassRun,
        ToolState::AwaitingCheck(_) => event is CancellationChecked,
        ToolState::Done => false,
    }
}

/// Whether an event is the outcome of an action.
pub open spec fn answers(action: ToolAction, event: ToolEvent) -> bool {
    match action {
        ToolAction::ReceiveInput => event is InputReceived,
        ToolAction::ReadSettings => event is SettingsRead,
        ToolAction::MakeProviders => event is ProvidersMade,
        ToolAction::BuildIndex(_) => event is IndexBuilt,
        ToolAction::EmbedTexts(_) => event is EmbeddingsMade,
        ToolAction::AnswerQuery => event is QueryAnswered,
        ToolAction::WriteDescription => event is DescriptionWritten,
        ToolAction::RunSecondPass(_) => event is SecondPassRun,
        ToolAction::CheckCancellation => event is CancellationChecked,
        ToolAction::Finish(_) => false,
    }
}

/// Whether a state is the one in which an action is taken.
pub open spec fn is_taken_in(action: ToolAction, state: ToolState) -> bool {
    match action {
        ToolAction::ReceiveInput => state is AwaitingInput,
        ToolAction::ReadSettings => state is AwaitingSettings,
        ToolAction::MakeProviders => state is AwaitingProviders,
        ToolAction::BuildIndex(_) => state is AwaitingIndex,
        ToolAction::EmbedTexts(_) => state is AwaitingEmbeddings,
        ToolAction::AnswerQuery => state is AwaitingAnswer,
        ToolAction::WriteDescription => state is AwaitingDescription,
        ToolAction::RunSecondPass(_) => state is AwaitingSecondPass,
        ToolAction::CheckCancellation => state is AwaitingCheck,
        ToolAction::Finish(_) => state is Done,
    }
}

/// The start of a call.
pub fn start() -> (step: ToolStep)
    ensures
        is_taken_in(step.action, step.state),
        step.state is AwaitingInput,
        step.notice is None,
        step.action is ReceiveInput,
{
    ToolStep { state: ToolState::AwaitingInput, notice: None, action: ToolAction::ReceiveInput }
}

// ---------------------------------------------------------------------------
// What follows
// ---------------------------------------------------------------------------

/// A report as a mathematical value.
pub open spec fn report_model(
    report: Result<SemanticSearchCodeToolOutput, SemanticSearchCodeToolOutput>,
) -> Result<OutputModel, OutputModel> {
    match report {
        Ok(output) => Ok(output@),
        Err(output) => Err(output@),
    }
}

/// Whether a step ends the call with a report.
pub open spec fn finishes(step: ToolStep, report: Result<OutputModel, OutputModel>) -> bool {
    &&& step.state is Done
    &&& step.notice is None
    &&& step.action matches ToolAction::Finish(reported) && report_model(reported) == report
}

/// Whether a step ends the call with an error.
pub open spec fn fails(step: ToolStep, message: Seq<char>) -> bool {
    finishes(step, Err(OutputModel::ConfigurationError(message)))
}

/// Whether a step shows the given text, and no other title.
pub open spec fn shows(step: ToolStep, content: Seq<char>) -> bool {
    step.notice matches Some(notice) && notice.title is None && notice.content@ == content
}

/// Whether a search is the one that input and settings give.
pub open spec fn is_search(
    search: Search,
    input: SemanticSearchCodeToolInput,
    settings: SemanticSearchSettings,
) -> bool {
    &&& search.input == input
    &&& search.settings == settings
    &&& search.runtime_settings == settings::runtime_settings(
        settings,
        input.max_results,
        input.expand_context,
    )
}

/// Whether a first pass is followed by a second one: that is switched on, a
/// language model is chosen, and the best score is low.
pub open spec fn wants_description(search: Search, first_pass: SemanticSearchResult) -> bool {
    &&& search.settings.hyde.mode == HyDEMode::Fallback
    &&& search.settings.hyde.model is Some
    &&& search::is_low(
        search::top_score(first_pass),
        search.runtime_settings.hyde_threshold,
    )
}

/// How many of `count` matches are reported: no more than were asked for.
pub open spec fn reported_count(input: SemanticSearchCodeToolInput, count: nat) -> nat {
    match input.max_results {
        Some(asked) => if asked < count {
            asked as nat
        } else {
            count
        },
        None => count,
    }
}

/// Whether a step has the matches of an answer ready: the first ones, no more
/// than were asked for.
pub open spec fn formats(
    step: ToolStep,
    search: Search,
    index: CodeSearchIndex,
    found: SemanticSearchResult,
) -> bool {
    let all = output::reported_all(
        index@,
        found.matches@,
        search.runtime_settings.topology_expansion,
    );
    &&& step.state matches ToolState::AwaitingCheck(matches) && output::match_models(matches@)
        == all.take(reported_count(search.input, all.len()) as int)
    &&& step.notice is None
    &&& step.action is CheckCancellation
}

/// What follows on input.
pub open spec fn follows_input(
    received: Option<Result<SemanticSearchCodeToolInput, String>>,
    cancelled: bool,
    step: ToolStep,
) -> bool {
    if received is None || cancelled {
        finishes(step, Err(cancelled_report()))
    } else {
        match received->0 {
            Err(error) => fails(step, "Failed to receive semantic code search input: "@ + error@),
            Ok(input) => {
                &&& step.state matches ToolState::AwaitingSettings(kept) && kept == input
                &&& step.notice is None
                &&& step.action is ReadSettings
            },
        }
    }
}

/// What follows on settings.
pub open spec fn follows_settings(
    input: SemanticSearchCodeToolInput,
    settings: SemanticSearchSettings,
    step: ToolStep,
) -> bool {
    if !settings.enabled {
        finishes(step, Ok(OutputModel::Disabled))
    } else {
        match settings::configuration_fault(settings) {
            Some(message) => fails(step, message),
            None => {
                &&& step.state matches ToolState::AwaitingProviders(search) && is_search(
                    search,
                    input,
                    settings,
                )
                &&& step.notice is None
                &&& step.action is MakeProviders
            },
        }
    }
}

/// What follows on providers.
pub open spec fn follows_providers(
    search: Search,
    made: Result<(), String>,
    step: ToolStep,
) -> bool {
    match made {
        Err(message) => fails(step, message@),
        Ok(_) => {
            &&& step.state matches ToolState::AwaitingIndex(kept) && kept == search
            &&& step.notice matches Some(notice) && text::optional_text(notice.title) == Some(
                "Semantic code search"@,
            ) && notice.content@ == "Building semantic code index..."@
            &&& step.action matches ToolAction::BuildIndex(indexing) && text::optional_text(
                indexing.include_pattern,
            ) == text::optional_text(search.input.include_pattern)
                && indexing.max_indexed_file_bytes == search.settings.max_indexed_file_bytes
                && indexing.chunk_max_non_whitespace_size
                == search.settings.chunk_max_non_whitespace_size
        },
    }
}

/// What follows on an index.
pub open spec fn follows_index(
    search: Search,
    built: Option<Result<CodeSearchIndex, String>>,
    cancelled: bool,
    step: ToolStep,
) -> bool {
    if built is None || cancelled {
        finishes(step, Err(cancelled_report()))
    } else {
        match built->0 {
            Err(error) => fails(step, "Failed to build semantic search index: "@ + error@),
            Ok(index) => {
                &&& step.state matches ToolState::AwaitingEmbeddings(kept, kept_index) && kept
                    == search && kept_index == index
                &&& step.notice is None
                &&& step.action matches ToolAction::EmbedTexts(texts) && tokens::texts(texts@)
                    == store::texts_of(index@)
            },
        }
    }
}

/// What follows on embeddings.
pub open spec fn follows_embeddings(
    search: Search,
    index: CodeSearchIndex,
    made: Option<Result<Vec<Vec<u32>>, String>>,
    cancelled: bool,
    step: ToolStep,
) -> bool {
    if made is None || cancelled {
        finishes(step, Err(cancelled_report()))
    } else {
        match made->0 {
            Err(error) => fails(step, "Failed to embed semantic search index: "@ + error@),
            Ok(embeddings) => {
                let expected = store::ids_of(index@.dom()).len();
                if embeddings@.len() != expected {
                    fails(
                        step,
                        "Failed to embed semantic search index: "@
                            + store::embedding_count_message(embeddings@.len(), expected),
                    )
                } else {
                    &&& step.state matches ToolState::AwaitingAnswer(kept, embedded) && kept
                        == search && store::embedded(index@, embedded@, embeddings@)
                    &&& shows(step, "Running semantic code query..."@)
                    &&& step.action is AnswerQuery
                }
            },
        }
    }
}

/// What follows on the answer of the first pass.
pub open spec fn follows_answer(
    search: Search,
    index: CodeSearchIndex,
    answered: Option<Result<SemanticSearchResult, String>>,
    cancelled: bool,
    step: ToolStep,
) -> bool {
    if answered is None || cancelled {
        finishes(step, Err(cancelled_report()))
    } else {
        match answered->0 {
            Err(error) => fails(step, "Semantic code search failed: "@ + error@),
            Ok(found) => if wants_description(search, found) {
                &&& step.state matches ToolState::AwaitingDescription(
                    kept,
                    kept_index,
                    first_pass,
                ) && kept == search && kept_index == index && first_pass == found
                &&& step.notice is None
                &&& step.action is WriteDescription
            } else {
                formats(step, search, index, found)
            },
        }
    }
}

/// What follows on a description. One that could not be written, or is empty,
/// is passed over.
pub open spec fn follows_description(
    search: Search,
    index: CodeSearchIndex,
    first_pass: SemanticSearchResult,
    written: Option<Result<String, String>>,
    cancelled: bool,
    step: ToolStep,
) -> bool {
    if written is None || cancelled {
        finishes(step, Err(cancelled_report()))
    } else if written->0 is Ok && written->0->Ok_0@.len() > 0 {
        &&& step.state matches ToolState::AwaitingSecondPass(kept, kept_index, kept_pass) && kept
            == search && kept_index == index && kept_pass == first_pass
        &&& shows(step, "Running HyDE semantic code fallback..."@)
        &&& step.action matches ToolAction::RunSecondPass(search_text) && search_text
            == written->0->Ok_0
    } else {
        formats(step, search, index, first_pass)
    }
}

/// What follows on the second pass: its matches count where they are better.
pub open spec fn follows_second_pass(
    search: Search,
    index: CodeSearchIndex,
    first_pass: SemanticSearchResult,
    run: Option<Option<SemanticSearchResult>>,
    cancelled: bool,
    step: ToolStep,
) -> bool {
    if run is None || cancelled {
        finishes(step, Err(cancelled_report()))
    } else if search::second_pass_due(search.runtime_settings, first_pass) && run->0 is Some
        && crate::score::less(
        search::top_or_zero(first_pass),
        search::top_or_zero(run->0->0),
    ) {
        formats(step, search, index, run->0->0)
    } else {
        formats(step, search, index, first_pass)
    }
}

/// What follows on the last look whether the user cancelled.
pub open spec fn follows_check(
    matches: Vec<SemanticSearchCodeMatch>,
    cancelled: bool,
    step: ToolStep,
) -> bool {
    if cancelled {
        finishes(step, Err(cancelled_report()))
    } else {
        let report = OutputModel::Success(output::match_models(matches@));
        &&& step.state is Done
        &&& shows(step, output::output_text(report))
        &&& step.action matches ToolAction::Finish(reported) && report_model(reported) == Ok::<
            OutputModel,
            OutputModel,
        >(report)
    }
}

/// What follows on an event.
pub open spec fn follows(
    state: ToolState,
    event: ToolEvent,
    cancelled: bool,
    step: ToolStep,
) -> bool {
    match (state, event) {
        (ToolState::AwaitingInput, ToolEvent::InputReceived(received)) => follows_input(
            received,
            cancelled,
            step,
        ),
        (ToolState::AwaitingSettings(input), ToolEvent::SettingsRead(settings)) => follows_settings(
            input,
            settings,
            step,
        ),
        (ToolState::AwaitingProviders(search), ToolEvent::ProvidersMade(made)) => follows_providers(
            search,
            made,
            step,
        ),
        (ToolState::AwaitingIndex(search), ToolEvent::IndexBuilt(built)) => follows_index(
            search,
            built,
            cancelled,
            step,
        ),
        (
            ToolState::AwaitingEmbeddings(search, index),
            ToolEvent::EmbeddingsMade(made),
        ) => follows_embeddings(search, index, made, cancelled, step),
        (
            ToolState::AwaitingAnswer(search, index),
            ToolEvent::QueryAnswered(answered),
        ) => follows_answer(search, index, answered, cancelled, step),
        (
            ToolState::AwaitingDescription(search, index, first_pass),
            ToolEvent::DescriptionWritten(written),
        ) => follows_description(search, index, first_pass, written, cancelled, step),
        (
            ToolState::AwaitingSecondPass(search, index, first_pass),
            ToolEvent::SecondPassRun(run),
        ) => follows_second_pass(search, index, first_pass, run, cancelled, step),
        (ToolState::AwaitingCheck(matches), ToolEvent::CancellationChecked) => follows_check(
            matches,
            cancelled,
            step,
        ),
        _ => false,
    }
}

// ---------------------------------------------------------------------------
// Executable functions
// ---------------------------------------------------------------------------

fn finish(report: Result<SemanticSearchCodeToolOutput, SemanticSearchCodeToolOutput>) -> (step:
    ToolStep)
    ensures
        finishes(step, report_model(report)),
{
    ToolStep { state: ToolState::Done, notice: None, action: ToolAction::Finish(report) }
}

fn fail(context: &str, error: &str) -> (step: ToolStep)
    ensures
        fails(step, context@ + error@),
{
    let mut message: String = context.to_string();
    message.append(error);
    finish(Err(SemanticSearchCodeToolOutput::ConfigurationError { message }))
}

fn notice(content: &str) -> (notice: Option<Notice>)
    ensures
        notice matches Some(shown) && shown.title is None && shown.content@ == content@,
{
    Some(Notice { title: None, content: content.to_string() })
}

fn format(search: Search, index: CodeSearchIndex, found: SemanticSearchResult) -> (step: ToolStep)
    ensures
        formats(step, search, index, found),
{
    let mut matches = output::format_semantic_search_matches(
        &index,
        &found,
        &search.runtime_settings.topology_expansion,
    );
    let ghost all = output::match_models(matches@);
    if let Some(asked) = search.input.max_results {
        matches.truncate(asked);
    }
    assert(output::match_models(matches@) =~= all.take(
        reported_count(search.input, all.len()) as int,
    ));
    ToolStep {
        state: ToolState::AwaitingCheck(matches),
        notice: None,
        action: ToolAction::CheckCancellation,
    }
}

fn on_input(
    received: Option<Result<SemanticSearchCodeToolInput, String>>,
    cancelled: bool,
) -> (step: ToolStep)
    ensures
        follows_input(received, cancelled, step),
{
    match with_semantic_search_cancellation(received, cancelled) {
        Err(output) => finish(Err(output)),
        Ok(Err(error)) => fail(
            "Failed to receive semantic code search input: ",
            error.as_str(),
        ),
        Ok(Ok(input)) => ToolStep {
            state: ToolState::AwaitingSettings(input),
            notice: None,
            action: ToolAction::ReadSettings,
        },
    }
}

fn on_settings(input: SemanticSearchCodeToolInput, settings: SemanticSearchSettings) -> (step:
    ToolStep)
    ensures
        follows_settings(input, settings, step),
{
    if let Err(message) = settings::validate_semantic_search_configuration(&settings) {
        if !settings.enabled {
            return finish(Ok(SemanticSearchCodeToolOutput::Disabled));
        }
        return finish(Err(SemanticSearchCodeToolOutput::ConfigurationError { message }));
    }
    let runtime_settings = SemanticSearchRuntimeSettings::from_settings(
        &settings,
        input.max_results,
        input.expand_context,
    );
    ToolStep {
        state: ToolState::AwaitingProviders(Search { input, settings, runtime_settings }),
        notice: None,
        action: ToolAction::MakeProviders,
    }
}

fn on_providers(search: Search, made: Result<(), String>) -> (step: ToolStep)
    ensures
        follows_providers(search, made, step),
{
    match made {
        Err(message) => finish(Err(SemanticSearchCodeToolOutput::ConfigurationError { message })),
        Ok(_) => {
            let indexing = SemanticSearchIndexingSettings {
                include_pattern: text::clone_optional(&search.input.include_pattern),
                max_indexed_file_bytes: search.settings.max_indexed_file_bytes,
                chunk_max_non_whitespace_size: search.settings.chunk_max_non_whitespace_size,
            };
            ToolStep {
                state: ToolState::AwaitingIndex(search),
                notice: Some(
                    Notice {
                        title: Some("Semantic code search".to_string()),
                        content: "Building semantic code index...".to_string(),
                    },
                ),
                action: ToolAction::BuildIndex(indexing),
            }
        },
    }
}

fn on_index(search: Search, built: Option<Result<CodeSearchIndex, String>>, cancelled: bool) -> (step:
    ToolStep)
    ensures
        follows_index(search, built, cancelled, step),
{
    match with_semantic_search_cancellation(built, cancelled) {
        Err(output) => finish(Err(output)),
        Ok(Err(error)) => fail("Failed to build semantic search index: ", error.as_str()),
        Ok(Ok(index)) => {
            let texts = store::embedding_texts(&index);
            ToolStep {
                state: ToolState::AwaitingEmbeddings(search, index),
                notice: None,
                action: ToolAction::EmbedTexts(texts),
            }
        },
    }
}

fn on_embeddings(
    search: Search,
    index: CodeSearchIndex,
    made: Option<Result<Vec<Vec<u32>>, String>>,
    cancelled: bool,
) -> (step: ToolStep)
    ensures
        follows_embeddings(search, index, made, cancelled, step),
{
    match with_semantic_search_cancellation(made, cancelled) {
        Err(output) => finish(Err(output)),
        Ok(Err(error)) => fail("Failed to embed semantic search index: ", error.as_str()),
        Ok(Ok(embeddings)) => match store::embed_code_search_index(index, embeddings) {
            Err(error) => fail("Failed to embed semantic search index: ", error.as_str()),
            Ok(index) => ToolStep {
                state: ToolState::AwaitingAnswer(search, index),
                notice: notice("Running semantic code query..."),
                action: ToolAction::AnswerQuery,
            },
        },
    }
}

fn on_answer(
    search: Search,
    index: CodeSearchIndex,
    answered: Option<Result<SemanticSearchResult, String>>,
    cancelled: bool,
) -> (step: ToolStep)
    ensures
        follows_answer(search, index, answered, cancelled, step),
{
    match with_semantic_search_cancellation(answered, cancelled) {
        Err(output) => finish(Err(output)),
        Ok(Err(error)) => fail("Semantic code search failed: ", error.as_str()),
        Ok(Ok(found)) => {
            let wanted: bool = search.settings.hyde.mode == HyDEMode::Fallback
                && search.settings.hyde.model.is_some() && search::should_run_hyde_fallback(
                search::best_score(&found),
                search.runtime_settings.hyde_threshold,
            );
            if wanted {
                ToolStep {
                    state: ToolState::AwaitingDescription(search, index, found),
                    notice: None,
                    action: ToolAction::WriteDescription,
                }
            } else {
                format(search, index, found)
            }
        },
    }
}

fn on_description(
    search: Search,
    index: CodeSearchIndex,
    first_pass: SemanticSearchResult,
    written: Option<Result<String, String>>,
    cancelled: bool,
) -> (step: ToolStep)
    ensures
        follows_description(search, index, first_pass, written, cancelled, step),
{
    match with_semantic_search_cancellation(written, cancelled) {
        Err(output) => finish(Err(output)),
        Ok(Err(_)) => format(search, index, first_pass),
        Ok(Ok(search_text)) => {
            if search_text.as_str().is_empty() {
                format(search, index, first_pass)
            } else {
                ToolStep {
                    state: ToolState::AwaitingSecondPass(search, index, first_pass),
                    notice: notice("Running HyDE semantic code fallback..."),
                    action: ToolAction::RunSecondPass(search_text),
                }
            }
        },
    }
}

fn on_second_pass(
    search: Search,
    index: CodeSearchIndex,
    first_pass: SemanticSearchResult,
    run: Option<Option<SemanticSearchResult>>,
    cancelled: bool,
) -> (step: ToolStep)
    ensures
        follows_second_pass(search, index, first_pass, run, cancelled, step),
{
    match with_semantic_search_cancellation(run, cancelled) {
        Err(output) => finish(Err(output)),
        Ok(hyde_pass) => {
            let found = search::run_semantic_search_hyde_fallback(
                &search.runtime_settings,
                first_pass,
                hyde_pass,
            );
            format(search, index, found)
        },
    }
}

fn on_check(matches: Vec<SemanticSearchCodeMatch>, cancelled: bool) -> (step: ToolStep)
    ensures
        follows_check(matches, cancelled, step),
{
    if cancelled {
        return finish(Err(semantic_search_cancelled_output()));
    }
    let report = SemanticSearchCodeToolOutput::Success { matches };
    let content = output::tool_result_content(&report);
    ToolStep {
        state: ToolState::Done,
        notice: Some(Notice { title: None, content }),
        action: ToolAction::Finish(Ok(report)),
    }
}

/// The next step of a call, after what the state waits for has happened; none
/// where the state waits for something else. `cancelled` tells whether the
/// user has cancelled the call by then.
pub fn advance(state: ToolState, event: ToolEvent, cancelled: bool) -> (step: Option<ToolStep>)
    ensures
        step is Some == awaits(state, event),
        step matches Some(step) ==> follows(state, event, cancelled, step),
{
    let step = match (state, event) {
        (ToolState::AwaitingInput, ToolEvent::InputReceived(received)) => on_input(
            received,
            cancelled,
        ),
        (ToolState::AwaitingSettings(input), ToolEvent::SettingsRead(settings)) => on_settings(
            input,
            settings,
        ),
        (ToolState::AwaitingProviders(search), ToolEvent::ProvidersMade(made)) => on_providers(
            search,
            made,
        ),
        (ToolState::AwaitingIndex(search), ToolEvent::IndexBuilt(built)) => on_index(
            search,
            built,
            cancelled,
        ),
        (ToolState::AwaitingEmbeddings(search, index), ToolEvent::EmbeddingsMade(made)) => {
            on_embeddings(search, index, made, cancelled)
        },
        (ToolState::AwaitingAnswer(search, index), ToolEvent::QueryAnswered(answered)) => {
            on_answer(search, index, answered, cancelled)
        },
        (
            ToolState::AwaitingDescription(search, index, first_pass),
            ToolEvent::DescriptionWritten(written),
        ) => on_description(search, index, first_pass, written, cancelled),
        (
            ToolState::AwaitingSecondPass(search, index, first_pass),
            ToolEvent::SecondPassRun(run),
        ) => on_second_pass(search, index, first_pass, run, cancelled),
        (ToolState::AwaitingCheck(matches), ToolEvent::CancellationChecked) => on_check(
            matches,
            cancelled,
        ),
        _ => {
            return None;
        },
    };
    Some(step)
}

// ---------------------------------------------------------------------------
// Laws
// ---------------------------------------------------------------------------

/// Each action comes with the state that waits for its outcome, and for nothing
/// else; the call ends exactly with the state in which nothing is awaited.
pub proof fn law_actions(
    state: ToolState,
    event: ToolEvent,
    cancelled: bool,
    step: ToolStep,
    next: ToolEvent,
)
    requires
        awaits(state, event),
        follows(state, event, cancelled, step),
    ensures
        is_taken_in(step.action, step.state),
        step.action is Finish <==> step.state is Done,
        answers(step.action, next) <==> awaits(step.state, next),
{
}

/// Once the user has cancelled, no state but the two that only read settings
/// and make providers goes on: the call ends and says so.
pub proof fn law_cancelled(state: ToolState, event: ToolEvent, step: ToolStep)
    requires
        awaits(state, event),
        !(state is AwaitingSettings),
        !(state is AwaitingProviders),
        follows(state, event, true, step),
    ensures
        finishes(step, Err(cancelled_report())),
{
}

/// Providers are made only for settings that can be used; where search is
/// switched off, the call ends before that and says so.
pub proof fn law_providers_need_configuration(
    state: ToolState,
    event: ToolEvent,
    cancelled: bool,
    step: ToolStep,
)
    requires
        awaits(state, event),
        follows(state, event, cancelled, step),
    ensures
        step.action is MakeProviders ==> {
            &&& event matches ToolEvent::SettingsRead(settings)
            &&& settings::configuration_fault(settings) is None
        },
        event matches ToolEvent::SettingsRead(settings) ==> !settings.enabled ==> finishes(
            step,
            Ok(OutputModel::Disabled),
        ),
{
}

/// A description is written only after a first pass whose best score is low,
/// and only where that is switched on and a language model is chosen.
pub proof fn law_description_need(
    state: ToolState,
    event: ToolEvent,
    cancelled: bool,
    step: ToolStep,
)
    requires
        awaits(state, event),
        follows(state, event, cancelled, step),
        step.action is WriteDescription,
    ensures
        state matches ToolState::AwaitingAnswer(search, index) && event
            matches ToolEvent::QueryAnswered(answered) && answered matches Some(Ok(found))
            && wants_description(search, found),
{
}

/// Nothing that goes wrong with the description or the second pass loses the
/// first pass: without a usable outcome its matches are reported.
pub proof fn law_first_pass_kept(
    search: Search,
    index: CodeSearchIndex,
    first_pass: SemanticSearchResult,
    error: String,
    step: ToolStep,
)
    ensures
        follows_description(search, index, first_pass, Some(Err(error)), false, step) ==> formats(
            step,
            search,
            index,
            first_pass,
        ),
        follows_second_pass(search, index, first_pass, Some(None), false, step) ==> formats(
            step,
            search,
            index,
            first_pass,
        ),
{
}

/// No more matches are reported than were asked for, be it none.
pub proof fn law_no_more_than_asked(
    search: Search,
    index: CodeSearchIndex,
    found: SemanticSearchResult,
    n: usize,
    step: ToolStep,
)
    requires
        formats(step, search, index, found),
        search.input.max_results == Some(n),
    ensures
        step.state matches ToolState::AwaitingCheck(matches) ==> matches@.len() <= n,
{
    let all = output::reported_all(
        index@,
        found.matches@,
        search.runtime_settings.topology_expansion,
    );
    if let ToolState::AwaitingCheck(matches) = step.state {
        assert(output::match_models(matches@).len() == all.take(
            reported_count(search.input, all.len()) as int,
        ).len());
    }
}

/// Only the last look leads to a report of matches, and it reports those that
/// are ready.
pub proof fn law_success(state: ToolState, event: ToolEvent, cancelled: bool, step: ToolStep)
    requires
        awaits(state, event),
        follows(state, event, cancelled, step),
        step.action matches ToolAction::Finish(Ok(report)) && report@ is Success,
    ensures
        !cancelled,
        state matches ToolState::AwaitingCheck(matches) && step.action matches ToolAction::Finish(
            Ok(report),
        ) && report@ == OutputModel::Success(output::match_models(matches@)),
{
}

/// A call whose steps all succeed goes on, and hands on what it got: the input,
/// then the settings, with those of this search, then the index, then the index
/// with its embeddings.
pub proof fn law_search_goes_on(
    input: SemanticSearchCodeToolInput,
    settings: SemanticSearchSettings,
    search: Search,
    index: CodeSearchIndex,
    embeddings: Vec<Vec<u32>>,
    step: ToolStep,
)
    ensures
        follows(
            ToolState::AwaitingInput,
            ToolEvent::InputReceived(Some(Ok(input))),
            false,
            step,
        ) ==> step.state == ToolState::AwaitingSettings(input) && step.action is ReadSettings,
        settings::configuration_fault(settings) is None && follows(
            ToolState::AwaitingSettings(input),
            ToolEvent::SettingsRead(settings),
            false,
            step,
        ) ==> {
            &&& step.action is MakeProviders
            &&& step.state matches ToolState::AwaitingProviders(search)
            &&& search.input == input
            &&& search.settings == settings
            &&& search.runtime_settings == settings::runtime_settings(
                settings,
                input.max_results,
                input.expand_context,
            )
        },
        follows(
            ToolState::AwaitingProviders(search),
            ToolEvent::ProvidersMade(Ok(())),
            false,
            step,
        ) ==> {
            &&& step.state == ToolState::AwaitingIndex(search)
            &&& step.action matches ToolAction::BuildIndex(indexing)
            &&& text::optional_text(indexing.include_pattern) == text::optional_text(
                search.input.include_pattern,
            )
            &&& indexing.max_indexed_file_bytes == search.settings.max_indexed_file_bytes
            &&& indexing.chunk_max_non_whitespace_size
                == search.settings.chunk_max_non_whitespace_size
        },
        follows(
            ToolState::AwaitingIndex(search),
            ToolEvent::IndexBuilt(Some(Ok(index))),
            false,
            step,
        ) ==> {
            &&& step.state == ToolState::AwaitingEmbeddings(search, index)
            &&& step.action matches ToolAction::EmbedTexts(texts)
            &&& tokens::texts(texts@) == store::texts_of(index@)
        },
        embeddings@.len() == store::ids_of(index@.dom()).len() && follows(
            ToolState::AwaitingEmbeddings(search, index),
            ToolEvent::EmbeddingsMade(Some(Ok(embeddings))),
            false,
            step,
        ) ==> {
            &&& step.action is AnswerQuery
            &&& step.state matches ToolState::AwaitingAnswer(kept, embedded)
            &&& kept == search
            &&& store::embedded(index@, embedded@, embeddings@)
        },
{
}

/// Whether a step has the first of the matches of an answer ready: all of those
/// whose chunks are in the index, but no more than were asked for.
pub open spec fn has_ready(
    step: ToolStep,
    search: Search,
    index: CodeSearchIndex,
    found: SemanticSearchResult,
) -> bool {
    let all = output::reported_all(
        index@,
        found.matches@,
        search.runtime_settings.topology_expansion,
    );
    &&& step.action is CheckCancellation
    &&& step.state matches ToolState::AwaitingCheck(matches)
    &&& search.input.max_results is None || search.input.max_results->0 >= all.len()
        ==> output::match_models(matches@) == all
    &&& search.input.max_results matches Some(asked) ==> asked < all.len()
        ==> output::match_models(matches@) == all.take(asked as int)
}

/// After a first pass a description is written exactly if the fallback is
/// switched on, a language model is chosen, and nothing was found or the first
/// match has a score below the threshold. Otherwise the matches are ready.
pub proof fn law_after_first_pass(
    search: Search,
    index: CodeSearchIndex,
    found: SemanticSearchResult,
    step: ToolStep,
)
    requires
        follows(
            ToolState::AwaitingAnswer(search, index),
            ToolEvent::QueryAnswered(Some(Ok(found))),
            false,
            step,
        ),
    ensures
        if search.settings.hyde.mode == HyDEMode::Fallback && search.settings.hyde.model is Some && (
        found.matches@.len() == 0 || crate::score::less(
            found.matches@[0].rerank_score,
            search.runtime_settings.hyde_threshold,
        )) {
            step.action is WriteDescription && step.state == ToolState::AwaitingDescription(
                search,
                index,
                found,
            )
        } else {
            has_ready(step, search, index, found)
        },
{
    let all = output::reported_all(
        index@,
        found.matches@,
        search.runtime_settings.topology_expansion,
    );
    assert(all.take(all.len() as int) =~= all);
}

/// A description that says something is searched for. What that finds is
/// reported in place of the first pass exactly if its first match has a greater
/// score, where no match counts as zero; else the first pass is.
pub proof fn law_second_pass_counts(
    search: Search,
    index: CodeSearchIndex,
    first_pass: SemanticSearchResult,
    description: String,
    found: SemanticSearchResult,
    step: ToolStep,
)
    requires
        search.runtime_settings.hyde_mode == HyDEMode::Fallback,
        first_pass.matches@.len() == 0 || crate::score::less(
            first_pass.matches@[0].rerank_score,
            search.runtime_settings.hyde_threshold,
        ),
    ensures
        description@.len() > 0 && follows(
            ToolState::AwaitingDescription(search, index, first_pass),
            ToolEvent::DescriptionWritten(Some(Ok(description))),
            false,
            step,
        ) ==> step.action == ToolAction::RunSecondPass(description) && step.state
            == ToolState::AwaitingSecondPass(search, index, first_pass),
        follows(
            ToolState::AwaitingSecondPass(search, index, first_pass),
            ToolEvent::SecondPassRun(Some(Some(found))),
            false,
            step,
        ) ==> {
            let first = if first_pass.matches@.len() > 0 {
                first_pass.matches@[0].rerank_score
            } else {
                crate::score::zero()
            };
            let second = if found.matches@.len() > 0 {
                found.matches@[0].rerank_score
            } else {
                crate::score::zero()
            };
            if crate::score::less(first, second) {
                has_ready(step, search, index, found)
            } else {
                has_ready(step, search, index, first_pass)
            }
        },
{
    let all = output::reported_all(
        index@,
        found.matches@,
        search.runtime_settings.topology_expansion,
    );
    assert(all.take(all.len() as int) =~= all);
    let other = output::reported_all(
        index@,
        first_pass.matches@,
        search.runtime_settings.topology_expansion,
    );
    assert(other.take(other.len() as int) =~= other);
}

/// A call that is not cancelled by the last look reports the matches that are
/// ready, and shows them.
pub proof fn law_ready_matches_reported(
    matches: Vec<SemanticSearchCodeMatch>,
    step: ToolStep,
)
    requires
        follows(
            ToolState::AwaitingCheck(matches),
            ToolEvent::CancellationChecked,
            false,
            step,
        ),
    ensures
        step.action matches ToolAction::Finish(Ok(report)) && report@ == OutputModel::Success(
            output::match_models(matches@),
        ),
        step.notice matches Some(notice) && notice.content@ == output::output_text(
            OutputModel::Success(output::match_models(matches@)),
        ),
{
}

/// Whether a step ends the call with a text that says what went wrong.
pub open spec fn ends_with(step: ToolStep, message: Seq<char>) -> bool {
    &&& step.state is Done
    &&& step.action matches ToolAction::Finish(Err(report)) && report@
        == OutputModel::ConfigurationError(message)
}

/// What goes wrong before a first pass is done ends the call, and is told with
/// the step in which it went wrong.
pub proof fn law_failures_told(
    input: SemanticSearchCodeToolInput,
    settings: SemanticSearchSettings,
    search: Search,
    index: CodeSearchIndex,
    error: String,
    step: ToolStep,
)
    ensures
        follows(
            ToolState::AwaitingInput,
            ToolEvent::InputReceived(Some(Err(error))),
            false,
            step,
        ) ==> ends_with(step, "Failed to receive semantic code search input: "@ + error@),
        settings.enabled && settings::configuration_fault(settings) is Some && follows(
            ToolState::AwaitingSettings(input),
            ToolEvent::SettingsRead(settings),
            false,
            step,
        ) ==> ends_with(step, settings::configuration_fault(settings)->0),
        follows(
            ToolState::AwaitingProviders(search),
            ToolEvent::ProvidersMade(Err(error)),
            false,
            step,
        ) ==> ends_with(step, error@),
        follows(
            ToolState::AwaitingIndex(search),
            ToolEvent::IndexBuilt(Some(Err(error))),
            false,
            step,
        ) ==> ends_with(step, "Failed to build semantic search index: "@ + error@),
        follows(
            ToolState::AwaitingEmbeddings(search, index),
            ToolEvent::EmbeddingsMade(Some(Err(error))),
            false,
            step,
        ) ==> ends_with(step, "Failed to embed semantic search index: "@ + error@),
        follows(
            ToolState::AwaitingAnswer(search, index),
            ToolEvent::QueryAnswered(Some(Err(error))),
            false,
            step,
        ) ==> ends_with(step, "Semantic code search failed: "@ + error@),
{
}

/// While a call runs it shows that the index is built, with a title, that the
/// query is run, and that the second pass is run; at the end it shows the report.
/// At no other step does it show anything.
pub proof fn law_notices(state: ToolState, event: ToolEvent, cancelled: bool, step: ToolStep)
    requires
        awaits(state, event),
        follows(state, event, cancelled, step),
    ensures
        match step.action {
            ToolAction::BuildIndex(_) => step.notice matches Some(notice) && text::optional_text(
                notice.title,
            ) == Some("Semantic code search"@) && notice.content@
                == "Building semantic code index..."@,
            ToolAction::AnswerQuery => step.notice matches Some(notice) && notice.title is None
                && notice.content@ == "Running semantic code query..."@,
            ToolAction::RunSecondPass(_) => step.notice matches Some(notice) && notice.title is None
                && notice.content@ == "Running HyDE semantic code fallback..."@,
            ToolAction::Finish(Ok(report)) => step.notice matches Some(notice) ==> notice.title
                is None && notice.content@ == output::output_text(report@),
            _ => step.notice is None,
        },
{
}

} // verus!
