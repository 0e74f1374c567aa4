//! The providers of embeddings and of reranking: how they are configured, what
//! is sent to them, and what is made of their answers.

use crate::score::Score;
use crate::settings::{
    SemanticSearchApiFormat, SemanticSearchModelSelection, SemanticSearchSettings,
};
use crate::text;
use crate::tokens;
use vstd::prelude::*;
use vstd::string::*;

verus! {

/// The address of OpenAI's interface where none is configured.
pub const OPEN_AI_API_URL: &'static str = "https://api.openai.com/v1";

// ---------------------------------------------------------------------------
// Names of environment variables
// ---------------------------------------------------------------------------

/// The uppercase letters of ASCII.
pub open spec fn ascii_upper(c: char) -> bool {
    'A' <= c <= 'Z'
}

/// The uppercase letter of an ASCII letter; other characters are kept.
pub open spec fn ascii_uppercase(c: char) -> char {
    if 'a' <= c <= 'z' {
        (c as u32 - 32) as char
    } else {
        c
    }
}

/// Whether a word of the identifier goes on before the character at `index`.
pub open spec fn inside_word(id: Seq<char>, index: int) -> bool {
    index > 0 && tokens::ascii_alphanumeric(id[index - 1])
}

/// What the character at `index` of a provider's identifier gives: letters
/// and digits in uppercase, with an underscore before a capital within a
/// word, and one underscore after a word.
pub open spec fn variable_part(id: Seq<char>, index: int) -> Seq<char> {
    let c = id[index];
    if tokens::ascii_alphanumeric(c) {
        if inside_word(id, index) && ascii_upper(c) {
            seq!['_', ascii_uppercase(c)]
        } else {
            seq![ascii_uppercase(c)]
        }
    } else if inside_word(id, index) {
        seq!['_']
    } else {
        Seq::empty()
    }
}

/// What the first `count` characters of a provider's identifier give.
pub open spec fn variable_parts(id: Seq<char>, count: int) -> Seq<char>
    decreases count,
{
    if count <= 0 {
        Seq::empty()
    } else {
        variable_parts(id, count - 1) + variable_part(id, count - 1)
    }
}

/// A provider's identifier in capitals, its words joined by underscores.
pub open spec fn variable_stem(id: Seq<char>) -> Seq<char> {
    let name = variable_parts(id, id.len() as int);
    if name.len() > 0 && name.last() == '_' {
        name.drop_last()
    } else {
        name
    }
}

/// The name of the environment variable that holds a provider's key.
pub open spec fn key_variable(id: Seq<char>) -> Seq<char> {
    if variable_stem(id).len() == 0 {
        "OPENAI_COMPATIBLE_API_KEY"@
    } else {
        variable_stem(id) + "_API_KEY"@
    }
}

fn is_ascii_alphanumeric(c: char) -> (alphanumeric: bool)
    ensures
        alphanumeric == tokens::ascii_alphanumeric(c),
{
    ('a' <= c && c <= 'z') || ('A' <= c && c <= 'Z') || ('0' <= c && c <= '9')
}

fn to_ascii_uppercase(c: char) -> (upper: char)
    ensures
        upper == ascii_uppercase(c),
{
    if 'a' <= c && c <= 'z' {
        ((c as u8) - 32) as char
    } else {
        c
    }
}

/// The name of the environment variable that holds the key of an
/// OpenAI-compatible provider.
pub fn openai_compatible_api_key_env_var(provider_id: &str) -> (name: String)
    ensures
        name@ == key_variable(provider_id@),
{
    let ghost id = provider_id@;
    let mut parts: Vec<char> = Vec::new();
    let mut previous_was_separator: bool = true;
    for character in iter: provider_id.chars()
        invariant
            iter.seq() == id,
            id == provider_id@,
            parts@ == variable_parts(id, iter.index()),
            previous_was_separator == !inside_word(id, iter.index()),
    {
        let ghost before = parts@;
        let ghost index = iter.index();
        if is_ascii_alphanumeric(character) {
            if !previous_was_separator && 'A' <= character && character <= 'Z' {
                parts.push('_');
            }
            parts.push(to_ascii_uppercase(character));
            previous_was_separator = false;
        } else if !previous_was_separator {
            parts.push('_');
            previous_was_separator = true;
        }
        assert(parts@ =~= before + variable_part(id, index));
    }
    let mut name: String = String::new();
    let mut length: usize = parts.len();
    if length > 0 && parts[length - 1] == '_' {
        length = length - 1;
    }
    let ghost stem = variable_stem(id);
    assert(parts@.take(length as int) =~= stem);
    for index in 0..length
        invariant
            length <= parts@.len(),
            name@ == parts@.take(index as int),
    {
        name.push(parts[index]);
        assert(parts@.take(index + 1) =~= parts@.take(index as int).push(parts@[index as int]));
    }
    if length == 0 {
        "OPENAI_COMPATIBLE_API_KEY".to_string()
    } else {
        name.append("_API_KEY");
        name
    }
}

// ---------------------------------------------------------------------------
// Local addresses
// ---------------------------------------------------------------------------

/// The scheme and the host of a URL, as `url::Url::parse` finds them; nothing
/// where the text is no URL.
pub uninterp spec fn url_parts(text: Seq<char>) -> Option<(Seq<char>, Option<Seq<char>>)>;

/// A scheme and a host as characters.
pub open spec fn parts_text(parts: Option<(String, Option<String>)>) -> Option<
    (Seq<char>, Option<Seq<char>>),
> {
    match parts {
        Some((scheme, host)) => Some((scheme@, text::optional_text(host))),
        None => None,
    }
}

/// `url::Url::parse`, with the scheme and the host that `url::Url::scheme` and
/// `url::Url::host_str` read off the parsed URL. The result is named by
/// [`url_parts`]: it depends on the text alone. What the parts of a given text
/// are is left to the crate.
#[verifier::external_body]
fn parse_url(text: &str) -> (parts: Option<(String, Option<String>)>)
    ensures
        parts_text(parts) == url_parts(text@),
{
    match url::Url::parse(text) {
        Ok(url) => Some((url.scheme().to_string(), url.host_str().map(str::to_string))),
        Err(_) => None,
    }
}

/// Whether a URL leads, without encryption, to the machine itself. A parsed
/// URL holds the loopback addresses in these forms only.
pub open spec fn is_local(parts: Option<(Seq<char>, Option<Seq<char>>)>) -> bool {
    match parts {
        Some((scheme, Some(host))) => scheme == "http"@ && (host == "localhost"@ || host
            == "[::1]"@ || host == "127.0.0.1"@),
        _ => false,
    }
}

/// Whether the parts of a URL lead to the machine itself.
pub fn is_local_endpoint(parts: &Option<(String, Option<String>)>) -> (local: bool)
    ensures
        local == is_local(parts_text(*parts)),
{
    match parts {
        Some((scheme, Some(host))) => {
            let host = host.as_str();
            text::same_text(scheme.as_str(), "http") && (text::same_text(host, "localhost")
                || text::same_text(host, "[::1]") || text::same_text(host, "127.0.0.1"))
        },
        _ => false,
    }
}

/// Whether a provider at this address needs no key.
pub fn allows_empty_semantic_api_key(api_url: &str) -> (allowed: bool)
    ensures
        allowed == is_local(url_parts(api_url@)),
{
    is_local_endpoint(&parse_url(api_url))
}

// ---------------------------------------------------------------------------
// Configuration
// ---------------------------------------------------------------------------

/// What a provider is needed for.
#[derive(Clone, Copy, Debug, Eq, PartialEq, Structural)]
pub enum SemanticSearchProviderRole {
    Embedding,
    Reranker,
}

/// How a provider is reached. It has no `Debug` of its own, so that the key is
/// never printed; see [`SemanticSearchHttpProviderConfig::redacted`].
#[derive(Eq, PartialEq)]
pub struct SemanticSearchHttpProviderConfig {
    pub api_url: String,
    pub api_key: Option<String>,
    pub model: String,
}

/// How a provider is reached, as a mathematical value.
pub struct ConfigModel {
    pub api_url: Seq<char>,
    pub api_key: Option<Seq<char>>,
    pub model: Seq<char>,
}

impl View for SemanticSearchHttpProviderConfig {
    type V = ConfigModel;

    open spec fn view(&self) -> ConfigModel {
        ConfigModel {
            api_url: self.api_url@,
            api_key: text::optional_text(self.api_key),
            model: self.model@,
        }
    }
}

/// A configuration that can be printed.
#[derive(Debug, Eq, PartialEq)]
pub struct RedactedProviderConfig {
    pub api_url: String,
    pub api_key: Option<String>,
    pub model: String,
}

impl SemanticSearchHttpProviderConfig {
    /// The configuration for printing: of the key it shows only whether there
    /// is one.
    pub fn redacted(&self) -> (shown: RedactedProviderConfig)
        ensures
            shown.api_url@ == self.api_url@,
            shown.model@ == self.model@,
            text::optional_text(shown.api_key) == if self.api_key is Some {
                Some("<redacted>"@)
            } else {
                None
            },
    {
        RedactedProviderConfig {
            api_url: self.api_url.clone(),
            api_key: match &self.api_key {
                Some(_) => Some("<redacted>".to_string()),
                None => None,
            },
            model: self.model.clone(),
        }
    }
}

/// What is wrong with a model in a role; nothing where it fits.
pub open spec fn role_fault(
    format: SemanticSearchApiFormat,
    role: SemanticSearchProviderRole,
) -> Option<Seq<char>> {
    match (role, format) {
        (SemanticSearchProviderRole::Embedding, SemanticSearchApiFormat::OpenAiEmbeddings) => None,
        (SemanticSearchProviderRole::Reranker, SemanticSearchApiFormat::JinaRerank) => None,
        (SemanticSearchProviderRole::Embedding, _) => Some(
            "Semantic search embedding requires api_format `openai_embeddings`."@,
        ),
        (SemanticSearchProviderRole::Reranker, _) => Some(
            "Semantic search reranker requires api_format `jina_rerank`."@,
        ),
    }
}

/// Checks that a model is spoken to in the format of its role.
pub fn validate_semantic_search_model_role(
    selection: &SemanticSearchModelSelection,
    role: SemanticSearchProviderRole,
) -> (result: Result<(), String>)
    ensures
        result is Ok == role_fault(selection.api_format, role) is None,
        result matches Err(message) ==> role_fault(selection.api_format, role) == Some(message@),
{
    match role {
        SemanticSearchProviderRole::Embedding => match selection.api_format {
            SemanticSearchApiFormat::OpenAiEmbeddings => Ok(()),
            SemanticSearchApiFormat::JinaRerank => Err(
                "Semantic search embedding requires api_format `openai_embeddings`.".to_string(),
            ),
        },
        SemanticSearchProviderRole::Reranker => match selection.api_format {
            SemanticSearchApiFormat::JinaRerank => Ok(()),
            SemanticSearchApiFormat::OpenAiEmbeddings => Err(
                "Semantic search reranker requires api_format `jina_rerank`.".to_string(),
            ),
        },
    }
}

/// Pairs of strings as pairs of character sequences.
pub open spec fn pair_texts(pairs: Seq<(String, String)>) -> Seq<(Seq<char>, Seq<char>)> {
    Seq::new(pairs.len(), |i: int| (pairs[i].0@, pairs[i].1@))
}

/// The address of the first provider with the given identifier.
pub open spec fn first_address(
    providers: Seq<(Seq<char>, Seq<char>)>,
    id: Seq<char>,
) -> Option<Seq<char>>
    decreases providers.len(),
{
    if providers.len() == 0 {
        None
    } else if providers.first().0 == id {
        Some(providers.first().1)
    } else {
        first_address(providers.drop_first(), id)
    }
}

/// The environment variable that holds the key of a provider.
pub open spec fn provider_variable(id: Seq<char>) -> Seq<char> {
    if id == "openai"@ {
        "OPENAI_API_KEY"@
    } else {
        key_variable(id)
    }
}

/// An optional borrowed string as characters.
pub open spec fn borrowed_text(text: Option<&str>) -> Option<Seq<char>> {
    match text {
        Some(text) => Some(text@),
        None => None,
    }
}

/// The address of a provider in a role, or what is wrong.
pub open spec fn address_of(
    provider: Seq<char>,
    role: SemanticSearchProviderRole,
    openai_api_url: Option<Seq<char>>,
    openai_compatible: Seq<(Seq<char>, Seq<char>)>,
) -> Result<Seq<char>, Seq<char>> {
    if provider == "openai"@ {
        if role != SemanticSearchProviderRole::Embedding {
            Err("OpenAI is only supported for semantic search embeddings in v1"@)
        } else {
            Ok(
                match openai_api_url {
                    Some(api_url) => api_url,
                    None => OPEN_AI_API_URL@,
                },
            )
        }
    } else {
        match first_address(openai_compatible, provider) {
            Some(api_url) => Ok(api_url),
            None => Err(
                "Unsupported semantic search provider `"@ + provider
                    + "`. Configure it under `language_models.openai_compatible` for semantic search v1."@,
            ),
        }
    }
}

/// How a model is reached in a role, or what is wrong. `local` tells of an
/// address whether it needs no key.
pub open spec fn resolution(
    selection: SemanticSearchModelSelection,
    role: SemanticSearchProviderRole,
    openai_api_url: Option<Seq<char>>,
    openai_compatible: Seq<(Seq<char>, Seq<char>)>,
    api_key: Option<Seq<char>>,
    local: spec_fn(Seq<char>) -> bool,
) -> Result<ConfigModel, Seq<char>> {
    let provider = selection.provider@;
    match role_fault(selection.api_format, role) {
        Some(message) => Err(message),
        None => match address_of(provider, role, openai_api_url, openai_compatible) {
            Err(message) => Err(message),
            Ok(api_url) => {
                let keyless = match api_key {
                    Some(key) => key.len() == 0,
                    None => true,
                };
                if keyless && !local(api_url) {
                    Err(
                        "Semantic search provider `"@ + provider + "` requires "@
                            + provider_variable(provider) + "."@,
                    )
                } else {
                    Ok(ConfigModel { api_url, api_key, model: selection.model@ })
                }
            },
        },
    }
}

/// Which addresses need no key.
pub open spec fn local_addresses() -> spec_fn(Seq<char>) -> bool {
    |api_url: Seq<char>| is_local(url_parts(api_url))
}

/// A configuration or an error as mathematical values.
pub open spec fn outcome_model(
    result: Result<SemanticSearchHttpProviderConfig, String>,
) -> Result<ConfigModel, Seq<char>> {
    match result {
        Ok(config) => Ok(config@),
        Err(message) => Err(message@),
    }
}

fn find_address(providers: &[(String, String)], id: &str) -> (address: Option<String>)
    ensures
        text::optional_text(address) == first_address(pair_texts(providers@), id@),
{
    let ghost pairs = pair_texts(providers@);
    assert(pairs.skip(0) =~= pairs);
    for index in 0..providers.len()
        invariant
            pairs == pair_texts(providers@),
            first_address(pairs, id@) == first_address(pairs.skip(index as int), id@),
    {
        assert(pairs.skip(index as int).drop_first() =~= pairs.skip(index + 1));
        if text::same_text(providers[index].0.as_str(), id) {
            return Some(providers[index].1.clone());
        }
    }
    None
}

/// The environment variable that holds the key of a provider.
pub fn api_key_env_var(provider: &str) -> (name: String)
    ensures
        name@ == provider_variable(provider@),
{
    if text::same_text(provider, "openai") {
        "OPENAI_API_KEY".to_string()
    } else {
        openai_compatible_api_key_env_var(provider)
    }
}

fn provider_address(
    provider: &str,
    role: SemanticSearchProviderRole,
    openai_api_url: Option<&str>,
    openai_compatible: &[(String, String)],
) -> (address: Result<String, String>)
    ensures
        (match address {
            Ok(api_url) => Ok(api_url@),
            Err(message) => Err(message@),
        }) == address_of(
            provider@,
            role,
            borrowed_text(openai_api_url),
            pair_texts(openai_compatible@),
        ),
{
    if text::same_text(provider, "openai") {
        if role != SemanticSearchProviderRole::Embedding {
            return Err("OpenAI is only supported for semantic search embeddings in v1".to_string());
        }
        return match openai_api_url {
            Some(api_url) => Ok(api_url.to_string()),
            None => Ok(OPEN_AI_API_URL.to_string()),
        };
    }
    match find_address(openai_compatible, provider) {
        Some(api_url) => Ok(api_url),
        None => {
            let mut message: String = "Unsupported semantic search provider `".to_string();
            message.append(provider);
            message.append(
                "`. Configure it under `language_models.openai_compatible` for semantic search v1.",
            );
            Err(message)
        },
    }
}

/// How a model is reached in a role: at the address that is configured for its
/// provider, with the given key. A key may be missing only for an address on
/// the machine itself.
pub fn resolve_semantic_provider_config_from_values(
    selection: &SemanticSearchModelSelection,
    role: SemanticSearchProviderRole,
    openai_api_url: Option<&str>,
    openai_compatible: &[(String, String)],
    api_key: Option<String>,
) -> (result: Result<SemanticSearchHttpProviderConfig, String>)
    ensures
        outcome_model(result) == resolution(
            *selection,
            role,
            borrowed_text(openai_api_url),
            pair_texts(openai_compatible@),
            text::optional_text(api_key),
            local_addresses(),
        ),
{
    if let Err(message) = validate_semantic_search_model_role(selection, role) {
        return Err(message);
    }
    let provider = selection.provider.as_str();
    let api_url: String = match provider_address(provider, role, openai_api_url, openai_compatible) {
        Ok(api_url) => api_url,
        Err(message) => {
            return Err(message);
        },
    };
    let local: bool = allows_empty_semantic_api_key(api_url.as_str());
    assert(local == local_addresses()(api_url@));
    resolve_semantic_provider_config_at(selection, api_url, api_key, local)
}

/// The last step of a resolution: the configuration for an address, unless the
/// key is missing and the address needs one.
pub fn resolve_semantic_provider_config_at(
    selection: &SemanticSearchModelSelection,
    api_url: String,
    api_key: Option<String>,
    local: bool,
) -> (result: Result<SemanticSearchHttpProviderConfig, String>)
    ensures
        outcome_model(result) == if (api_key is None || api_key->0@.len() == 0) && !local {
            Err(
                "Semantic search provider `"@ + selection.provider@ + "` requires "@
                    + provider_variable(selection.provider@) + "."@,
            )
        } else {
            Ok(
                ConfigModel {
                    api_url: api_url@,
                    api_key: text::optional_text(api_key),
                    model: selection.model@,
                },
            )
        },
{
    let keyless: bool = match &api_key {
        Some(key) => key.as_str().is_empty(),
        None => true,
    };
    if keyless && !local {
        let mut message: String = "Semantic search provider `".to_string();
        message.append(selection.provider.as_str());
        message.append("` requires ");
        message.append(api_key_env_var(selection.provider.as_str()).as_str());
        message.append(".");
        return Err(message);
    }
    Ok(SemanticSearchHttpProviderConfig { api_url, api_key, model: selection.model.clone() })
}

/// How a model is reached in a role, with the address of OpenAI as it is
/// configured, which may be empty.
pub fn resolve_semantic_provider_config(
    selection: &SemanticSearchModelSelection,
    role: SemanticSearchProviderRole,
    openai_api_url: &str,
    openai_compatible: &[(String, String)],
    api_key: Option<String>,
) -> (result: Result<SemanticSearchHttpProviderConfig, String>)
    ensures
        outcome_model(result) == resolution(
            *selection,
            role,
            Some(openai_address(openai_api_url@)),
            pair_texts(openai_compatible@),
            text::optional_text(api_key),
            local_addresses(),
        ),
{
    let openai_api_url: &str = if openai_api_url.is_empty() {
        OPEN_AI_API_URL
    } else {
        openai_api_url
    };
    resolve_semantic_provider_config_from_values(
        selection,
        role,
        Some(openai_api_url),
        openai_compatible,
        api_key,
    )
}

// ---------------------------------------------------------------------------
// Requests and answers
// ---------------------------------------------------------------------------

/// An address with a path below it. Slashes at the end of the address do not
/// count.
pub open spec fn endpoint(api_url: Seq<char>, path: Seq<char>) -> Seq<char> {
    text::trim_end_char_of(api_url, '/') + path
}

/// The address for requests for embeddings.
pub fn embeddings_endpoint(api_url: &str) -> (address: String)
    ensures
        address@ == endpoint(api_url@, "/embeddings"@),
{
    let mut address: String = text::trim_end_char(api_url, '/').to_string();
    address.append("/embeddings");
    address
}

/// The address for requests for reranking.
pub fn rerank_endpoint(api_url: &str) -> (address: String)
    ensures
        address@ == endpoint(api_url@, "/rerank"@),
{
    let mut address: String = text::trim_end_char(api_url, '/').to_string();
    address.append("/rerank");
    address
}

/// The value of the header that carries the key.
pub fn authorization_header(api_key: &str) -> (value: String)
    ensures
        value@ == "Bearer "@ + text::trim_of(api_key@),
{
    let mut value: String = "Bearer ".to_string();
    value.append(text::trim(api_key));
    value
}

/// Checks the status of an answer. `shown` is the status as it is shown to
/// people; of the answer's body nothing is reported.
pub fn check_status(status: u16, shown: &str) -> (result: Result<(), String>)
    ensures
        result is Ok == (200 <= status < 300),
        result matches Err(message) ==> message@ == "HTTP API returned status "@ + shown@,
{
    if 200 <= status && status < 300 {
        Ok(())
    } else {
        let mut message: String = "HTTP API returned status ".to_string();
        message.append(shown);
        Err(message)
    }
}

/// The steps in which a request is sent as JSON and answered as JSON.
#[derive(Clone, Copy, Debug, Eq, PartialEq)]
pub enum PostStep {
    SerializeBody,
    BuildRequest,
    Send,
    ReadAnswer,
    DeserializeAnswer,
}

/// What is reported of a step that failed, before the error itself.
pub open spec fn step_failure(step: PostStep) -> Seq<char> {
    match step {
        PostStep::SerializeBody => "failed to serialize request body: "@,
        PostStep::BuildRequest => "failed to build HTTP request: "@,
        PostStep::Send => "HTTP request failed: "@,
        PostStep::ReadAnswer => "failed to read HTTP response: "@,
        PostStep::DeserializeAnswer => "failed to deserialize response body: "@,
    }
}

/// What is reported of a step that failed.
pub fn post_failure(step: PostStep, error: &str) -> (message: String)
    ensures
        message@ == step_failure(step) + error@,
{
    let mut message: String = match step {
        PostStep::SerializeBody => "failed to serialize request body: ".to_string(),
        PostStep::BuildRequest => "failed to build HTTP request: ".to_string(),
        PostStep::Send => "HTTP request failed: ".to_string(),
        PostStep::ReadAnswer => "failed to read HTTP response: ".to_string(),
        PostStep::DeserializeAnswer => "failed to deserialize response body: ".to_string(),
    };
    message.append(error);
    message
}

/// The body of a request for embeddings.
#[derive(Debug, Eq, PartialEq)]
pub struct OpenAiEmbeddingsRequest {
    pub model: String,
    pub input: Vec<String>,
}

/// One embedding of an answer.
#[derive(Debug, Eq, PartialEq)]
pub struct OpenAiEmbeddingData {
    pub embedding: Vec<u32>,
}

/// The answer to a request for embeddings.
#[derive(Debug, Eq, PartialEq)]
pub struct OpenAiEmbeddingsResponse {
    pub data: Vec<OpenAiEmbeddingData>,
}

/// Embeddings as sequences of the bits of their components.
pub open spec fn vectors(embeddings: Seq<Vec<u32>>) -> Seq<Seq<u32>> {
    Seq::new(embeddings.len(), |i: int| embeddings[i]@)
}

/// The embeddings of an answer.
pub open spec fn data_vectors(data: Seq<OpenAiEmbeddingData>) -> Seq<Seq<u32>> {
    Seq::new(data.len(), |i: int| data[i].embedding@)
}

impl OpenAiEmbeddingsResponse {
    /// The embeddings, in the order of the answer.
    pub fn into_embeddings(self) -> (embeddings: Vec<Vec<u32>>)
        ensures
            vectors(embeddings@) == data_vectors(self.data@),
    {
        let ghost wanted = data_vectors(self.data@);
        let mut embeddings: Vec<Vec<u32>> = Vec::new();
        for data in iter: self.data.into_iter()
            invariant
                wanted == data_vectors(iter.seq()),
                embeddings@.len() == iter.index(),
                forall|i: int| 0 <= i < iter.index() ==> (#[trigger] embeddings@[i])@ == wanted[i],
        {
            embeddings.push(data.embedding);
        }
        assert(vectors(embeddings@) =~= wanted);
        embeddings
    }
}

/// The body of a request for reranking.
#[derive(Debug, Eq, PartialEq)]
pub struct JinaRerankRequest {
    pub model: String,
    pub query: String,
    pub documents: Vec<String>,
    pub top_n: usize,
}

/// One result of an answer to a request for reranking.
#[derive(Clone, Copy, Debug, Eq, PartialEq)]
pub struct JinaRerankResponseItem {
    pub index: usize,
    pub relevance_score: Score,
}

/// The answer to a request for reranking.
#[derive(Debug, Eq, PartialEq)]
pub struct JinaRerankResponse {
    pub results: Vec<JinaRerankResponseItem>,
}

/// A document with the score that a reranker gave it.
#[derive(Clone, Copy, Debug, Eq, PartialEq)]
pub struct RerankResult {
    pub document_index: usize,
    pub score: Score,
}

impl JinaRerankResponse {
    /// The results, in the order of the answer.
    pub fn into_results(self) -> (results: Vec<RerankResult>)
        ensures
            results@ == self.results@.map_values(
                |item: JinaRerankResponseItem|
                    (RerankResult { document_index: item.index, score: item.relevance_score }),
            ),
    {
        let mut results: Vec<RerankResult> = Vec::new();
        for index in 0..self.results.len()
            invariant
                results@.len() == index,
                forall|i: int|
                    0 <= i < index ==> #[trigger] results@[i] == (RerankResult {
                        document_index: self.results@[i].index,
                        score: self.results@[i].relevance_score,
                    }),
        {
            let item = self.results[index];
            results.push(
                RerankResult { document_index: item.index, score: item.relevance_score },
            );
        }
        results
    }
}

/// A request to a provider: where it goes, the header with the key, and the
/// body.
#[derive(Eq, PartialEq)]
pub struct ProviderRequest<Body> {
    pub uri: String,
    pub authorization: String,
    pub body: Body,
}

/// A provider of embeddings behind an OpenAI-compatible interface.
#[derive(Eq, PartialEq)]
pub struct OpenAiCompatibleEmbeddingProvider {
    pub api_url: String,
    pub api_key: String,
    pub model: String,
}

impl OpenAiCompatibleEmbeddingProvider {
    pub fn new(api_url: String, api_key: String, model: String) -> (provider: Self)
        ensures
            provider.api_url == api_url,
            provider.api_key == api_key,
            provider.model == model,
    {
        Self { api_url, api_key, model }
    }

    /// The request for the embeddings of texts.
    pub fn embed_inputs(&self, input: Vec<String>) -> (request: ProviderRequest<
        OpenAiEmbeddingsRequest,
    >)
        ensures
            request.uri@ == endpoint(self.api_url@, "/embeddings"@),
            request.authorization@ == "Bearer "@ + text::trim_of(self.api_key@),
            request.body.model@ == self.model@,
            request.body.input == input,
    {
        ProviderRequest {
            uri: embeddings_endpoint(self.api_url.as_str()),
            authorization: authorization_header(self.api_key.as_str()),
            body: OpenAiEmbeddingsRequest { model: self.model.clone(), input },
        }
    }

    /// The embeddings of an answer, or what is reported where none came.
    pub fn embed_batch(&self, answer: Result<OpenAiEmbeddingsResponse, String>) -> (result: Result<
        Vec<Vec<u32>>,
        String,
    >)
        ensures
            result is Ok == answer is Ok,
            answer matches Ok(response) ==> vectors(result->Ok_0@) == data_vectors(response.data@),
            answer matches Err(error) ==> result->Err_0@
                == "failed to fetch OpenAI-compatible embeddings for model "@ + self.model@
                + ": expected OpenAI embeddings API format: "@ + error@,
    {
        match answer {
            Ok(response) => Ok(response.into_embeddings()),
            Err(error) => {
                let mut message: String =
                    "failed to fetch OpenAI-compatible embeddings for model ".to_string();
                message.append(self.model.as_str());
                message.append(": expected OpenAI embeddings API format: ");
                message.append(error.as_str());
                Err(message)
            },
        }
    }

    /// The first of the embeddings that came for one text.
    pub fn embed(&self, embeddings: Result<Vec<Vec<u32>>, String>) -> (result: Result<
        Vec<u32>,
        String,
    >)
        ensures
            embeddings matches Err(error) ==> result == Err::<Vec<u32>, String>(error),
            embeddings matches Ok(listed) ==> if listed@.len() == 0 {
                &&& result is Err
                &&& result->Err_0@ == "OpenAI-compatible embeddings response for model "@
                    + self.model@ + " did not include an embedding"@
            } else {
                &&& result is Ok
                &&& result->Ok_0@ == listed@[0]@
            },
    {
        match embeddings {
            Err(error) => Err(error),
            Ok(listed) => {
                if listed.len() == 0 {
                    let mut message: String =
                        "OpenAI-compatible embeddings response for model ".to_string();
                    message.append(self.model.as_str());
                    message.append(" did not include an embedding");
                    return Err(message);
                }
                let mut listed = listed;
                Ok(listed.swap_remove(0))
            },
        }
    }
}

/// A provider of reranking behind Jina's interface.
#[derive(Eq, PartialEq)]
pub struct JinaRerankerProvider {
    pub api_url: String,
    pub api_key: String,
    pub model: String,
}

impl JinaRerankerProvider {
    pub fn new(api_url: String, api_key: String, model: String) -> (provider: Self)
        ensures
            provider.api_url == api_url,
            provider.api_key == api_key,
            provider.model == model,
    {
        Self { api_url, api_key, model }
    }

    /// The request for the best `top_n` of documents.
    pub fn rerank_top_n(&self, query: String, documents: Vec<String>, top_n: usize) -> (request:
        ProviderRequest<JinaRerankRequest>)
        ensures
            request.uri@ == endpoint(self.api_url@, "/rerank"@),
            request.authorization@ == "Bearer "@ + text::trim_of(self.api_key@),
            request.body.model@ == self.model@,
            request.body.query == query,
            request.body.documents == documents,
            request.body.top_n == top_n,
    {
        ProviderRequest {
            uri: rerank_endpoint(self.api_url.as_str()),
            authorization: authorization_header(self.api_key.as_str()),
            body: JinaRerankRequest { model: self.model.clone(), query, documents, top_n },
        }
    }

    /// The request for all documents in the order of their scores.
    pub fn rerank(&self, query: String, documents: Vec<String>) -> (request: ProviderRequest<
        JinaRerankRequest,
    >)
        ensures
            request.uri@ == endpoint(self.api_url@, "/rerank"@),
            request.authorization@ == "Bearer "@ + text::trim_of(self.api_key@),
            request.body.model@ == self.model@,
            request.body.query == query,
            request.body.documents == documents,
            request.body.top_n == documents@.len(),
    {
        let top_n: usize = documents.len();
        self.rerank_top_n(query, documents, top_n)
    }

    /// The results of an answer, or what is reported where none came.
    pub fn rerank_results(&self, answer: Result<JinaRerankResponse, String>) -> (result: Result<
        Vec<RerankResult>,
        String,
    >)
        ensures
            result is Ok == answer is Ok,
            answer matches Ok(response) ==> result->Ok_0@ == response.results@.map_values(
                |item: JinaRerankResponseItem|
                    (RerankResult { document_index: item.index, score: item.relevance_score }),
            ),
            answer matches Err(error) ==> result->Err_0@
                == "failed to fetch Jina rerank results for model "@ + self.model@
                + ": expected Jina rerank API format: "@ + error@,
    {
        match answer {
            Ok(response) => Ok(response.into_results()),
            Err(error) => {
                let mut message: String =
                    "failed to fetch Jina rerank results for model ".to_string();
                message.append(self.model.as_str());
                message.append(": expected Jina rerank API format: ");
                message.append(error.as_str());
                Err(message)
            },
        }
    }
}

/// The two providers that a search needs.
#[derive(Eq, PartialEq)]
pub struct SemanticSearchProviderSet {
    pub embedding: OpenAiCompatibleEmbeddingProvider,
    pub reranker: JinaRerankerProvider,
}

/// The address of OpenAI as it is configured, or the usual one where that is
/// empty.
pub open spec fn openai_address(configured: Seq<char>) -> Seq<char> {
    if configured.len() == 0 {
        OPEN_AI_API_URL@
    } else {
        configured
    }
}

/// The two configurations that a search needs, or the first fault: a model
/// that is not chosen, then one that cannot be reached, embeddings first.
pub open spec fn both_resolved(
    settings: SemanticSearchSettings,
    openai_api_url: Seq<char>,
    openai_compatible: Seq<(Seq<char>, Seq<char>)>,
    embedding_key: Option<Seq<char>>,
    reranker_key: Option<Seq<char>>,
    local: spec_fn(Seq<char>) -> bool,
) -> Result<(ConfigModel, ConfigModel), Seq<char>> {
    if settings.embedding is None {
        Err("Semantic code search requires `agent.semantic_search.embedding`."@)
    } else if settings.reranker is None {
        Err("Semantic code search requires `agent.semantic_search.reranker`."@)
    } else {
        let embedding = resolution(
            settings.embedding->0,
            SemanticSearchProviderRole::Embedding,
            Some(openai_address(openai_api_url)),
            openai_compatible,
            embedding_key,
            local,
        );
        let reranker = resolution(
            settings.reranker->0,
            SemanticSearchProviderRole::Reranker,
            Some(openai_address(openai_api_url)),
            openai_compatible,
            reranker_key,
            local,
        );
        match embedding {
            Err(message) => Err(message),
            Ok(embedding) => match reranker {
                Err(message) => Err(message),
                Ok(reranker) => Ok((embedding, reranker)),
            },
        }
    }
}

/// A key as characters, empty where there is none.
pub open spec fn key_or_empty(key: Option<Seq<char>>) -> Seq<char> {
    match key {
        Some(key) => key,
        None => Seq::empty(),
    }
}

fn string_or_empty(text: Option<String>) -> (string: String)
    ensures
        string@ == key_or_empty(text::optional_text(text)),
{
    match text {
        Some(string) => string,
        None => {
            let string = String::new();
            assert(string@ =~= Seq::empty());
            string
        },
    }
}

/// The two providers that a search needs.
pub fn semantic_search_providers(
    settings: &SemanticSearchSettings,
    openai_api_url: &str,
    openai_compatible: &[(String, String)],
    embedding_key: Option<String>,
    reranker_key: Option<String>,
) -> (result: Result<SemanticSearchProviderSet, String>)
    ensures
        match both_resolved(
            *settings,
            openai_api_url@,
            pair_texts(openai_compatible@),
            text::optional_text(embedding_key),
            text::optional_text(reranker_key),
            local_addresses(),
        ) {
            Err(message) => result matches Err(reported) && reported@ == message,
            Ok((embedding, reranker)) => {
                &&& result matches Ok(providers)
                &&& providers.embedding.api_url@ == embedding.api_url
                &&& providers.embedding.api_key@ == key_or_empty(embedding.api_key)
                &&& providers.embedding.model@ == embedding.model
                &&& providers.reranker.api_url@ == reranker.api_url
                &&& providers.reranker.api_key@ == key_or_empty(reranker.api_key)
                &&& providers.reranker.model@ == reranker.model
            },
        },
{
    let embedding = match &settings.embedding {
        Some(embedding) => embedding,
        None => {
            return Err(
                "Semantic code search requires `agent.semantic_search.embedding`.".to_string(),
            );
        },
    };
    let reranker = match &settings.reranker {
        Some(reranker) => reranker,
        None => {
            return Err(
                "Semantic code search requires `agent.semantic_search.reranker`.".to_string(),
            );
        },
    };
    let embedding_config = match resolve_semantic_provider_config(
        embedding,
        SemanticSearchProviderRole::Embedding,
        openai_api_url,
        openai_compatible,
        embedding_key,
    ) {
        Ok(config) => config,
        Err(message) => {
            return Err(message);
        },
    };
    let reranker_config = match resolve_semantic_provider_config(
        reranker,
        SemanticSearchProviderRole::Reranker,
        openai_api_url,
        openai_compatible,
        reranker_key,
    ) {
        Ok(config) => config,
        Err(message) => {
            return Err(message);
        },
    };
    Ok(
        SemanticSearchProviderSet {
            embedding: OpenAiCompatibleEmbeddingProvider::new(
                embedding_config.api_url,
                string_or_empty(embedding_config.api_key),
                embedding_config.model,
            ),
            reranker: JinaRerankerProvider::new(
                reranker_config.api_url,
                string_or_empty(reranker_config.api_key),
                reranker_config.model,
            ),
        },
    )
}

// ---------------------------------------------------------------------------
// Laws
// ---------------------------------------------------------------------------

/// The characters of the names of environment variables.
pub open spec fn variable_char(c: char) -> bool {
    ||| 'A' <= c <= 'Z'
    ||| '0' <= c <= '9'
    ||| c == '_'
}

proof fn lemma_variable_parts(id: Seq<char>, count: int)
    requires
        0 <= count <= id.len(),
    ensures
        forall|i: int|
            0 <= i < variable_parts(id, count).len() ==> variable_char(
                #[trigger] variable_parts(id, count)[i],
            ),
        variable_parts(id, count).len() > 0 ==> variable_parts(id, count).first() != '_',
        variable_parts(id, count).len() == 0 ==> forall|i: int|
            0 <= i < count ==> !tokens::ascii_alphanumeric(#[trigger] id[i]),
    decreases count,
{
    if count > 0 {
        lemma_variable_parts(id, count - 1);
        let before = variable_parts(id, count - 1);
        let part = variable_part(id, count - 1);
        let after = variable_parts(id, count);
        assert forall|i: int| 0 <= i < after.len() implies variable_char(#[trigger] after[i]) by {
            if i < before.len() {
                assert(after[i] == before[i]);
            } else {
                assert(after[i] == part[i - before.len()]);
            }
        }
        if before.len() == 0 {
            assert(after =~= part);
            if inside_word(id, count - 1) {
                assert(!tokens::ascii_alphanumeric(id[count - 2]));
            }
        } else {
            assert(after.first() == before.first());
        }
    }
}

/// Whether an underscore follows directly on another.
pub open spec fn has_double_underscore(name: Seq<char>) -> bool {
    exists|i: int| 0 <= i < name.len() - 1 && #[trigger] name[i] == '_' && name[i + 1] == '_'
}

/// A name without its underscores.
pub open spec fn without_underscores(name: Seq<char>) -> Seq<char>
    decreases name.len(),
{
    if name.len() == 0 {
        Seq::empty()
    } else {
        let before = without_underscores(name.drop_last());
        if name.last() == '_' {
            before
        } else {
            before.push(name.last())
        }
    }
}

/// The ASCII letters and digits among the first `count` characters of an
/// identifier, in capitals.
pub open spec fn capitals(id: Seq<char>, count: int) -> Seq<char>
    decreases count,
{
    if count <= 0 {
        Seq::empty()
    } else {
        let before = capitals(id, count - 1);
        if tokens::ascii_alphanumeric(id[count - 1]) {
            before.push(ascii_uppercase(id[count - 1]))
        } else {
            before
        }
    }
}

proof fn lemma_without_underscores_concat(left: Seq<char>, right: Seq<char>)
    ensures
        without_underscores(left + right) == without_underscores(left) + without_underscores(
            right,
        ),
    decreases right.len(),
{
    if right.len() == 0 {
        assert(left + right =~= left);
        assert(without_underscores(left) + without_underscores(right) =~= without_underscores(
            left,
        ));
    } else {
        lemma_without_underscores_concat(left, right.drop_last());
        assert((left + right).drop_last() =~= left + right.drop_last());
        assert(without_underscores(left + right) =~= without_underscores(left)
            + without_underscores(right));
    }
}

/// The parts of a name end with an underscore exactly after a separator, and
/// hold no two underscores in a row.
proof fn lemma_variable_underscores(id: Seq<char>, count: int)
    requires
        0 <= count <= id.len(),
    ensures
        !has_double_underscore(variable_parts(id, count)),
        inside_word(id, count) ==> variable_parts(id, count).len() > 0
            && variable_parts(id, count).last() != '_',
        without_underscores(variable_parts(id, count)) == capitals(id, count),
    decreases count,
{
    if count > 0 {
        lemma_variable_underscores(id, count - 1);
        lemma_variable_parts(id, count - 1);
        let before = variable_parts(id, count - 1);
        let part = variable_part(id, count - 1);
        let after = variable_parts(id, count);
        let c = ascii_uppercase(id[count - 1]);
        assert forall|i: int| 0 <= i < after.len() - 1 && #[trigger] after[i] == '_' implies after[i
            + 1] != '_' by {
            if i + 1 < before.len() {
                assert(before[i] == '_');
                assert(before[i + 1] == after[i + 1]);
            } else if i + 1 == before.len() {
                assert(before.last() == '_');
                assert(after[i + 1] == part[0]);
            } else {
                assert(after[i] == part[0]);
                assert(after[i + 1] == part[1]);
            }
        }
        lemma_without_underscores_concat(before, part);
        reveal_with_fuel(without_underscores, 3);
        if part.len() == 1 {
            assert(part.drop_last() =~= Seq::empty());
        } else if part.len() == 2 {
            assert(part.drop_last() =~= seq!['_']);
            assert(part.drop_last().drop_last() =~= Seq::empty());
        }
        if tokens::ascii_alphanumeric(id[count - 1]) {
            assert(after.last() == c);
            assert(without_underscores(part) =~= seq![c]);
        } else {
            assert(without_underscores(part) =~= Seq::empty());
        }
        assert(without_underscores(after) =~= capitals(id, count));
    }
}

/// The name of a key's variable holds no two underscores in a row. Where the
/// provider's identifier has an ASCII letter or digit, the name without its
/// underscores is these, in capitals, and `APIKEY`.
pub proof fn law_key_variable_words(id: Seq<char>)
    ensures
        !has_double_underscore(key_variable(id)),
        capitals(id, id.len() as int).len() > 0 ==> without_underscores(key_variable(id))
            == capitals(id, id.len() as int) + "APIKEY"@,
{
    reveal_strlit("OPENAI_COMPATIBLE_API_KEY");
    reveal_strlit("_API_KEY");
    reveal_strlit("APIKEY");
    let count = id.len() as int;
    lemma_variable_underscores(id, count);
    let parts = variable_parts(id, count);
    let stem = variable_stem(id);
    let name = key_variable(id);
    let suffix = "_API_KEY"@;
    if parts.len() > 0 && parts.last() == '_' {
        assert(parts =~= stem.push('_'));
    }
    assert(without_underscores(stem) == without_underscores(parts));
    if stem.len() > 0 {
        assert(stem.last() != '_') by {
            if parts.last() == '_' {
                assert(parts[parts.len() - 1] == '_');
                assert(parts[parts.len() - 2] == stem.last());
            }
        }
        assert forall|i: int| 0 <= i < name.len() - 1 && #[trigger] name[i] == '_' implies name[i
            + 1] != '_' by {
            if i + 1 < stem.len() {
                assert(parts[i] == '_');
                assert(parts[i + 1] == name[i + 1]);
            } else if i + 1 == stem.len() {
                assert(name[i] == stem.last());
            } else {
                assert(name[i] == suffix[i - stem.len()]);
                assert(name[i + 1] == suffix[i + 1 - stem.len()]);
            }
        }
        lemma_without_underscores_concat(stem, suffix);
        lemma_suffix_without_underscores();
    } else {
        assert(capitals(id, count).len() == 0);
    }
}

proof fn lemma_suffix_without_underscores()
    ensures
        without_underscores("_API_KEY"@) == "APIKEY"@,
{
    reveal_strlit("_API_KEY");
    reveal_strlit("APIKEY");
    let suffix = "_API_KEY"@;
    reveal_with_fuel(without_underscores, 9);
    assert(suffix =~= seq!['_', 'A', 'P', 'I', '_', 'K', 'E', 'Y']);
    assert(without_underscores(suffix) =~= "APIKEY"@);
}

/// The name of a key's variable consists of capitals, digits and underscores,
/// does not start with an underscore, and ends with `_API_KEY`.
pub proof fn law_key_variable(id: Seq<char>)
    ensures
        forall|i: int|
            0 <= i < key_variable(id).len() ==> variable_char(#[trigger] key_variable(id)[i]),
        key_variable(id).first() != '_',
        "_API_KEY"@.is_suffix_of(key_variable(id)),
{
    reveal_strlit("OPENAI_COMPATIBLE_API_KEY");
    reveal_strlit("_API_KEY");
    lemma_variable_parts(id, id.len() as int);
    let parts = variable_parts(id, id.len() as int);
    let stem = variable_stem(id);
    let name = key_variable(id);
    if stem.len() == 0 {
        assert(name.subrange(name.len() - 8, name.len() as int) =~= "_API_KEY"@);
    } else {
        assert forall|i: int| 0 <= i < name.len() implies variable_char(#[trigger] name[i]) by {
            if i < stem.len() {
                assert(stem[i] == parts[i]);
            }
        }
        assert(name.first() == parts.first());
        assert(name.subrange(name.len() - 8, name.len() as int) =~= "_API_KEY"@);
    }
}

/// A slash at the end of an address makes no difference to its endpoints, and
/// what comes before the path does not end with one.
pub proof fn law_endpoint(api_url: Seq<char>, path: Seq<char>)
    ensures
        endpoint(api_url.push('/'), path) == endpoint(api_url, path),
        text::trim_end_char_of(api_url, '/').len() > 0 ==> text::trim_end_char_of(
            api_url,
            '/',
        ).last() != '/',
        endpoint(api_url, path) == text::trim_end_char_of(api_url, '/') + path,
    decreases api_url.len(),
{
    assert(api_url.push('/').drop_last() =~= api_url);
    if api_url.len() > 0 && api_url.last() == '/' {
        law_endpoint(api_url.drop_last(), path);
    }
}

/// A model is reached without a key only at an address that needs none. What
/// is reported where it cannot be reached does not depend on what the key is,
/// only on whether there is one.
pub proof fn law_resolution(
    selection: SemanticSearchModelSelection,
    role: SemanticSearchProviderRole,
    openai_api_url: Option<Seq<char>>,
    openai_compatible: Seq<(Seq<char>, Seq<char>)>,
    key: Seq<char>,
    other_key: Seq<char>,
    local: spec_fn(Seq<char>) -> bool,
)
    requires
        key.len() > 0,
        other_key.len() > 0,
    ensures
        resolution(selection, role, openai_api_url, openai_compatible, None, local) matches Ok(
            config,
        ) ==> local(config.api_url),
        resolution(
            selection,
            role,
            openai_api_url,
            openai_compatible,
            Some(Seq::empty()),
            local,
        ) matches Ok(config) ==> local(config.api_url),
        resolution(selection, role, openai_api_url, openai_compatible, Some(key), local) is Ok
            == resolution(
            selection,
            role,
            openai_api_url,
            openai_compatible,
            Some(other_key),
            local,
        ) is Ok,
        resolution(
            selection,
            role,
            openai_api_url,
            openai_compatible,
            Some(key),
            local,
        ) matches Err(message) ==> resolution(
            selection,
            role,
            openai_api_url,
            openai_compatible,
            Some(other_key),
            local,
        ) == Err::<ConfigModel, Seq<char>>(message),
{
}

/// The address of a provider is that of the first pair with its identifier.
pub proof fn law_first_address(
    providers: Seq<(Seq<char>, Seq<char>)>,
    id: Seq<char>,
    place: int,
)
    requires
        0 <= place <= providers.len(),
        forall|i: int| 0 <= i < place ==> (#[trigger] providers[i]).0 != id,
        place < providers.len() ==> providers[place].0 == id,
    ensures
        first_address(providers, id) == if place < providers.len() {
            Some(providers[place].1)
        } else {
            None
        },
    decreases place,
{
    if place > 0 {
        assert(providers[0].0 != id);
        let rest = providers.drop_first();
        assert forall|i: int| 0 <= i < place - 1 implies (#[trigger] rest[i]).0 != id by {
            assert(rest[i] == providers[i + 1]);
        }
        law_first_address(rest, id, place - 1);
    }
}

/// A model is reached exactly if its format fits its role, its provider has an
/// address, and there is a key or the address needs none. It is then reached at
/// that address, with that key: OpenAI, for embeddings only, at the address that
/// is configured or the usual one, any other provider at the first address that
/// is configured for it.
pub proof fn law_reached(
    selection: SemanticSearchModelSelection,
    role: SemanticSearchProviderRole,
    openai_api_url: Option<Seq<char>>,
    openai_compatible: Seq<(Seq<char>, Seq<char>)>,
    api_key: Option<Seq<char>>,
    local: spec_fn(Seq<char>) -> bool,
)
    ensures
        ({
            let outcome = resolution(
                selection,
                role,
                openai_api_url,
                openai_compatible,
                api_key,
                local,
            );
            let embeds = role == SemanticSearchProviderRole::Embedding;
            let speaks = selection.api_format == if embeds {
                SemanticSearchApiFormat::OpenAiEmbeddings
            } else {
                SemanticSearchApiFormat::JinaRerank
            };
            let address = if selection.provider@ == "openai"@ {
                if !embeds {
                    None
                } else if openai_api_url is Some {
                    openai_api_url
                } else {
                    Some("https://api.openai.com/v1"@)
                }
            } else {
                first_address(openai_compatible, selection.provider@)
            };
            let has_key = api_key is Some && api_key->0.len() > 0;
            &&& outcome is Ok <==> speaks && address is Some && (has_key || local(address->0))
            &&& outcome matches Ok(config) ==> config.api_url == address->0 && config.api_key
                == api_key && config.model == selection.model@
            &&& speaks && address is Some && !has_key && !local(address->0) ==> outcome == Err::<
                ConfigModel,
                Seq<char>,
            >(
                "Semantic search provider `"@ + selection.provider@ + "` requires "@
                    + provider_variable(selection.provider@) + "."@,
            )
        }),
{
}

/// Both providers are had exactly if both models are chosen and both can be
/// reached, each in its role and with its own key.
pub proof fn law_both_reached(
    settings: SemanticSearchSettings,
    openai_api_url: Seq<char>,
    openai_compatible: Seq<(Seq<char>, Seq<char>)>,
    embedding_key: Option<Seq<char>>,
    reranker_key: Option<Seq<char>>,
    local: spec_fn(Seq<char>) -> bool,
)
    ensures
        ({
            let address = if openai_api_url.len() == 0 {
                "https://api.openai.com/v1"@
            } else {
                openai_api_url
            };
            let outcome = both_resolved(
                settings,
                openai_api_url,
                openai_compatible,
                embedding_key,
                reranker_key,
                local,
            );
            let embedding = resolution(
                settings.embedding->0,
                SemanticSearchProviderRole::Embedding,
                Some(address),
                openai_compatible,
                embedding_key,
                local,
            );
            let reranker = resolution(
                settings.reranker->0,
                SemanticSearchProviderRole::Reranker,
                Some(address),
                openai_compatible,
                reranker_key,
                local,
            );
            &&& outcome is Ok <==> settings.embedding is Some && settings.reranker is Some
                && embedding is Ok && reranker is Ok
            &&& outcome matches Ok(both) ==> embedding == Ok::<ConfigModel, Seq<char>>(both.0)
                && reranker == Ok::<ConfigModel, Seq<char>>(both.1)
        }),
{
}

/// An address needs no key exactly if it leads, without encryption, to one of the
/// names of the machine itself.
pub proof fn law_local(scheme: Seq<char>, host: Option<Seq<char>>)
    ensures
        is_local(Some((scheme, host))) <==> scheme == "http"@ && host is Some && seq![
            "localhost"@,
            "127.0.0.1"@,
            "[::1]"@,
        ].contains(host->0),
        !is_local(None),
{
    let names = seq!["localhost"@, "127.0.0.1"@, "[::1]"@];
    assert(names[0] == "localhost"@ && names[1] == "127.0.0.1"@ && names[2] == "[::1]"@);
}

proof fn lemma_parts_prefix(left: Seq<char>, right: Seq<char>, count: int)
    requires
        0 <= count <= left.len(),
    ensures
        variable_parts(left + right, count) == variable_parts(left, count),
    decreases count,
{
    if count > 0 {
        lemma_parts_prefix(left, right, count - 1);
        assert((left + right)[count - 1] == left[count - 1]);
        if count > 1 {
            assert((left + right)[count - 2] == left[count - 2]);
        }
    }
}

/// The mark between two parts of an identifier: an underscore where a word goes
/// on with a capital.
pub open spec fn word_mark(left: Seq<char>, right: Seq<char>) -> Seq<char> {
    if left.len() > 0 && tokens::ascii_alphanumeric(left.last()) && ascii_upper(right.first()) {
        seq!['_']
    } else {
        Seq::empty()
    }
}

proof fn lemma_parts_suffix(left: Seq<char>, right: Seq<char>, count: int)
    requires
        1 <= count <= right.len(),
        tokens::ascii_alphanumeric(right.first()),
    ensures
        variable_parts(left + right, left.len() + count) == variable_parts(
            left,
            left.len() as int,
        ) + word_mark(left, right) + variable_parts(right, count),
    decreases count,
{
    let all = left + right;
    let at = left.len() + count - 1;
    assert(all[at] == right[count - 1]);
    let head = variable_parts(left, left.len() as int) + word_mark(left, right);
    if count == 1 {
        lemma_parts_prefix(left, right, left.len() as int);
        if left.len() > 0 {
            assert(all[left.len() - 1] == left.last());
        }
        assert(variable_parts(right, 0) =~= Seq::empty());
        assert(variable_parts(right, 1) =~= variable_part(right, 0));
        assert(variable_parts(all, at + 1) =~= head + variable_parts(right, 1));
    } else {
        lemma_parts_suffix(left, right, count - 1);
        assert(all[at - 1] == right[count - 2]);
        assert(variable_part(all, at) == variable_part(right, count - 1));
        assert(variable_parts(all, at + 1) =~= head + variable_parts(right, count));
    }
}

/// The name that an identifier gives is put together from those of its parts: a
/// separator gives one underscore between two words, a capital after a letter or
/// digit starts a new word, and any other letter or digit goes on with the word.
/// What is no letter or digit at the end gives nothing.
pub proof fn law_variable_stem(left: Seq<char>, separator: char, right: Seq<char>)
    requires
        left.len() > 0,
        tokens::ascii_alphanumeric(left.last()),
        !tokens::ascii_alphanumeric(separator),
        right.len() > 0,
        tokens::ascii_alphanumeric(right.first()),
        tokens::ascii_alphanumeric(right.last()),
    ensures
        variable_stem(left + seq![separator] + right) == variable_stem(left) + seq!['_']
            + variable_stem(right),
        variable_stem(left + right) == variable_stem(left) + (if ascii_upper(right.first()) {
            seq!['_']
        } else {
            Seq::empty()
        }) + variable_stem(right),
        variable_stem(left + seq![separator]) == variable_stem(left),
        variable_stem(seq![separator] + right) == variable_stem(right),
{
    let one = seq![separator];
    lemma_variable_underscores(left, left.len() as int);
    lemma_variable_underscores(right, right.len() as int);
    assert(variable_stem(left) == variable_parts(left, left.len() as int));
    assert(variable_stem(right) == variable_parts(right, right.len() as int));
    lemma_parts_suffix(left, right, right.len() as int);
    let plain = left + right;
    assert(plain.last() == right.last());
    lemma_variable_underscores(plain, plain.len() as int);
    let ended = left + one;
    lemma_parts_prefix(left, one, left.len() as int);
    assert(ended[left.len() as int] == separator);
    assert(ended[left.len() - 1] == left.last());
    assert(variable_parts(ended, ended.len() as int) == variable_parts(left, left.len() as int)
        + seq!['_']);
    assert(variable_stem(ended) =~= variable_stem(left));
    lemma_parts_suffix(ended, right, right.len() as int);
    let both = ended + right;
    assert(both.last() == right.last());
    lemma_variable_underscores(both, both.len() as int);
    assert(variable_stem(both) =~= variable_stem(left) + seq!['_'] + variable_stem(right));
    lemma_parts_suffix(one, right, right.len() as int);
    assert(variable_parts(one, 1) =~= Seq::empty()) by {
        assert(variable_parts(one, 0) =~= Seq::empty());
    }
    let begun = one + right;
    assert(begun.last() == right.last());
    lemma_variable_underscores(begun, begun.len() as int);
    assert(variable_stem(begun) =~= variable_stem(right));
    assert(variable_stem(plain) =~= variable_stem(left) + word_mark(left, right) + variable_stem(
        right,
    ));
}

/// A letter or digit gives its capital; the name of a key's variable is what its
/// provider's identifier gives, and `_API_KEY`.
pub proof fn law_key_variable_stem(id: Seq<char>, c: char)
    requires
        tokens::ascii_alphanumeric(c),
    ensures
        variable_stem(seq![c]) == seq![
            if 'a' <= c <= 'z' {
                (c as u32 - 32) as char
            } else {
                c
            },
        ],
        variable_stem(id).len() > 0 ==> key_variable(id) == variable_stem(id) + "_API_KEY"@,
        variable_stem(id).len() == 0 ==> key_variable(id) == "OPENAI_COMPATIBLE_API_KEY"@,
{
    let one = seq![c];
    reveal_with_fuel(variable_parts, 2);
    assert(variable_parts(one, 0) =~= Seq::empty());
    assert(variable_parts(one, 1) =~= seq![ascii_uppercase(c)]);
}

} // verus!
