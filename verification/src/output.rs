//! What a search reports: its matches with their surroundings, and the text
//! that a language model reads.

use crate::decimal;
use crate::index::{CodeChunkId, IndexedModel};
use crate::search::{SemanticSearchMatch, SemanticSearchResult};
use crate::store::CodeSearchIndex;
use crate::tokens;
use crate::topology;
use crate::topology::TopologyExpansionRuntimeSettings;
use crate::wide;
use crate::wide::WideScore;
use std::ops::Range;
use vstd::prelude::*;
use vstd::string::*;

verus! {

/// A match as it is reported.
#[derive(Debug, PartialEq)]
pub struct SemanticSearchCodeMatch {
    pub path: String,
    pub line_range: Range<u32>,
    pub score: WideScore,
    pub source: String,
    pub snippet: String,
    pub expanded_context: Vec<String>,
}

/// What a search reports.
#[derive(Debug, PartialEq)]
pub enum SemanticSearchCodeToolOutput {
    Disabled,
    ConfigurationError { message: String },
    Success { matches: Vec<SemanticSearchCodeMatch> },
}

/// A reported match as a mathematical value.
#[verifier::ext_equal]
pub struct MatchModel {
    pub path: Seq<char>,
    pub lines: (int, int),
    pub score: WideScore,
    pub source: Seq<char>,
    pub snippet: Seq<char>,
    pub context: Seq<Seq<char>>,
}

/// A report as a mathematical value.
pub enum OutputModel {
    Disabled,
    ConfigurationError(Seq<char>),
    Success(Seq<MatchModel>),
}

impl View for SemanticSearchCodeMatch {
    type V = MatchModel;

    open spec fn view(&self) -> MatchModel {
        MatchModel {
            path: self.path@,
            lines: (self.line_range.start as int, self.line_range.end as int),
            score: self.score,
            source: self.source@,
            snippet: self.snippet@,
            context: tokens::texts(self.expanded_context@),
        }
    }
}

/// Reported matches as mathematical values.
pub open spec fn match_models(matches: Seq<SemanticSearchCodeMatch>) -> Seq<MatchModel> {
    Seq::new(matches.len(), |i: int| matches[i]@)
}

impl View for SemanticSearchCodeToolOutput {
    type V = OutputModel;

    open spec fn view(&self) -> OutputModel {
        match self {
            SemanticSearchCodeToolOutput::Disabled => OutputModel::Disabled,
            SemanticSearchCodeToolOutput::ConfigurationError { message } => {
                OutputModel::ConfigurationError(message@)
            },
            SemanticSearchCodeToolOutput::Success { matches } => OutputModel::Success(
                match_models(matches@),
            ),
        }
    }
}

// ---------------------------------------------------------------------------
// Matches with their surroundings
// ---------------------------------------------------------------------------

/// A path with slashes in place of backslashes.
pub open spec fn with_slashes(path: Seq<char>) -> Seq<char> {
    path.map_values(
        |c: char|
            if c == '\\' {
                '/'
            } else {
                c
            },
    )
}

/// The texts of chunks, without that of the given one.
pub open spec fn other_texts(
    index: Map<usize, IndexedModel>,
    ids: Seq<CodeChunkId>,
    id: CodeChunkId,
) -> Seq<Seq<char>>
    decreases ids.len(),
{
    if ids.len() == 0 {
        Seq::empty()
    } else {
        let before = other_texts(index, ids.drop_last(), id);
        if ids.last() != id && index.contains_key(ids.last().0) {
            before.push(index[ids.last().0].text)
        } else {
            before
        }
    }
}

/// A match as it is reported.
pub open spec fn reported(
    index: Map<usize, IndexedModel>,
    found: SemanticSearchMatch,
    settings: TopologyExpansionRuntimeSettings,
) -> MatchModel {
    let chunk = index[found.chunk_id.0];
    MatchModel {
        path: with_slashes(chunk.path),
        lines: chunk.lines,
        score: wide::widened(found.rerank_score),
        source: found.source@,
        snippet: chunk.text,
        context: other_texts(
            index,
            topology::expansion(index, seq![found.chunk_id], settings).ids,
            found.chunk_id,
        ),
    }
}

/// The matches that are reported: those whose chunks are in the index.
pub open spec fn reported_all(
    index: Map<usize, IndexedModel>,
    found: Seq<SemanticSearchMatch>,
    settings: TopologyExpansionRuntimeSettings,
) -> Seq<MatchModel>
    decreases found.len(),
{
    if found.len() == 0 {
        Seq::empty()
    } else {
        let before = reported_all(index, found.drop_last(), settings);
        if index.contains_key(found.last().chunk_id.0) {
            before.push(reported(index, found.last(), settings))
        } else {
            before
        }
    }
}

fn replace_backslashes(path: &str) -> (replaced: String)
    ensures
        replaced@ == with_slashes(path@),
{
    let mut replaced: String = String::new();
    for character in iter: path.chars()
        invariant
            iter.seq() == path@,
            replaced@ == with_slashes(path@).take(iter.index()),
    {
        let ghost all = with_slashes(path@);
        let ghost index = iter.index();
        assert(all.take(index + 1) =~= all.take(index).push(all[index]));
        if character == '\\' {
            replaced.push('/');
        } else {
            replaced.push(character);
        }
    }
    assert(with_slashes(path@).take(path@.len() as int) =~= with_slashes(path@));
    replaced
}

fn texts_of_others(index: &CodeSearchIndex, ids: &Vec<CodeChunkId>, chunk_id: CodeChunkId) -> (texts:
    Vec<String>)
    ensures
        tokens::texts(texts@) == other_texts(index@, ids@, chunk_id),
{
    let mut texts: Vec<String> = Vec::new();
    assert(tokens::texts(texts@) =~= other_texts(index@, ids@.take(0), chunk_id));
    for position in 0..ids.len()
        invariant
            tokens::texts(texts@) == other_texts(index@, ids@.take(position as int), chunk_id),
    {
        let id = ids[position];
        let ghost before = texts@;
        proof {
            assert(ids@.take(position + 1).drop_last() =~= ids@.take(position as int));
            assert(ids@.take(position + 1).last() == id);
        }
        if id != chunk_id {
            if let Some(chunk) = index.chunk(id) {
                texts.push(chunk.text.clone());
                assert(tokens::texts(texts@) =~= tokens::texts(before).push(index@[id.0].text));
            }
        }
    }
    assert(ids@.take(ids@.len() as int) =~= ids@);
    texts
}

/// The matches of an answer as they are reported, with their surroundings.
pub fn format_semantic_search_matches(
    index: &CodeSearchIndex,
    result: &SemanticSearchResult,
    topology_settings: &TopologyExpansionRuntimeSettings,
) -> (matches: Vec<SemanticSearchCodeMatch>)
    ensures
        match_models(matches@) == reported_all(index@, result.matches@, *topology_settings),
{
    let ghost found = result.matches@;
    let mut matches: Vec<SemanticSearchCodeMatch> = Vec::new();
    assert(match_models(matches@) =~= reported_all(index@, found.take(0), *topology_settings));
    for position in 0..result.matches.len()
        invariant
            found == result.matches@,
            match_models(matches@) == reported_all(
                index@,
                found.take(position as int),
                *topology_settings,
            ),
    {
        let search_match = result.matches[position];
        let ghost before = matches@;
        proof {
            assert(found.take(position + 1).drop_last() =~= found.take(position as int));
            assert(found.take(position + 1).last() == search_match);
        }
        if let Some(chunk) = index.chunk(search_match.chunk_id) {
            let mut ids: Vec<CodeChunkId> = Vec::new();
            ids.push(search_match.chunk_id);
            assert(ids@ =~= seq![search_match.chunk_id]);
            let expanded_ids = topology::expand_topology(index, ids.as_slice(), topology_settings);
            let expanded_context = texts_of_others(index, &expanded_ids, search_match.chunk_id);
            let reported_match = SemanticSearchCodeMatch {
                path: replace_backslashes(chunk.path.as_str()),
                line_range: chunk.line_range.start..chunk.line_range.end,
                score: wide::widen(search_match.rerank_score),
                source: search_match.source.to_string(),
                snippet: chunk.text.clone(),
                expanded_context,
            };
            matches.push(reported_match);
            proof {
                assert(reported_match@ =~= reported(index@, search_match, *topology_settings));
                assert(match_models(matches@) =~= match_models(before).push(
                    reported(index@, search_match, *topology_settings),
                ));
            }
        }
    }
    assert(found.take(found.len() as int) =~= found);
    matches
}

// ---------------------------------------------------------------------------
// The text for a language model
// ---------------------------------------------------------------------------

/// A text between code fences, after an empty line.
pub open spec fn fenced(text: Seq<char>) -> Seq<char> {
    "\n\n```\n"@ + text + "\n```"@
}

/// The texts of the surroundings of a match, each between code fences.
pub open spec fn context_text(context: Seq<Seq<char>>) -> Seq<char>
    decreases context.len(),
{
    if context.len() == 0 {
        Seq::empty()
    } else {
        context_text(context.drop_last()) + fenced(context.last())
    }
}

/// The number of the first line of a match, counted from one.
pub open spec fn first_line(found: MatchModel) -> nat {
    if found.lines.0 >= u32::MAX {
        u32::MAX as nat
    } else {
        (found.lines.0 + 1) as nat
    }
}

/// The text of one match.
pub open spec fn match_text(found: MatchModel) -> Seq<char> {
    let head = "\n\n## "@ + found.path + ":"@ + decimal::decimal(first_line(found)) + "-"@
        + decimal::decimal(found.lines.1 as nat) + "\nscore: "@ + wide::score_text(found.score)
        + "\nsource: "@ + found.source + fenced(found.snippet);
    if found.context.len() == 0 {
        head
    } else {
        head + "\n\nExpanded context:"@ + context_text(found.context)
    }
}

/// The texts of matches.
pub open spec fn matches_text(matches: Seq<MatchModel>) -> Seq<char>
    decreases matches.len(),
{
    if matches.len() == 0 {
        Seq::empty()
    } else {
        matches_text(matches.drop_last()) + match_text(matches.last())
    }
}

/// The text of a report.
pub open spec fn output_text(output: OutputModel) -> Seq<char> {
    match output {
        OutputModel::Disabled => {
            "Semantic code search is disabled. Enable it by setting `agent.semantic_search.enabled` to true."@
        },
        OutputModel::ConfigurationError(message) => message,
        OutputModel::Success(matches) => {
            if matches.len() == 0 {
                "No semantic code search matches found"@
            } else {
                "Found "@ + decimal::decimal(matches.len()) + " semantic code search match"@ + (
                if matches.len() == 1 {
                    ":"@
                } else {
                    "es:"@
                }) + matches_text(matches)
            }
        },
    }
}

fn push_fenced(out: &mut String, text: &str)
    ensures
        final(out)@ == old(out)@ + fenced(text@),
{
    let ghost before = out@;
    out.append("\n\n```\n");
    out.append(text);
    out.append("\n```");
    assert(out@ =~= before + fenced(text@));
}

fn push_match(out: &mut String, found: &SemanticSearchCodeMatch)
    ensures
        final(out)@ == old(out)@ + match_text(found@),
{
    let ghost before = out@;
    let start_line: u32 = found.line_range.start.saturating_add(1);
    out.append("\n\n## ");
    out.append(found.path.as_str());
    out.append(":");
    decimal::push_decimal(out, start_line as u128);
    out.append("-");
    decimal::push_decimal(out, found.line_range.end as u128);
    out.append("\nscore: ");
    wide::push_score(out, found.score);
    out.append("\nsource: ");
    out.append(found.source.as_str());
    push_fenced(out, found.snippet.as_str());
    let ghost head = "\n\n## "@ + found.path@ + ":"@ + decimal::decimal(first_line(found@)) + "-"@
        + decimal::decimal(found@.lines.1 as nat) + "\nscore: "@ + wide::score_text(found.score)
        + "\nsource: "@ + found.source@ + fenced(found.snippet@);
    assert(out@ =~= before + head);
    if found.expanded_context.len() > 0 {
        out.append("\n\nExpanded context:");
        let ghost start = out@;
        let ghost context = tokens::texts(found.expanded_context@);
        assert(start + context_text(context.take(0)) =~= start);
        for position in 0..found.expanded_context.len()
            invariant
                context == tokens::texts(found.expanded_context@),
                out@ == start + context_text(context.take(position as int)),
        {
            let ghost earlier = out@;
            push_fenced(out, found.expanded_context[position].as_str());
            proof {
                assert(context.take(position + 1).drop_last() =~= context.take(position as int));
                assert(out@ =~= start + context_text(context.take(position + 1)));
            }
        }
        assert(context.take(context.len() as int) =~= context);
        assert(out@ =~= before + match_text(found@));
    }
}

/// The text of a report, for a language model.
pub fn tool_result_content(output: &SemanticSearchCodeToolOutput) -> (content: String)
    ensures
        content@ == output_text(output@),
{
    match output {
        SemanticSearchCodeToolOutput::Disabled => {
            "Semantic code search is disabled. Enable it by setting `agent.semantic_search.enabled` to true.".to_string()
        },
        SemanticSearchCodeToolOutput::ConfigurationError { message } => message.clone(),
        SemanticSearchCodeToolOutput::Success { matches } => {
            if matches.len() == 0 {
                return "No semantic code search matches found".to_string();
            }
            let ghost models = match_models(matches@);
            let mut content: String = "Found ".to_string();
            decimal::push_decimal(&mut content, matches.len() as u128);
            content.append(" semantic code search match");
            if matches.len() == 1 {
                content.append(":");
            } else {
                content.append("es:");
            }
            let ghost head = content@;
            assert(head + matches_text(models.take(0)) =~= head);
            for position in 0..matches.len()
                invariant
                    models == match_models(matches@),
                    content@ == head + matches_text(models.take(position as int)),
            {
                push_match(&mut content, &matches[position]);
                proof {
                    assert(models.take(position + 1).drop_last() =~= models.take(position as int));
                    assert(content@ =~= head + matches_text(models.take(position + 1)));
                }
            }
            assert(models.take(models.len() as int) =~= models);
            assert(content@ =~= output_text(output@));
            content
        },
    }
}

// ---------------------------------------------------------------------------
// Laws
// ---------------------------------------------------------------------------

/// Whether a reported match is one of those found, and its chunk is in the
/// index.
pub open spec fn stems_from(
    index: Map<usize, IndexedModel>,
    found: Seq<SemanticSearchMatch>,
    settings: TopologyExpansionRuntimeSettings,
    shown: MatchModel,
) -> bool {
    exists|k: int|
        0 <= k < found.len() && index.contains_key((#[trigger] found[k]).chunk_id.0) && shown
            == reported(index, found[k], settings)
}

/// No more matches are reported than were found, each with the text of its
/// chunk and without backslashes in its path.
pub proof fn law_reported(
    index: Map<usize, IndexedModel>,
    found: Seq<SemanticSearchMatch>,
    settings: TopologyExpansionRuntimeSettings,
)
    ensures
        ({
            let matches = reported_all(index, found, settings);
            &&& matches.len() <= found.len()
            &&& forall|i: int|
                0 <= i < matches.len() ==> !(#[trigger] matches[i]).path.contains('\\')
            &&& forall|i: int|
                0 <= i < matches.len() ==> stems_from(index, found, settings, #[trigger] matches[i])
        }),
    decreases found.len(),
{
    if found.len() > 0 {
        let rest = found.drop_last();
        law_reported(index, rest, settings);
        let before = reported_all(index, rest, settings);
        let after = reported_all(index, found, settings);
        assert forall|i: int| 0 <= i < after.len() implies !(#[trigger] after[i]).path.contains(
            '\\',
        ) by {
            if i < before.len() {
                assert(after[i] == before[i]);
            } else {
                let path = index[found.last().chunk_id.0].path;
                assert forall|k: int| 0 <= k < path.len() implies with_slashes(path)[k] != '\\' by {}
            }
        }
        assert forall|i: int| 0 <= i < after.len() implies stems_from(
            index,
            found,
            settings,
            #[trigger] after[i],
        ) by {
            if i < before.len() {
                assert(after[i] == before[i]);
                assert(stems_from(index, rest, settings, before[i]));
                let k = choose|k: int|
                    0 <= k < rest.len() && index.contains_key((#[trigger] rest[k]).chunk_id.0)
                        && before[i] == reported(index, rest[k], settings);
                assert(found[k] == rest[k]);
            } else {
                assert(found[found.len() - 1] == found.last());
            }
        }
    }
}

/// A reported path is the path of the chunk, character by character, with a slash
/// for each backslash.
pub proof fn law_with_slashes(path: Seq<char>)
    ensures
        with_slashes(path).len() == path.len(),
        forall|i: int|
            0 <= i < path.len() ==> #[trigger] with_slashes(path)[i] == if path[i] == '\\' {
                '/'
            } else {
                path[i]
            },
{
}

/// What is shown beside a match are the texts of the other chunks that its chunk
/// expands to, in their order.
pub proof fn law_other_texts(
    index: Map<usize, IndexedModel>,
    ids: Seq<CodeChunkId>,
    id: CodeChunkId,
)
    ensures
        other_texts(index, ids, id) == ids.filter(
            |other: CodeChunkId| other != id && index.contains_key(other.0),
        ).map_values(|other: CodeChunkId| index[other.0].text),
    decreases ids.len(),
{
    reveal(Seq::filter);
    if ids.len() > 0 {
        law_other_texts(index, ids.drop_last(), id);
    }
    assert(other_texts(index, ids, id) =~= ids.filter(
        |other: CodeChunkId| other != id && index.contains_key(other.0),
    ).map_values(|other: CodeChunkId| index[other.0].text));
}

/// A reported match has the path, the lines and the whole text of its chunk, the
/// score and the mark of the match, and the texts of the chunk's surroundings.
pub proof fn law_reported_match(
    index: Map<usize, IndexedModel>,
    found: SemanticSearchMatch,
    settings: TopologyExpansionRuntimeSettings,
)
    ensures
        ({
            let chunk = index[found.chunk_id.0];
            let shown = reported(index, found, settings);
            &&& shown.path == with_slashes(chunk.path)
            &&& shown.lines == chunk.lines
            &&& shown.snippet == chunk.text
            &&& shown.source == found.source@
            &&& shown.score == wide::widened(found.rerank_score)
            &&& shown.context == topology::expansion(
                index,
                seq![found.chunk_id],
                settings,
            ).ids.filter(
                |other: CodeChunkId| other != found.chunk_id && index.contains_key(other.0),
            ).map_values(|other: CodeChunkId| index[other.0].text)
        }),
{
    law_other_texts(
        index,
        topology::expansion(index, seq![found.chunk_id], settings).ids,
        found.chunk_id,
    );
}

/// Where the total allows it, a match is shown with all its surroundings that are
/// asked for: the texts of its parent and its siblings, in this order, each once.
pub proof fn law_reported_context(
    index: Map<usize, IndexedModel>,
    found: SemanticSearchMatch,
    settings: TopologyExpansionRuntimeSettings,
)
    requires
        index.contains_key(found.chunk_id.0),
        topology::total_bytes(
            index,
            topology::surroundings(index, found.chunk_id, settings),
        ) <= settings.max_total_expanded_bytes,
    ensures
        reported(index, found, settings).context == topology::each_once(
            topology::surroundings(index, found.chunk_id, settings),
        ).filter(
            |other: CodeChunkId| other != found.chunk_id && index.contains_key(other.0),
        ).map_values(|other: CodeChunkId| index[other.0].text),
{
    topology::law_surroundings_complete(index, found.chunk_id, settings);
    law_reported_match(index, found, settings);
}

/// All matches are reported whose chunks are in the index, and in their order.
pub proof fn law_reported_order(
    index: Map<usize, IndexedModel>,
    found: Seq<SemanticSearchMatch>,
    settings: TopologyExpansionRuntimeSettings,
)
    ensures
        reported_all(index, found, settings) == found.filter(
            |one: SemanticSearchMatch| index.contains_key(one.chunk_id.0),
        ).map_values(|one: SemanticSearchMatch| reported(index, one, settings)),
    decreases found.len(),
{
    reveal(Seq::filter);
    if found.len() > 0 {
        law_reported_order(index, found.drop_last(), settings);
    }
    assert(reported_all(index, found, settings) =~= found.filter(
        |one: SemanticSearchMatch| index.contains_key(one.chunk_id.0),
    ).map_values(|one: SemanticSearchMatch| reported(index, one, settings)));
}

/// The texts of matches follow one another, and so do those of surroundings.
pub proof fn law_texts_follow(
    left: Seq<MatchModel>,
    right: Seq<MatchModel>,
    before: Seq<Seq<char>>,
    after: Seq<Seq<char>>,
)
    ensures
        matches_text(left + right) == matches_text(left) + matches_text(right),
        forall|one: MatchModel| #[trigger] matches_text(seq![one]) == match_text(one),
        context_text(before + after) == context_text(before) + context_text(after),
        forall|one: Seq<char>| #[trigger]
            context_text(seq![one]) == "\n\n```\n"@ + one + "\n```"@,
    decreases right.len() + after.len(),
{
    assert forall|one: MatchModel| #[trigger] matches_text(seq![one]) == match_text(one) by {
        reveal_with_fuel(matches_text, 2);
        assert(seq![one].drop_last() =~= Seq::empty());
        assert(Seq::<char>::empty() + match_text(one) =~= match_text(one));
    }
    assert forall|one: Seq<char>| #[trigger] context_text(seq![one]) == "\n\n```\n"@ + one
        + "\n```"@ by {
        reveal_with_fuel(context_text, 2);
        assert(seq![one].drop_last() =~= Seq::empty());
        assert(Seq::<char>::empty() + fenced(one) =~= fenced(one));
    }
    if right.len() > 0 {
        law_texts_follow(left, right.drop_last(), before, after);
        assert((left + right).drop_last() =~= left + right.drop_last());
        assert(matches_text(left + right) =~= matches_text(left) + matches_text(right));
    } else {
        assert(left + right =~= left);
        assert(matches_text(left) + matches_text(right) =~= matches_text(left));
        if after.len() > 0 {
            law_texts_follow(left, right, before, after.drop_last());
            assert((before + after).drop_last() =~= before + after.drop_last());
            assert(context_text(before + after) =~= context_text(before) + context_text(after));
        } else {
            assert(before + after =~= before);
            assert(context_text(before) + context_text(after) =~= context_text(before));
        }
    }
}

/// Lines are shown counted from one: the first line is one more than that of the
/// match, as far as that can be counted. The last one is the exclusive end of the
/// lines, counted from zero.
pub proof fn law_shown_lines(found: MatchModel)
    requires
        0 <= found.lines.0 <= u32::MAX,
        0 <= found.lines.1,
    ensures
        found.lines.0 < u32::MAX ==> first_line(found) == found.lines.0 + 1,
        ("\n\n## "@ + found.path + ":"@ + decimal::decimal(first_line(found)) + "-"@
            + decimal::decimal(found.lines.1 as nat) + "\nscore: "@ + wide::score_text(found.score)
            + "\nsource: "@ + found.source + ("\n\n```\n"@ + found.snippet + "\n```"@)).is_prefix_of(
            match_text(found),
        ),
{
    let head = "\n\n## "@ + found.path + ":"@ + decimal::decimal(first_line(found)) + "-"@
        + decimal::decimal(found.lines.1 as nat) + "\nscore: "@ + wide::score_text(found.score)
        + "\nsource: "@ + found.source + fenced(found.snippet);
    assert(match_text(found).subrange(0, head.len() as int) =~= head);
}

/// A report of matches says how many there are, in the singular for one, and
/// then gives their texts, in their order; without matches it says so.
pub proof fn law_output_text(matches: Seq<MatchModel>)
    ensures
        matches.len() == 0 ==> output_text(OutputModel::Success(matches))
            == "No semantic code search matches found"@,
        matches.len() == 1 ==> output_text(OutputModel::Success(matches)) == "Found "@
            + decimal::decimal(1) + " semantic code search match"@ + ":"@ + match_text(matches[0]),
        matches.len() > 1 ==> output_text(OutputModel::Success(matches)) == "Found "@
            + decimal::decimal(matches.len()) + " semantic code search match"@ + "es:"@
            + matches_text(matches),
{
    if matches.len() == 1 {
        assert(matches =~= seq![matches[0]]);
        law_texts_follow(seq![], seq![], seq![], seq![]);
    }
}

/// The surroundings of a match, where there are any, follow its text under a
/// heading.
pub proof fn law_match_text_context(found: MatchModel)
    ensures
        found.context.len() > 0 ==> match_text(found) == match_text(
            MatchModel { context: Seq::empty(), ..found },
        ) + "\n\nExpanded context:"@ + context_text(found.context),
{
}

} // verus!
