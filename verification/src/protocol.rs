//! The tagged line protocol: one text line in, one update of the view model
//! out.

use crate::text::{strip_tag, utf8_text};
use vstd::prelude::*;
use vstd::utf8::{decode_utf8, is_ascii_chars, valid_utf8};

verus! {

/// What one inbound line asks of the view model.
#[derive(Debug, PartialEq, Eq)]
pub enum Update {
    /// Append a line to the chat transcript.
    ChatAppend(String),
    /// Replace the statistics text.
    StatsReplace(String),
    /// Replace the language-model output text.
    LlmReplace(String),
    /// Leave the view model as it is.
    Ignore,
}

/// An [`Update`] with its payload as a sequence of characters.
pub ghost enum UpdateView {
    ChatAppend(Seq<char>),
    StatsReplace(Seq<char>),
    LlmReplace(Seq<char>),
    Ignore,
}

impl View for Update {
    type V = UpdateView;

    open spec fn view(&self) -> UpdateView {
        match self {
            Update::ChatAppend(s) => UpdateView::ChatAppend(s@),
            Update::StatsReplace(s) => UpdateView::StatsReplace(s@),
            Update::LlmReplace(s) => UpdateView::LlmReplace(s@),
            Update::Ignore => UpdateView::Ignore,
        }
    }
}

impl Clone for Update {
    fn clone(&self) -> (u: Update)
        ensures
            u@ == self@,
    {
        match self {
            Update::ChatAppend(s) => Update::ChatAppend(s.clone()),
            Update::StatsReplace(s) => Update::StatsReplace(s.clone()),
            Update::LlmReplace(s) => Update::LlmReplace(s.clone()),
            Update::Ignore => Update::Ignore,
        }
    }
}

/// Prefix of a chat line.
pub open spec fn chat_tag() -> Seq<char> {
    "CHAT:"@
}

/// Prefix of a statistics line.
pub open spec fn stats_tag() -> Seq<char> {
    "STATS:"@
}

/// Prefix of a language-model output line.
pub open spec fn llm_tag() -> Seq<char> {
    "LLM:"@
}

/// The update that a line stands for. The tags are tried in the order chat,
/// statistics, language model; the payload is everything after the tag,
/// untouched; a line with none of the tags is ignored.
pub open spec fn decode_spec(line: Seq<char>) -> UpdateView {
    if chat_tag().is_prefix_of(line) {
        UpdateView::ChatAppend(line.skip(chat_tag().len() as int))
    } else if stats_tag().is_prefix_of(line) {
        UpdateView::StatsReplace(line.skip(stats_tag().len() as int))
    } else if llm_tag().is_prefix_of(line) {
        UpdateView::LlmReplace(line.skip(llm_tag().len() as int))
    } else {
        UpdateView::Ignore
    }
}

/// The three tags, character by character.
pub proof fn lemma_tags()
    ensures
        chat_tag() == seq!['C', 'H', 'A', 'T', ':'],
        stats_tag() == seq!['S', 'T', 'A', 'T', 'S', ':'],
        llm_tag() == seq!['L', 'L', 'M', ':'],
        is_ascii_chars(chat_tag()),
        is_ascii_chars(stats_tag()),
        is_ascii_chars(llm_tag()),
{
    reveal_strlit("CHAT:");
    reveal_strlit("STATS:");
    reveal_strlit("LLM:");
    assert(chat_tag() =~= seq!['C', 'H', 'A', 'T', ':']);
    assert(stats_tag() =~= seq!['S', 'T', 'A', 'T', 'S', ':']);
    assert(llm_tag() =~= seq!['L', 'L', 'M', ':']);
}

/// Decodes one line, its line terminator already taken off.
pub fn decode(line: &str) -> (u: Update)
    ensures
        u@ == decode_spec(line@),
{
    proof {
        lemma_tags();
    }
    if let Some(payload) = strip_tag(line, "CHAT:") {
        Update::ChatAppend(payload.to_owned())
    } else if let Some(payload) = strip_tag(line, "STATS:") {
        Update::StatsReplace(payload.to_owned())
    } else if let Some(payload) = strip_tag(line, "LLM:") {
        Update::LlmReplace(payload.to_owned())
    } else {
        Update::Ignore
    }
}

/// The update that a record of bytes stands for: that of its text, where
/// the bytes are well-formed UTF-8; otherwise the record is ignored.
pub open spec fn record_update(record: Seq<u8>) -> UpdateView {
    if valid_utf8(record) {
        decode_spec(decode_utf8(record))
    } else {
        UpdateView::Ignore
    }
}

/// Decodes one record, its line terminator already taken off.
pub fn decode_record(record: Vec<u8>) -> (u: Update)
    ensures
        u@ == record_update(record@),
{
    match utf8_text(record) {
        Some(line) => decode(line.as_str()),
        None => Update::Ignore,
    }
}

} // verus!
