//! What holds of the view model whatever lines arrive: the laws that the
//! contracts of the other modules add up to.

use crate::model::{keep_last, ViewModelView, CHAT_LOG_MAX};
use crate::protocol::{chat_tag, decode_spec, lemma_tags, llm_tag, stats_tag, UpdateView};
use vstd::prelude::*;

verus! {

/// The payload of `line`, where it is a chat line.
pub open spec fn chat_payload(line: Seq<char>) -> Option<Seq<char>> {
    match decode_spec(line) {
        UpdateView::ChatAppend(payload) => Some(payload),
        _ => None,
    }
}

/// The payloads of the chat lines among `lines`, in the order of the lines.
pub open spec fn chat_payloads(lines: Seq<Seq<char>>) -> Seq<Seq<char>> {
    lines.filter_map(|line: Seq<char>| chat_payload(line))
}

/// `line` is a statistics line.
pub open spec fn is_stats_line(line: Seq<char>) -> bool {
    decode_spec(line) is StatsReplace
}

/// `line` is a language-model output line.
pub open spec fn is_llm_line(line: Seq<char>) -> bool {
    decode_spec(line) is LlmReplace
}

/// `merged` holds the entries of `left` and of `right`, those of each in
/// their own order.
pub open spec fn is_interleaving<A>(merged: Seq<A>, left: Seq<A>, right: Seq<A>) -> bool
    decreases merged.len(),
{
    if merged.len() == 0 {
        left.len() == 0 && right.len() == 0
    } else {
        ||| (left.len() > 0 && left.last() == merged.last() && is_interleaving(
            merged.drop_last(),
            left.drop_last(),
            right,
        ))
        ||| (right.len() > 0 && right.last() == merged.last() && is_interleaving(
            merged.drop_last(),
            left,
            right.drop_last(),
        ))
    }
}

/// A tag followed by a payload decodes to the update of that tag with
/// exactly that payload, whatever the payload holds, an empty one too.
pub proof fn lemma_decode_tagged(payload: Seq<char>)
    ensures
        decode_spec(chat_tag() + payload) == UpdateView::ChatAppend(payload),
        decode_spec(stats_tag() + payload) == UpdateView::StatsReplace(payload),
        decode_spec(llm_tag() + payload) == UpdateView::LlmReplace(payload),
{
    lemma_tags();
    let chat = chat_tag() + payload;
    let stats = stats_tag() + payload;
    let llm = llm_tag() + payload;
    assert(chat.subrange(0, 5) =~= chat_tag());
    assert(chat.skip(5) =~= payload);
    assert(stats.subrange(0, 6) =~= stats_tag());
    assert(stats.skip(6) =~= payload);
    assert(llm.subrange(0, 4) =~= llm_tag());
    assert(llm.skip(4) =~= payload);
    if chat_tag().is_prefix_of(stats) {
        assert(stats.subrange(0, 5)[0] == 'S');
    }
    if chat_tag().is_prefix_of(llm) {
        assert(llm.subrange(0, 5)[0] == 'L');
    }
    if stats_tag().is_prefix_of(llm) {
        assert(llm.subrange(0, 6)[0] == 'L');
    }
}

/// A chat line with nothing after its tag adds an empty entry to the
/// transcript.
pub proof fn lemma_empty_chat_payload(model: ViewModelView)
    ensures
        decode_spec(chat_tag()) == UpdateView::ChatAppend(Seq::<char>::empty()),
        model.apply_line(chat_tag()).chat_log.len() > 0,
        model.apply_line(chat_tag()).chat_log.last() == Seq::<char>::empty(),
{
    lemma_decode_tagged(Seq::<char>::empty());
    assert(chat_tag() + Seq::<char>::empty() =~= chat_tag());
}

/// A line that starts with none of the three tags leaves the view model as
/// it was.
pub proof fn lemma_unknown_tag_ignored(model: ViewModelView, line: Seq<char>)
    requires
        !chat_tag().is_prefix_of(line),
        !stats_tag().is_prefix_of(line),
        !llm_tag().is_prefix_of(line),
    ensures
        decode_spec(line) == UpdateView::Ignore,
        model.apply_line(line) == model,
{
}

/// Applying one sequence of updates after another is applying the two
/// joined.
pub proof fn lemma_apply_all_concat(
    model: ViewModelView,
    first: Seq<UpdateView>,
    second: Seq<UpdateView>,
)
    ensures
        model.apply_all(first + second) == model.apply_all(first).apply_all(second),
    decreases second.len(),
{
    if second.len() == 0 {
        assert(first + second =~= first);
    } else {
        lemma_apply_all_concat(model, first, second.drop_last());
        assert((first + second).drop_last() =~= first + second.drop_last());
    }
}

/// Applying one sequence of lines after another is applying the two joined.
pub proof fn lemma_apply_lines_concat(
    model: ViewModelView,
    first: Seq<Seq<char>>,
    second: Seq<Seq<char>>,
)
    ensures
        model.apply_lines(first + second) == model.apply_lines(first).apply_lines(second),
{
    let f = |line: Seq<char>| decode_spec(line);
    assert((first + second).map_values(f) =~= first.map_values(f) + second.map_values(f));
    lemma_apply_all_concat(model, first.map_values(f), second.map_values(f));
}

/// Applying the lines of `lines` and then `line` is applying `line` to what
/// the lines of `lines` lead to.
pub proof fn lemma_apply_lines_push(model: ViewModelView, lines: Seq<Seq<char>>, line: Seq<char>)
    ensures
        model.apply_lines(lines.push(line)) == model.apply_lines(lines).apply_line(line),
{
    let f = |line: Seq<char>| decode_spec(line);
    assert(lines.push(line).map_values(f).drop_last() =~= lines.map_values(f));
}

/// Whatever updates are applied, the transcript stays within its bound.
pub proof fn lemma_transcript_bounded(model: ViewModelView, updates: Seq<UpdateView>)
    requires
        model.bounded(),
    ensures
        model.apply_all(updates).bounded(),
    decreases updates.len(),
{
    if updates.len() > 0 {
        lemma_transcript_bounded(model, updates.drop_last());
    }
}

/// Whatever lines arrive, the transcript stays within its bound.
pub proof fn lemma_transcript_bounded_lines(model: ViewModelView, lines: Seq<Seq<char>>)
    requires
        model.bounded(),
    ensures
        model.apply_lines(lines).bounded(),
{
    lemma_transcript_bounded(model, lines.map_values(|line: Seq<char>| decode_spec(line)));
}

/// Keeping the last `n` entries, adding one and keeping the last `n` again
/// is adding the one and keeping the last `n`.
pub proof fn lemma_keep_last_push<A>(s: Seq<A>, entry: A, n: nat)
    ensures
        keep_last(keep_last(s, n).push(entry), n) == keep_last(s.push(entry), n),
{
    assert(keep_last(keep_last(s, n).push(entry), n) =~= keep_last(s.push(entry), n));
}

/// The transcript is the last `CHAT_LOG_MAX` of what it held before followed
/// by the payloads of the chat lines that arrived, in their order.
pub proof fn lemma_transcript_is_recent_chat(model: ViewModelView, lines: Seq<Seq<char>>)
    requires
        model.bounded(),
    ensures
        model.apply_lines(lines).chat_log == keep_last(
            model.chat_log + chat_payloads(lines),
            CHAT_LOG_MAX as nat,
        ),
    decreases lines.len(),
{
    let n = CHAT_LOG_MAX as nat;
    if lines.len() == 0 {
        assert(lines.map_values(|line: Seq<char>| decode_spec(line)).len() == 0);
        assert(model.chat_log + chat_payloads(lines) =~= model.chat_log);
    } else {
        let earlier = lines.drop_last();
        let line = lines.last();
        lemma_transcript_is_recent_chat(model, earlier);
        assert(lines =~= earlier.push(line));
        lemma_apply_lines_push(model, earlier, line);
        let before = model.chat_log + chat_payloads(earlier);
        match decode_spec(line) {
            UpdateView::ChatAppend(payload) => {
                assert(model.chat_log + chat_payloads(lines) =~= before.push(payload));
                lemma_keep_last_push(before, payload, n);
            },
            _ => {
                assert(model.chat_log + chat_payloads(lines) =~= before);
            },
        }
    }
}

/// From the empty view model, the transcript is the last `CHAT_LOG_MAX`
/// payloads of the chat lines that arrived, in their order: all of them
/// where there are no more than that.
pub proof fn lemma_transcript_from_start(lines: Seq<Seq<char>>)
    ensures
        ViewModelView::initial().apply_lines(lines).chat_log == keep_last(
            chat_payloads(lines),
            CHAT_LOG_MAX as nat,
        ),
        chat_payloads(lines).len() <= CHAT_LOG_MAX ==> ViewModelView::initial().apply_lines(
            lines,
        ).chat_log == chat_payloads(lines),
{
    lemma_transcript_is_recent_chat(ViewModelView::initial(), lines);
    assert(ViewModelView::initial().chat_log + chat_payloads(lines) =~= chat_payloads(lines));
}

/// Lines that are no statistics lines leave the statistics text as it was.
pub proof fn lemma_stats_kept(model: ViewModelView, lines: Seq<Seq<char>>)
    requires
        forall|i: int| 0 <= i < lines.len() ==> !is_stats_line(#[trigger] lines[i]),
    ensures
        model.apply_lines(lines).stats == model.stats,
    decreases lines.len(),
{
    if lines.len() == 0 {
        assert(lines.map_values(|line: Seq<char>| decode_spec(line)).len() == 0);
    } else {
        lemma_stats_kept(model, lines.drop_last());
        assert(lines =~= lines.drop_last().push(lines.last()));
        lemma_apply_lines_push(model, lines.drop_last(), lines.last());
    }
}

/// Lines that are no language-model output lines leave the language-model
/// output as it was.
pub proof fn lemma_llm_output_kept(model: ViewModelView, lines: Seq<Seq<char>>)
    requires
        forall|i: int| 0 <= i < lines.len() ==> !is_llm_line(#[trigger] lines[i]),
    ensures
        model.apply_lines(lines).llm_output == model.llm_output,
    decreases lines.len(),
{
    if lines.len() == 0 {
        assert(lines.map_values(|line: Seq<char>| decode_spec(line)).len() == 0);
    } else {
        lemma_llm_output_kept(model, lines.drop_last());
        assert(lines =~= lines.drop_last().push(lines.last()));
        lemma_apply_lines_push(model, lines.drop_last(), lines.last());
    }
}

/// After a statistics line with payload `text`, the statistics text is
/// `text` for as long as no other statistics line follows, whatever came
/// before and whatever else comes after.
pub proof fn lemma_stats_last_writer_wins(
    model: ViewModelView,
    before: Seq<Seq<char>>,
    text: Seq<char>,
    after: Seq<Seq<char>>,
)
    requires
        forall|i: int| 0 <= i < after.len() ==> !is_stats_line(#[trigger] after[i]),
    ensures
        model.apply_lines(before.push(stats_tag() + text) + after).stats == text,
{
    let line = stats_tag() + text;
    lemma_decode_tagged(text);
    lemma_apply_lines_concat(model, before.push(line), after);
    lemma_apply_lines_push(model, before, line);
    lemma_stats_kept(model.apply_lines(before.push(line)), after);
}

/// After a language-model output line with payload `text`, the
/// language-model output is `text` for as long as no other such line
/// follows, whatever came before and whatever else comes after.
pub proof fn lemma_llm_last_writer_wins(
    model: ViewModelView,
    before: Seq<Seq<char>>,
    text: Seq<char>,
    after: Seq<Seq<char>>,
)
    requires
        forall|i: int| 0 <= i < after.len() ==> !is_llm_line(#[trigger] after[i]),
    ensures
        model.apply_lines(before.push(llm_tag() + text) + after).llm_output == text,
{
    let line = llm_tag() + text;
    lemma_decode_tagged(text);
    lemma_apply_lines_concat(model, before.push(line), after);
    lemma_apply_lines_push(model, before, line);
    lemma_llm_output_kept(model.apply_lines(before.push(line)), after);
}

/// Where the lines of two connections are applied in any order that keeps
/// the order of each connection, the chat payloads come in an order that
/// keeps the order of each connection's chat payloads, and the transcript
/// is the last `CHAT_LOG_MAX` of them.
pub proof fn lemma_interleaving_keeps_chat_order(
    merged: Seq<Seq<char>>,
    left: Seq<Seq<char>>,
    right: Seq<Seq<char>>,
)
    requires
        is_interleaving(merged, left, right),
    ensures
        is_interleaving(chat_payloads(merged), chat_payloads(left), chat_payloads(right)),
        ViewModelView::initial().apply_lines(merged).chat_log == keep_last(
            chat_payloads(merged),
            CHAT_LOG_MAX as nat,
        ),
    decreases merged.len(),
{
    lemma_transcript_from_start(merged);
    if merged.len() > 0 {
        let line = merged.last();
        let earlier = chat_payloads(merged.drop_last());
        if left.len() > 0 && left.last() == line && is_interleaving(
            merged.drop_last(),
            left.drop_last(),
            right,
        ) {
            lemma_interleaving_keeps_chat_order(merged.drop_last(), left.drop_last(), right);
            match chat_payload(line) {
                Some(payload) => {
                    assert(chat_payloads(merged).drop_last() =~= earlier);
                    assert(chat_payloads(left).drop_last() =~= chat_payloads(left.drop_last()));
                },
                None => {},
            }
        } else {
            lemma_interleaving_keeps_chat_order(merged.drop_last(), left, right.drop_last());
            match chat_payload(line) {
                Some(payload) => {
                    assert(chat_payloads(merged).drop_last() =~= earlier);
                    assert(chat_payloads(right).drop_last() =~= chat_payloads(right.drop_last()));
                },
                None => {},
            }
        }
    }
}

/// An interleaving stays one where the same entries are added at the end
/// of it and at the end of its left part.
pub proof fn lemma_interleaving_extend_left<A>(
    merged: Seq<A>,
    left: Seq<A>,
    right: Seq<A>,
    more: Seq<A>,
)
    requires
        is_interleaving(merged, left, right),
    ensures
        is_interleaving(merged + more, left + more, right),
    decreases more.len(),
{
    if more.len() == 0 {
        assert(merged + more =~= merged);
        assert(left + more =~= left);
    } else {
        lemma_interleaving_extend_left(merged, left, right, more.drop_last());
        assert((merged + more).drop_last() =~= merged + more.drop_last());
        assert((left + more).drop_last() =~= left + more.drop_last());
    }
}

/// An interleaving stays one where the same entries are added at the end
/// of it and at the end of its right part.
pub proof fn lemma_interleaving_extend_right<A>(
    merged: Seq<A>,
    left: Seq<A>,
    right: Seq<A>,
    more: Seq<A>,
)
    requires
        is_interleaving(merged, left, right),
    ensures
        is_interleaving(merged + more, left, right + more),
    decreases more.len(),
{
    if more.len() == 0 {
        assert(merged + more =~= merged);
        assert(right + more =~= right);
    } else {
        lemma_interleaving_extend_right(merged, left, right, more.drop_last());
        assert((merged + more).drop_last() =~= merged + more.drop_last());
        assert((right + more).drop_last() =~= right + more.drop_last());
    }
}

} // verus!
