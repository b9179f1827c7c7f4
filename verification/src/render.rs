//! What one frame of the dashboard shows, as plain values: a heading and
//! three panels side by side, each a header over a list of labels.

use crate::model::{texts, ViewModel, ViewModelView};
use vstd::prelude::*;

verus! {

/// One scrollable group of the dashboard.
#[derive(Debug, PartialEq, Eq)]
pub struct Panel {
    /// The line above the scrollable region.
    pub header: String,
    /// The labels inside the scrollable region, top to bottom.
    pub labels: Vec<String>,
}

/// A [`Panel`] with its texts as character sequences.
pub ghost struct PanelView {
    pub header: Seq<char>,
    pub labels: Seq<Seq<char>>,
}

impl View for Panel {
    type V = PanelView;

    open spec fn view(&self) -> PanelView {
        PanelView { header: self.header@, labels: texts(self.labels@) }
    }
}

/// One frame of the dashboard.
#[derive(Debug, PartialEq, Eq)]
pub struct Frame {
    /// The banner across the top.
    pub heading: String,
    /// The left panel: the chat transcript.
    pub chat: Panel,
    /// The middle panel: the statistics.
    pub stats: Panel,
    /// The right panel: the language-model output.
    pub llm: Panel,
}

/// A [`Frame`] with its texts as character sequences.
pub ghost struct FrameView {
    pub heading: Seq<char>,
    pub chat: PanelView,
    pub stats: PanelView,
    pub llm: PanelView,
}

impl View for Frame {
    type V = FrameView;

    open spec fn view(&self) -> FrameView {
        FrameView {
            heading: self.heading@,
            chat: self.chat@,
            stats: self.stats@,
            llm: self.llm@,
        }
    }
}

/// The frame that shows `model`: every chat entry as a label of its own, in
/// order, and each of the two texts as the single label of its panel.
pub open spec fn frame_of(model: ViewModelView) -> FrameView {
    FrameView {
        heading: "Twitch Bot Dashboard"@,
        chat: PanelView { header: "Twitch Chat"@, labels: model.chat_log },
        stats: PanelView { header: "Stats"@, labels: seq![model.stats] },
        llm: PanelView { header: "LLM Output"@, labels: seq![model.llm_output] },
    }
}

/// The title of the dashboard's window.
pub fn window_title() -> (title: &'static str)
    ensures
        title@ == "Twitch Bot Dashboard"@,
{
    "Twitch Bot Dashboard"
}

/// Lays out the frame that shows `model`. Nothing of `model` changes.
pub fn layout(model: &ViewModel) -> (frame: Frame)
    ensures
        frame@ == frame_of(model@),
{
    let log = model.chat_log();
    let mut chat_labels: Vec<String> = Vec::new();
    let mut i: usize = 0;
    while i < log.len()
        invariant
            i <= log@.len(),
            chat_labels@.len() == i,
            forall|j: int| 0 <= j < i ==> #[trigger] chat_labels@[j]@ == log@[j]@,
        decreases log@.len() - i,
    {
        chat_labels.push(log[i].clone());
        i += 1;
    }
    let mut stats_labels: Vec<String> = Vec::new();
    stats_labels.push(model.stats().clone());
    let mut llm_labels: Vec<String> = Vec::new();
    llm_labels.push(model.llm_output().clone());
    let frame = Frame {
        heading: "Twitch Bot Dashboard".to_owned(),
        chat: Panel { header: "Twitch Chat".to_owned(), labels: chat_labels },
        stats: Panel { header: "Stats".to_owned(), labels: stats_labels },
        llm: Panel { header: "LLM Output".to_owned(), labels: llm_labels },
    };
    assert(frame@.chat.labels =~= model@.chat_log);
    assert(frame@.stats.labels =~= seq![model@.stats]);
    assert(frame@.llm.labels =~= seq![model@.llm_output]);
    frame
}

} // verus!
