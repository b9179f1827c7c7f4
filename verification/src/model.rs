//! The view model: a bounded chat transcript and two texts that each update
//! replaces.

use crate::protocol::{decode, decode_spec, Update, UpdateView};
use vstd::prelude::*;

verus! {

/// Largest number of entries that the chat transcript holds.
pub const CHAT_LOG_MAX: usize = 100;

/// The last `n` entries of `s`, or all of `s` where it has no more than `n`.
pub open spec fn keep_last<T>(s: Seq<T>, n: nat) -> Seq<T> {
    if s.len() <= n {
        s
    } else {
        s.skip(s.len() - n)
    }
}

/// The strings of `v` as character sequences.
pub open spec fn texts(v: Seq<String>) -> Seq<Seq<char>> {
    Seq::new(v.len(), |i: int| v[i]@)
}

/// The updates of `v` with their payloads as character sequences.
pub open spec fn update_views(v: Seq<Update>) -> Seq<UpdateView> {
    Seq::new(v.len(), |i: int| v[i]@)
}

/// What a [`ViewModel`] holds.
pub ghost struct ViewModelView {
    /// The chat transcript, oldest entry first.
    pub chat_log: Seq<Seq<char>>,
    /// The latest statistics text.
    pub stats: Seq<char>,
    /// The latest language-model output.
    pub llm_output: Seq<char>,
}

impl ViewModelView {
    /// The view model at start-up: nothing in it.
    pub open spec fn initial() -> ViewModelView {
        ViewModelView { chat_log: Seq::empty(), stats: Seq::empty(), llm_output: Seq::empty() }
    }

    /// The transcript is within its bound.
    pub open spec fn bounded(self) -> bool {
        self.chat_log.len() <= CHAT_LOG_MAX
    }

    /// The view model after one update.
    pub open spec fn apply(self, u: UpdateView) -> ViewModelView {
        match u {
            UpdateView::ChatAppend(line) => ViewModelView {
                chat_log: keep_last(self.chat_log.push(line), CHAT_LOG_MAX as nat),
                ..self
            },
            UpdateView::StatsReplace(text) => ViewModelView { stats: text, ..self },
            UpdateView::LlmReplace(text) => ViewModelView { llm_output: text, ..self },
            UpdateView::Ignore => self,
        }
    }

    /// The view model after the updates of `us`, first to last.
    pub open spec fn apply_all(self, us: Seq<UpdateView>) -> ViewModelView
        decreases us.len(),
    {
        if us.len() == 0 {
            self
        } else {
            self.apply_all(us.drop_last()).apply(us.last())
        }
    }

    /// The view model after one inbound line.
    pub open spec fn apply_line(self, line: Seq<char>) -> ViewModelView {
        self.apply(decode_spec(line))
    }

    /// The view model after the inbound lines of `lines`, first to last.
    pub open spec fn apply_lines(self, lines: Seq<Seq<char>>) -> ViewModelView {
        self.apply_all(lines.map_values(|line: Seq<char>| decode_spec(line)))
    }
}

/// The record that the dashboard paints: every accepted line ends up here.
pub struct ViewModel {
    chat_log: Vec<String>,
    stats: String,
    llm_output: String,
}

impl View for ViewModel {
    type V = ViewModelView;

    closed spec fn view(&self) -> ViewModelView {
        ViewModelView {
            chat_log: texts(self.chat_log@),
            stats: self.stats@,
            llm_output: self.llm_output@,
        }
    }
}

impl ViewModel {
    /// Holds of every view model: the transcript is within its bound.
    #[verifier::type_invariant]
    pub open spec fn within_bound(&self) -> bool {
        self@.bounded()
    }

    /// An empty view model.
    pub fn new() -> (m: ViewModel)
        ensures
            m@ == ViewModelView::initial(),
    {
        let m = ViewModel { chat_log: Vec::new(), stats: String::new(), llm_output: String::new() };
        assert(m@.chat_log =~= Seq::empty());
        m
    }

    /// The chat transcript, oldest entry first.
    pub fn chat_log(&self) -> (log: &Vec<String>)
        ensures
            texts(log@) == self@.chat_log,
            log@.len() <= CHAT_LOG_MAX,
    {
        proof {
            use_type_invariant(self);
        }
        &self.chat_log
    }

    /// The latest statistics text.
    pub fn stats(&self) -> (text: &String)
        ensures
            text@ == self@.stats,
    {
        &self.stats
    }

    /// The latest language-model output.
    pub fn llm_output(&self) -> (text: &String)
        ensures
            text@ == self@.llm_output,
    {
        &self.llm_output
    }

    /// Applies one update. A chat line goes to the end of the transcript, and
    /// the oldest entry leaves where the transcript was full.
    pub fn apply(&mut self, update: Update)
        ensures
            final(self)@ == old(self)@.apply(update@),
            final(self)@.bounded(),
    {
        proof {
            use_type_invariant(&*self);
        }
        match update {
            Update::ChatAppend(line) => {
                // The transcript changes outside `self`, which is within
                // its bound at every step that way.
                let mut log: Vec<String> = Vec::new();
                core::mem::swap(&mut self.chat_log, &mut log);
                if log.len() == CHAT_LOG_MAX {
                    log.remove(0);
                }
                log.push(line);
                core::mem::swap(&mut self.chat_log, &mut log);
                assert(self@.chat_log =~= old(self)@.apply(update@).chat_log);
            },
            Update::StatsReplace(text) => {
                self.stats = text;
            },
            Update::LlmReplace(text) => {
                self.llm_output = text;
            },
            Update::Ignore => {},
        }
    }

    /// Decodes one inbound line and applies what it asks for.
    pub fn apply_line(&mut self, line: &str)
        ensures
            final(self)@ == old(self)@.apply_line(line@),
            final(self)@.bounded(),
    {
        self.apply(decode(line));
    }

    /// Applies the updates of `updates`, first to last.
    pub fn apply_all(&mut self, updates: Vec<Update>)
        ensures
            final(self)@ == old(self)@.apply_all(update_views(updates@)),
            final(self)@.bounded(),
    {
        let ghost all = update_views(updates@);
        proof {
            use_type_invariant(&*self);
        }
        for update in it: updates
            invariant
                it.seq() == updates@,
                all == update_views(updates@),
                self@ == old(self)@.apply_all(all.take(it.index() as int)),
                self@.bounded(),
        {
            proof {
                let done = all.take(it.index() as int);
                let next = all.take(it.index() + 1);
                assert(next.drop_last() =~= done);
                assert(next.last() == update@);
            }
            self.apply(update);
        }
        assert(all.take(all.len() as int) =~= all);
    }
}

impl Default for ViewModel {
    fn default() -> (m: ViewModel)
        ensures
            m@ == ViewModelView::initial(),
    {
        ViewModel::new()
    }
}

impl Clone for ViewModel {
    fn clone(&self) -> (m: ViewModel)
        ensures
            m@ == self@,
    {
        proof {
            use_type_invariant(self);
        }
        let mut log: Vec<String> = Vec::new();
        let mut i: usize = 0;
        while i < self.chat_log.len()
            invariant
                i <= self.chat_log@.len(),
                log@.len() == i,
                forall|j: int| 0 <= j < i ==> #[trigger] log@[j]@ == self.chat_log@[j]@,
            decreases self.chat_log@.len() - i,
        {
            log.push(self.chat_log[i].clone());
            i += 1;
        }
        let m = ViewModel {
            chat_log: log,
            stats: self.stats.clone(),
            llm_output: self.llm_output.clone(),
        };
        assert(m@.chat_log =~= self@.chat_log);
        m
    }
}

} // verus!
