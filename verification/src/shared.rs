//! The view model behind a lock: connections write to it and the renderer
//! reads it, each for the length of one whole operation.

use crate::connection::Connection;
use crate::model::{ViewModel, ViewModelView};
use crate::protocol::{Update, UpdateView};
use crate::render::{frame_of, layout, Frame};
use vstd::prelude::*;
use vstd::rwlock::RwLock;

verus! {

/// `model` is what whole updates, applied one after the other to `start`,
/// lead to.
pub open spec fn reachable_from(start: ViewModelView, model: ViewModelView) -> bool {
    exists|updates: Seq<UpdateView>| model == start.apply_all(updates)
}

/// One more update keeps a view model reachable.
pub proof fn lemma_reachable_step(start: ViewModelView, model: ViewModelView, update: UpdateView)
    requires
        reachable_from(start, model),
    ensures
        reachable_from(start, model.apply(update)),
{
    let updates = choose|updates: Seq<UpdateView>| model == start.apply_all(updates);
    let longer = updates.push(update);
    assert(longer.drop_last() =~= updates);
    assert(model.apply(update) == start.apply_all(longer));
}

/// The view model that the connections and the renderer share. What the
/// lock guards is at every moment reachable from what it held at first: no
/// reader sees half an update.
pub struct SharedModel {
    lock: RwLock<ViewModel, spec_fn(ViewModel) -> bool>,
    origin: Ghost<ViewModelView>,
}

impl SharedModel {
    /// What the shared view model held when it was made.
    pub closed spec fn origin(&self) -> ViewModelView {
        self.origin@
    }

    /// The lock admits the view models that are reachable from the first
    /// one, and no others.
    #[verifier::type_invariant]
    spec fn guards_reachable(&self) -> bool {
        forall|model: ViewModel| #[trigger]
            self.lock.inv(model) == reachable_from(self.origin@, model@)
    }

    /// A shared view model that starts with nothing in it.
    pub fn new() -> (shared: SharedModel)
        ensures
            shared.origin() == ViewModelView::initial(),
    {
        let model = ViewModel::new();
        let ghost origin = model@;
        let ghost admits = |m: ViewModel| reachable_from(origin, m@);
        proof {
            assert(model@ == origin.apply_all(Seq::empty()));
        }
        SharedModel { lock: RwLock::new(model, Ghost(admits)), origin: Ghost(origin) }
    }

    /// Applies one update while no other writer and no reader holds the
    /// model.
    pub fn apply(&self, update: Update) {
        proof {
            use_type_invariant(self);
        }
        let (mut model, handle) = self.lock.acquire_write();
        proof {
            lemma_reachable_step(self.origin(), model@, update@);
        }
        model.apply(update);
        handle.release_write(model);
    }

    /// Applies the updates of `updates` in order, each under the lock by
    /// itself, so that other writers may come in between two of them.
    pub fn apply_all(&self, updates: Vec<Update>) {
        for update in updates {
            self.apply(update);
        }
    }

    /// Takes the next chunk of bytes of `connection` and applies the updates
    /// of the records that it completes, in order.
    pub fn receive(&self, connection: &mut Connection, chunk: &[u8])
        ensures
            final(connection)@ == old(connection)@.run(chunk@),
    {
        let updates = connection.updates(chunk);
        self.apply_all(updates);
    }

    /// Ends the stream of `connection` and applies the update of the record
    /// that the end completes, if it completes one.
    pub fn close(&self, connection: &mut Connection)
        ensures
            final(connection)@ == crate::framing::FramerState::initial(),
    {
        match connection.last_update() {
            Some(update) => self.apply(update),
            None => {},
        }
    }

    /// A copy of the model as it stands between two updates.
    pub fn snapshot(&self) -> (model: ViewModel)
        ensures
            reachable_from(self.origin(), model@),
            model@.bounded(),
    {
        proof {
            use_type_invariant(self);
        }
        let handle = self.lock.acquire_read();
        let model = handle.borrow().clone();
        handle.release_read();
        proof {
            use_type_invariant(&model);
        }
        model
    }

    /// The frame that shows the model as it stands between two updates.
    pub fn frame(&self) -> (frame: Frame)
        ensures
            exists|model: ViewModelView|
                reachable_from(self.origin(), model) && model.bounded() && frame@
                    == #[trigger] frame_of(model),
    {
        proof {
            use_type_invariant(self);
        }
        let handle = self.lock.acquire_read();
        let model = handle.borrow();
        proof {
            use_type_invariant(model);
        }
        let frame = layout(model);
        assert(frame@ == frame_of(model@));
        handle.release_read();
        frame
    }
}

} // verus!
