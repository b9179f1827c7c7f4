//! One producer connection: the bytes it sends become updates of the view
//! model, record by record.

use crate::framing::{byte_lines, FramerState, LineAssembler};
use crate::model::{update_views, ViewModel};
use crate::protocol::{decode_record, record_update, Update, UpdateView};
use vstd::prelude::*;

verus! {

/// The TCP port on the loopback interface at which producers connect.
pub const DEFAULT_PORT: u16 = 7879;

/// The updates that the records of `records` stand for, one for each.
pub open spec fn record_updates(records: Seq<Seq<u8>>) -> Seq<UpdateView> {
    records.map_values(|record: Seq<u8>| record_update(record))
}

/// The updates that a whole stream stands for: one for each record that a
/// line feed ends, and one more for what follows the last line feed, where
/// anything does.
pub open spec fn stream_updates(stream: Seq<u8>) -> Seq<UpdateView> {
    let start = FramerState::initial();
    let complete = record_updates(start.records(stream));
    match start.run(stream).last_record() {
        Some(record) => complete.push(record_update(record)),
        None => complete,
    }
}

/// Decodes each record of `records`.
pub fn decode_records(records: Vec<Vec<u8>>) -> (updates: Vec<Update>)
    ensures
        update_views(updates@) == record_updates(byte_lines(records@)),
{
    let mut updates: Vec<Update> = Vec::new();
    for record in it: records
        invariant
            it.seq() == records@,
            updates@.len() == it.index(),
            forall|j: int|
                0 <= j < it.index() ==> (#[trigger] updates@[j])@ == record_update(records@[j]@),
    {
        let update = decode_record(record);
        updates.push(update);
    }
    assert(update_views(updates@) =~= record_updates(byte_lines(records@)));
    updates
}

/// The receiving end of one producer connection.
pub struct Connection {
    assembler: LineAssembler,
}

impl View for Connection {
    type V = FramerState;

    closed spec fn view(&self) -> FramerState {
        self.assembler@
    }
}

impl Connection {
    /// A connection on which nothing has arrived yet.
    pub fn new() -> (c: Connection)
        ensures
            c@ == FramerState::initial(),
    {
        Connection { assembler: LineAssembler::new() }
    }

    /// Takes the next chunk of bytes and returns the updates of the records
    /// that it completes, in order.
    pub fn updates(&mut self, chunk: &[u8]) -> (updates: Vec<Update>)
        ensures
            final(self)@ == old(self)@.run(chunk@),
            update_views(updates@) == record_updates(old(self)@.records(chunk@)),
    {
        let records = self.assembler.push(chunk);
        decode_records(records)
    }

    /// Ends the stream and returns the update of the record that the end
    /// completes, if it completes one.
    pub fn last_update(&mut self) -> (last: Option<Update>)
        ensures
            final(self)@ == FramerState::initial(),
            match last {
                Some(update) => old(self)@.last_record().is_some() && update@ == record_update(
                    old(self)@.last_record().unwrap(),
                ),
                None => old(self)@.last_record().is_none(),
            },
    {
        match self.assembler.finish() {
            Some(record) => Some(decode_record(record)),
            None => None,
        }
    }

    /// Takes the next chunk of bytes and applies to `model` the updates of
    /// the records that it completes.
    pub fn receive(&mut self, chunk: &[u8], model: &mut ViewModel)
        ensures
            final(self)@ == old(self)@.run(chunk@),
            final(model)@ == old(model)@.apply_all(record_updates(old(self)@.records(chunk@))),
            final(model)@.bounded(),
    {
        let updates = self.updates(chunk);
        model.apply_all(updates);
    }

    /// Ends the stream and applies to `model` the update of the record that
    /// the end completes, if it completes one.
    pub fn close(&mut self, model: &mut ViewModel)
        ensures
            final(self)@ == FramerState::initial(),
            final(model)@ == match old(self)@.last_record() {
                Some(record) => old(model)@.apply(record_update(record)),
                None => old(model)@,
            },
            final(model)@.bounded(),
    {
        proof {
            use_type_invariant(&*model);
        }
        match self.last_update() {
            Some(update) => model.apply(update),
            None => {},
        }
    }
}

/// Applies to `model` what one connection sends from its start to its end.
pub fn ingest(model: &mut ViewModel, stream: &[u8])
    ensures
        final(model)@ == old(model)@.apply_all(stream_updates(stream@)),
        final(model)@.bounded(),
{
    let mut connection = Connection::new();
    connection.receive(stream, model);
    connection.close(model);
    proof {
        let all = stream_updates(stream@);
        let complete = record_updates(FramerState::initial().records(stream@));
        if FramerState::initial().run(stream@).last_record().is_some() {
            assert(all.drop_last() =~= complete);
        }
    }
}

} // verus!
