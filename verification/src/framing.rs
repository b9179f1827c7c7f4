//! Framing: a byte stream, arriving in chunks of any size, is cut into
//! records at each line feed.

use vstd::prelude::*;

verus! {

/// The byte that ends a record.
pub const LINE_FEED: u8 = 0x0a;

/// The byte that is taken off the end of a record, where it stands there.
pub const CARRIAGE_RETURN: u8 = 0x0d;

/// Largest number of bytes before the line feed that a record may have; a
/// longer line is dropped whole.
pub const MAX_LINE_LEN: usize = 65536;

/// `line` without one trailing carriage return.
pub open spec fn strip_cr(line: Seq<u8>) -> Seq<u8> {
    if line.len() > 0 && line.last() == CARRIAGE_RETURN {
        line.drop_last()
    } else {
        line
    }
}

/// The byte vectors of `v` as byte sequences.
pub open spec fn byte_lines(v: Seq<Vec<u8>>) -> Seq<Seq<u8>> {
    Seq::new(v.len(), |i: int| v[i]@)
}

/// What a [`LineAssembler`] remembers between two chunks.
pub ghost struct FramerState {
    /// The bytes of the line that is being read, as far as they have come.
    pub pending: Seq<u8>,
    /// The line that is being read is over its limit: its bytes are skipped
    /// up to the next line feed.
    pub discarding: bool,
}

impl FramerState {
    /// The state at the start of a stream.
    pub open spec fn initial() -> FramerState {
        FramerState { pending: Seq::empty(), discarding: false }
    }

    /// No more is held than a line may have, and nothing of a line that is
    /// being skipped.
    pub open spec fn wf(self) -> bool {
        &&& self.pending.len() <= MAX_LINE_LEN
        &&& self.discarding ==> self.pending.len() == 0
    }

    /// The state after one more byte.
    pub open spec fn step(self, byte: u8) -> FramerState {
        if byte == LINE_FEED {
            FramerState::initial()
        } else if self.discarding {
            self
        } else if self.pending.len() >= MAX_LINE_LEN {
            FramerState { pending: Seq::empty(), discarding: true }
        } else {
            FramerState { pending: self.pending.push(byte), discarding: false }
        }
    }

    /// The record that one more byte completes, if it completes one.
    pub open spec fn emits(self, byte: u8) -> Option<Seq<u8>> {
        if byte == LINE_FEED && !self.discarding {
            Some(strip_cr(self.pending))
        } else {
            None
        }
    }

    /// The state after the bytes of `bytes`.
    pub open spec fn run(self, bytes: Seq<u8>) -> FramerState
        decreases bytes.len(),
    {
        if bytes.len() == 0 {
            self
        } else {
            self.run(bytes.drop_last()).step(bytes.last())
        }
    }

    /// The records that the bytes of `bytes` complete, in order.
    pub open spec fn records(self, bytes: Seq<u8>) -> Seq<Seq<u8>>
        decreases bytes.len(),
    {
        if bytes.len() == 0 {
            Seq::empty()
        } else {
            let earlier = self.records(bytes.drop_last());
            match self.run(bytes.drop_last()).emits(bytes.last()) {
                Some(record) => earlier.push(record),
                None => earlier,
            }
        }
    }

    /// The record that the end of the stream completes: the bytes after the
    /// last line feed as they stand, where there are any and the line is not
    /// being skipped.
    pub open spec fn last_record(self) -> Option<Seq<u8>> {
        if !self.discarding && self.pending.len() > 0 {
            Some(self.pending)
        } else {
            None
        }
    }
}

/// Cuts a byte stream into records, whatever the chunks it arrives in.
pub struct LineAssembler {
    pending: Vec<u8>,
    discarding: bool,
}

impl View for LineAssembler {
    type V = FramerState;

    closed spec fn view(&self) -> FramerState {
        FramerState { pending: self.pending@, discarding: self.discarding }
    }
}

impl LineAssembler {
    /// Holds of every assembler: its state is well-formed.
    #[verifier::type_invariant]
    pub open spec fn well_formed(&self) -> bool {
        self@.wf()
    }

    /// An assembler at the start of a stream.
    pub fn new() -> (a: LineAssembler)
        ensures
            a@ == FramerState::initial(),
    {
        LineAssembler { pending: Vec::new(), discarding: false }
    }

    /// Takes the next chunk of the stream and returns the records that it
    /// completes.
    pub fn push(&mut self, chunk: &[u8]) -> (records: Vec<Vec<u8>>)
        ensures
            final(self)@ == old(self)@.run(chunk@),
            final(self)@.wf(),
            byte_lines(records@) == old(self)@.records(chunk@),
    {
        proof {
            use_type_invariant(&*self);
        }
        let ghost start = self@;
        // The state is worked on outside `self`, which stays well-formed at
        // every step that way.
        let mut pending: Vec<u8> = Vec::new();
        core::mem::swap(&mut self.pending, &mut pending);
        let mut discarding = self.discarding;
        self.discarding = false;
        let mut records: Vec<Vec<u8>> = Vec::new();
        let mut i: usize = 0;
        while i < chunk.len()
            invariant
                i <= chunk@.len(),
                start.wf(),
                (FramerState { pending: pending@, discarding }) == start.run(chunk@.take(i as int)),
                (FramerState { pending: pending@, discarding }).wf(),
                byte_lines(records@) == start.records(chunk@.take(i as int)),
            decreases chunk@.len() - i,
        {
            let byte = chunk[i];
            proof {
                let next = chunk@.take(i + 1);
                assert(next.drop_last() =~= chunk@.take(i as int));
                assert(next.last() == byte);
            }
            let ghost before = byte_lines(records@);
            if byte == LINE_FEED {
                if !discarding {
                    let mut line: Vec<u8> = Vec::new();
                    core::mem::swap(&mut pending, &mut line);
                    let n = line.len();
                    if n > 0 && line[n - 1] == CARRIAGE_RETURN {
                        line.pop();
                    }
                    assert(line@ =~= strip_cr(start.run(chunk@.take(i as int)).pending));
                    records.push(line);
                    assert(byte_lines(records@) =~= before.push(line@));
                } else {
                    assert(byte_lines(records@) =~= before);
                }
                discarding = false;
                assert(pending@ =~= Seq::<u8>::empty());
            } else if !discarding {
                if pending.len() >= MAX_LINE_LEN {
                    pending.clear();
                    discarding = true;
                } else {
                    pending.push(byte);
                }
            }
            i += 1;
        }
        assert(chunk@.take(chunk@.len() as int) =~= chunk@);
        core::mem::swap(&mut self.pending, &mut pending);
        self.discarding = discarding;
        records
    }

    /// Ends the stream: returns the record that the end completes, and is
    /// ready for another stream.
    pub fn finish(&mut self) -> (last: Option<Vec<u8>>)
        ensures
            final(self)@ == FramerState::initial(),
            match last {
                Some(record) => old(self)@.last_record() == Some(record@),
                None => old(self)@.last_record().is_none(),
            },
    {
        proof {
            use_type_invariant(&*self);
        }
        let mut line: Vec<u8> = Vec::new();
        core::mem::swap(&mut self.pending, &mut line);
        let skipped = self.discarding;
        self.discarding = false;
        if !skipped && line.len() > 0 {
            Some(line)
        } else {
            None
        }
    }
}

} // verus!
