//! What holds of the framing whatever chunks a stream arrives in.

use crate::connection::{record_updates, stream_updates};
use crate::framing::{strip_cr, FramerState, CARRIAGE_RETURN, LINE_FEED, MAX_LINE_LEN};
use crate::laws::{
    is_interleaving, lemma_interleaving_extend_left, lemma_interleaving_extend_right,
};
use crate::protocol::{decode_spec, record_update, UpdateView};
use crate::text::{lemma_low_byte_is_char, lemma_low_last_byte_is_last_char};
use vstd::prelude::*;
use vstd::utf8::{encode_utf8, encode_utf8_decode_utf8, encode_utf8_valid_utf8};

verus! {

/// `line` holds no line feed and is no longer than a line may be.
pub open spec fn is_record_body(line: Seq<u8>) -> bool {
    &&& line.len() <= MAX_LINE_LEN
    &&& forall|i: int| 0 <= i < line.len() ==> #[trigger] line[i] != LINE_FEED
}

/// The bytes that carry `records` on the wire: each followed by a line feed.
pub open spec fn wire(records: Seq<Seq<u8>>) -> Seq<u8>
    decreases records.len(),
{
    if records.len() == 0 {
        Seq::empty()
    } else {
        wire(records.drop_last()) + records.last().push(LINE_FEED)
    }
}

/// A well-formed state stays well-formed, whatever bytes follow.
pub proof fn lemma_run_wf(state: FramerState, bytes: Seq<u8>)
    requires
        state.wf(),
    ensures
        state.run(bytes).wf(),
    decreases bytes.len(),
{
    if bytes.len() > 0 {
        lemma_run_wf(state, bytes.drop_last());
    }
}

/// The chunks in which a stream arrives make no difference: two chunks one
/// after the other lead to the state, and complete the records, that the two
/// joined do.
pub proof fn lemma_chunks_join(state: FramerState, first: Seq<u8>, second: Seq<u8>)
    ensures
        state.run(first + second) == state.run(first).run(second),
        state.records(first + second) == state.records(first) + state.run(first).records(second),
    decreases second.len(),
{
    if second.len() == 0 {
        assert(first + second =~= first);
        assert(state.records(first) + state.run(first).records(second) =~= state.records(first));
    } else {
        lemma_chunks_join(state, first, second.drop_last());
        assert((first + second).drop_last() =~= first + second.drop_last());
        assert(state.records(first + second) =~= state.records(first) + state.run(first).records(
            second,
        ));
    }
}

/// While a line is within its limit and no line feed has come, its bytes
/// are held and no record is complete.
pub proof fn lemma_line_held(line: Seq<u8>)
    requires
        is_record_body(line),
    ensures
        FramerState::initial().run(line) == (FramerState { pending: line, discarding: false }),
        FramerState::initial().records(line) == Seq::<Seq<u8>>::empty(),
    decreases line.len(),
{
    if line.len() == 0 {
        assert(line =~= Seq::<u8>::empty());
    } else {
        lemma_line_held(line.drop_last());
        assert(line.drop_last().push(line.last()) =~= line);
    }
}

/// A line within its limit, followed by a line feed, is one record: the
/// line without a trailing carriage return. The assembler is then back at
/// its start.
pub proof fn lemma_line_is_record(line: Seq<u8>)
    requires
        is_record_body(line),
    ensures
        FramerState::initial().run(line.push(LINE_FEED)) == FramerState::initial(),
        FramerState::initial().records(line.push(LINE_FEED)) == seq![strip_cr(line)],
{
    lemma_line_held(line);
    let bytes = line.push(LINE_FEED);
    assert(bytes.drop_last() =~= line);
    assert(FramerState::initial().records(bytes) =~= seq![strip_cr(line)]);
}

/// Once a line is over its limit, nothing is held of it.
pub proof fn lemma_long_line_skipped(line: Seq<u8>)
    requires
        line.len() > MAX_LINE_LEN,
        forall|i: int| 0 <= i < line.len() ==> #[trigger] line[i] != LINE_FEED,
    ensures
        FramerState::initial().run(line) == (FramerState {
            pending: Seq::empty(),
            discarding: true,
        }),
        FramerState::initial().records(line) == Seq::<Seq<u8>>::empty(),
    decreases line.len(),
{
    let shorter = line.drop_last();
    if shorter.len() > MAX_LINE_LEN {
        lemma_long_line_skipped(shorter);
    } else {
        lemma_line_held(shorter);
    }
}

/// A line over its limit is dropped whole: its line feed completes no
/// record, and the assembler is then back at its start.
pub proof fn lemma_long_line_dropped(line: Seq<u8>)
    requires
        line.len() > MAX_LINE_LEN,
        forall|i: int| 0 <= i < line.len() ==> #[trigger] line[i] != LINE_FEED,
    ensures
        FramerState::initial().run(line.push(LINE_FEED)) == FramerState::initial(),
        FramerState::initial().records(line.push(LINE_FEED)) == Seq::<Seq<u8>>::empty(),
{
    lemma_long_line_skipped(line);
    assert(line.push(LINE_FEED).drop_last() =~= line);
}

/// Lines within their limit, each followed by a line feed, come out as
/// they went in, in order, each without a trailing carriage return.
pub proof fn lemma_wire_round_trip(records: Seq<Seq<u8>>)
    requires
        forall|i: int| 0 <= i < records.len() ==> is_record_body(#[trigger] records[i]),
    ensures
        FramerState::initial().run(wire(records)) == FramerState::initial(),
        FramerState::initial().records(wire(records)) == records.map_values(
            |line: Seq<u8>| strip_cr(line),
        ),
    decreases records.len(),
{
    let start = FramerState::initial();
    let f = |line: Seq<u8>| strip_cr(line);
    if records.len() == 0 {
        assert(start.records(wire(records)) =~= records.map_values(f));
    } else {
        let earlier = records.drop_last();
        let line = records.last();
        lemma_wire_round_trip(earlier);
        lemma_chunks_join(start, wire(earlier), line.push(LINE_FEED));
        lemma_line_is_record(line);
        assert(earlier.map_values(f) + seq![strip_cr(line)] =~= records.map_values(f));
    }
}

/// The record that is the encoding of a text stands for the update that the
/// text stands for.
pub proof fn lemma_record_of_text(line: Seq<char>)
    ensures
        record_update(encode_utf8(line)) == decode_spec(line),
{
    encode_utf8_valid_utf8(line);
    encode_utf8_decode_utf8(line);
}

/// A stream of lines within their limit, each followed by a line feed,
/// stands for the updates of these lines, one for each, in order.
pub proof fn lemma_stream_of_lines(records: Seq<Seq<u8>>)
    requires
        forall|i: int| 0 <= i < records.len() ==> is_record_body(#[trigger] records[i]),
    ensures
        stream_updates(wire(records)) == records.map_values(
            |line: Seq<u8>| record_update(strip_cr(line)),
        ),
{
    lemma_wire_round_trip(records);
    let stripped = records.map_values(|line: Seq<u8>| strip_cr(line));
    assert(record_updates(stripped) =~= records.map_values(
        |line: Seq<u8>| record_update(strip_cr(line)),
    ));
}

/// `line` can travel as one record and come out as it went in: it holds no
/// line feed, does not end in a carriage return, and its encoding is no
/// longer than a line may be.
pub open spec fn is_plain_line(line: Seq<char>) -> bool {
    &&& forall|i: int| 0 <= i < line.len() ==> #[trigger] line[i] != '\n'
    &&& !(line.len() > 0 && line.last() == '\r')
    &&& encode_utf8(line).len() <= MAX_LINE_LEN
}

/// The bytes that carry the texts of `lines` on the wire: the encoding of
/// each, followed by a line feed.
pub open spec fn text_wire(lines: Seq<Seq<char>>) -> Seq<u8> {
    wire(lines.map_values(|line: Seq<char>| encode_utf8(line)))
}

/// The encoding of a plain line is a record body that ends in no carriage
/// return.
pub proof fn lemma_plain_line_bytes(line: Seq<char>)
    requires
        is_plain_line(line),
    ensures
        is_record_body(encode_utf8(line)),
        strip_cr(encode_utf8(line)) == encode_utf8(line),
{
    let bytes = encode_utf8(line);
    assert forall|j: int| 0 <= j < bytes.len() implies #[trigger] bytes[j] != LINE_FEED by {
        if bytes[j] == LINE_FEED {
            lemma_low_byte_is_char(line, j);
            let i = choose|i: int|
                0 <= i < line.len() && (#[trigger] line[i]) as u32 == encode_utf8(line)[j];
            lemma_char_code(line[i], '\n');
        }
    }
    if bytes.len() > 0 && bytes.last() == CARRIAGE_RETURN {
        lemma_low_last_byte_is_last_char(line);
        lemma_char_code(line.last(), '\r');
    }
}

proof fn lemma_char_code(a: char, b: char)
    requires
        a as u32 == b as u32,
    ensures
        a == b,
{
}

/// A stream of plain lines, each followed by a line feed, stands for the
/// updates of these lines, one for each, in order.
pub proof fn lemma_stream_of_text(lines: Seq<Seq<char>>)
    requires
        forall|i: int| 0 <= i < lines.len() ==> is_plain_line(#[trigger] lines[i]),
    ensures
        stream_updates(text_wire(lines)) == lines.map_values(|line: Seq<char>| decode_spec(line)),
{
    let records = lines.map_values(|line: Seq<char>| encode_utf8(line));
    assert forall|i: int| 0 <= i < records.len() implies is_record_body(
        #[trigger] records[i],
    ) by {
        lemma_plain_line_bytes(lines[i]);
    }
    lemma_stream_of_lines(records);
    let updates = records.map_values(|line: Seq<u8>| record_update(strip_cr(line)));
    let decoded = lines.map_values(|line: Seq<char>| decode_spec(line));
    assert forall|i: int| 0 <= i < lines.len() implies updates[i] == decoded[i] by {
        lemma_plain_line_bytes(lines[i]);
        lemma_record_of_text(lines[i]);
    }
    assert(updates =~= decoded);
}

/// One chunk of bytes that arrives on one of two connections.
pub ghost struct Arrival {
    /// The chunk came on the left connection, not on the right one.
    pub on_left: bool,
    /// The bytes of the chunk.
    pub chunk: Seq<u8>,
}

/// All the bytes that one of the two connections has sent in `arrivals`.
pub open spec fn bytes_sent(arrivals: Seq<Arrival>, on_left: bool) -> Seq<u8>
    decreases arrivals.len(),
{
    if arrivals.len() == 0 {
        Seq::empty()
    } else if arrivals.last().on_left == on_left {
        bytes_sent(arrivals.drop_last(), on_left) + arrivals.last().chunk
    } else {
        bytes_sent(arrivals.drop_last(), on_left)
    }
}

/// The updates that the chunks of `arrivals` lead to, in the order in which
/// they are applied where each chunk is taken in as it arrives, by the
/// connection that it came on.
pub open spec fn updates_served(arrivals: Seq<Arrival>) -> Seq<UpdateView>
    decreases arrivals.len(),
{
    if arrivals.len() == 0 {
        Seq::empty()
    } else {
        let earlier = arrivals.drop_last();
        let last = arrivals.last();
        let connection = FramerState::initial().run(bytes_sent(earlier, last.on_left));
        updates_served(earlier) + record_updates(connection.records(last.chunk))
    }
}

/// The updates of all the records that a connection has completed.
pub open spec fn updates_sent(arrivals: Seq<Arrival>, on_left: bool) -> Seq<UpdateView> {
    record_updates(FramerState::initial().records(bytes_sent(arrivals, on_left)))
}

/// However the chunks of two connections interleave, the updates are
/// applied in an order that keeps the order of each connection: what is
/// applied is an interleaving of what the one and what the other sent.
pub proof fn lemma_connections_interleave(arrivals: Seq<Arrival>)
    ensures
        is_interleaving(
            updates_served(arrivals),
            updates_sent(arrivals, true),
            updates_sent(arrivals, false),
        ),
    decreases arrivals.len(),
{
    let start = FramerState::initial();
    if arrivals.len() > 0 {
        let earlier = arrivals.drop_last();
        let last = arrivals.last();
        let sent = bytes_sent(earlier, last.on_left);
        let more = record_updates(start.run(sent).records(last.chunk));
        lemma_connections_interleave(earlier);
        lemma_chunks_join(start, sent, last.chunk);
        assert(record_updates(start.records(sent + last.chunk)) =~= record_updates(
            start.records(sent),
        ) + more);
        if last.on_left {
            lemma_interleaving_extend_left(
                updates_served(earlier),
                updates_sent(earlier, true),
                updates_sent(earlier, false),
                more,
            );
        } else {
            lemma_interleaving_extend_right(
                updates_served(earlier),
                updates_sent(earlier, true),
                updates_sent(earlier, false),
                more,
            );
        }
    }
}

} // verus!
