use bot_dashboard::connection::{decode_records, ingest, Connection};
use bot_dashboard::framing::{LineAssembler, CARRIAGE_RETURN, LINE_FEED, MAX_LINE_LEN};
use bot_dashboard::model::ViewModel;
use bot_dashboard::protocol::Update;

fn records(chunks: &[&[u8]]) -> Vec<Vec<u8>> {
    let mut assembler = LineAssembler::new();
    let mut out = Vec::new();
    for chunk in chunks.iter() {
        out.extend(assembler.push(chunk));
    }
    out
}

#[test]
fn terminator_bytes() {
    assert_eq!(LINE_FEED, b'\n');
    assert_eq!(CARRIAGE_RETURN, b'\r');
    assert_eq!(MAX_LINE_LEN, 64 * 1024);
}

#[test]
fn lines_are_cut_at_line_feeds() {
    assert_eq!(records(&[b"a\nbc\n\nd"]), vec![b"a".to_vec(), b"bc".to_vec(), Vec::new()]);
}

#[test]
fn chunking_makes_no_difference() {
    let stream: &[u8] = b"CHAT:one\r\nSTATS:two\nLLM:three\n\nrest";
    let whole = records(&[stream]);
    assert_eq!(
        whole,
        vec![b"CHAT:one".to_vec(), b"STATS:two".to_vec(), b"LLM:three".to_vec(), Vec::new()]
    );
    for cut in 0..=stream.len() {
        assert_eq!(records(&[&stream[..cut], &stream[cut..]]), whole);
    }
    let bytes: Vec<&[u8]> = stream.chunks(1).collect();
    assert_eq!(records(&bytes), whole);
}

#[test]
fn one_carriage_return_is_stripped() {
    assert_eq!(records(&[b"a\r\n"]), vec![b"a".to_vec()]);
    assert_eq!(records(&[b"a\r\r\n"]), vec![b"a\r".to_vec()]);
    assert_eq!(records(&[b"\r\n"]), vec![Vec::<u8>::new()]);
    assert_eq!(records(&[b"a\rb\n"]), vec![b"a\rb".to_vec()]);
    assert_eq!(records(&[b"a\r", b"\n"]), vec![b"a".to_vec()]);
}

#[test]
fn unfinished_line_waits_for_its_end() {
    let mut assembler = LineAssembler::new();
    assert!(assembler.push(b"CHAT:par").is_empty());
    assert!(assembler.push(b"").is_empty());
    assert!(assembler.push(b"tial").is_empty());
    assert_eq!(assembler.push(b"\nnext"), vec![b"CHAT:partial".to_vec()]);
    assert_eq!(assembler.finish(), Some(b"next".to_vec()));
    assert_eq!(assembler.finish(), None);
    assert_eq!(assembler.push(b"again\n"), vec![b"again".to_vec()]);
}

#[test]
fn end_of_stream_keeps_a_carriage_return() {
    let mut assembler = LineAssembler::new();
    assert!(assembler.push(b"tail\r").is_empty());
    assert_eq!(assembler.finish(), Some(b"tail\r".to_vec()));
}

#[test]
fn end_of_stream_after_a_line_feed_gives_nothing() {
    let mut assembler = LineAssembler::new();
    assert_eq!(assembler.push(b"a\n"), vec![b"a".to_vec()]);
    assert_eq!(assembler.finish(), None);
    let mut assembler = LineAssembler::new();
    assert_eq!(assembler.finish(), None);
}

#[test]
fn line_at_the_limit_is_kept() {
    let mut stream = vec![b'x'; MAX_LINE_LEN];
    stream.push(b'\n');
    let out = records(&[&stream]);
    assert_eq!(out.len(), 1);
    assert_eq!(out[0].len(), MAX_LINE_LEN);
    let mut stream = vec![b'x'; MAX_LINE_LEN - 1];
    stream.extend_from_slice(b"\r\n");
    let out = records(&[&stream]);
    assert_eq!(out.len(), 1);
    assert_eq!(out[0].len(), MAX_LINE_LEN - 1);
}

#[test]
fn line_over_the_limit_is_dropped() {
    let mut stream = vec![b'x'; MAX_LINE_LEN + 1];
    stream.extend_from_slice(b"\nok\n");
    assert_eq!(records(&[&stream]), vec![b"ok".to_vec()]);
    let mut stream = vec![b'x'; MAX_LINE_LEN];
    stream.extend_from_slice(b"\r\nok\n");
    assert_eq!(records(&[&stream]), vec![b"ok".to_vec()]);
    let mut stream = vec![b'x'; 3 * MAX_LINE_LEN];
    stream.extend_from_slice(b"\nok\n");
    let chunks: Vec<&[u8]> = stream.chunks(1000).collect();
    assert_eq!(records(&chunks), vec![b"ok".to_vec()]);
}

#[test]
fn line_over_the_limit_is_dropped_at_the_end_too() {
    let mut assembler = LineAssembler::new();
    assert!(assembler.push(&vec![b'x'; MAX_LINE_LEN + 1]).is_empty());
    assert_eq!(assembler.finish(), None);
    assert_eq!(assembler.push(b"ok\n"), vec![b"ok".to_vec()]);
}

#[test]
fn records_are_decoded_one_by_one() {
    let updates = decode_records(vec![
        b"CHAT:a".to_vec(),
        vec![b'C', b'H', b'A', b'T', b':', 0xfe],
        b"nothing".to_vec(),
        b"LLM:".to_vec(),
    ]);
    assert_eq!(
        updates,
        vec![
            Update::ChatAppend("a".to_string()),
            Update::Ignore,
            Update::Ignore,
            Update::LlmReplace(String::new()),
        ]
    );
    assert!(decode_records(Vec::new()).is_empty());
}

#[test]
fn connection_turns_bytes_into_updates() {
    let mut connection = Connection::new();
    assert!(connection.updates(b"CHAT:he").is_empty());
    assert_eq!(
        connection.updates(b"llo\r\nSTATS:1\nLLM"),
        vec![Update::ChatAppend("hello".to_string()), Update::StatsReplace("1".to_string())]
    );
    assert_eq!(connection.last_update(), Some(Update::Ignore));
    assert_eq!(connection.last_update(), None);
    assert!(connection.updates(b"LLM:x").is_empty());
    assert_eq!(connection.last_update(), Some(Update::LlmReplace("x".to_string())));
}

#[test]
fn malformed_line_is_dropped_and_the_next_is_read() {
    let mut model = ViewModel::new();
    let mut stream: Vec<u8> = Vec::new();
    stream.extend_from_slice(b"CHAT:before\nCHAT:");
    stream.extend_from_slice(&[0xff, 0xfe]);
    stream.extend_from_slice(b"\nCHAT:after\n");
    ingest(&mut model, &stream);
    assert_eq!(model.chat_log(), &vec!["before".to_string(), "after".to_string()]);
}

#[test]
fn split_character_is_put_together() {
    let text = "CHAT:\u{1F4AC} caf\u{e9}\n".as_bytes();
    for cut in 0..=text.len() {
        let mut model = ViewModel::new();
        let mut connection = Connection::new();
        connection.receive(&text[..cut], &mut model);
        connection.receive(&text[cut..], &mut model);
        connection.close(&mut model);
        assert_eq!(model.chat_log(), &vec!["\u{1F4AC} caf\u{e9}".to_string()]);
    }
}

#[test]
fn last_line_without_line_feed_is_applied_at_the_end() {
    let mut model = ViewModel::new();
    let mut connection = Connection::new();
    connection.receive(b"CHAT:a\nSTATS:open", &mut model);
    assert_eq!(model.stats(), "");
    connection.close(&mut model);
    assert_eq!(model.stats(), "open");
    assert_eq!(model.chat_log(), &vec!["a".to_string()]);
    connection.close(&mut model);
    assert_eq!(model.stats(), "open");
    assert_eq!(model.chat_log().len(), 1);
}

#[test]
fn windows_line_ends_are_tolerated() {
    let mut model = ViewModel::new();
    ingest(&mut model, b"CHAT:hello\r\nSTATS:viewers=3\r\nLLM:\r\n");
    assert_eq!(model.chat_log(), &vec!["hello".to_string()]);
    assert_eq!(model.stats(), "viewers=3");
    assert_eq!(model.llm_output(), "");
}

#[test]
fn empty_stream_changes_nothing() {
    let mut model = ViewModel::new();
    ingest(&mut model, b"CHAT:a\n");
    ingest(&mut model, b"");
    ingest(&mut model, b"\n\n");
    assert_eq!(model.chat_log(), &vec!["a".to_string()]);
}

#[test]
fn producers_connect_at_the_fixed_port() {
    assert_eq!(bot_dashboard::connection::DEFAULT_PORT, 7879);
}
