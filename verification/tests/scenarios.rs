use bot_dashboard::connection::ingest;
use bot_dashboard::model::{ViewModel, CHAT_LOG_MAX};

fn fed(stream: &[u8]) -> ViewModel {
    let mut model = ViewModel::new();
    ingest(&mut model, stream);
    model
}

#[test]
fn single_chat_line() {
    let model = fed(b"CHAT:hello\n");
    assert_eq!(model.chat_log(), &vec!["hello".to_string()]);
    assert_eq!(model.stats(), "");
    assert_eq!(model.llm_output(), "");
}

#[test]
fn stats_and_llm_lines() {
    let model = fed(b"STATS:viewers=3\nLLM:hi there\n");
    assert_eq!(model.stats(), "viewers=3");
    assert_eq!(model.llm_output(), "hi there");
    assert!(model.chat_log().is_empty());
}

#[test]
fn transcript_keeps_the_last_hundred() {
    let mut stream: Vec<u8> = Vec::new();
    for i in 0..105 {
        stream.extend_from_slice(format!("CHAT:m{}\n", i).as_bytes());
    }
    let model = fed(&stream);
    assert_eq!(model.chat_log().len(), 100);
    assert_eq!(model.chat_log().len(), CHAT_LOG_MAX);
    assert_eq!(model.chat_log()[0], "m5");
    assert_eq!(model.chat_log()[99], "m104");
    for i in 0..100 {
        assert_eq!(model.chat_log()[i], format!("m{}", i + 5));
    }
}

#[test]
fn unknown_tag_is_ignored() {
    let model = fed(b"PING:x\nCHAT:ok\n");
    assert_eq!(model.chat_log(), &vec!["ok".to_string()]);
    assert_eq!(model.stats(), "");
    assert_eq!(model.llm_output(), "");
}

#[test]
fn empty_stats_payload_overwrites() {
    let model = fed(b"STATS:\n");
    assert_eq!(model.stats(), "");
    let model = fed(b"STATS:viewers=3\nSTATS:\n");
    assert_eq!(model.stats(), "");
}

#[test]
fn two_clients_in_every_order() {
    let a: [&[u8]; 2] = [b"CHAT:a1\n", b"CHAT:a2\n"];
    let b: &[u8] = b"CHAT:b1\n";
    let orders: [[&[u8]; 3]; 3] = [[a[0], a[1], b], [a[0], b, a[1]], [b, a[0], a[1]]];
    let expected = [["a1", "a2", "b1"], ["a1", "b1", "a2"], ["b1", "a1", "a2"]];
    for (order, want) in orders.iter().zip(expected.iter()) {
        let mut model = ViewModel::new();
        let mut left = bot_dashboard::connection::Connection::new();
        let mut right = bot_dashboard::connection::Connection::new();
        for chunk in order.iter() {
            if chunk[5] == b'a' {
                left.receive(chunk, &mut model);
            } else {
                right.receive(chunk, &mut model);
            }
        }
        let log: Vec<&str> = model.chat_log().iter().map(|s| s.as_str()).collect();
        assert_eq!(log, want.to_vec());
        let first = log.iter().position(|s| *s == "a1");
        let second = log.iter().position(|s| *s == "a2");
        assert!(first.is_some() && second.is_some());
        assert!(first < second);
        assert!(log.contains(&"b1"));
    }
}
