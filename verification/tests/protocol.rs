use bot_dashboard::protocol::{decode, decode_record, Update};

#[test]
fn chat_line_gives_its_payload() {
    assert_eq!(decode("CHAT:hello"), Update::ChatAppend("hello".to_string()));
}

#[test]
fn stats_line_gives_its_payload() {
    assert_eq!(decode("STATS:viewers=3"), Update::StatsReplace("viewers=3".to_string()));
}

#[test]
fn llm_line_gives_its_payload() {
    assert_eq!(decode("LLM:hi there"), Update::LlmReplace("hi there".to_string()));
}

#[test]
fn empty_payloads_are_kept() {
    assert_eq!(decode("CHAT:"), Update::ChatAppend(String::new()));
    assert_eq!(decode("STATS:"), Update::StatsReplace(String::new()));
    assert_eq!(decode("LLM:"), Update::LlmReplace(String::new()));
}

#[test]
fn payload_is_verbatim() {
    assert_eq!(decode("CHAT:  two spaces"), Update::ChatAppend("  two spaces".to_string()));
    assert_eq!(decode("CHAT:CHAT:x"), Update::ChatAppend("CHAT:x".to_string()));
    assert_eq!(decode("STATS:a:b:c "), Update::StatsReplace("a:b:c ".to_string()));
    assert_eq!(decode("LLM:\ttab"), Update::LlmReplace("\ttab".to_string()));
}

#[test]
fn payload_may_hold_any_text() {
    assert_eq!(
        decode("CHAT:gr\u{fc}\u{df}e \u{1F4AC}"),
        Update::ChatAppend("gr\u{fc}\u{df}e \u{1F4AC}".to_string())
    );
    assert_eq!(decode("LLM:\u{65e5}\u{672c}"), Update::LlmReplace("\u{65e5}\u{672c}".to_string()));
}

#[test]
fn tags_are_case_sensitive() {
    assert_eq!(decode("chat:hello"), Update::Ignore);
    assert_eq!(decode("Chat:hello"), Update::Ignore);
    assert_eq!(decode("stats:1"), Update::Ignore);
    assert_eq!(decode("llm:x"), Update::Ignore);
}

#[test]
fn tag_must_stand_at_the_start() {
    assert_eq!(decode(" CHAT:hello"), Update::Ignore);
    assert_eq!(decode("xCHAT:hello"), Update::Ignore);
    assert_eq!(decode("\u{e9}CHAT:hello"), Update::Ignore);
}

#[test]
fn tag_needs_its_colon() {
    assert_eq!(decode("CHAT"), Update::Ignore);
    assert_eq!(decode("CHAT hello"), Update::Ignore);
    assert_eq!(decode("STATS"), Update::Ignore);
    assert_eq!(decode("LLM"), Update::Ignore);
    assert_eq!(decode("STAT:1"), Update::Ignore);
}

#[test]
fn other_lines_are_ignored() {
    assert_eq!(decode(""), Update::Ignore);
    assert_eq!(decode(":"), Update::Ignore);
    assert_eq!(decode("PING:x"), Update::Ignore);
    assert_eq!(decode("C"), Update::Ignore);
    assert_eq!(decode("\u{1F4AC}"), Update::Ignore);
}

#[test]
fn record_of_valid_text_is_decoded() {
    assert_eq!(decode_record(b"CHAT:hello".to_vec()), Update::ChatAppend("hello".to_string()));
    assert_eq!(
        decode_record("STATS:\u{2211}=3".as_bytes().to_vec()),
        Update::StatsReplace("\u{2211}=3".to_string())
    );
    assert_eq!(decode_record(Vec::new()), Update::Ignore);
}

#[test]
fn record_of_malformed_text_is_ignored() {
    assert_eq!(decode_record(vec![b'C', b'H', b'A', b'T', b':', 0xff]), Update::Ignore);
    assert_eq!(decode_record(vec![b'C', b'H', b'A', b'T', b':', 0xc3]), Update::Ignore);
    assert_eq!(decode_record(vec![b'L', b'L', b'M', b':', 0xed, 0xa0, 0x80]), Update::Ignore);
    assert_eq!(decode_record(vec![b'L', b'L', b'M', b':', 0xc0, 0x80]), Update::Ignore);
    assert_eq!(decode_record(vec![0x80]), Update::Ignore);
}

#[test]
fn clone_of_an_update_is_equal() {
    let updates = [
        Update::ChatAppend("a".to_string()),
        Update::StatsReplace("b".to_string()),
        Update::LlmReplace("c".to_string()),
        Update::Ignore,
    ];
    for update in updates.iter() {
        assert_eq!(&update.clone(), update);
    }
}
