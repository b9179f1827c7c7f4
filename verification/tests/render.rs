use bot_dashboard::model::ViewModel;
use bot_dashboard::render::{layout, window_title, Frame, Panel};
use bot_dashboard::shared::SharedModel;
use bot_dashboard::protocol::Update;
use bot_dashboard::connection::Connection;

#[test]
fn window_has_its_title() {
    assert_eq!(window_title(), "Twitch Bot Dashboard");
}

#[test]
fn empty_model_has_three_headed_panels() {
    let frame = layout(&ViewModel::new());
    assert_eq!(
        frame,
        Frame {
            heading: "Twitch Bot Dashboard".to_string(),
            chat: Panel { header: "Twitch Chat".to_string(), labels: Vec::new() },
            stats: Panel { header: "Stats".to_string(), labels: vec![String::new()] },
            llm: Panel { header: "LLM Output".to_string(), labels: vec![String::new()] },
        }
    );
}

#[test]
fn frame_shows_every_entry_in_order() {
    let mut model = ViewModel::new();
    model.apply_line("CHAT:one");
    model.apply_line("CHAT:two");
    model.apply_line("STATS:viewers=3");
    model.apply_line("LLM:hi there");
    let frame = layout(&model);
    assert_eq!(frame.chat.labels, vec!["one", "two"]);
    assert_eq!(frame.stats.labels, vec!["viewers=3"]);
    assert_eq!(frame.llm.labels, vec!["hi there"]);
    assert_eq!(model.chat_log().len(), 2);
    assert_eq!(model.stats(), "viewers=3");
}

#[test]
fn shared_model_starts_empty() {
    let shared = SharedModel::new();
    let model = shared.snapshot();
    assert!(model.chat_log().is_empty());
    assert_eq!(model.stats(), "");
    assert_eq!(model.llm_output(), "");
    assert_eq!(shared.frame(), layout(&ViewModel::new()));
}

#[test]
fn shared_model_takes_updates() {
    let shared = SharedModel::new();
    shared.apply(Update::ChatAppend("a".to_string()));
    shared.apply_all(vec![
        Update::StatsReplace("s".to_string()),
        Update::ChatAppend("b".to_string()),
        Update::LlmReplace("l".to_string()),
    ]);
    let model = shared.snapshot();
    assert_eq!(model.chat_log(), &vec!["a".to_string(), "b".to_string()]);
    assert_eq!(model.stats(), "s");
    assert_eq!(model.llm_output(), "l");
    let frame = shared.frame();
    assert_eq!(frame, layout(&model));
    assert_eq!(frame.chat.labels, vec!["a", "b"]);
}

#[test]
fn snapshot_is_not_touched_by_later_updates() {
    let shared = SharedModel::new();
    shared.apply(Update::ChatAppend("a".to_string()));
    let before = shared.snapshot();
    shared.apply(Update::ChatAppend("b".to_string()));
    assert_eq!(before.chat_log().len(), 1);
    assert_eq!(shared.snapshot().chat_log().len(), 2);
}

#[test]
fn shared_model_stays_within_its_bound() {
    let shared = SharedModel::new();
    for i in 0..250 {
        shared.apply(Update::ChatAppend(format!("{}", i)));
        assert!(shared.snapshot().chat_log().len() <= 100);
    }
    let model = shared.snapshot();
    assert_eq!(model.chat_log().len(), 100);
    assert_eq!(model.chat_log()[0], "150");
    assert_eq!(model.chat_log()[99], "249");
}

#[test]
fn two_connections_share_one_model() {
    let shared = SharedModel::new();
    let mut left = Connection::new();
    let mut right = Connection::new();
    shared.receive(&mut left, b"CHAT:a1\nCHAT:");
    shared.receive(&mut right, b"CHAT:b1\nSTATS:from b");
    shared.receive(&mut left, b"a2\n");
    shared.close(&mut right);
    shared.close(&mut left);
    let model = shared.snapshot();
    assert_eq!(
        model.chat_log(),
        &vec!["a1".to_string(), "b1".to_string(), "a2".to_string()]
    );
    assert_eq!(model.stats(), "from b");
}

#[test]
fn shared_model_can_cross_threads() {
    fn crosses<T: Send + Sync>(_: &T) {}
    crosses(&SharedModel::new());
}
