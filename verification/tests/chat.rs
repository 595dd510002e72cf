use pick::chat::{
    empty_title, key_action, Action, CallChange, Chat, Connection, Event, Key, KeyAction, Mode,
    Model, Start, Work,
};
use pick::conversation::{Chunks, Entry, RunStatus};
use pick::output::Output;
use pick::session::Status;

fn model(id: &str, context_size: Option<u64>) -> Model {
    Model { id: id.to_owned(), context_size }
}

/// A reply whose context held `tokens`, its last call `last_call`, with
/// no text yet.
fn reply(tokens: Option<u64>, last_call: Option<String>) -> Entry {
    Entry::Assistant { tokens, last_call, content: Chunks::Empty, reasoning: Chunks::Empty }
}

/// A conversation connected to a server that serves `ms`.
fn connected(ms: Vec<Model>) -> Chat {
    let mut chat = Chat::new();
    assert!(chat.step(Event::Connected(Some(ms))).is_empty());
    chat
}

fn runs(actions: &[Action]) -> Vec<String> {
    actions
        .iter()
        .filter_map(|action| match action {
            Action::Run(id) => Some(id.clone()),
            _ => None,
        })
        .collect()
}

fn running(chat: &Chat) -> Vec<String> {
    chat.entries
        .iter()
        .filter_map(|entry| match entry {
            Entry::Tool { id, status: RunStatus::Running } => Some(id.clone()),
            _ => None,
        })
        .collect()
}

#[test]
fn a_connection_takes_the_least_model_listed() {
    let chat = connected(vec![model("qwen", Some(32_000)), model("gemma", None)]);

    assert_eq!(chat.connection, Connection::Connected);
    assert_eq!(chat.model.as_deref(), Some("gemma"));
}

#[test]
fn a_heartbeat_reconnects_a_lost_server_and_saves_the_settled_items() {
    let mut chat = Chat::new();
    chat.step(Event::SessionLoaded(Some(vec![Entry::User])));
    chat.step(Event::Connected(None));
    assert_eq!(chat.connection, Connection::Disconnected);

    chat.entries.push(Entry::User);
    let actions = chat.step(Event::Heartbeat);

    assert_eq!(chat.connection, Connection::Connecting);
    assert!(matches!(actions[0], Action::Connect));
    assert!(matches!(actions[1], Action::Save { from: 1, count: 1 }));

    chat.step(Event::SessionSaved(Some(2)));
    assert_eq!(chat.last_saved, 2);
}

#[test]
fn a_message_starts_a_reply_when_nothing_is_under_way() {
    let mut chat = connected(vec![model("m", Some(100_000))]);

    let actions = chat.step(Event::Send);
    assert!(matches!(actions[..], [Action::Work, Action::SnapToEnd]));

    assert_eq!(chat.work(0), Some(Start::Reply));
    assert!(matches!(chat.entries[..], [Entry::User, Entry::Assistant { tokens: None, .. }]));
    assert!(matches!(chat.tasks[..], [Work::Completion]));

    // Work under way: nothing more starts.
    assert_eq!(chat.work(0), None);
}

#[test]
fn a_call_runs_once_the_next_one_begins() {
    let mut chat = connected(vec![model("m", None)]);
    chat.step(Event::Send);
    chat.work(0);

    let actions = chat.step(Event::ReplyProgressed {
        tokens: Some(1200),
        content: String::new(),
        reasoning: String::new(),
        calls: vec![
            CallChange::Added("a".to_owned()),
            CallChange::Arguments,
            CallChange::Added("b".to_owned()),
            CallChange::Arguments,
        ],
    });
    assert_eq!(runs(&actions), ["a"]);

    // The last call runs once the reply ends.
    let actions = chat.step(Event::ReplyReceived(true));
    assert_eq!(runs(&actions), ["b"]);
    assert!(chat.tasks.is_empty());
    assert!(matches!(
        &chat.entries[1],
        Entry::Assistant { tokens: Some(1200), last_call: Some(id), .. } if id == "b"
    ));
}

#[test]
fn a_finished_tool_resumes_the_work_when_it_was_the_last() {
    let mut chat = connected(vec![model("m", None)]);
    chat.step(Event::Send);
    chat.work(0);
    chat.step(Event::ReplyReceived(true));

    assert!(chat.run("a".to_owned(), true));
    assert!(chat.run("b".to_owned(), true));
    assert!(!chat.run("c".to_owned(), false));
    assert_eq!(running(&chat), ["a", "b"]);

    let mut output = Output::new();
    output.push("done".to_owned());
    assert!(chat.step(Event::ToolFinished("a".to_owned(), Ok(output))).is_empty());
    let actions = chat.step(Event::ToolFinished("b".to_owned(), Err("boom".to_owned())));
    assert!(matches!(actions[..], [Action::Work, Action::RepositoryStatus]));
    assert!(running(&chat).is_empty());

    // Each run takes how it ended; the invalid one stays invalid.
    assert!(matches!(
        &chat.entries[2],
        Entry::Tool { status: RunStatus::Ended(Status::Success { output }), .. }
            if output.all() == ["done"]
    ));
    assert!(matches!(
        &chat.entries[3],
        Entry::Tool { status: RunStatus::Ended(Status::Error { output }), .. } if output == "boom"
    ));
    assert!(matches!(&chat.entries[4], Entry::Tool { status: RunStatus::Ended(Status::Invalid), .. }));

    // A run that ended already stays as it is; an unknown call changes
    // nothing.
    assert!(chat.step(Event::ToolFinished("a".to_owned(), Err("late".to_owned()))).is_empty());
    assert!(matches!(
        &chat.entries[2],
        Entry::Tool { status: RunStatus::Ended(Status::Success { .. }), .. }
    ));
    assert!(chat.step(Event::ToolFinished("z".to_owned(), Ok(Output::new()))).is_empty());
}

#[test]
fn an_abort_stops_the_runs_and_drops_the_unfinished_compaction() {
    let mut chat = connected(vec![model("m", None)]);
    chat.step(Event::SessionLoaded(Some(vec![
        Entry::User,
        reply(Some(10), Some("a".to_owned())),
    ])));
    chat.run("a".to_owned(), true);
    chat.entries.push(Entry::Compaction { to: 1, finished: false, tokens: None });
    chat.tasks.push(Work::Compaction);

    chat.step(Event::Abort);

    assert!(chat.tasks.is_empty());
    assert!(running(&chat).is_empty());
    assert_eq!(chat.entries.len(), 3);
    assert!(matches!(
        &chat.entries[2],
        Entry::Tool { id, status: RunStatus::Ended(Status::Aborted) } if id == "a"
    ));
}

#[test]
fn a_message_while_busy_aborts_and_waits() {
    let mut chat = connected(vec![model("m", None)]);
    chat.step(Event::Send);
    chat.work(0);

    let actions = chat.step(Event::Send);
    assert!(matches!(actions[..], [Action::WorkAfterPause, Action::SnapToEnd]));
    assert!(chat.tasks.is_empty());
    assert_eq!(chat.entries.len(), 3);
}

#[test]
fn a_full_context_is_compacted_before_the_next_reply() {
    let mut chat = connected(vec![model("m", Some(16_000))]);
    chat.step(Event::SessionLoaded(Some(vec![
        Entry::User,
        reply(Some(3_000), None),
        Entry::User,
        reply(Some(15_000), None),
    ])));

    // 1,000 tokens left, under the 4,000 a compaction needs: the items up
    // to the reply that keeps a fifth of the context after it are cut.
    assert_eq!(chat.work(3_000), Some(Start::Compaction { to: 2 }));
    assert!(matches!(chat.tasks[..], [Work::Compaction]));

    chat.step(Event::CompactionProgressed { tokens: Some(15_400) });
    let actions = chat.step(Event::CompactionReceived(true));
    assert!(matches!(actions[..], [Action::Work]));
    assert!(matches!(
        chat.entries[4],
        Entry::Compaction { to: 2, finished: true, tokens: Some(0) }
    ));
    assert!(chat.tasks.is_empty());
}

#[test]
fn a_review_switches_the_view_and_sends_itself() {
    let mut chat = connected(vec![model("m", None)]);

    assert!(matches!(chat.step(Event::ToggleReview)[..], [Action::RepositoryDiff]));
    assert_eq!(chat.mode, Mode::Review);

    let actions = chat.step(Event::Reviewed);
    assert_eq!(chat.mode, Mode::Chat);
    assert!(matches!(actions[..], [Action::SnapToEnd, Action::Work]));
    assert!(matches!(chat.entries[..], [Entry::Review]));

    chat.step(Event::ToggleReview);
    assert!(matches!(chat.step(Event::ToggleReview)[..], [Action::SnapToEnd]));
    assert_eq!(chat.mode, Mode::Chat);
}

#[test]
fn escape_aborts_and_enter_sends() {
    assert_eq!(key_action(Key::Escape, false, false), KeyAction::Abort);
    assert_eq!(key_action(Key::Escape, true, true), KeyAction::Abort);
    assert_eq!(key_action(Key::Enter, true, false), KeyAction::Send);
    assert_eq!(key_action(Key::Enter, true, true), KeyAction::Edit);
    assert_eq!(key_action(Key::Other, true, false), KeyAction::Edit);
    assert_eq!(key_action(Key::Enter, false, false), KeyAction::Ignore);
    assert_eq!(key_action(Key::Other, false, true), KeyAction::Ignore);
}

#[test]
fn the_empty_title_changes_every_six_heartbeats() {
    assert_eq!(empty_title(0), "Ready when you are.");
    assert_eq!(empty_title(5), "Ready when you are.");
    assert_eq!(empty_title(6), "What are we building?");
    assert_eq!(empty_title(11), "What are we building?");
    assert_eq!(empty_title(12), "Just say the word.");
    assert_eq!(empty_title(18), "Ready when you are.");
}

#[test]
fn each_chunk_extends_the_reply() {
    let mut chat = connected(vec![model("m", None)]);
    chat.step(Event::Send);
    chat.work(0);

    for (content, reasoning) in [("", "Let me"), ("", " think."), ("Hello", ""), (", world", "")] {
        chat.step(Event::ReplyProgressed {
            tokens: None,
            content: content.to_owned(),
            reasoning: reasoning.to_owned(),
            calls: vec![],
        });
    }
    let Entry::Assistant { content, reasoning, .. } = &chat.entries[1] else {
        panic!("a reply")
    };
    assert_eq!(content.text(), "Hello, world");
    assert_eq!(reasoning.text(), "Let me think.");
}
