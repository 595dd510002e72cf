use pick::output::Output;
use pick::session::{
    Call, Compaction, Duration, Event, Frame, Item, Reply, Session, Status, Time, ToolRun, Version,
};

fn at(secs: u64) -> Time {
    Time {
        since_epoch: Duration { secs, nanos: 0 },
    }
}

fn call_a() -> Call {
    Call {
        id: "call_a".to_owned(),
        name: "bash".to_owned(),
        arguments: r#"{"command": "cargo build"}"#.to_owned(),
    }
}

fn call_b() -> Call {
    Call {
        id: "call_b".to_owned(),
        name: "read".to_owned(),
        arguments: r#"{"path": "src/main.rs"}"#.to_owned(),
    }
}

fn reply(content: &str, calls: Vec<Call>) -> Reply {
    Reply {
        prompt: Default::default(),
        reasoning: String::new(),
        content: content.to_owned(),
        tool_calls: calls,
        timings: None,
    }
}

fn assistant(calls: Vec<Call>) -> Item {
    Item::Assistant(reply("running the build", calls))
}

#[test]
fn interrupted_tools_are_answered_with_aborted() {
    let mut session = Session {
        version: Version::current(),
        started_at: at(1_736_000_010),
        items: vec![
            Item::User("build it".to_owned()),
            assistant(vec![call_a(), call_b()]),
        ],
    };

    session.abort_interrupted_tools();

    let [Item::User(_), Item::Assistant(_), Item::Tool(first), Item::Tool(second)] =
        session.items.as_slice()
    else {
        panic!("expected the calls to be answered");
    };

    assert_eq!(first.call.id, "call_a");
    assert_eq!(first.call.name, "bash");
    assert_eq!(first.call.arguments, r#"{"command": "cargo build"}"#);
    assert!(matches!(first.status, Status::Aborted));

    assert_eq!(second.call.id, "call_b");
    assert!(matches!(second.status, Status::Aborted));
}

#[test]
fn answered_calls_are_left_alone() {
    let mut session = Session {
        version: Version::current(),
        started_at: at(1_736_000_011),
        items: vec![
            Item::User("build it".to_owned()),
            assistant(vec![call_a()]),
            Item::Tool(ToolRun {
                call: call_a(),
                status: Status::Success {
                    output: Output::new(),
                },
            }),
        ],
    };

    session.abort_interrupted_tools();

    assert_eq!(session.items.len(), 3);
}

#[test]
fn answering_does_not_shift_a_compaction() {
    let mut session = Session {
        version: Version::current(),
        started_at: at(1_736_000_012),
        items: vec![
            Item::User("earlier".to_owned()),
            assistant(vec![]),
            Item::Compaction(Compaction {
                reply: reply("summary", vec![]),
                tokens: 1_000,
                reasoning_tokens: 0,
                to: 1,
            }),
            Item::User("build it".to_owned()),
            assistant(vec![call_a()]),
        ],
    };

    session.abort_interrupted_tools();

    let Item::Compaction(compaction) = &session.items[2] else {
        panic!("expected the compaction at index 2");
    };

    assert_eq!(compaction.to, 1);
    assert_eq!(session.items.len(), 6);
    assert!(matches!(
        session.items.last(),
        Some(Item::Tool(tool)) if matches!(tool.status, Status::Aborted)
    ));
}

#[test]
fn a_load_answers_the_calls_a_crash_left_open() {
    let frames = vec![
        Frame {
            event: Event::Created(Version::current()),
            at: at(7),
        },
        Frame {
            event: Event::ItemAdded(Item::User("build it".to_owned())),
            at: at(8),
        },
        Frame {
            event: Event::ItemAdded(assistant(vec![call_a(), call_b()])),
            at: at(8),
        },
        Frame {
            event: Event::ItemAdded(Item::Tool(ToolRun {
                call: call_a(),
                status: Status::Success {
                    output: Output::new(),
                },
            })),
            at: at(8),
        },
    ];

    let session = Session::replay(Version::new("0.0.0".to_owned()), at(99), frames);

    assert_eq!(session.started_at, at(7));
    assert_eq!(session.version.as_str(), Version::current().as_str());
    let [Item::User(_), Item::Assistant(_), Item::Tool(settled), Item::Tool(answered)] =
        session.items.as_slice()
    else {
        panic!("expected the crash's call to be answered");
    };

    assert!(matches!(settled.status, Status::Success { .. }));
    assert_eq!(settled.call.id, "call_a");
    assert_eq!(answered.call.id, "call_b");
    assert!(matches!(answered.status, Status::Aborted));
}

#[test]
fn a_missing_file_loads_an_empty_session() {
    let session = Session::replay(Version::current(), at(5), Vec::new());
    assert!(session.items.is_empty());
    assert_eq!(session.started_at, at(5));
}

#[test]
fn a_new_session_is_created_before_its_first_item() {
    let frames = Session::frames(
        false,
        vec![Event::ItemAdded(Item::User("hello".to_owned()))],
        at(3),
    );
    assert_eq!(frames.len(), 2);
    assert!(matches!(&frames[0].event, Event::Created(v) if v.as_str() == "0.1.0"));
    assert!(matches!(&frames[1].event, Event::ItemAdded(Item::User(c)) if c == "hello"));
    assert!(frames.iter().all(|f| f.at == at(3)));

    let frames = Session::frames(true, vec![Event::ItemAdded(Item::User("x".to_owned()))], at(4));
    assert_eq!(frames.len(), 1);
}

#[test]
fn a_session_loads_what_it_appends() {
    let mut log = Session::frames(
        false,
        vec![
            Event::ItemAdded(Item::User("hello".to_owned())),
            Event::ItemAdded(Item::Assistant(reply("hi there", vec![]))),
        ],
        at(10),
    );
    log.extend(Session::frames(true, vec![Event::ItemAdded(Item::User("bye".to_owned()))], at(20)));

    let session = Session::replay(Version::new("0.0.0".to_owned()), at(99), log);

    assert_eq!(session.version.as_str(), "0.1.0");
    assert_eq!(session.started_at, at(10));
    let [Item::User(first), Item::Assistant(answer), Item::User(last)] = session.items.as_slice() else {
        panic!("three items, not {}", session.items.len());
    };
    assert_eq!(first, "hello");
    assert_eq!(answer.content, "hi there");
    assert_eq!(last, "bye");
}
