use pick::cli::Arguments;
use pick::output::Output;
use pick::session::{Progress, Status};
use pick::conversation::{compaction_card, prompt_bar};
use pick::conversation::{
    abort_targets, card, choose_model, compaction_budget, compaction_cut, compaction_growth,
    compaction_notice, context_start, reasoning_header, last_compaction, latest_tokens, opener_turn, reply_target,
    settled_count, tool_run, Chunks, Entry, RunStatus,
};

fn args(words: &[&str]) -> Vec<String> {
    words.iter().map(|word| word.to_string()).collect()
}

fn reply(tokens: Option<u64>) -> Entry {
    Entry::Assistant { tokens, last_call: None, content: Chunks::Empty, reasoning: Chunks::Empty }
}

fn tool(id: &str, running: bool) -> Entry {
    let status = if running { RunStatus::Running } else { RunStatus::Ended(Status::Aborted) };
    Entry::Tool { id: id.to_owned(), status }
}

fn compaction(to: usize, finished: bool) -> Entry {
    Entry::Compaction { to, finished, tokens: None }
}

#[test]
fn the_command_line_picks_flags_path_and_prompt() {
    let parsed = Arguments::parse(&args(&["pick", "--resume", "s.jsonl", "fix the bug"]));
    assert_eq!(
        parsed,
        Arguments {
            live: false,
            resume: true,
            resume_path: Some("s.jsonl".to_owned()),
            prompt: Some("fix the bug".to_owned()),
        }
    );

    let parsed = Arguments::parse(&args(&["pick", "--resume", "--we-doin-it-live"]));
    assert!(parsed.live && parsed.resume);
    assert_eq!(parsed.resume_path, None);
    assert_eq!(parsed.prompt, None);

    let parsed = Arguments::parse(&args(&["pick", "hello", "--resume"]));
    assert_eq!(parsed.prompt.as_deref(), Some("hello"));
    assert_eq!(parsed.resume_path, None);

    assert_eq!(Arguments::parse(&args(&[])).prompt, None);
    assert_eq!(Arguments::parse(&args(&["pick"])).prompt, None);
}

#[test]
fn the_context_starts_past_the_last_finished_compaction() {
    let entries = vec![
        Entry::User,
        reply(Some(100)),
        compaction(2, true),
        Entry::User,
        reply(None),
        compaction(5, false),
    ];

    assert_eq!(last_compaction(&entries), Some(2));
    assert_eq!(context_start(&entries), 2);
    assert_eq!(context_start(&vec![Entry::User]), 0);
}

#[test]
fn the_context_tokens_are_the_last_reported() {
    let entries = vec![Entry::User, reply(Some(100)), tool("1", false), reply(None)];
    assert_eq!(latest_tokens(&entries), Some(100));

    // Before the context, nothing counts.
    let entries = vec![reply(Some(100)), compaction(1, true), Entry::User];
    assert_eq!(latest_tokens(&entries), None);

    let entries = vec![reply(Some(100)), Entry::Compaction { to: 1, finished: true, tokens: Some(7) }];
    assert_eq!(latest_tokens(&entries), Some(7));
}

#[test]
fn the_compaction_budget_is_an_eighth_within_bounds() {
    assert_eq!(compaction_budget(8_000), 4_000);
    assert_eq!(compaction_budget(64_000), 8_000);
    assert_eq!(compaction_budget(1_000_000), 10_000);
}

#[test]
fn a_compaction_cuts_after_the_tools_of_the_last_reply_that_keeps_enough() {
    let entries = vec![
        Entry::User,
        reply(Some(10_000)),
        tool("1", false),
        tool("2", false),
        Entry::User,
        reply(Some(50_000)),
        tool("3", false),
        reply(Some(60_000)),
    ];

    // Plenty of room: no compaction.
    assert_eq!(compaction_cut(&entries, 200_000, 60_000, 12_000), None);

    // 64k context, 60k used: 4k left, the budget is 8k. A fifth of 60k,
    // 12k, is kept: the reply at 10k keeps 50k after it, the one at 50k
    // only 10k.
    assert_eq!(compaction_cut(&entries, 64_000, 60_000, 12_000), Some(4));

    // Keeping more than any reply leaves after it cuts nothing but the
    // tool runs at the start of the context.
    assert_eq!(compaction_cut(&entries, 64_000, 60_000, 55_000), Some(0));
    assert_eq!(compaction_cut(&vec![tool("1", false), Entry::User], 64_000, 60_000, 55_000), Some(1));
}

#[test]
fn only_settled_items_are_saved() {
    let entries = vec![
        Entry::User,
        reply(None),
        tool("1", false),
        tool("2", true),
        Entry::User,
    ];

    assert_eq!(settled_count(&entries, 0, false), 3);
    assert_eq!(settled_count(&entries, 3, true), 0);
    assert_eq!(settled_count(&entries, 4, true), 1);
    assert_eq!(settled_count(&entries, 9, true), 0);

    // The last reply waits for the work to end.
    let entries = vec![Entry::User, reply(None)];
    assert_eq!(settled_count(&entries, 0, false), 1);
    assert_eq!(settled_count(&entries, 0, true), 2);

    let entries = vec![compaction(0, false), Entry::Review];
    assert_eq!(settled_count(&entries, 0, true), 0);
    assert_eq!(settled_count(&entries, 1, true), 1);
}

#[test]
fn an_abort_stops_the_running_tools_and_drops_the_unfinished_compaction() {
    let entries = vec![
        tool("1", true),
        tool("2", false),
        compaction(0, false),
        tool("3", true),
        compaction(1, true),
    ];

    assert_eq!(abort_targets(&entries), (vec![0, 3], Some(2)));
    assert_eq!(abort_targets(&vec![Entry::User]), (vec![], None));
}

#[test]
fn the_opener_is_the_user_message_of_the_cut_turn() {
    let entries = vec![
        Entry::User,
        reply(None),
        Entry::User,
        reply(None),
        tool("1", false),
        reply(None),
        compaction(3, true),
    ];
    assert_eq!(opener_turn(&entries), Some(2));

    // A context that starts with the user's message needs no opener.
    let entries = vec![reply(None), Entry::User, compaction(1, true)];
    assert_eq!(opener_turn(&entries), None);
    assert_eq!(opener_turn(&vec![Entry::User, reply(None)]), None);
}

#[test]
fn the_events_of_a_reply_go_to_the_last_reply() {
    assert_eq!(reply_target(&vec![Entry::User, reply(None), tool("1", false)]), Some(1));
    assert_eq!(reply_target(&vec![reply(None), Entry::User]), None);
    assert_eq!(reply_target(&vec![tool("1", false)]), None);
}

#[test]
fn the_events_of_a_tool_go_to_its_last_run() {
    let entries = vec![tool("a", false), Entry::User, tool("a", true), tool("b", true)];

    assert_eq!(tool_run(&entries, "a"), Some(2));
    assert_eq!(tool_run(&entries, "b"), Some(3));
    assert_eq!(tool_run(&entries, "c"), None);
}

#[test]
fn the_current_model_is_kept_while_listed() {
    let ids = args(&["alpha", "beta"]);

    assert_eq!(choose_model(Some("beta".to_owned()), &ids).as_deref(), Some("beta"));
    assert_eq!(choose_model(Some("gamma".to_owned()), &ids).as_deref(), Some("alpha"));
    assert_eq!(choose_model(None, &ids).as_deref(), Some("alpha"));
    assert_eq!(choose_model(Some("beta".to_owned()), &vec![]), None);

    // Otherwise the least id is taken, whatever the order of the list.
    let unsorted = args(&["gamma", "beta", "alpha2", "alpha"]);
    assert_eq!(choose_model(None, &unsorted).as_deref(), Some("alpha"));
    assert_eq!(choose_model(Some("delta".to_owned()), &unsorted).as_deref(), Some("alpha"));
}

#[test]
fn a_compaction_grows_by_the_difference_of_its_reports() {
    assert_eq!(compaction_growth(Some(120), Some(100)), 20);
    assert_eq!(compaction_growth(Some(90), Some(100)), 0);
    assert_eq!(compaction_growth(None, Some(100)), 0);
    assert_eq!(compaction_growth(Some(100), None), 0);
}

#[test]
fn a_compaction_notice_follows_its_progress() {
    assert_eq!(compaction_notice(true, false, 1234, 10), "Compacted into 1234 tokens");
    assert_eq!(compaction_notice(false, true, 0, 56), "Analyzing... 56 tokens");
    assert_eq!(compaction_notice(false, false, 78, 56), "Compacting... 78 tokens");
}

#[test]
fn assistant_reasoning_is_collapsed_with_its_duration() {
    assert_eq!(reasoning_header(true, Some("1.5s")), "Thought for 1.5s");
    assert_eq!(reasoning_header(false, Some("800ms")), "Thinking... (800ms)");
    assert_eq!(reasoning_header(true, None), "Thought");
    assert_eq!(reasoning_header(false, None), "Thinking...");
}

fn card_text(status: &Status) -> Vec<(String, bool)> {
    card(status)
}

fn line(text: &str) -> (String, bool) {
    (text.to_owned(), false)
}

#[test]
fn a_long_output_shows_its_ends_and_how_many_lines_it_leaves_out() {
    let mut output = Output::new();
    for i in 0..1010 {
        output.push(format!("line {i}"));
    }

    assert_eq!(
        card_text(&Status::Success { output }),
        vec![
            line("line 0"),
            line("line 1"),
            ("... 1,005 lines elided".to_owned(), true),
            line("line 1007"),
            line("line 1008"),
            line("line 1009"),
        ]
    );

    let mut output = Output::new();
    for i in 0..6 {
        output.push(format!("{i}"));
    }
    assert_eq!(card_text(&Status::Success { output })[2], ("... 1 line elided".to_owned(), true));
}

#[test]
fn a_short_output_is_shown_whole_each_line_cut_to_the_card() {
    let mut output = Output::new();
    output.push("a".to_owned());
    output.push("é".repeat(150));

    let shown = card_text(&Status::Success { output });
    assert_eq!(shown.len(), 2);
    assert_eq!(shown[0], line("a"));
    assert_eq!(shown[1], line(&"é".repeat(100)));
}

#[test]
fn a_run_without_lines_shows_what_the_model_is_told() {
    assert_eq!(card_text(&Status::Success { output: Output::new() }), vec![line("[No output]")]);
    assert_eq!(card_text(&Status::Error { output: "  boom \n".to_owned() }), vec![line("boom")]);
    assert_eq!(card_text(&Status::Invalid), vec![line("[invalid tool call]")]);
    assert_eq!(card_text(&Status::Aborted), vec![line("[execution aborted]")]);
}

#[test]
fn a_compaction_shows_the_progress_of_its_prompt_until_it_is_read() {
    let reading = Progress { total: 1000, processed: 250, cached: 0 };
    let read = Progress { total: 1000, processed: 1000, cached: 0 };

    assert_eq!(prompt_bar(reading), Some((250, 1000)));
    assert_eq!(prompt_bar(read), None);

    let (bar, notice) = compaction_card(false, true, 0, 42, reading);
    assert_eq!(bar, Some((250, 1000)));
    assert_eq!(notice, "Analyzing... 42 tokens");

    let (bar, notice) = compaction_card(true, false, 1234, 0, read);
    assert_eq!(bar, None);
    assert_eq!(notice, "Compacted into 1234 tokens");
}
