use pick::git::{Hunk, Line, Range};
use pick::diff::Tag;
use pick::html::{
    arguments_of, edit_view, preview_block, view_of, ArgumentsView,
    blocks, code_language, code_pieces, document, escape, escape_raw_html, hunk, markdown_html,
    plural, render_assistant, style, CSS, SCRIPT, render_compaction, render_reasoning, render_step, render_tool,
    render_user, step_tools, summarize_tools, thousands, title_of, unescape, well_formed_block,
    Block, Piece, Turn,
};
use pick::output::Output;
use pick::review::{Comment, Number, Review};
use pick::session::{Call, Item, Progress, Reply, Status, ToolRun};

fn names(names: &[&str]) -> Vec<String> {
    names.iter().map(|name| name.to_string()).collect()
}

fn call(id: &str, name: &str, arguments: &str) -> Call {
    Call { id: id.to_owned(), name: name.to_owned(), arguments: arguments.to_owned() }
}

fn reply(content: &str, calls: Vec<Call>) -> Item {
    Item::Assistant(Reply {
        prompt: Progress::default(),
        reasoning: String::new(),
        content: content.to_owned(),
        tool_calls: calls,
        timings: None,
    })
}

fn run(id: &str, name: &str, status: Status) -> Item {
    Item::Tool(ToolRun { call: call(id, name, "{}"), status })
}

fn success() -> Status {
    Status::Success { output: Output::new() }
}

#[test]
fn escaping_covers_the_markup_characters() {
    assert_eq!(escape("a & b < c > d \"e\""), "a &amp; b &lt; c &gt; d \"e\"");
    assert_eq!(unescape("&lt;usize&gt; &amp;&amp; &quot;x&quot;"), "<usize> && &quot;x&quot;");
    assert_eq!(unescape("&amp;lt;"), "&lt;");
    assert_eq!(unescape(&escape("<a href=\"x\">&</a>")), "<a href=\"x\">&</a>");
}

#[test]
fn text_that_looks_like_html_is_rendered_literally() {
    let html = markdown_html("items are (Range<usize>, Code) and Box<dyn Iterator>");

    assert!(html.contains("Range&lt;usize&gt;"));
    assert!(html.contains("Box&lt;dyn Iterator&gt;"));
    assert!(!html.contains("<usize>"));
}

#[test]
fn code_regions_keep_their_angle_brackets() {
    let html = markdown_html(
        "inline `Vec<usize>` and a block:\n```rust\nlet v: Vec<usize> = vec![];\n```\n",
    );

    assert!(html.contains("<code>Vec&lt;usize&gt;</code>"));
    assert!(html.contains("language-rust"));
    assert!(html.contains("&lt;usize&gt;"));
    assert!(!html.contains("&amp;lt;"));
}

#[test]
fn raw_html_is_escaped_outside_code_only() {
    assert_eq!(escape_raw_html("a <b> `<c>` 1 < 2"), "a &lt;b> `<c>` 1 < 2\n");
    assert_eq!(escape_raw_html("```\n<d>\n```\n<e>"), "```\n<d>\n```\n&lt;e>\n");
}

#[test]
fn user_messages_are_rendered_as_markdown() {
    let html = render_user(&markdown_html("hello **world**, a & b < c"));

    assert!(html.contains("<div class=\"item user\">"));
    assert!(html.contains("<strong>world</strong>"));
    assert!(html.contains("a &amp; b &lt; c"));
}

#[test]
fn an_assistant_message_carries_its_reasoning_first() {
    let reasoning = render_reasoning("Thought for 2s", "<p>thinking</p>");
    let html = render_assistant(&reasoning, &markdown_html("it is **done**"));

    assert_eq!(
        reasoning,
        "<details class=\"reasoning\"><summary>Thought for 2s</summary><div><p>thinking</p></div></details>"
    );
    assert!(html.starts_with("<div class=\"item assistant\"><details class=\"reasoning\">"));
    assert!(html.contains("<strong>done</strong>"));
}

#[test]
fn fenced_code_blocks_are_highlighted() {
    let html = markdown_html("```rust\nlet x = 1 < 2;\n```\n");

    let pieces = code_pieces(&html);
    let code = pieces
        .iter()
        .find_map(|piece| match piece {
            Piece::Code(code) => Some(code.clone()),
            Piece::Text(_) => None,
        })
        .expect("the block is found");

    assert!(well_formed_block(&code));
    let (language, source) = code_language(&code).expect("the block names its language");
    assert_eq!(language, "rust");
    assert_eq!(source, "let x = 1 < 2;\n");
}

#[test]
fn a_document_is_cut_into_text_and_code() {
    let pieces = code_pieces("<p>a</p><pre><code>x</code></pre><p>b</p>");

    assert_eq!(pieces.len(), 3);
    assert!(matches!(&pieces[0], Piece::Text(t) if t == "<p>a</p>"));
    assert!(matches!(&pieces[1], Piece::Code(c) if c == "<pre><code>x</code></pre>"));
    assert!(matches!(&pieces[2], Piece::Text(t) if t == "<p>b</p>"));
    assert!(code_language("<pre><code>x</code></pre>").is_none());
}

#[test]
fn a_compaction_renders_its_token_count() {
    assert!(render_compaction(1_234_567).contains("Compacted into 1,234,567 tokens"));
    assert_eq!(thousands(999), "999");
    assert_eq!(thousands(1000), "1,000");
    assert_eq!(thousands(0), "0");
}

#[test]
fn the_step_header_summarizes_its_tools() {
    assert_eq!(
        summarize_tools(&names(&["bash", "edit", "bash", "edit", "bash", "edit", "edit"])),
        "Ran 3 commands, edited 4 files"
    );
    assert_eq!(summarize_tools(&names(&["read"])), "Read 1 file");
    assert_eq!(summarize_tools(&names(&["write", "write"])), "Wrote 2 files");
    assert_eq!(plural(1), "");
    assert_eq!(plural(2), "s");
}

#[test]
fn an_unknown_tool_is_summarized_by_name() {
    assert_eq!(summarize_tools(&names(&["search"])), "Called search 1 time");
    assert_eq!(
        summarize_tools(&names(&["search", "read", "search"])),
        "Called search 2 times, read 1 file"
    );
}

#[test]
fn a_failed_tool_marks_its_step() {
    let html = render_step(&names(&["bash", "read"]), true, "");
    assert!(html.starts_with("<div class=\"step failed\">"));
    assert!(html.contains("title=\"bash, read\">Ran 1 command, read 1 file</span>"));

    let html = render_step(&names(&["bash"]), false, "<p>why</p>");
    assert!(html.starts_with("<div class=\"step\"><details class=\"step-thinking\">"));
    assert!(html.contains("<div class=\"step-thinking-body\"><p>why</p></div>"));
}

#[test]
fn a_turn_groups_its_reasoning_and_tools_into_a_step() {
    let items = vec![
        Item::User("fix it".to_owned()),
        reply("", vec![call("1", "read", "{}"), call("2", "edit", "{}")]),
        run("1", "read", success()),
        run("2", "edit", Status::Error { output: "boom".to_owned() }),
        reply("All fixed.", vec![]),
    ];

    let blocks = blocks(&items);
    assert_eq!(blocks.len(), 3);
    assert!(matches!(blocks[0], Block::Item(0)));
    match &blocks[1] {
        Block::Step(turns) => {
            assert_eq!(turns, &vec![Turn { reply: 1, start: 2, end: 4 }]);
            let (ran, failed) = step_tools(&items, turns);
            assert_eq!(ran, ["read", "edit"]);
            assert!(failed);
        }
        other => panic!("a step, not {other:?}"),
    }
    assert!(matches!(blocks[2], Block::Item(4)));
}

#[test]
fn consecutive_messageless_turns_are_merged_into_one_step() {
    let items = vec![
        reply("", vec![call("1", "bash", "{}")]),
        run("1", "bash", success()),
        reply("", vec![call("2", "bash", "{}")]),
        run("2", "bash", success()),
    ];

    let blocks = blocks(&items);
    assert_eq!(blocks.len(), 1);
    match &blocks[0] {
        Block::Step(turns) => {
            assert_eq!(
                turns,
                &vec![Turn { reply: 0, start: 1, end: 2 }, Turn { reply: 2, start: 3, end: 4 }]
            );
            let (ran, failed) = step_tools(&items, turns);
            assert_eq!(ran, ["bash", "bash"]);
            assert!(!failed);
        }
        other => panic!("a step, not {other:?}"),
    }
}

#[test]
fn a_content_message_is_shown_before_its_step() {
    let items = vec![
        reply("", vec![call("1", "bash", "{}")]),
        run("1", "bash", success()),
        reply("Now the tests.", vec![call("2", "bash", "{}")]),
        run("2", "bash", Status::Invalid),
    ];

    let blocks = blocks(&items);
    assert_eq!(blocks.len(), 3);
    assert!(matches!(&blocks[0], Block::Step(turns) if turns.len() == 1));
    assert!(matches!(blocks[1], Block::Message(2)));
    match &blocks[2] {
        Block::Step(turns) => {
            assert_eq!(turns, &vec![Turn { reply: 2, start: 3, end: 4 }]);
            assert!(step_tools(&items, turns).1);
        }
        other => panic!("a step, not {other:?}"),
    }
}

#[test]
fn a_call_is_titled_by_its_arguments() {
    assert_eq!(
        title_of(&call("1", "bash", r#"{"command":"ls -la\nmore","title":"  List  "}"#)).as_deref(),
        Some("List")
    );
    assert_eq!(
        title_of(&call("1", "bash", r#"{"command":"ls -la\nmore","title":"  "}"#)).as_deref(),
        Some("ls -la")
    );
    assert_eq!(title_of(&call("1", "read", r#"{"path":"src/lib.rs"}"#)).as_deref(), Some("src/lib.rs"));
    assert_eq!(title_of(&call("1", "x", "not json")), None);
    assert_eq!(title_of(&call("1", "x", "{}")), None);
}

#[test]
fn a_tool_error_renders_its_message() {
    let run = ToolRun {
        call: call("1", "bash", r#"{"command":"false"}"#),
        status: Status::Error { output: "boom & bap < 0".to_owned() },
    };

    let html = render_tool(&run, "<pre>false</pre>");
    assert!(html.starts_with("<details class=\"item tool error\">"));
    assert!(html.contains("boom &amp; bap &lt; 0"));
    assert!(html.contains("<pre>false</pre>"));
}

#[test]
fn a_bash_tool_shows_its_command_and_output() {
    let mut output = Output::new();
    output.push("line 1".to_owned());
    output.push("a < b".to_owned());

    let run = ToolRun {
        call: call("1", "bash", r#"{"command":"echo hi"}"#),
        status: Status::Success { output },
    };

    let html = render_tool(&run, "");
    assert!(html.contains("item tool success"));
    assert!(html.contains("echo hi"));
    assert!(html.contains("line 1\na &lt; b"));
}

#[test]
fn a_review_renders_its_message_and_hunks() {
    let h = Hunk {
        old: Range { start: 1, count: 3 },
        new: Range { start: 1, count: 2 },
        heading: None,
        lines: vec![
            Line::Context { old: 1, new: 1, text: "let a = 1;".to_owned() },
            Line::Added { new: 2, text: "let b = 2;".to_owned() },
            Line::Deleted { old: 3, text: "let c = 3 < 4;".to_owned() },
        ],
    };

    let rows = hunk(&h);
    assert!(rows.contains("<div class=\"diff-line context\">"));
    assert!(rows.contains("<div class=\"diff-line added\">"));
    assert!(rows.contains("<div class=\"diff-line deleted\">"));
    assert!(rows.contains("let b = 2;"));
    assert!(rows.contains("let c = 3 &lt; 4;"));

    let comment = Comment::new("src/main.rs", Number::New(2), &h.lines[1], "check this".to_owned());
    assert_eq!(comment.reference, "src/main.rs:R2");
}

#[test]
fn a_document_frames_its_items() {
    let html = document("body {}", "2025-01-01 10:00", 1, "<div>x</div>");

    assert!(html.starts_with("<!doctype html>\n"));
    assert!(html.contains("<style>\nbody {}\n</style>"));
    assert!(html.contains("2025-01-01 10:00 · 1 item · Pick 0.1.0</header>"));
    assert!(html.contains("<div>x</div>\n</main>"));
    assert!(html.ends_with("</script>\n</body>\n</html>\n"));

    assert!(document("", "now", 3, "").contains("now · 3 items · Pick"));
}

fn comment(path: &str, number: Number, line: Line, content: &str) -> Comment {
    Comment::new(path, number, &line, content.to_owned())
}

#[test]
fn a_review_prompt_quotes_each_commented_line() {
    let review = Review {
        message: Some("Fix these".to_owned()),
        comments: vec![
            comment(
                "src/lib.rs",
                Number::Context(10, 12),
                Line::Context { old: 10, new: 12, text: "let y = x;".into() },
                "note the typo",
            ),
            comment(
                "src/lib.rs",
                Number::New(123),
                Line::Added { new: 123, text: "fn main() {".into() },
                "Check X.",
            ),
            comment(
                "src/main.rs",
                Number::Old(45),
                Line::Deleted { old: 45, text: "let dead = 1;".into() },
                "remove me",
            ),
        ],
    };

    let expected = [
        "Fix these",
        "",
        "```",
        "src/lib.rs:R12",
        "  let y = x;",
        "```",
        "note the typo",
        "",
        "```",
        "src/lib.rs:R123",
        "+ fn main() {",
        "```",
        "Check X.",
        "",
        "```",
        "src/main.rs:L45",
        "- let dead = 1;",
        "```",
        "remove me",
    ]
    .join("\n");

    assert_eq!(review.prompt(), expected);
}

#[test]
fn a_review_comment_without_content_quotes_the_line_only() {
    let review = Review {
        message: None,
        comments: vec![comment("src/lib.rs", Number::New(5), Line::Added { new: 5, text: "x".into() }, "")],
    };

    let expected = ["```", "src/lib.rs:R5", "+ x", "```"].join("\n");

    assert_eq!(review.prompt(), expected);
}

#[test]
fn a_review_without_comments_is_just_the_message() {
    let review = Review { message: Some("hello".to_owned()), comments: vec![] };

    assert_eq!(review.prompt(), "hello");
}

#[test]
fn an_empty_review_has_no_prompt() {
    assert_eq!(Review::default().prompt(), "");
}

#[test]
fn blank_messages_and_comments_are_left_out_of_the_prompt() {
    let review = Review {
        message: Some("   ".to_owned()),
        comments: vec![
            Comment {
                reference: "a.rs:R1".to_owned(),
                line: None,
                content: "stale".to_owned(),
                context: vec![],
            },
            comment("a.rs", Number::New(2), Line::Added { new: 2, text: "y".into() }, "  tidy  "),
        ],
    };

    assert_eq!(review.prompt(), ["```", "a.rs:R2", "+ y", "```", "tidy"].join("\n"));
}

#[test]
fn a_preview_block_puts_the_prompt_before_its_first_line() {
    let lines = vec!["ls <b>".to_owned(), "pwd".to_owned()];

    assert_eq!(
        preview_block(&lines, &None, Some("$ ")),
        "<pre class=\"tool-block view\">$ ls <b>\npwd</pre>"
    );
    assert_eq!(
        preview_block(&lines, &Some("… (30 lines, 200 bytes total)".to_owned()), None),
        "<pre class=\"tool-block view\">ls <b>\npwd\n<span style=\"color:var(--subtext);\">… (30 lines, 200 bytes total)</span></pre>"
    );
    assert_eq!(preview_block(&vec![], &None, Some("<$> ")), "<pre class=\"tool-block view\"></pre>");
    assert_eq!(
        preview_block(&vec!["x".to_owned()], &None, Some("<$> ")),
        "<pre class=\"tool-block view\">&lt;$&gt; x</pre>"
    );
}

#[test]
fn a_read_tool_shows_no_body_and_an_unknown_tool_keeps_its_arguments() {
    assert_eq!(view_of(&call("1", "read", r#"{"path":"a.rs"}"#)), ArgumentsView::Nothing);
    assert_eq!(view_of(&call("1", "search", r#"{"query":"x"}"#)), ArgumentsView::Raw);
    assert_eq!(view_of(&call("1", "read", "not json")), ArgumentsView::Raw);
    assert_eq!(
        view_of(&call("1", "bash", r#"{"command":"ls -la"}"#)),
        ArgumentsView::Bash { command: "ls -la".to_owned() }
    );
    assert_eq!(view_of(&call("1", "bash", r#"{"command":3}"#)), ArgumentsView::Raw);
    assert_eq!(
        view_of(&call("1", "write", r#"{"path":"a.rs","content":"fn main() {}"}"#)),
        ArgumentsView::Write { path: "a.rs".to_owned(), content: "fn main() {}".to_owned() }
    );
    assert_eq!(
        view_of(&call("1", "edit", r#"{"path":"a.rs","old_string":"a","new_string":"b"}"#)),
        ArgumentsView::Edit {
            path: "a.rs".to_owned(),
            old_string: "a".to_owned(),
            new_string: "b".to_owned()
        }
    );
    assert_eq!(view_of(&call("1", "edit", r#"{"path":"a.rs","old_string":"a"}"#)), ArgumentsView::Raw);

    assert_eq!(arguments_of("{\"query\":\"x\"}"), "{\n  \"query\": \"x\"\n}");
    assert_eq!(arguments_of("not json"), "not json");
}

#[test]
fn an_edit_tool_shows_its_diff() {
    let html = edit_view(&vec![
        (Tag::Context, "  a".to_owned()),
        (Tag::Deletion, "- b".to_owned()),
        (Tag::Addition, "+ c".to_owned()),
    ]);

    assert_eq!(
        html,
        "<div class=\"diff edit\"><div class=\"diff-line context\">  a</div><div class=\"diff-line deleted\">- b</div><div class=\"diff-line added\">+ c</div></div>"
    );
}

#[test]
fn the_model_is_told_how_a_call_ended() {
    let mut output = Output::new();
    output.push("done".to_owned());

    assert_eq!(Status::Success { output }.content(), "done");
    assert_eq!(Status::Error { output: "boom".to_owned() }.content(), "boom");
    assert_eq!(Status::Invalid.content(), "[invalid tool call]");
    assert_eq!(Status::Aborted.content(), "[execution aborted]");
}

/// The `:root` variables of the Catppuccin Mocha theme the app exports
/// with, its seed colors verbatim where the theme has them.
fn mocha() -> Vec<(String, String)> {
    [
        ("background", "#1e1e2e"),
        ("text", "#cdd6f4"),
        ("success", "#a6e3a1"),
        ("danger", "#f38ba8"),
        ("link", "#89b4fa"),
    ]
    .iter()
    .map(|(name, color)| (name.to_string(), color.to_string()))
    .collect()
}

#[test]
fn an_empty_session_exports_a_document() {
    let document = document(&style(&mocha()), "1970-01-01 00:00", 0, "");

    assert!(document.starts_with("<!doctype html>"));
    assert!(document.contains("<title>Pick session</title>"));
    assert!(document.contains("0 items · Pick "));
}

#[test]
fn the_css_is_styled_by_the_theme() {
    let document = document(&style(&mocha()), "1970-01-01 00:00", 0, "");

    assert!(document.contains("--background: #1e1e2e"));
    assert!(document.contains("--success: #a6e3a1"));
    assert!(document.contains("--danger: #f38ba8"));
    assert!(document.contains("--link: #89b4fa"));
}

#[test]
fn a_message_turn_breaks_the_merge() {
    let items = vec![
        // A message-less action turn.
        reply("", vec![call("c1", "bash", r#"{"command":"make"}"#)]),
        run("c1", "bash", success()),
        // A message turn; it stands on its own.
        reply("Now I will read it.", vec![call("c2", "read", r#"{"path":"a.rs"}"#)]),
        run("c2", "read", success()),
    ];

    let blocks = blocks(&items);

    // Two steps, the message shown on its own before the second.
    assert_eq!(blocks.len(), 3);
    match (&blocks[0], &blocks[1], &blocks[2]) {
        (Block::Step(first), Block::Message(2), Block::Step(second)) => {
            assert_eq!(first, &vec![Turn { reply: 0, start: 1, end: 2 }]);
            assert_eq!(second, &vec![Turn { reply: 2, start: 3, end: 4 }]);
            assert_eq!(summarize_tools(&step_tools(&items, first).0), "Ran 1 command");
            assert_eq!(summarize_tools(&step_tools(&items, second).0), "Read 1 file");
        }
        other => panic!("step, message, step; not {other:?}"),
    }
    assert!(render_assistant("", &markdown_html("Now I will read it."))
        .starts_with("<div class=\"item assistant\"><p>Now I will read it.</p>"));
}

#[test]
fn a_messageless_turn_folds_into_the_preceding_step() {
    let items = vec![
        // A message turn.
        reply("Build it, then look at the result.", vec![call("c1", "bash", r#"{"command":"make"}"#)]),
        run("c1", "bash", success()),
        // A message-less turn; it folds into the step above.
        reply("", vec![call("c2", "read", r#"{"path":"a.rs"}"#)]),
        run("c2", "read", success()),
    ];

    let blocks = blocks(&items);

    // One step, with the message turn's message on its own before it.
    assert_eq!(blocks.len(), 2);
    assert!(matches!(blocks[0], Block::Message(0)));
    match &blocks[1] {
        Block::Step(turns) => {
            assert_eq!(
                turns,
                &vec![Turn { reply: 0, start: 1, end: 2 }, Turn { reply: 2, start: 3, end: 4 }]
            );
            let (ran, failed) = step_tools(&items, turns);
            assert_eq!(ran, ["bash", "read"]);
            assert!(!failed);
            assert_eq!(summarize_tools(&ran), "Ran 1 command, read 1 file");
        }
        other => panic!("a step, not {other:?}"),
    }
}

#[test]
fn a_turn_carries_its_message_and_the_answer_is_separate() {
    let items = vec![
        reply("Let me check the locking and the layout.", vec![call("c1", "read", r#"{"path":"file.rs"}"#)]),
        run("c1", "read", success()),
        reply("Yes, it is workable.", vec![]),
    ];

    let blocks = blocks(&items);

    // The message, then the step it introduces, then the answer on its
    // own.
    assert_eq!(blocks.len(), 3);
    assert!(matches!(blocks[0], Block::Message(0)));
    match &blocks[1] {
        Block::Step(turns) => {
            assert_eq!(turns, &vec![Turn { reply: 0, start: 1, end: 2 }]);
            assert_eq!(summarize_tools(&step_tools(&items, turns).0), "Read 1 file");
        }
        other => panic!("a step, not {other:?}"),
    }
    assert!(matches!(blocks[2], Block::Item(2)));

    // The step shows its reasoning and its runs, not the message.
    let step = render_step(&names(&["read"]), false, "");
    assert!(!step.contains("Let me check the locking and the layout."));
    assert!(render_assistant("", &markdown_html("Yes, it is workable."))
        .starts_with("<div class=\"item assistant\"><p>Yes, it is workable.</p>"));
}

#[test]
fn a_write_tool_shows_its_content() {
    let write = call("call_1", "write", r#"{"path":"a.rs","content":"let s = \"hi\";"}"#);

    assert_eq!(
        view_of(&write),
        ArgumentsView::Write { path: "a.rs".to_owned(), content: "let s = \"hi\";".to_owned() }
    );

    let view = preview_block(&vec![escape("let s = \"hi\";")], &None, None);
    let run = ToolRun { call: write, status: success() };
    let html = render_tool(&run, &view);

    assert!(html.contains("<span class=\"tool-title\">a.rs</span>"));
    assert!(html.contains("tool-block view"));
    assert!(html.contains("let"));
    assert!(html.contains("hi"));
    assert!(!html.contains("tool-block arguments"));
}

#[test]
fn tool_outputs_are_capped_and_anchored_at_their_end() {
    let mut output = Output::new();
    for line in 0..20 {
        output.push(format!("line {line}"));
    }

    let run = ToolRun { call: call("call_1", "bash", "{}"), status: Status::Success { output } };
    let html = render_tool(&run, "");

    // The output block is capped at 10 lines and scrolls.
    assert!(CSS.contains("max-height: 16.5em"));
    assert!(CSS.contains("overflow-y: auto"));
    assert!(html.contains("<pre class=\"tool-block output\">"));

    // On load, the outputs are anchored at their end.
    assert!(SCRIPT.contains("block.scrollTop = block.scrollHeight"));
    assert!(document("", "now", 1, &html).contains("block.scrollTop = block.scrollHeight"));
}

#[test]
fn escaping_escaped_markdown_changes_nothing() {
    for markdown in [
        "a <b> `<c>` 1 < 2",
        "```\n<d>\n```\n<e>",
        "<<a ``x <y`` <z\r\n~~~\n<w>\n~~~~\n",
        "   ```rust\n<v>\n",
    ] {
        let once = escape_raw_html(markdown);
        assert_eq!(escape_raw_html(&once), once);
    }
    assert_eq!(escape_raw_html("<<a"), "<&lt;a\n");
    // A line that still ends in a carriage return after the split loses
    // it on a second pass.
    assert_eq!(escape_raw_html("a\r"), "a\r\n");
    assert_eq!(escape_raw_html("a\r\n"), "a\n");
}

#[test]
fn escaping_rewrites_nothing_but_the_opening_of_tags() {
    for markdown in [
        "a <b> `<c>` 1 < 2",
        "```\n<d>\n```\n<e>",
        "x & y <z/>\r\n`` <a> `` </p>",
    ] {
        let lines: String = markdown.lines().map(|l| format!("{l}\n")).collect();
        assert_eq!(escape_raw_html(markdown).replace("&lt;", "<"), lines);
    }
}
