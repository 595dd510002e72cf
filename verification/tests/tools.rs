use pick::highlight::{Preview, MAX_LINES, MAX_LINE_WIDTH};
use pick::output::Output;
use pick::diff::changes;
use pick::html::preview_block;
use pick::tool::bash::{failure_notice, sanitize_title, Bash, PREVIEW_LINE_WIDTH, PROMPT, TITLE_WIDTH};
use pick::tool::edit::{Edit, EditError};
use pick::tool::read::{Next, Read, MAX_OUTPUT_BYTES, MAX_READ_BYTES, READ_CHUNK_SIZE};
use pick::tool::write::{notice, Write};
use pick::tool::Tool;

/// What a read of `contents` answers, the file handed over chunk by chunk
/// as a file of those contents would be.
fn read_at(contents: &[u8], offset: Option<u64>, limit: Option<u64>) -> String {
    let read = Read::new("file.txt".to_owned(), offset, limit);
    let mut scan = read.scan().unwrap();
    let mut position = 0;

    loop {
        match scan.next() {
            Next::Read => {
                let end = (position + READ_CHUNK_SIZE).min(contents.len());
                scan.feed(&contents[position..end]);
                position = end;
            }
            Next::Peek => scan.peek(position < contents.len()),
            Next::Done => return scan.finish(),
        }
    }
}

fn read(contents: &str) -> String {
    read_at(contents.as_bytes(), None, None)
}

#[test]
fn reads_small_files_in_full() {
    assert_eq!(read("a\nb\nc"), "a\nb\nc\n");
    assert_eq!(read(""), "[File is empty]");
}

#[test]
fn a_file_that_fits_in_a_chunk_is_read_in_full() {
    let mut contents = String::new();

    for _ in 0..800 {
        contents.push_str(&"x".repeat(69));
        contents.push('\n');
    }

    assert_eq!(read(&contents), contents);
}

#[test]
fn a_file_of_exactly_one_chunk_is_read_in_full() {
    let mut contents = String::new();

    for _ in 0..(READ_CHUNK_SIZE / 128) {
        contents.push_str(&"y".repeat(127));
        contents.push('\n');
    }

    assert_eq!(read(&contents), contents);
}

#[test]
fn the_output_limit_applies_to_the_final_line() {
    let short: String = (0..500).map(|line| format!("line {line}\n")).collect();
    let contents = format!("{short}{}", "x".repeat(100 * 1024));

    let output = read(&contents);

    assert!(output.starts_with("line 0\n"));
    assert!(output.contains("line 499\n"));
    assert!(output.ends_with(&format!(
        "[Read stopped after {} bytes of output \
        (limit {MAX_OUTPUT_BYTES}); continue reading with \
        offset=501, or inspect the file with bash]",
        short.len()
    )));
    assert!(!output.contains('x'));
}

#[test]
fn the_scan_budget_stops_the_read_of_a_huge_line() {
    let short: String = (0..500).map(|line| format!("line {line}\n")).collect();
    let contents = format!("{short}{}", "x".repeat(500 * 1024));

    let output = read(&contents);

    assert!(output.starts_with("line 0\n"));
    assert!(output.contains("line 499\n"));
    assert!(output.ends_with(&format!(
        "[Read stopped after scanning {MAX_READ_BYTES} bytes; \
        some lines may be very long. Continue reading with \
        offset=501, or inspect the file with bash]"
    )));
    assert!(!output.contains('x'));
}

#[test]
fn the_output_limit_caps_long_lines() {
    let mut contents = String::new();

    for _ in 0..900 {
        contents.push_str(&"x".repeat(99));
        contents.push('\n');
    }

    let output = read(&contents);

    let notice = format!(
        "[Read stopped after 65500 bytes of output \
        (limit {MAX_OUTPUT_BYTES}); continue reading with \
        offset=656, or inspect the file with bash]"
    );

    assert!(output.ends_with(&notice));
    assert_eq!(output.len(), 655 * 100 + 1 + notice.len());
}

#[test]
fn a_deep_offset_reads_past_the_output_limit() {
    let mut contents = String::new();

    for line in 1..=1200 {
        contents.push_str(&format!("line-{:04}", line));
        contents.push_str(&"x".repeat(90));
        contents.push('\n');
    }

    let output = read_at(contents.as_bytes(), Some(700), None);

    assert!(output.starts_with("line-0700"));
    assert!(output.ends_with(&format!("{}\n", "x".repeat(90))));
    assert!(!output.contains('['));
    assert_eq!(output.len(), 501 * 100);
}

#[test]
fn a_single_huge_line_yields_a_no_complete_lines_notice() {
    let output = read(&"x".repeat(500 * 1024));

    assert_eq!(
        output,
        format!(
            "[No complete lines could be read after scanning {MAX_READ_BYTES} \
            bytes; the file's lines may be very long]"
        )
    );
}

#[test]
fn a_single_oversized_line_yields_an_output_limit_notice() {
    let output = read(&"x".repeat(100 * 1024));

    assert_eq!(
        output,
        format!(
            "[The first line in range exceeds the {MAX_OUTPUT_BYTES} \
            byte output limit; inspect the file with bash]"
        )
    );
}

#[test]
fn a_small_line_before_an_oversized_line_yields_an_output_limit_notice() {
    let small = "hello\n";
    let contents = format!("{small}{}", "x".repeat(100 * 1024));

    assert_eq!(
        read(&contents),
        format!(
            "{small}\n[Read stopped after {} bytes of output \
            (limit {MAX_OUTPUT_BYTES}); continue reading with \
            offset=2, or inspect the file with bash]",
            small.len()
        )
    );
}

#[test]
fn line_limit_advises_a_continuation_offset() {
    let contents: String = (1..=1500).map(|line| format!("line {line}\n")).collect();

    let output = read(&contents);

    assert!(output.starts_with("line 1\n"));
    assert!(output.contains("line 1000\n"));
    assert!(output.ends_with("[File has more lines; continue reading with offset=1001]"));
}

#[test]
fn line_limit_peek_detects_continuation_beyond_the_buffer() {
    let mut contents = String::new();

    for _ in 0..999 {
        contents.push_str(&"a".repeat(63));
        contents.push('\n');
    }

    contents.push_str(&"b".repeat(READ_CHUNK_SIZE - 999 * 64 - 1));
    contents.push('\n');

    for _ in 0..10 {
        contents.push_str(&"c".repeat(63));
        contents.push('\n');
    }

    let output = read(&contents);

    assert!(output.ends_with("[File has more lines; continue reading with offset=1001]"));
}

#[test]
fn a_limit_that_ends_the_file_adds_no_continuation() {
    assert_eq!(read_at(b"one\ntwo\n", None, Some(2)), "one\ntwo\n");
    assert_eq!(
        read_at(b"one\ntwo\nthree\n", Some(2), Some(1)),
        "two\n\n[File has more lines; continue reading with offset=3]"
    );
}

#[test]
fn an_offset_past_the_end_counts_the_lines() {
    assert_eq!(
        read_at(b"one\ntwo\n", Some(5), None),
        "[File has 2 lines; offset 5 is past the end]"
    );
    assert_eq!(read_at(b"one", Some(3), None), "[File has 1 line; offset 3 is past the end]");
}

#[test]
fn crlf_endings_and_invalid_bytes_are_read_as_text() {
    assert_eq!(read_at(b"a\r\nb\xff\r\n", None, None), "a\nb\u{fffd}\n");
}

#[test]
fn a_zero_offset_or_limit_is_refused() {
    let error = Read::new("f".to_owned(), Some(0), None).scan().err().unwrap();
    assert_eq!(error, "offset must be a 1-based line number (>= 1)");

    let error = Read::new("f".to_owned(), None, Some(0)).scan().err().unwrap();
    assert_eq!(error, "limit must be >= 1");
}

#[test]
fn a_read_title_shows_the_lines_asked_for() {
    assert_eq!(Read::new("src/lib.rs".to_owned(), None, None).title().unwrap(), "src/lib.rs");
    assert_eq!(
        Read::new("src/lib.rs".to_owned(), Some(10), None).title().unwrap(),
        "src/lib.rs (10..)"
    );
    assert_eq!(
        Read::new("src/lib.rs".to_owned(), None, Some(20)).title().unwrap(),
        "src/lib.rs (..20)"
    );
    assert_eq!(
        Read::new("src/lib.rs".to_owned(), Some(10), Some(20)).title().unwrap(),
        "src/lib.rs (10..30)"
    );
}

fn edit(old: &str, new: &str, replace_all: bool) -> Edit {
    Edit {
        path: "a.txt".to_owned(),
        old_string: old.to_owned(),
        new_string: new.to_owned(),
        replace_all,
    }
}

#[test]
fn a_unique_match_is_replaced_in_place() {
    let edited = edit("one", "uno", false).apply("one\ntwo\n").unwrap();

    assert_eq!(edited.contents, "uno\ntwo\n");
    assert_eq!(edited.occurrences, 1);
    assert_eq!(edited.notice("/p/a.txt", false), "Edited /p/a.txt (1 replacement)");
}

#[test]
fn an_ambiguous_match_fails_without_replace_all() {
    let error = edit("a", "x", false).apply("a\nb\na\nc\n").unwrap_err();

    assert_eq!(error, EditError::Ambiguous { occurrences: 2 });
    assert_eq!(
        error.message("/p/a.txt"),
        "old_string matches 2 locations in /p/a.txt; \
         include more context to make it unique, or set replace_all to true"
    );
}

#[test]
fn replace_all_replaces_every_occurrence() {
    let edited = edit("a", "x", true).apply("a\nb\na\nc\na\n").unwrap();

    assert_eq!(edited.contents, "x\nb\nx\nc\nx\n");
    assert_eq!(edited.occurrences, 3);
    assert_eq!(edited.notice("/p/a.txt", true), "Edited /p/a.txt (3 replacements)");
}

#[test]
fn a_missing_old_string_fails() {
    let error = edit("three", "x", false).apply("one\ntwo\n").unwrap_err();

    assert_eq!(error, EditError::NotFound);
    assert_eq!(error.message("/p/a.txt"), "old_string not found in /p/a.txt");
}

#[test]
fn an_empty_old_string_fails() {
    let error = edit("", "two", false).apply("one\n").unwrap_err();

    assert_eq!(error, EditError::EmptyOldString);
    assert_eq!(error.message("/p/a.txt"), "old_string must not be empty");
}

#[test]
fn an_identical_old_and_new_string_fails() {
    let error = edit("one", "one", false).apply("one\n").unwrap_err();

    assert_eq!(error, EditError::Unchanged);
    assert_eq!(error.message("/p/a.txt"), "old_string and new_string must be different");
}

#[test]
fn matches_do_not_overlap_and_only_the_first_is_replaced() {
    let edited = edit("aa", "b", true).apply("aaaaa").unwrap();
    assert_eq!((edited.contents.as_str(), edited.occurrences), ("bba", 2));

    let edited = edit("é", "e", false).apply("café au lait").unwrap();
    assert_eq!(edited.contents, "cafe au lait");
}

#[test]
fn a_title_is_trimmed_and_dropped_when_empty() {
    let bash = Bash::new("ls".to_owned(), Some("  List the files  ".to_owned()));
    assert_eq!(bash.title().as_deref(), Some("List the files"));

    for empty in ["", "   "] {
        let bash = Bash::new("ls".to_owned(), Some(empty.to_owned()));
        assert_eq!(bash.title(), None);
    }
}

#[test]
fn an_overlong_title_is_cut_at_a_word_boundary() {
    let bash = Bash::new(
        "ls".to_owned(),
        Some("install the dependencies, build the workspace, and verify that the tests pass".to_owned()),
    );

    assert_eq!(
        bash.title().as_deref(),
        Some("install the dependencies, build the workspace, and verify…")
    );

    let bash = Bash::new("ls".to_owned(), Some("x".repeat(TITLE_WIDTH + 10)));
    let expected = format!("{}…", "x".repeat(TITLE_WIDTH));
    assert_eq!(bash.title().as_deref(), Some(expected.as_str()));
}

#[test]
fn an_absent_title_yields_none() {
    let bash = Bash::new("ls".to_owned(), None);
    assert_eq!(bash.title(), None);
}

#[test]
fn a_title_of_multibyte_characters_is_cut_on_a_char_boundary() {
    let title = sanitize_title(&"é".repeat(40)).unwrap();
    assert_eq!(title, format!("{}…", "é".repeat(30)));
}

#[test]
fn the_script_sends_errors_to_the_output() {
    let bash = Bash::new("cargo test".to_owned(), None);
    assert_eq!(bash.script(), "exec 2>&1; cargo test");
}

#[test]
fn a_non_zero_exit_is_a_notice_not_an_error() {
    let mut output = Output::new();
    output.push("boom".to_owned());
    output.push_notice(failure_notice("exit status: 1"));

    assert_eq!(output.to_string(), "boom\n[Command failed (exit status: 1)]");
}

#[test]
fn a_command_without_output_yields_an_empty_output() {
    assert!(Output::new().to_string().is_empty());
}

#[test]
fn the_builtins_are_in_a_stable_order() {
    let builtins = Tool::builtins();
    let names: Vec<&str> = builtins.iter().map(|tool| tool.name).collect();
    assert_eq!(names, ["bash", "edit", "read", "write"]);

    assert_eq!(builtins[0].required(), ["command"]);
    assert_eq!(builtins[1].required(), ["path", "old_string", "new_string"]);
    assert_eq!(builtins[2].required(), ["path"]);
    assert_eq!(builtins[3].required(), ["path", "content"]);
}

#[test]
fn a_write_is_titled_by_its_path_and_previewed() {
    let write = Write::new("src/main.rs".to_owned(), "fn main() {}\n".to_owned());

    assert_eq!(write.title().as_deref(), Some("src/main.rs"));
    assert_eq!(write.preview.language, "rs");
    assert_eq!(write.preview.lines.len(), 1);
    assert_eq!(write.preview.lines[0].text, "fn main() {}");
    assert_eq!(notice("/p/src/main.rs"), "Wrote to /p/src/main.rs");
}

#[test]
fn short_content_is_previewed_in_full() {
    let preview = Preview::file("a.txt", "a\nb\nc");

    let lines: Vec<String> = preview.lines.iter().map(|line| line.shown()).collect();
    assert_eq!(lines, ["a", "b", "c"]);
    assert!(preview.notice.is_none());
    assert_eq!(preview.language, "txt");
}

#[test]
fn empty_content_has_no_preview() {
    let preview = Preview::file("a.txt", "");

    assert!(preview.lines.is_empty());
    assert!(preview.notice.is_none());
}

#[test]
fn a_long_write_is_cut_to_the_line_budget() {
    let total_lines = MAX_LINES + 20;
    let content: String = (1..=total_lines).map(|line| format!("line {line}\n")).collect();

    let preview = Preview::file("a.txt", &content);

    assert_eq!(preview.lines.len(), MAX_LINES);
    assert_eq!(preview.lines[0].shown(), "line 1");

    let total_bytes = 9 * 7 + (total_lines - 9) * 8;

    assert_eq!(
        preview.notice.unwrap(),
        format!("… ({total_lines} lines, {total_bytes} bytes total)")
    );
}

#[test]
fn long_lines_are_cut_to_the_width_budget() {
    let content = format!(
        "{}\n{}",
        "x".repeat(MAX_LINE_WIDTH + 10),
        "y".repeat(MAX_LINE_WIDTH + 10)
    );

    let preview = Preview::file("a.txt", &content);

    assert_eq!(preview.lines.len(), 2);

    for line in &preview.lines {
        let line = line.shown();

        assert_eq!(line.len(), MAX_LINE_WIDTH + '…'.len_utf8());
        assert!(line.ends_with('…'));
    }

    assert!(preview.notice.is_none());
}

#[test]
fn cuts_do_not_split_multibyte_characters() {
    let content = "中".repeat(MAX_LINE_WIDTH / 3 + 10);
    let preview = Preview::file("a.txt", &content);

    assert_eq!(preview.lines.len(), 1);

    let line = preview.lines[0].shown();
    let cut = &line[..line.len() - '…'.len_utf8()];

    assert!(line.ends_with('…'));
    assert!(cut.chars().all(|c| c == '中'));
}

#[test]
fn a_path_without_an_extension_has_no_language() {
    assert_eq!(Preview::file("Makefile", "all:\n").language, "");
    assert_eq!(Preview::new("bash", "$ ls", 500).language, "bash");
}

#[test]
fn parses_arguments_and_caches_preview() {
    let write = Write::new("a.txt".to_owned(), "a\nb\nc".to_owned());

    assert_eq!(write.path, "a.txt");
    assert_eq!(write.content, "a\nb\nc");
    assert_eq!(write.preview.lines.len(), 3);
    assert!(write.preview.notice.is_none());
}

#[test]
fn highlights_the_preview_with_the_language_of_the_path() {
    let write = Write::new("a.rs".to_owned(), "let s = \"hi\";".to_owned());

    // The grammar is picked by the path's extension; the line is kept
    // whole for the highlighter.
    assert_eq!(write.preview.language, "rs");
    assert_eq!(write.preview.lines.len(), 1);
    assert_eq!(write.preview.lines[0].text, "let s = \"hi\";");
    assert!(!write.preview.lines[0].cut);
}

#[test]
fn parses_arguments_and_caches_diff() {
    let edit = Edit {
        path: "README".to_owned(),
        old_string: "a\nb".to_owned(),
        new_string: "a\nc".to_owned(),
        replace_all: false,
    };

    assert_eq!(edit.path, "README");
    assert!(!edit.replace_all);

    // One line kept, one deleted, one added.
    assert_eq!(changes(&edit.old_string, &edit.new_string).len(), 3);
}

#[test]
fn the_preview_carries_a_prompt_and_uses_the_bash_grammar() {
    let bash = Bash::new("export FOO=bar".to_owned(), None);
    let preview = bash.preview();

    assert_eq!(preview.language, "bash");
    assert_eq!(preview.lines.len(), 1);
    assert_eq!(preview.lines[0].text, "export FOO=bar");

    // The first line is shown behind the plain prompt.
    let lines: Vec<String> = preview.lines.iter().map(|line| line.shown()).collect();
    assert_eq!(
        preview_block(&lines, &preview.notice, Some(PROMPT)),
        "<pre class=\"tool-block view\">$ export FOO=bar</pre>"
    );
}

#[test]
fn a_long_command_line_is_not_cut_at_the_write_preview_budget() {
    let command = "x".repeat(MAX_LINE_WIDTH + 50);
    let bash = Bash::new(command.clone(), None);
    let preview = bash.preview();

    assert_eq!(preview.lines.len(), 1);
    assert!(!preview.lines[0].cut);
    assert_eq!(preview.lines[0].shown(), command);
    assert!(preview.notice.is_none());

    // Past the bash budget, the line is cut.
    let bash = Bash::new("x".repeat(PREVIEW_LINE_WIDTH + 1), None);
    assert!(bash.preview().lines[0].cut);
}
