use pick::git::{answer, git_args, numstat, Branch, Diff, File, Line, Range, State, Status};

fn file_at<'a>(files: &'a [File], path: &str) -> &'a File {
    files
        .iter()
        .find(|file| file.path == path)
        .unwrap_or_else(|| panic!("{path} is in the diff"))
}

fn context(old: usize, new: usize, text: &str) -> Line {
    Line::Context { old, new, text: text.to_owned() }
}

fn added(new: usize, text: &str) -> Line {
    Line::Added { new, text: text.to_owned() }
}

fn deleted(old: usize, text: &str) -> Line {
    Line::Deleted { old, text: text.to_owned() }
}

/// A patch as `git diff -U3` prints it, with one file for each case the
/// parser handles.
fn patch() -> String {
    [
        "diff --git a/a.txt b/a.txt",
        "index 1111111..2222222 100644",
        "--- a/a.txt",
        "+++ b/a.txt",
        "@@ -1,5 +1,5 @@",
        " l1",
        "-l2",
        "+changed2",
        " ",
        " l4",
        " l5",
        "@@ -7,6 +7,6 @@ l6",
        " l7",
        " l8",
        " l9",
        "-l10",
        "+l10-edited",
        " l11",
        " l12",
        "diff --git a/rs.rs b/rs.rs",
        "index 3333333..4444444 100644",
        "--- a/rs.rs",
        "+++ b/rs.rs",
        "@@ -3,6 +3,6 @@ fn alpha() -> i32 {",
        " }",
        " ",
        " fn main() {",
        "-    let x = 1;",
        "+    let x = 2;",
        "     println!(\"{}\", x);",
        " }",
        "diff --git a/new.txt b/new.txt",
        "new file mode 100644",
        "index 0000000..5555555",
        "--- /dev/null",
        "+++ b/new.txt",
        "@@ -0,0 +1 @@",
        "+world",
        "diff --git a/new_base.txt b/new_base.txt",
        "deleted file mode 100644",
        "index 6666666..0000000",
        "--- a/new_base.txt",
        "+++ /dev/null",
        "@@ -1 +0,0 @@",
        "-hello",
        "diff --git a/héllo.txt b/héllo_renamed.txt",
        "similarity index 100%",
        "rename from héllo.txt",
        "rename to héllo_renamed.txt",
        "diff --git a/bin.txt b/bin.txt",
        "index 7777777..8888888 100644",
        "Binary files a/bin.txt and b/bin.txt differ",
        "diff --git a/mode.txt b/mode.txt",
        "old mode 100644",
        "new mode 100755",
        "diff --git a/mode2.txt b/mode2.txt",
        "old mode 100644",
        "new mode 100755",
        "index 9999999..aaaaaaa",
        "--- a/mode2.txt",
        "+++ b/mode2.txt",
        "@@ -1 +1,2 @@",
        " mode2",
        "+edit",
        "diff --git a/nn.txt b/nn.txt",
        "index bbbbbbb..ccccccc 100644",
        "--- a/nn.txt",
        "+++ b/nn.txt",
        "@@ -1 +1 @@",
        "-no_newline",
        "\\ No newline at end of file",
        "+no_newline_changed",
        "\\ No newline at end of file",
        "diff --git a/crlf.txt b/crlf.txt",
        "index ddddddd..eeeeeee 100644",
        "--- a/crlf.txt",
        "+++ b/crlf.txt",
        "@@ -1,2 +1,2 @@",
        "-crlf1\r",
        "+crlf1x\r",
        " crlf2\r",
        "diff --git a/space name.txt b/space name.txt",
        "index fffffff..1212121 100644",
        "--- a/space name.txt",
        "+++ b/space name.txt",
        "@@ -1 +1,2 @@",
        " space",
        "+spaced",
        "diff --git a/a/x b/a/x",
        "index 2323232..3434343 100644",
        "--- a/a/x",
        "+++ b/a/x",
        "@@ -1 +1,2 @@",
        " inner",
        "+nested",
        "diff --git a/empties.txt b/empties.txt",
        "index 4545454..5656565 100644",
        "--- a/empties.txt",
        "+++ b/empties.txt",
        "@@ -1,3 +1,2 @@",
        " before",
        "-",
        " after",
        "diff --git a/add_empty.txt b/add_empty.txt",
        "index 6767676..7878787 100644",
        "--- a/add_empty.txt",
        "+++ b/add_empty.txt",
        "@@ -1,2 +1,3 @@",
        " one",
        "+",
        " two",
        "",
    ]
    .join("\n")
}

#[test]
fn the_parser_walks_every_case_in_the_patch() {
    let diff = Diff::parse(&patch());

    assert_eq!(diff.files.len(), 14);

    // A modified file with two hunks; the second carries the
    // preceding line as its heading.
    let file = file_at(&diff.files, "a.txt");
    assert_eq!(file.state, State::Modified);
    assert_eq!(file.original, None);
    assert!(!file.mode_changed);
    assert_eq!(file.insertions, 2);
    assert_eq!(file.deletions, 2);
    assert_eq!(file.hunks.len(), 2);
    assert_eq!(file.hunks[0].old, Range { start: 1, count: 5 });
    assert_eq!(file.hunks[0].new, Range { start: 1, count: 5 });
    assert_eq!(file.hunks[0].heading, None);
    assert_eq!(
        file.hunks[0].lines,
        vec![
            context(1, 1, "l1"),
            deleted(2, "l2"),
            added(2, "changed2"),
            context(3, 3, ""),
            context(4, 4, "l4"),
            context(5, 5, "l5"),
        ]
    );
    assert_eq!(file.hunks[1].old, Range { start: 7, count: 6 });
    assert_eq!(file.hunks[1].new, Range { start: 7, count: 6 });
    assert_eq!(file.hunks[1].heading.as_deref(), Some("l6"));
    assert_eq!(
        file.hunks[1].lines[3..],
        [
            deleted(10, "l10"),
            added(10, "l10-edited"),
            context(11, 11, "l11"),
            context(12, 12, "l12"),
        ]
    );

    // A function-context heading.
    let file = file_at(&diff.files, "rs.rs");
    assert_eq!(file.hunks[0].heading.as_deref(), Some("fn alpha() -> i32 {"));
    assert_eq!(file.hunks[0].lines[3], deleted(6, "    let x = 1;"));
    assert_eq!(file.hunks[0].lines[4], added(6, "    let x = 2;"));

    // A new file.
    let file = file_at(&diff.files, "new.txt");
    assert_eq!(file.state, State::Created);
    assert_eq!(file.hunks[0].old, Range { start: 0, count: 0 });
    assert_eq!(file.hunks[0].new, Range { start: 1, count: 1 });
    assert_eq!(file.hunks[0].lines, vec![added(1, "world")]);

    // A deletion.
    let file = file_at(&diff.files, "new_base.txt");
    assert_eq!(file.state, State::Deleted);
    assert_eq!(file.hunks[0].new, Range { start: 0, count: 0 });
    assert_eq!(file.hunks[0].lines, vec![deleted(1, "hello")]);

    // A rename: the new name is the path, the old the original.
    let file = file_at(&diff.files, "héllo_renamed.txt");
    assert_eq!(file.original.as_deref(), Some("héllo.txt"));
    assert_eq!(file.state, State::Modified);
    assert!(file.hunks.is_empty());

    // A binary file: a marker, not numbers.
    let file = file_at(&diff.files, "bin.txt");
    assert_eq!(file.state, State::Binary);
    assert!(file.hunks.is_empty());
    assert_eq!((file.insertions, file.deletions), (0, 0));

    // A mode-only change.
    let file = file_at(&diff.files, "mode.txt");
    assert_eq!(file.state, State::ModeChanged);
    assert!(file.mode_changed);
    assert!(file.hunks.is_empty());

    // A content change with a mode change as well: both are recorded.
    let file = file_at(&diff.files, "mode2.txt");
    assert_eq!(file.state, State::Modified);
    assert!(file.mode_changed);
    assert_eq!(file.insertions, 1);
    assert_eq!(file.hunks[0].lines, vec![context(1, 1, "mode2"), added(2, "edit")]);

    // No trailing newline on either side: the markers are skipped.
    let file = file_at(&diff.files, "nn.txt");
    assert_eq!(
        file.hunks[0].lines,
        vec![deleted(1, "no_newline"), added(1, "no_newline_changed")]
    );

    // CRLF files: the `\r` is not carried into the text.
    let file = file_at(&diff.files, "crlf.txt");
    assert_eq!(
        file.hunks[0].lines,
        vec![deleted(1, "crlf1"), added(1, "crlf1x"), context(2, 2, "crlf2")]
    );

    // Spaces in paths are raw.
    let file = file_at(&diff.files, "space name.txt");
    assert_eq!(file.insertions, 1);
    assert_eq!(file.deletions, 0);

    // A file in a directory named `a`: the prefix is stripped once.
    let file = file_at(&diff.files, "a/x");
    assert_eq!(file.insertions, 1);
    assert_eq!(file.original, None);

    // Deleting an empty line: a bare `-`, and the numbers shift.
    let file = file_at(&diff.files, "empties.txt");
    assert_eq!(
        file.hunks[0].lines,
        vec![context(1, 1, "before"), deleted(2, ""), context(3, 2, "after")]
    );

    // Adding an empty line: a bare `+`, and the numbers shift.
    let file = file_at(&diff.files, "add_empty.txt");
    assert_eq!(
        file.hunks[0].lines,
        vec![context(1, 1, "one"), added(2, ""), context(2, 3, "two")]
    );
}

#[test]
fn conflict_markers_parse_as_ordinary_added_lines() {
    let patch = [
        "diff --git a/f.txt b/f.txt",
        "index 1111111..2222222 100644",
        "--- a/f.txt",
        "+++ b/f.txt",
        "@@ -1 +1,5 @@",
        "+<<<<<<< HEAD",
        " main",
        "+=======",
        "+feat",
        "+>>>>>>> feature",
    ]
    .join("\n");

    let diff = Diff::parse(&patch);
    let file = file_at(&diff.files, "f.txt");
    assert_eq!(file.insertions, 4);
    assert_eq!(
        file.hunks[0].lines,
        vec![
            added(1, "<<<<<<< HEAD"),
            context(1, 2, "main"),
            added(3, "======="),
            added(4, "feat"),
            added(5, ">>>>>>> feature"),
        ]
    );
}

#[test]
fn a_clean_repo_is_an_empty_diff() {
    assert_eq!(Diff::parse("").files.len(), 0);
}

#[test]
fn a_deleted_line_that_looks_like_a_file_header_stays_a_line() {
    let patch = [
        "diff --git a/m.md b/m.md",
        "--- a/m.md",
        "+++ b/m.md",
        "@@ -1,2 +1 @@",
        " keep",
        "--- rule",
    ]
    .join("\n");

    let diff = Diff::parse(&patch);
    let file = file_at(&diff.files, "m.md");
    assert_eq!(file.hunks[0].lines, vec![context(1, 1, "keep"), deleted(2, "-- rule")]);
    assert_eq!(file.deletions, 1);
}

#[test]
fn a_status_report_names_the_branch_and_the_untracked_files() {
    let report = [
        "# branch.oid 0123456789abcdef0123456789abcdef01234567",
        "# branch.head main",
        "1 .M N... 100644 100644 100644 abc abc src/lib.rs",
        "? notes.txt",
        "? docs/draft.md",
        "",
    ]
    .join("\n");

    let status = Status::parse(&report).unwrap();
    assert_eq!(status.branch, Branch::Named("main".to_owned()));
    assert_eq!(status.untracked, vec!["notes.txt".to_owned(), "docs/draft.md".to_owned()]);
    assert_eq!((status.additions, status.deletions), (0, 0));
    assert!(status.has_head());
}

#[test]
fn an_initial_commit_is_an_unborn_branch() {
    let report = "# branch.oid (initial)\n# branch.head trunk\n";

    let status = Status::parse(report).unwrap();
    assert_eq!(status.branch, Branch::Unborn("trunk".to_owned()));
    assert!(!status.has_head());
    assert_eq!(Diff::base(&status, "4b825dc642cb6eb9a060e54bf8d69288fbee4904\n"), "4b825dc642cb6eb9a060e54bf8d69288fbee4904");
}

#[test]
fn a_detached_head_names_its_commit() {
    let report = "# branch.oid deadbeef\n# branch.head (detached)\n";

    let status = Status::parse(report).unwrap();
    match &status.branch {
        Branch::Detached(sha) => assert_eq!(sha.as_str(), "deadbeef"),
        other => panic!("a detached head, not {other:?}"),
    }
    assert_eq!(Diff::base(&status, "unused"), "HEAD");
}

#[test]
fn a_report_without_a_branch_is_an_error() {
    let error = Status::parse("? stray.txt\n").unwrap_err();
    assert_eq!(error.to_string(), "git status returned no branch oid/head");
}

#[test]
fn the_numstat_skips_binary_files() {
    let report = "2\t2\ta.txt\n-\t-\tbin.txt\n1\t0\tnew.txt\n10\t3\tsrc/lib.rs\n";

    assert_eq!(numstat(report), (13, 5));

    let status = Status::parse("# branch.oid abc\n# branch.head main\n")
        .unwrap()
        .with_numstat(report);
    assert_eq!((status.additions, status.deletions), (13, 5));
    assert_eq!(status.branch, Branch::Named("main".to_owned()));
}

#[test]
fn git_is_called_without_quoting_or_locks() {
    let args = git_args("diff", &vec!["HEAD".to_owned(), "--numstat".to_owned()]);

    assert_eq!(
        args,
        vec!["-c", "core.quotePath=false", "--no-optional-locks", "diff", "HEAD", "--numstat"]
    );
}

#[test]
fn a_failed_call_quotes_its_error_stream() {
    assert_eq!(answer("status", true, b"ok\n", b"").unwrap(), "ok\n");

    let error = answer("status", false, b"", b"fatal: not a git repository").unwrap_err();
    assert_eq!(error.to_string(), "git status failed: fatal: not a git repository");
}

#[test]
fn a_file_in_a_directory_named_b_keeps_its_directory() {
    let patch = [
        "diff --git a/b/x b/b/x",
        "index 1111111..2222222 100644",
        "--- a/b/x",
        "+++ b/b/x",
        "@@ -1 +1 @@",
        "-old",
        "+new",
        "",
    ]
    .join("\n");

    let diff = Diff::parse(&patch);
    assert_eq!(diff.files.len(), 1);
    assert_eq!(diff.files[0].path, "b/x");
    assert_eq!(diff.files[0].original, None);
}

#[test]
fn hunk_lines_are_numbered_in_turn_from_the_header() {
    let diff = Diff::parse(&patch());
    for file in &diff.files {
        for hunk in &file.hunks {
            let (mut old, mut new) = (hunk.old.start, hunk.new.start);
            for line in &hunk.lines {
                match line {
                    Line::Context { old: o, new: n, .. } => {
                        assert_eq!((*o, *n), (old, new));
                        old += 1;
                        new += 1;
                    }
                    Line::Added { new: n, .. } => {
                        assert_eq!(*n, new);
                        new += 1;
                    }
                    Line::Deleted { old: o, .. } => {
                        assert_eq!(*o, old);
                        old += 1;
                    }
                }
            }
        }
    }
}

#[test]
fn hunks_hold_as_many_lines_as_their_headers_count() {
    let diff = Diff::parse(&patch());
    let mut hunks = 0;
    for file in &diff.files {
        for hunk in &file.hunks {
            let old = hunk.lines.iter().filter(|l| !matches!(l, Line::Added { .. })).count();
            let new = hunk.lines.iter().filter(|l| !matches!(l, Line::Deleted { .. })).count();
            assert_eq!((old, new), (hunk.old.count, hunk.new.count));
            hunks += 1;
        }
    }
    assert!(hunks > 0);
}
