use pick::diff::{changes, gutter, segments, sides, Change, Segment, Tag};
use pick::git::{Hunk, Line, Range};

fn values(parts: &[(bool, &str)]) -> Vec<(bool, String)> {
    parts.iter().map(|(emphasized, text)| (*emphasized, text.to_string())).collect()
}

/// The text a line is drawn as: its marker, then its segments.
fn drawn(tag: Tag, line: &str, segs: &[Segment]) -> String {
    let mut text = tag.marker();
    for seg in segs {
        let (start, end) = match *seg {
            Segment::Emphasis { start, end } => (start, end),
            Segment::Scoped { start, end, .. } => (start, end),
        };
        text.push_str(&line[start..end]);
    }
    text
}

fn draw(change: &Change, ends: &[usize]) -> String {
    drawn(change.tag, &change.text, &segments(change.tag, &change.text, &change.values, &ends.to_vec()))
}

fn emphasized(change: &Change) -> Vec<String> {
    segments(change.tag, &change.text, &change.values, &vec![])
        .iter()
        .filter_map(|seg| match *seg {
            Segment::Emphasis { start, end } => Some(change.text[start..end].to_owned()),
            Segment::Scoped { .. } => None,
        })
        .collect()
}

#[test]
fn a_diff_without_grammar_or_changes_renders_plain_lines() {
    let diff = changes("a\nb", "a\nc");

    let [context, removed, added] = &diff[..] else { panic!("three lines, not {}", diff.len()) };

    assert_eq!(context.tag, Tag::Context);
    assert_eq!(removed.tag, Tag::Deletion);
    assert_eq!(added.tag, Tag::Addition);

    assert_eq!(draw(context, &[]), "  a");
    assert_eq!(draw(removed, &[]), "- b");
    assert_eq!(draw(added, &[]), "+ c");
}

#[test]
fn highlights_intraline_changes() {
    let diff = changes("let x = 1\n", "let x = 2\n");

    let [removed, added] = &diff[..] else { panic!("two lines, not {}", diff.len()) };

    assert_eq!(removed.tag, Tag::Deletion);
    assert_eq!(added.tag, Tag::Addition);
    assert_eq!(emphasized(removed), ["1"]);
    assert_eq!(emphasized(added), ["2"]);
    assert_eq!(draw(removed, &[]), "- let x = 1");
    assert_eq!(draw(added, &[]), "+ let x = 2");
}

#[test]
fn a_multi_line_diff_renders_a_line_per_file_line() {
    let diff = changes("a\nb\nc", "a\nx\ny\nz\nc");

    let drawn: Vec<String> = diff.iter().map(|change| draw(change, &[])).collect();
    assert_eq!(drawn, ["  a", "- b", "+ x", "+ y", "+ z", "  c"]);
}

#[test]
fn strips_line_terminators() {
    for (old, new) in [
        ("foo 1", "foo 2"),
        ("foo 1\n", "foo 2\n"),
        ("foo 1\nbar\nbaz", "foo 2\nbar\nqux\n"),
        ("foo 1\r\n", "foo 2\r\n"),
    ] {
        for change in changes(old, new) {
            let text = draw(&change, &[2, 4]);
            assert!(!text.contains('\n') && !text.contains('\r'), "{text:?}");
        }
    }
}

#[test]
fn strips_lone_cr_terminators() {
    let diff = changes("foo 1\rbar\rbaz\r", "foo 2\rbar\rqux\r");

    let drawn: Vec<String> = diff.iter().map(|change| draw(change, &[])).collect();
    assert_eq!(drawn, ["- foo 1", "+ foo 2", "  bar", "- baz", "+ qux"]);
}

#[test]
fn scope_boundaries_never_emit_empty_spans() {
    for (old, new) in [
        ("let x = 1\n", "let x = 2\n"),
        ("let x = 1; y\n", "let x = 2; y\n"),
        ("let x = 1\r\n", "let x = 2\r\n"),
        ("fn main() {\n    let x = 1;\n}\n", "fn main() {\n    let x = 2;\n}\n"),
    ] {
        for change in changes(old, new) {
            for ends in [vec![], vec![0, 0, 3, 3, 4], vec![3, 4, 8, 9, 10, 40], vec![1, 2, 3, 4, 5, 6, 7]] {
                for seg in segments(change.tag, &change.text, &change.values, &ends) {
                    match seg {
                        Segment::Emphasis { start, end } | Segment::Scoped { start, end, .. } => {
                            assert!(start < end, "zero-width segment in {:?}", change.text)
                        }
                    }
                }
            }
        }
    }
}

#[test]
fn a_line_without_scopes_is_rendered_plain() {
    let line = "let x = 1\n";
    let segs = segments(Tag::Deletion, line, &values(&[(false, line)]), &vec![]);

    assert_eq!(segs, vec![Segment::Scoped { start: 0, end: 9, scope: None }]);
    assert_eq!(drawn(Tag::Deletion, line, &segs), "- let x = 1");
}

#[test]
fn scopes_that_stop_short_of_the_end_leave_the_remainder_plain() {
    let line = "let x = 1\n";
    let segs = segments(Tag::Addition, line, &values(&[(false, line)]), &vec![3]);

    assert_eq!(
        segs,
        vec![
            Segment::Scoped { start: 0, end: 3, scope: Some(0) },
            Segment::Scoped { start: 3, end: 9, scope: None },
        ]
    );
    assert_eq!(drawn(Tag::Addition, line, &segs), "+ let x = 1");
}

#[test]
fn an_empty_line_is_rendered_without_scopes() {
    let segs = segments(Tag::Context, "", &vec![], &vec![]);

    assert!(segs.is_empty());
    assert_eq!(drawn(Tag::Context, "", &segs), "  ");
}

#[test]
fn a_run_of_changed_words_is_one_segment_and_context_lines_are_not_emphasized() {
    let line = "let xy = 1;\n";
    let parts = values(&[(false, "let "), (true, "x"), (true, "y"), (false, " = 1;\n")]);

    assert_eq!(
        segments(Tag::Deletion, line, &parts, &vec![3, 6]),
        vec![
            Segment::Scoped { start: 0, end: 3, scope: Some(0) },
            Segment::Scoped { start: 3, end: 4, scope: Some(1) },
            Segment::Emphasis { start: 4, end: 6 },
            Segment::Scoped { start: 6, end: 11, scope: None },
        ]
    );
    assert_eq!(
        segments(Tag::Context, line, &parts, &vec![]),
        vec![
            Segment::Scoped { start: 0, end: 4, scope: None },
            Segment::Scoped { start: 4, end: 5, scope: None },
            Segment::Scoped { start: 5, end: 6, scope: None },
            Segment::Scoped { start: 6, end: 11, scope: None },
        ]
    );

    // A run of changed words that ends the line ends the drawing, before
    // the terminator.
    let parts = values(&[(false, "let "), (true, "xy = 1;\n")]);
    assert_eq!(
        segments(Tag::Addition, line, &parts, &vec![]),
        vec![Segment::Scoped { start: 0, end: 4, scope: None }, Segment::Emphasis { start: 4, end: 11 }]
    );
}

#[test]
fn an_emphasized_terminator_is_dropped_too() {
    // A deleted `a\n` marked changed draws as `- a`.
    assert_eq!(
        segments(Tag::Deletion, "a\n", &values(&[(true, "a\n")]), &vec![]),
        vec![Segment::Emphasis { start: 0, end: 1 }]
    );

    // A changed terminator alone draws nothing.
    assert_eq!(
        segments(Tag::Addition, "ab\r\n", &values(&[(false, "ab"), (true, "\r\n")]), &vec![]),
        vec![Segment::Scoped { start: 0, end: 2, scope: None }]
    );
}

#[test]
fn the_gutter_numbers_each_side() {
    let tags = vec![Tag::Context, Tag::Deletion, Tag::Addition, Tag::Addition, Tag::Context];

    assert_eq!(
        gutter(&tags, 10, 20),
        vec![
            (Some(10), Some(20)),
            (Some(11), None),
            (None, Some(21)),
            (None, Some(22)),
            (Some(12), Some(23)),
        ]
    );
}

#[test]
fn a_hunk_splits_into_its_old_and_new_sides() {
    let hunk = Hunk {
        old: Range { start: 1, count: 3 },
        new: Range { start: 1, count: 3 },
        heading: None,
        lines: vec![
            Line::Context { old: 1, new: 1, text: "a".into() },
            Line::Deleted { old: 2, text: "b".into() },
            Line::Added { new: 2, text: "c".into() },
            Line::Context { old: 3, new: 3, text: "".into() },
        ],
    };

    let (old, new) = sides(&hunk);
    assert_eq!(old, "a\nb\n\n");
    assert_eq!(new, "a\nc\n\n");

    let diff = changes(&old, &new);
    let drawn: Vec<String> = diff.iter().map(|change| draw(change, &[])).collect();
    assert_eq!(drawn, ["  a", "- b", "+ c", "  "]);
}

#[test]
fn each_line_of_a_diff_is_its_words_one_after_the_other() {
    let raw = vec![
        (Tag::Context, vec![(false, "keep\n".to_owned())]),
        (Tag::Deletion, vec![(false, "let x = ".to_owned()), (true, "1".to_owned()), (false, ";\n".to_owned())]),
        (Tag::Addition, vec![(false, "let x = ".to_owned()), (true, "2".to_owned()), (false, ";\n".to_owned())]),
    ];

    let lines = pick::diff::changes_from(&raw);

    assert_eq!(lines.len(), 3);
    assert_eq!(lines[0].tag, Tag::Context);
    assert_eq!(lines[0].text, "keep\n");
    assert_eq!(lines[1].tag, Tag::Deletion);
    assert_eq!(lines[1].text, "let x = 1;\n");
    assert_eq!(lines[2].tag, Tag::Addition);
    assert_eq!(lines[2].text, "let x = 2;\n");
    assert_eq!(lines[2].values, raw[2].1);
}

#[test]
fn the_sides_of_a_diff_make_up_the_two_texts() {
    let old = "one\ntwo\nthree\n";
    let new = "one\n2\nthree\nfour";
    let lines = changes(old, new);

    let side = |keep: Tag| -> String {
        lines
            .iter()
            .filter(|line| line.tag == Tag::Context || line.tag == keep)
            .map(|line| line.text.as_str())
            .collect()
    };
    assert_eq!(side(Tag::Deletion), old);
    assert_eq!(side(Tag::Addition), new);
}

#[test]
fn each_change_is_one_line_of_its_text() {
    let old = "a\r\nb\rc\nd";
    let new = "a\r\nx\rc\nd\n";
    let lines = changes(old, new);

    let side = |keep: Tag| -> Vec<String> {
        lines
            .iter()
            .filter(|line| line.tag == Tag::Context || line.tag == keep)
            .map(|line| line.text.clone())
            .collect()
    };
    assert_eq!(side(Tag::Deletion), ["a\r\n", "b\r", "c\n", "d"]);
    assert_eq!(side(Tag::Addition), ["a\r\n", "x\r", "c\n", "d\n"]);
}
