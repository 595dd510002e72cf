use pick::diff::{changes, gutter, sides, Tag};
use pick::git::{Hunk, Line, Range};
use pick::review::{finish, Comment, Number, Pending, Review};

/// The lines of the hunk the comments are made on, as the diff shows
/// them, with a deletion and an addition in each half.
fn lines() -> Vec<Line> {
    let context = |old: usize, new: usize| Line::Context { old, new, text: format!("line {old}") };
    vec![
        context(1, 1),
        context(2, 2),
        Line::Deleted { old: 3, text: "c".into() },
        Line::Added { new: 3, text: "C".into() },
        context(4, 4),
        context(5, 5),
        context(6, 6),
        context(7, 7),
        context(8, 8),
        context(9, 9),
        context(10, 10),
        context(11, 11),
        Line::Deleted { old: 12, text: "l".into() },
        context(13, 12),
        context(14, 13),
        Line::Added { new: 14, text: "N".into() },
        context(15, 15),
        context(16, 16),
    ]
}

/// Where the line `number` is in the hunk, if it is there.
fn position(number: Number) -> Option<usize> {
    lines().iter().position(|line| match (line, number) {
        (Line::Context { old, new, .. }, Number::Context(o, n)) => *old == o && *new == n,
        (Line::Added { new, .. }, Number::New(n)) => *new == n,
        (Line::Deleted { old, .. }, Number::Old(o)) => *old == o,
        _ => false,
    })
}

/// A pending comment on the line `number` of `path`, the file at `file`
/// in the diff.
fn pending(path: &str, file: usize, number: Number, content: &str) -> Pending {
    match position(number) {
        Some(at) => Pending {
            order: Some((file, 0, at)),
            comment: Comment::new(path, number, &lines()[at], content.to_owned()),
        },
        None => Pending {
            order: None,
            comment: Comment {
                reference: path.to_owned(),
                line: None,
                content: content.to_owned(),
                context: vec![],
            },
        },
    }
}

/// The hunks of the files the comments are made on, as shown: two files,
/// each with the hunk of `lines`.
fn shown() -> Vec<Vec<Hunk>> {
    let hunk = Hunk {
        old: Range { start: 1, count: 16 },
        new: Range { start: 1, count: 16 },
        heading: None,
        lines: lines(),
    };
    vec![vec![hunk.clone()], vec![hunk]]
}

/// The review of `pending` and `text` on the hunks of `shown`.
fn finish_shown(pending: Vec<Pending>, text: &str) -> Option<Review> {
    finish(pending, text, &shown())
}

#[test]
fn a_blank_review_message_is_dropped() {
    let review = finish_shown(vec![pending("src/lib.rs", 0, Number::Context(2, 2), "a comment")], "   ")
        .expect("a review");

    assert!(review.message.is_none());
    assert_eq!(review.comments.len(), 1);
}

#[test]
fn only_stale_comments_yield_no_review() {
    assert!(finish_shown(vec![pending("src/lib.rs", 0, Number::New(99), "stale")], "").is_none());
    assert!(finish_shown(vec![], "a pending message").is_none());
}

#[test]
fn comments_are_sorted_by_path_and_line() {
    let review = finish_shown(
        vec![
            pending("src/b.rs", 1, Number::Context(2, 2), "b2"),
            pending("src/a.rs", 0, Number::Context(16, 16), "a16"),
            pending("src/a.rs", 0, Number::Context(2, 2), "a2"),
            pending("src/b.rs", 1, Number::Context(16, 16), "b16"),
        ],
        "",
    )
    .expect("a review");

    let references: Vec<&str> = review.comments.iter().map(|c| c.reference.as_str()).collect();
    assert_eq!(references, ["src/a.rs:R2", "src/a.rs:R16", "src/b.rs:R2", "src/b.rs:R16"]);
}

#[test]
fn comments_are_sorted_by_their_line_not_their_kind() {
    let review = finish_shown(
        vec![
            pending("a.rs", 0, Number::New(14), "an addition, late"),
            pending("a.rs", 0, Number::Old(3), "a deletion, early"),
            pending("a.rs", 0, Number::Context(16, 16), "a context, late"),
            pending("a.rs", 0, Number::New(3), "an addition, early"),
            pending("a.rs", 0, Number::Old(12), "a deletion, late"),
            pending("a.rs", 0, Number::Context(2, 2), "a context, early"),
        ],
        "",
    )
    .expect("a review");

    let references: Vec<&str> = review.comments.iter().map(|c| c.reference.as_str()).collect();
    assert_eq!(references, ["a.rs:R2", "a.rs:L3", "a.rs:R3", "a.rs:L12", "a.rs:R14", "a.rs:R16"]);
}

#[test]
fn comments_on_missing_lines_are_dropped() {
    let review = finish_shown(
        vec![
            pending("a.rs", 0, Number::New(99), "stale"),
            pending("a.rs", 0, Number::Old(3), "the deletion"),
        ],
        "",
    )
    .expect("a review");

    let [comment] = review.comments.as_slice() else { panic!("one comment") };
    assert_eq!(comment.reference, "a.rs:L3");
    assert_eq!(comment.line.as_deref(), Some("- c"));
}

#[test]
fn a_reviews_message_is_trimmed_and_its_comments_keep_their_content() {
    let review = finish_shown(
        vec![
            pending("a.rs", 0, Number::Context(5, 5), "close two"),
            pending("a.rs", 0, Number::Context(2, 2), "close one"),
        ],
        "  review this  ",
    )
    .expect("a review");

    assert_eq!(review.message.as_deref(), Some("review this"));
    let contents: Vec<&str> = review.comments.iter().map(|c| c.content.as_str()).collect();
    assert_eq!(contents, ["close one", "close two"]);
}

#[test]
fn without_pending_comments_the_review_is_none() {
    // A comment still being written is no pending comment: with none, the
    // message alone makes no review.
    assert!(finish_shown(vec![], "a pending message").is_none());
}

#[test]
fn comments_keep_their_line_and_the_two_before_it() {
    let review = finish_shown(
        vec![
            pending("src/lib.rs", 0, Number::Context(16, 16), "far away"),
            pending("src/lib.rs", 0, Number::Context(2, 2), "close one"),
            pending("src/lib.rs", 0, Number::Context(5, 5), "close two"),
        ],
        "  review this  ",
    )
    .expect("a review");

    // The comments are sorted by line, each keeps the line it is on and
    // its content, and the message is trimmed.
    let references: Vec<&str> = review.comments.iter().map(|c| c.reference.as_str()).collect();
    assert_eq!(references, ["src/lib.rs:R2", "src/lib.rs:R5", "src/lib.rs:R16"]);
    let quoted: Vec<&str> = review.comments.iter().map(|c| c.line.as_deref().unwrap()).collect();
    assert_eq!(quoted, ["  line 2", "  line 5", "  line 16"]);
    let contents: Vec<&str> = review.comments.iter().map(|c| c.content.as_str()).collect();
    assert_eq!(contents, ["close one", "close two", "far away"]);
    assert_eq!(review.message.as_deref(), Some("review this"));

    // Each is shown with its line and the two before it; the first, near
    // the top of the hunk, has only two lines in all.
    let contexts: Vec<Vec<&str>> = review
        .comments
        .iter()
        .map(|c| c.context.iter().map(String::as_str).collect())
        .collect();
    assert_eq!(contexts[0], ["  line 1", "  line 2"]);
    assert_eq!(contexts[1], ["+ C", "  line 4", "  line 5"]);
    assert_eq!(contexts[2], ["+ N", "  line 15", "  line 16"]);
}

#[test]
fn a_comment_resolves_against_the_displayed_hunk() {
    // Git and the displayed diff may align a hunk differently: here git
    // claims a deletion and an addition of the same line, while the
    // display sees only context lines.
    let raw = Hunk {
        old: Range { start: 1, count: 3 },
        new: Range { start: 1, count: 3 },
        heading: None,
        lines: vec![
            Line::Context { old: 1, new: 1, text: "a".into() },
            Line::Deleted { old: 2, text: "a".into() },
            Line::Added { new: 2, text: "a".into() },
            Line::Context { old: 3, new: 3, text: "a".into() },
        ],
    };

    // The lines as displayed, and their numbers.
    let (old, new) = sides(&raw);
    let shown = changes(&old, &new);
    let tags: Vec<Tag> = shown.iter().map(|line| line.tag).collect();
    assert!(tags.iter().all(|tag| *tag == Tag::Context));
    let numbers = gutter(&tags, raw.old.start, raw.new.start);

    // The comment on the displayed context line 2 resolves there.
    let at = numbers.iter().position(|n| *n == (Some(2), Some(2))).expect("the line is shown");
    let line = Line::Context { old: 2, new: 2, text: "a".into() };
    let review = finish(
        vec![Pending {
            order: Some((0, 0, at)),
            comment: Comment::new("src/lib.rs", Number::Context(2, 2), &line, "a context".to_owned()),
        }],
        "",
        &vec![vec![raw.clone()]],
    )
    .expect("a review");

    let [comment] = review.comments.as_slice() else { panic!("one comment") };
    assert_eq!(comment.reference, "src/lib.rs:R2");
    assert_eq!(comment.content, "a context");
    assert_eq!(comment.context, ["  a", "- a"]);
}
