use pick::drafts::{Anchor, Draft, DraftEvent, Drafts};
use pick::review::Number;

fn anchor(path: &str, line: usize) -> Anchor {
    Anchor { path: path.to_owned(), number: Number::Context(line, line) }
}

fn texts(drafts: &Drafts) -> Vec<(String, usize, String, bool)> {
    drafts
        .entries
        .iter()
        .map(|(a, d)| {
            let line = match a.number {
                Number::Context(_, n) | Number::New(n) | Number::Old(n) => n,
            };
            match d {
                Draft::Writing(t) => (a.path.clone(), line, t.clone(), false),
                Draft::Pending(t) => (a.path.clone(), line, t.clone(), true),
            }
        })
        .collect()
}

#[test]
fn a_draft_is_written_then_added_to_the_review() {
    let mut drafts = Drafts::new();
    assert!(!drafts.update(DraftEvent::Comment(anchor("a.rs", 2))));
    assert!(!drafts.update(DraftEvent::Changed(anchor("a.rs", 2), "  tidy this  ".to_owned())));
    assert_eq!(texts(&drafts), [("a.rs".to_owned(), 2, "  tidy this  ".to_owned(), false)]);
    assert!(!drafts.is_reviewing());

    assert!(!drafts.update(DraftEvent::AddToReview(anchor("a.rs", 2))));
    assert_eq!(texts(&drafts), [("a.rs".to_owned(), 2, "tidy this".to_owned(), true)]);
    assert!(drafts.is_reviewing());

    // A waiting draft is no longer edited.
    assert!(!drafts.update(DraftEvent::Changed(anchor("a.rs", 2), "other".to_owned())));
    assert_eq!(texts(&drafts)[0].2, "tidy this");
}

#[test]
fn sending_a_draft_sends_the_review_and_takes_the_waiting_drafts() {
    let mut drafts = Drafts::new();
    drafts.update(DraftEvent::Comment(anchor("a.rs", 1)));
    drafts.update(DraftEvent::Changed(anchor("a.rs", 1), "first".to_owned()));
    drafts.update(DraftEvent::AddToReview(anchor("a.rs", 1)));
    drafts.update(DraftEvent::Comment(anchor("b.rs", 5)));
    drafts.update(DraftEvent::Changed(anchor("b.rs", 5), "second ".to_owned()));
    drafts.update(DraftEvent::Comment(anchor("c.rs", 9)));

    // Sending a line with no draft being written sends nothing.
    assert!(!drafts.update(DraftEvent::Send(anchor("d.rs", 1))));
    assert!(drafts.update(DraftEvent::Send(anchor("b.rs", 5))));

    let taken: Vec<(String, String)> =
        drafts.take_pending().into_iter().map(|(a, t)| (a.path, t)).collect();
    assert_eq!(taken, [("a.rs".to_owned(), "first".to_owned()), ("b.rs".to_owned(), "second".to_owned())]);
    assert_eq!(texts(&drafts), [("c.rs".to_owned(), 9, String::new(), false)]);
    assert!(drafts.update(DraftEvent::SendReview));
}

#[test]
fn a_new_comment_replaces_the_draft_and_a_cancel_drops_it() {
    let mut drafts = Drafts::new();
    drafts.update(DraftEvent::Comment(anchor("a.rs", 3)));
    drafts.update(DraftEvent::Changed(anchor("a.rs", 3), "x".to_owned()));
    drafts.update(DraftEvent::Comment(anchor("a.rs", 3)));
    assert_eq!(texts(&drafts), [("a.rs".to_owned(), 3, String::new(), false)]);

    drafts.update(DraftEvent::Cancel(anchor("a.rs", 3)));
    drafts.update(DraftEvent::Cancel(anchor("a.rs", 4)));
    assert!(texts(&drafts).is_empty());
}
