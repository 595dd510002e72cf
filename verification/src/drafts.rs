//! The comments of a review as they are written: each line of the diff has
//! at most one draft, which is being written, or waits, trimmed, for the
//! review to be sent.

use vstd::prelude::*;

use crate::review::Number;
use crate::text::{chars_of, same_chars, string_of, trim, trimmed};

verus! {

/// The line of the diff a comment is on: its file and its numbers.
#[derive(Debug, Clone)]
pub struct Anchor {
    pub path: String,
    pub number: Number,
}

/// An anchor by its path's characters.
pub open spec fn key(a: Anchor) -> (Seq<char>, Number) {
    (a.path@, a.number)
}

/// A draft of a comment: being written, with the text so far, or waiting
/// for the review, with its text trimmed.
#[derive(Debug, Clone)]
pub enum Draft {
    Writing(String),
    Pending(String),
}

/// A draft, by its text's characters.
pub enum DraftView {
    Writing(Seq<char>),
    Pending(Seq<char>),
}

impl View for Draft {
    type V = DraftView;

    open spec fn view(&self) -> DraftView {
        match self {
            Draft::Writing(t) => DraftView::Writing(t@),
            Draft::Pending(t) => DraftView::Pending(t@),
        }
    }
}

/// What happens to the drafts.
#[derive(Debug)]
pub enum DraftEvent {
    /// A comment is begun on the line: an empty draft, in place of any.
    Comment(Anchor),
    /// The text of the draft being written on the line is now the text.
    Changed(Anchor, String),
    /// The draft on the line is dropped.
    Cancel(Anchor),
    /// The draft being written on the line joins the review, which is
    /// sent at once.
    Send(Anchor),
    /// The draft being written on the line joins the review.
    AddToReview(Anchor),
    /// The review is sent.
    SendReview,
}

/// Whether no two drafts of `s` are on one line.
pub open spec fn unique(s: Seq<(Anchor, Draft)>) -> bool {
    forall|i: int, j: int| 0 <= i < j < s.len() ==> key(#[trigger] s[i].0) != key(#[trigger] s[j].0)
}

/// The draft of `s` on the line `a`, if there is one.
pub open spec fn lookup(s: Seq<(Anchor, Draft)>, a: (Seq<char>, Number)) -> Option<DraftView> {
    if exists|i: int| 0 <= i < s.len() && key(#[trigger] s[i].0) == a {
        Some(s[choose|i: int| 0 <= i < s.len() && key(#[trigger] s[i].0) == a].1@)
    } else {
        None
    }
}

/// The draft on the line `b` after the event `e`, the draft there having
/// been `d`, and whether the review is sent.
pub open spec fn drafted(d: Option<DraftView>, e: DraftEvent, b: (Seq<char>, Number)) -> (
    Option<DraftView>,
    bool,
) {
    match e {
        DraftEvent::Comment(a) => (
            if key(a) == b {
                Some(DraftView::Writing(seq![]))
            } else {
                d
            },
            false,
        ),
        DraftEvent::Changed(a, t) => (
            if key(a) == b && d matches Some(DraftView::Writing(_)) {
                Some(DraftView::Writing(t@))
            } else {
                d
            },
            false,
        ),
        DraftEvent::Cancel(a) => (
            if key(a) == b {
                None
            } else {
                d
            },
            false,
        ),
        DraftEvent::Send(a) | DraftEvent::AddToReview(a) => (
            if key(a) == b {
                pended(d)
            } else {
                d
            },
            false,
        ),
        DraftEvent::SendReview => (d, true),
    }
}

/// The draft `d` made to wait for the review, trimmed, where it is being
/// written.
pub open spec fn pended(d: Option<DraftView>) -> Option<DraftView> {
    match d {
        Some(DraftView::Writing(t)) => Some(DraftView::Pending(trim(t))),
        _ => d,
    }
}

/// Whether the event `e` sends the review, the drafts being `s`: a send
/// of a draft being written, or of the review.
pub open spec fn sends(s: Seq<(Anchor, Draft)>, e: DraftEvent) -> bool {
    match e {
        DraftEvent::Send(a) => lookup(s, key(a)) matches Some(DraftView::Writing(_)),
        DraftEvent::SendReview => true,
        _ => false,
    }
}

/// The drafts of the comments of a review, at most one per line.
pub struct Drafts {
    pub entries: Vec<(Anchor, Draft)>,
}

proof fn lemma_lookup_at(s: Seq<(Anchor, Draft)>, i: int)
    requires
        unique(s),
        0 <= i < s.len(),
    ensures
        lookup(s, key(s[i].0)) == Some(s[i].1@),
{
    let a = key(s[i].0);
    assert(0 <= i < s.len() && key(s[i].0) == a);
    let j = choose|j: int| 0 <= j < s.len() && key(#[trigger] s[j].0) == a;
    if j != i {
        if j < i {
            assert(key(s[j].0) != key(s[i].0));
        } else {
            assert(key(s[i].0) != key(s[j].0));
        }
    }
}

proof fn lemma_lookup_none(s: Seq<(Anchor, Draft)>, a: (Seq<char>, Number))
    requires
        forall|i: int| 0 <= i < s.len() ==> key(#[trigger] s[i].0) != a,
    ensures
        lookup(s, a) is None,
{
}

/// What is found of `a` in `s`: the draft at the index where it is.
proof fn lemma_lookup_found(s: Seq<(Anchor, Draft)>, a: (Seq<char>, Number))
    requires
        unique(s),
    ensures
        lookup(s, a) is None <==> forall|i: int| 0 <= i < s.len() ==> key(#[trigger] s[i].0) != a,
        forall|i: int| 0 <= i < s.len() && key(#[trigger] s[i].0) == a ==> lookup(s, a) == Some(
            s[i].1@,
        ),
{
    assert forall|i: int| 0 <= i < s.len() && key(#[trigger] s[i].0) == a implies lookup(s, a)
        == Some(s[i].1@) by {
        lemma_lookup_at(s, i);
    }
}

proof fn lemma_set(s: Seq<(Anchor, Draft)>, i: int, x: (Anchor, Draft))
    requires
        unique(s),
        0 <= i < s.len(),
        key(x.0) == key(s[i].0),
    ensures
        unique(s.update(i, x)),
        forall|b: (Seq<char>, Number)|
            #![trigger lookup(s.update(i, x), b)]
            lookup(s.update(i, x), b) == if b == key(x.0) {
                Some(x.1@)
            } else {
                lookup(s, b)
            },
{
    let t = s.update(i, x);
    assert forall|p: int, q: int| 0 <= p < q < t.len() implies key(#[trigger] t[p].0) != key(
        #[trigger] t[q].0,
    ) by {
        assert(key(s[p].0) != key(s[q].0));
    }
    assert forall|b: (Seq<char>, Number)| #![trigger lookup(s.update(i, x), b)] lookup(t, b) == if b
        == key(x.0) {
        Some(x.1@)
    } else {
        lookup(s, b)
    } by {
        lemma_lookup_found(s, b);
        lemma_lookup_found(t, b);
        if b == key(x.0) {
            assert(key(t[i].0) == b);
        } else {
            assert forall|k: int| 0 <= k < s.len() && key(#[trigger] s[k].0) == b implies key(
                t[k].0,
            ) == b && t[k].1@ == s[k].1@ by {}
            assert forall|k: int| 0 <= k < t.len() && key(#[trigger] t[k].0) == b implies key(
                s[k].0,
            ) == b && t[k].1@ == s[k].1@ by {}
        }
    }
}

proof fn lemma_push(s: Seq<(Anchor, Draft)>, x: (Anchor, Draft))
    requires
        unique(s),
        forall|i: int| 0 <= i < s.len() ==> key(#[trigger] s[i].0) != key(x.0),
    ensures
        unique(s.push(x)),
        forall|b: (Seq<char>, Number)|
            #![trigger lookup(s.push(x), b)]
            lookup(s.push(x), b) == if b == key(x.0) {
                Some(x.1@)
            } else {
                lookup(s, b)
            },
{
    let t = s.push(x);
    assert forall|p: int, q: int| 0 <= p < q < t.len() implies key(#[trigger] t[p].0) != key(
        #[trigger] t[q].0,
    ) by {
        if q < s.len() {
            assert(key(s[p].0) != key(s[q].0));
        } else {
            assert(key(s[p].0) != key(x.0));
        }
    }
    assert forall|b: (Seq<char>, Number)| #![trigger lookup(s.push(x), b)] lookup(t, b) == if b
        == key(x.0) {
        Some(x.1@)
    } else {
        lookup(s, b)
    } by {
        lemma_lookup_found(s, b);
        lemma_lookup_found(t, b);
        if b == key(x.0) {
            assert(key(t[s.len() as int].0) == b);
        } else {
            assert forall|k: int| 0 <= k < s.len() && key(#[trigger] s[k].0) == b implies key(
                t[k].0,
            ) == b && t[k].1@ == s[k].1@ by {}
            assert forall|k: int| 0 <= k < t.len() && key(#[trigger] t[k].0) == b implies key(
                s[k].0,
            ) == b && t[k].1@ == s[k].1@ by {}
        }
    }
}

proof fn lemma_remove(s: Seq<(Anchor, Draft)>, i: int)
    requires
        unique(s),
        0 <= i < s.len(),
    ensures
        unique(s.remove(i)),
        forall|b: (Seq<char>, Number)|
            #![trigger lookup(s.remove(i), b)]
            lookup(s.remove(i), b) == if b == key(s[i].0) {
                None
            } else {
                lookup(s, b)
            },
{
    let t = s.remove(i);
    assert forall|p: int, q: int| 0 <= p < q < t.len() implies key(#[trigger] t[p].0) != key(
        #[trigger] t[q].0,
    ) by {
        let p2 = if p < i {
            p
        } else {
            p + 1
        };
        let q2 = if q < i {
            q
        } else {
            q + 1
        };
        assert(t[p] == s[p2] && t[q] == s[q2]);
        assert(key(s[p2].0) != key(s[q2].0));
    }
    assert forall|b: (Seq<char>, Number)| #![trigger lookup(s.remove(i), b)] lookup(t, b) == if b
        == key(s[i].0) {
        None
    } else {
        lookup(s, b)
    } by {
        lemma_lookup_found(s, b);
        lemma_lookup_found(t, b);
        if b == key(s[i].0) {
            assert forall|k: int| 0 <= k < t.len() implies key(#[trigger] t[k].0) != b by {
                let k2 = if k < i {
                    k
                } else {
                    k + 1
                };
                assert(t[k] == s[k2]);
                if k2 < i {
                    assert(key(s[k2].0) != key(s[i].0));
                } else {
                    assert(key(s[i].0) != key(s[k2].0));
                }
            }
        } else {
            assert forall|k: int| 0 <= k < t.len() && key(#[trigger] t[k].0) == b implies lookup(
                s,
                b,
            ) == Some(t[k].1@) by {
                let k2 = if k < i {
                    k
                } else {
                    k + 1
                };
                assert(t[k] == s[k2]);
            }
            assert forall|k: int| 0 <= k < s.len() && key(#[trigger] s[k].0) == b implies lookup(
                t,
                b,
            ) == Some(s[k].1@) by {
                let k2 = if k < i {
                    k
                } else {
                    k - 1
                };
                assert(t[k2] == s[k]);
            }
        }
    }
}

/// Whether the anchors `a` and `b` are on one line.
fn same_anchor(a: &Anchor, b: &Anchor) -> (r: bool)
    ensures
        r == (key(*a) == key(*b)),
{
    a.number == b.number && same_chars(&chars_of(a.path.as_str()), &chars_of(b.path.as_str()))
}

/// A copy of the anchor `a`.
fn copy_anchor(a: &Anchor) -> (r: Anchor)
    ensures
        key(r) == key(*a),
{
    Anchor { path: string_of(&chars_of(a.path.as_str())), number: a.number }
}

impl Drafts {
    /// Whether no two drafts are on one line.
    pub open spec fn wf(&self) -> bool {
        unique(self.entries@)
    }

    /// The draft on the line `a`, if there is one.
    pub open spec fn draft(&self, a: (Seq<char>, Number)) -> Option<DraftView> {
        lookup(self.entries@, a)
    }

    /// No drafts.
    pub fn new() -> (r: Drafts)
        ensures
            r.wf(),
            forall|a: (Seq<char>, Number)| #[trigger] r.draft(a) is None,
    {
        Drafts { entries: Vec::new() }
    }

    /// Where the draft on the line `a` is, if there is one.
    fn find(&self, a: &Anchor) -> (r: Option<usize>)
        ensures
            match r {
                Some(i) => i < self.entries.len() && key(self.entries@[i as int].0) == key(*a),
                None => forall|i: int|
                    0 <= i < self.entries.len() ==> key(#[trigger] self.entries@[i].0) != key(*a),
            },
    {
        let mut i: usize = 0;
        while i < self.entries.len()
            invariant
                i <= self.entries.len(),
                forall|k: int| 0 <= k < i ==> key(#[trigger] self.entries@[k].0) != key(*a),
            decreases self.entries.len() - i,
        {
            if same_anchor(&self.entries[i].0, a) {
                return Some(i);
            }
            i = i + 1;
        }
        None
    }

    /// Whether a review is under way: some draft waits for it.
    pub fn is_reviewing(&self) -> (r: bool)
        ensures
            r == exists|i: int|
                0 <= i < self.entries.len() && #[trigger] self.entries@[i].1 is Pending,
    {
        let mut i: usize = 0;
        while i < self.entries.len()
            invariant
                i <= self.entries.len(),
                forall|k: int| 0 <= k < i ==> !(#[trigger] self.entries@[k].1 is Pending),
            decreases self.entries.len() - i,
        {
            if let Draft::Pending(_) = &self.entries[i].1 {
                return true;
            }
            i = i + 1;
        }
        false
    }

    /// The drafts after the event `e`; whether the review is to be sent,
    /// its waiting drafts then taken by [`Drafts::take_pending`].
    pub fn update(&mut self, e: DraftEvent) -> (r: bool)
        requires
            old(self).wf(),
        ensures
            final(self).wf(),
            forall|b: (Seq<char>, Number)| #[trigger]
                final(self).draft(b) == drafted(old(self).draft(b), e, b).0,
            r == sends(old(self).entries@, e),
    {
        let ghost s = self.entries@;
        proof {
            assert forall|b: (Seq<char>, Number)| #[trigger] lookup(s, b) == lookup(s, b) by {}
        }
        match e {
            DraftEvent::Comment(a) => {
                let x = (copy_anchor(&a), Draft::Writing(String::new()));
                match self.find(&a) {
                    Some(i) => {
                        self.entries.set(i, x);
                        proof {
                            lemma_set(s, i as int, x);
                        }
                    },
                    None => {
                        self.entries.push(x);
                        proof {
                            lemma_push(s, x);
                        }
                    },
                }
                assert(x.1@ == DraftView::Writing(seq![]));
                false
            },
            DraftEvent::Changed(a, t) => {
                match self.find(&a) {
                    Some(i) => {
                        proof {
                            lemma_lookup_at(s, i as int);
                        }
                        if let Draft::Writing(_) = &self.entries[i].1 {
                            let x = (copy_anchor(&a), Draft::Writing(t));
                            self.entries.set(i, x);
                            proof {
                                lemma_set(s, i as int, x);
                            }
                        }
                    },
                    None => {
                        proof {
                            lemma_lookup_none(s, key(a));
                        }
                    },
                }
                false
            },
            DraftEvent::Cancel(a) => {
                match self.find(&a) {
                    Some(i) => {
                        self.entries.remove(i);
                        proof {
                            lemma_remove(s, i as int);
                        }
                    },
                    None => {
                        proof {
                            lemma_lookup_none(s, key(a));
                            assert forall|b: (Seq<char>, Number)| #[trigger]
                                lookup(s, b) == (if key(a) == b {
                                None
                            } else {
                                lookup(s, b)
                            }) by {}
                        }
                    },
                }
                false
            },
            DraftEvent::Send(a) => self.pend(&a),
            DraftEvent::AddToReview(a) => {
                self.pend(&a);
                false
            },
            DraftEvent::SendReview => true,
        }
    }

    /// The draft being written on the line `a`, if there is one, made to
    /// wait, trimmed; whether there was one.
    fn pend(&mut self, a: &Anchor) -> (r: bool)
        requires
            old(self).wf(),
        ensures
            final(self).wf(),
            r == (old(self).draft(key(*a)) matches Some(DraftView::Writing(_))),
            forall|b: (Seq<char>, Number)| #[trigger]
                final(self).draft(b) == if key(*a) == b {
                    pended(old(self).draft(b))
                } else {
                    old(self).draft(b)
                },
    {
        let ghost s = self.entries@;
        match self.find(a) {
            Some(i) => {
                proof {
                    lemma_lookup_at(s, i as int);
                }
                let text = match &self.entries[i].1 {
                    Draft::Writing(t) => Some(string_of(&trimmed(&chars_of(t.as_str())))),
                    Draft::Pending(_) => None,
                };
                match text {
                    Some(t) => {
                        let x = (copy_anchor(a), Draft::Pending(t));
                        self.entries.set(i, x);
                        proof {
                            lemma_set(s, i as int, x);
                        }
                        true
                    },
                    None => false,
                }
            },
            None => {
                proof {
                    lemma_lookup_none(s, key(*a));
                }
                false
            },
        }
    }

    /// Takes the drafts waiting for the review, in order, each with its
    /// line and its text; the drafts being written stay.
    pub fn take_pending(&mut self) -> (r: Vec<(Anchor, String)>)
        requires
            old(self).wf(),
        ensures
            final(self).wf(),
            forall|b: (Seq<char>, Number)| #[trigger]
                final(self).draft(b) == if old(self).draft(b) matches Some(DraftView::Pending(_)) {
                    None
                } else {
                    old(self).draft(b)
                },
            r@ == waiting(old(self).entries@),
    {
        broadcast use vstd::std_specs::vec::axiom_spec_into_iter;

        let ghost s = self.entries@;
        let mut all: Vec<(Anchor, Draft)> = Vec::new();
        std::mem::swap(&mut all, &mut self.entries);
        assert(all@ == s);
        let mut kept: Vec<(Anchor, Draft)> = Vec::new();
        let mut taken: Vec<(Anchor, String)> = Vec::new();
        assert(s.take(0) =~= Seq::<(Anchor, Draft)>::empty());
        for x in it: all.into_iter()
            invariant
                it.seq() == s,
                kept@ == writing(s.take(it.index() as int)),
                taken@ == waiting(s.take(it.index() as int)),
        {
            proof {
                let k = it.index() as int;
                assert(s.take(k + 1).drop_last() =~= s.take(k));
                assert(s.take(k + 1).last() == x);
            }
            match x {
                (a, Draft::Writing(t)) => {
                    kept.push((a, Draft::Writing(t)));
                },
                (a, Draft::Pending(t)) => {
                    taken.push((a, t));
                },
            }
        }
        assert(s.take(s.len() as int) =~= s);
        proof {
            lemma_writing(s);
        }
        self.entries = kept;
        taken
    }
}

/// The drafts of `s` being written, in order.
pub open spec fn writing(s: Seq<(Anchor, Draft)>) -> Seq<(Anchor, Draft)>
    decreases s.len(),
{
    if s.len() == 0 {
        seq![]
    } else {
        writing(s.drop_last()) + match s.last().1 {
            Draft::Writing(_) => seq![s.last()],
            Draft::Pending(_) => seq![],
        }
    }
}

/// The drafts of `s` waiting for the review, in order, each its line and
/// its text.
pub open spec fn waiting(s: Seq<(Anchor, Draft)>) -> Seq<(Anchor, String)>
    decreases s.len(),
{
    if s.len() == 0 {
        seq![]
    } else {
        waiting(s.drop_last()) + match s.last().1 {
            Draft::Writing(_) => seq![],
            Draft::Pending(t) => seq![(s.last().0, t)],
        }
    }
}

proof fn lemma_writing(s: Seq<(Anchor, Draft)>)
    requires
        unique(s),
    ensures
        unique(writing(s)),
        forall|b: (Seq<char>, Number)| #[trigger]
            lookup(writing(s), b) == if lookup(s, b) matches Some(DraftView::Pending(_)) {
                None
            } else {
                lookup(s, b)
            },
    decreases s.len(),
{
    if s.len() > 0 {
        let init = s.drop_last();
        let x = s.last();
        assert(s == init.push(x));
        assert(unique(init)) by {
            assert forall|p: int, q: int| 0 <= p < q < init.len() implies key(
                #[trigger] init[p].0,
            ) != key(#[trigger] init[q].0) by {
                assert(init[p] == s[p] && init[q] == s[q]);
            }
        }
        assert forall|i: int| 0 <= i < init.len() implies key(#[trigger] init[i].0) != key(x.0) by {
            assert(init[i] == s[i]);
            assert(key(s[i].0) != key(s[s.len() - 1].0));
        }
        lemma_writing(init);
        lemma_push(init, x);
        lemma_lookup_none(init, key(x.0));
        match x.1 {
            Draft::Writing(_) => {
                let w = writing(init);
                assert(writing(s) =~= w.push(x));
                lemma_lookup_found(w, key(x.0));
                lemma_push(w, x);
            },
            Draft::Pending(_) => {
                assert(writing(s) =~= writing(init));
            },
        }
    }
}

} // verus!
