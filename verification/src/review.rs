//! A review of the pending change: a message, and comments on lines of
//! the diff, sent to the model as one prompt.

use vstd::prelude::*;

use crate::html::join;
use crate::text::{chars_of, extend, push_str, string_of, trim, trimmed};

verus! {

/// A comment on a line of the diff: where the line is (`path:R123`), the
/// text of the line as the diff shows it, if it still resolves to one,
/// what the comment says, and the lines shown with it once the review is
/// finished: its line and up to two lines before it.
#[derive(Debug, Clone)]
pub struct Comment {
    pub reference: String,
    pub line: Option<String>,
    pub content: String,
    pub context: Vec<String>,
}

/// A review: its message, if any, and its comments in the order of the
/// diff.
#[derive(Debug, Clone)]
pub struct Review {
    pub message: Option<String>,
    pub comments: Vec<Comment>,
}

impl Default for Review {
    fn default() -> (r: Review)
        ensures
            r.message is None,
            r.comments@.len() == 0,
    {
        Review { message: None, comments: Vec::new() }
    }
}

/// The block of one comment: the quoted line under its reference, in a
/// code block, and the comment beneath, where it says anything.
pub open spec fn comment_block(reference: Seq<char>, line: Seq<char>, content: Seq<char>) -> Seq<
    char,
> {
    join(
        seq!["```"@, reference, line, "```"@] + if trim(content).len() > 0 {
            seq![trim(content)]
        } else {
            seq![]
        },
        "\n"@,
    )
}

/// The blocks of the comments `cs` that still quote a line.
pub open spec fn comment_blocks(cs: Seq<Comment>) -> Seq<Seq<char>>
    decreases cs.len(),
{
    if cs.len() == 0 {
        seq![]
    } else {
        comment_blocks(cs.drop_last()) + match cs.last().line {
            Some(line) => seq![comment_block(cs.last().reference@, line@, cs.last().content@)],
            None => seq![],
        }
    }
}

/// The text of a review as sent to the model: the message, where it says
/// anything, leads, then one block per comment, apart by blank lines.
pub open spec fn prompt_of(message: Option<Seq<char>>, comments: Seq<Comment>) -> Seq<char> {
    let lead = match message {
        Some(m) => if trim(m).len() > 0 {
            seq![trim(m)]
        } else {
            seq![]
        },
        None => seq![],
    };
    join(lead + comment_blocks(comments), "\n\n"@)
}

/// Appends `ps` joined by `sep` to nothing.
fn joined(ps: &Vec<Vec<char>>, sep: &str) -> (r: Vec<char>)
    ensures
        r@ == join(crate::text::views(ps@), sep@),
{
    let mut r: Vec<char> = Vec::new();
    let mut i: usize = 0;
    while i < ps.len()
        invariant
            i <= ps.len(),
            r@ == join(crate::text::views(ps@).take(i as int), sep@),
        decreases ps.len() - i,
    {
        proof {
            let t = crate::text::views(ps@).take(i + 1);
            assert(t.drop_last() =~= crate::text::views(ps@).take(i as int));
            assert(t.last() == ps@[i as int]@);
            if i == 0 {
                assert(t =~= seq![ps@[0]@]);
            }
        }
        if i > 0 {
            push_str(&mut r, sep);
        }
        extend(&mut r, &ps[i]);
        i = i + 1;
    }
    assert(crate::text::views(ps@).take(i as int) =~= crate::text::views(ps@));
    r
}

impl Review {
    /// The text of the review as sent to the model. The model is expected
    /// to have the surrounding code in context already, so no further
    /// context is quoted.
    pub fn prompt(&self) -> (p: String)
        ensures
            p@ == prompt_of(crate::git::text_view(self.message), self.comments@),
    {
        let mut blocks: Vec<Vec<char>> = Vec::new();
        match &self.message {
            Some(m) => {
                let t = trimmed(&chars_of(m.as_str()));
                if t.len() > 0 {
                    blocks.push(t);
                }
            },
            None => {},
        }
        let ghost lead = crate::text::views(blocks@);
        let mut i: usize = 0;
        while i < self.comments.len()
            invariant
                i <= self.comments.len(),
                crate::text::views(blocks@) == lead + comment_blocks(
                    self.comments@.take(i as int),
                ),
            decreases self.comments.len() - i,
        {
            let comment = &self.comments[i];
            proof {
                let t = self.comments@.take(i + 1);
                assert(t.drop_last() =~= self.comments@.take(i as int));
                assert(t.last() == *comment);
            }
            let ghost before = blocks@;
            match &comment.line {
                Some(line) => {
                    let mut parts: Vec<Vec<char>> = Vec::new();
                    parts.push(chars_of("```"));
                    parts.push(chars_of(comment.reference.as_str()));
                    parts.push(chars_of(line.as_str()));
                    parts.push(chars_of("```"));
                    let content = trimmed(&chars_of(comment.content.as_str()));
                    if content.len() > 0 {
                        parts.push(content);
                    }
                    proof {
                        assert(crate::text::views(parts@) =~= seq![
                            "```"@,
                            comment.reference@,
                            line@,
                            "```"@,
                        ] + if trim(comment.content@).len() > 0 {
                            seq![trim(comment.content@)]
                        } else {
                            seq![]
                        });
                    }
                    let block = joined(&parts, "\n");
                    blocks.push(block);
                    assert(crate::text::views(blocks@) =~= crate::text::views(before).push(block@));
                },
                None => {},
            }
            i = i + 1;
        }
        assert(self.comments@.take(i as int) =~= self.comments@);
        proof {
            let m = crate::git::text_view(self.message);
            assert(lead =~= match m {
                Some(m) => if trim(m).len() > 0 {
                    seq![trim(m)]
                } else {
                    seq![]
                },
                None => seq![],
            });
        }
        string_of(&joined(&blocks, "\n\n"))
    }
}

/// Where a line sits in a diff: on both sides, or on the new or the old
/// side alone.
#[derive(Debug, Clone, Copy, PartialEq, Eq, Structural)]
pub enum Number {
    Context(usize, usize),
    New(usize),
    Old(usize),
}

/// The reference of a line of `path`: `path:R` and its new number, or
/// `path:L` and its old one where it is on the old side alone.
pub open spec fn reference_of(path: Seq<char>, number: Number) -> Seq<char> {
    match number {
        Number::Context(_, new) => path + ":R"@ + crate::text::decimal(new as nat),
        Number::New(new) => path + ":R"@ + crate::text::decimal(new as nat),
        Number::Old(old) => path + ":L"@ + crate::text::decimal(old as nat),
    }
}

/// A line of a diff as quoted: its sign, or a space, then a space and its
/// text.
pub open spec fn quoted_line(line: crate::git::LineView) -> Seq<char> {
    match line {
        crate::git::LineView::Context { text, .. } => "  "@ + text,
        crate::git::LineView::Added { text, .. } => "+ "@ + text,
        crate::git::LineView::Deleted { text, .. } => "- "@ + text,
    }
}

/// The line `line` as quoted.
fn quote(line: &crate::git::Line) -> (r: String)
    ensures
        r@ == quoted_line(line@),
{
    let mut quoted: Vec<char> = Vec::new();
    match line {
        crate::git::Line::Context { text, .. } => {
            push_str(&mut quoted, "  ");
            push_str(&mut quoted, text.as_str());
        },
        crate::git::Line::Added { text, .. } => {
            push_str(&mut quoted, "+ ");
            push_str(&mut quoted, text.as_str());
        },
        crate::git::Line::Deleted { text, .. } => {
            push_str(&mut quoted, "- ");
            push_str(&mut quoted, text.as_str());
        },
    }
    string_of(&quoted)
}

/// The texts of `v`.
pub open spec fn strings(v: Seq<String>) -> Seq<Seq<char>> {
    v.map_values(|s: String| s@)
}

/// The lines shown with a comment at `place` in the files' hunks
/// `hunks`, quoted: its line and up to two lines before it, where the
/// place is a line of them.
pub open spec fn context_lines(hunks: Seq<Vec<crate::git::Hunk>>, place: (usize, usize, usize)) -> Seq<
    Seq<char>,
> {
    let (f, h, p) = place;
    if f < hunks.len() && h < hunks[f as int]@.len() && p < hunks[f as int]@[h as int]@.lines.len() {
        let start: int = if p >= 2 {
            p - 2
        } else {
            0
        };
        hunks[f as int]@[h as int]@.lines.subrange(start, p + 1).map_values(
            |l: crate::git::LineView| quoted_line(l),
        )
    } else {
        seq![]
    }
}

/// The lines shown with a comment at `place`.
fn context_of(hunks: &Vec<Vec<crate::git::Hunk>>, place: (usize, usize, usize)) -> (r: Vec<String>)
    ensures
        strings(r@) == context_lines(hunks@, place),
{
    let (f, h, p) = place;
    let mut r: Vec<String> = Vec::new();
    if f < hunks.len() && h < hunks[f].len() && p < hunks[f][h].lines.len() {
        let lines = &hunks[f][h].lines;
        let ghost lv = hunks@[f as int]@[h as int]@.lines;
        assert(lv == lines@.map_values(|l: crate::git::Line| l@));
        let start: usize = if p >= 2 {
            p - 2
        } else {
            0
        };
        let mut i = start;
        while i <= p
            invariant
                start <= i <= p + 1,
                p < lines.len(),
                lv == lines@.map_values(|l: crate::git::Line| l@),
                strings(r@) == lv.subrange(start as int, i as int).map_values(
                    |l: crate::git::LineView| quoted_line(l),
                ),
            decreases p + 1 - i,
        {
            let q = quote(&lines[i]);
            let ghost before = strings(r@);
            r.push(q);
            assert(lv[i as int] == lines@[i as int]@);
            assert(strings(r@) =~= before.push(quoted_line(lv[i as int])));
            assert(strings(r@) =~= lv.subrange(start as int, i + 1).map_values(
                |l: crate::git::LineView| quoted_line(l),
            ));
            i = i + 1;
        }
    }
    r
}

impl Comment {
    /// A comment saying `content` on the line `line` of `path`, numbered
    /// `number`.
    pub fn new(path: &str, number: Number, line: &crate::git::Line, content: String) -> (c: Comment)
        ensures
            c.reference@ == reference_of(path@, number),
            c.line matches Some(l) && l@ == quoted_line(line@),
            c.content@ == content@,
            c.context@.len() == 0,
    {
        let mut reference: Vec<char> = Vec::new();
        push_str(&mut reference, path);
        match number {
            Number::Context(_, new) => {
                push_str(&mut reference, ":R");
                crate::text::push_decimal(&mut reference, new as u64);
            },
            Number::New(new) => {
                push_str(&mut reference, ":R");
                crate::text::push_decimal(&mut reference, new as u64);
            },
            Number::Old(old) => {
                push_str(&mut reference, ":L");
                crate::text::push_decimal(&mut reference, old as u64);
            },
        }
        Comment { reference: string_of(&reference), line: Some(quote(line)), content, context: Vec::new() }
    }
}

/// A comment waiting to join a review, and where its line is in the diff
/// as it was shown: the file, the hunk and the line's position in it,
/// where the line still resolves to one.
#[derive(Debug, Clone)]
pub struct Pending {
    pub order: Option<(usize, usize, usize)>,
    pub comment: Comment,
}

/// Whether the place `a` comes before `b` in the diff.
pub open spec fn place_lt(a: (usize, usize, usize), b: (usize, usize, usize)) -> bool {
    a.0 < b.0 || (a.0 == b.0 && (a.1 < b.1 || (a.1 == b.1 && a.2 < b.2)))
}

/// Whether the comment `a`, at its place and index among the pending,
/// comes before `b`: by place, and among comments at one place, by
/// index.
pub open spec fn comes_before(a: ((usize, usize, usize), int, Comment), b: (
    (usize, usize, usize),
    int,
    Comment,
)) -> bool {
    place_lt(a.0, b.0) || (a.0 == b.0 && a.1 < b.1)
}

/// Whether `s` is in order, each comment strictly before the next.
pub open spec fn in_order(s: Seq<((usize, usize, usize), int, Comment)>) -> bool {
    forall|i: int, j: int| 0 <= i < j < s.len() ==> comes_before(#[trigger] s[i], #[trigger] s[j])
}

/// The pending comments of `ps` that resolve to a line, with their place
/// and their index.
pub open spec fn resolved(ps: Seq<Pending>) -> Seq<((usize, usize, usize), int, Comment)>
    decreases ps.len(),
{
    if ps.len() == 0 {
        seq![]
    } else {
        resolved(ps.drop_last()) + match ps.last().order {
            Some(place) => seq![(place, ps.len() - 1, ps.last().comment)],
            None => seq![],
        }
    }
}

/// The message of a review: the text written, trimmed, where it says
/// anything.
pub open spec fn review_message(text: Seq<char>) -> Option<Seq<char>> {
    if trim(text).len() > 0 {
        Some(trim(text))
    } else {
        None
    }
}

proof fn lemma_resolved_indices(ps: Seq<Pending>)
    ensures
        forall|k: int|
            0 <= k < resolved(ps).len() ==> 0 <= (#[trigger] resolved(ps)[k]).1 < ps.len(),
    decreases ps.len(),
{
    if ps.len() > 0 {
        lemma_resolved_indices(ps.drop_last());
        let r0 = resolved(ps.drop_last());
        assert forall|k: int| 0 <= k < resolved(ps).len() implies 0 <= (
        #[trigger] resolved(ps)[k]).1 < ps.len() by {
            if k < r0.len() {
                assert(resolved(ps)[k] == r0[k]);
            }
        }
    }
}

/// The comments of `out`, by their place, index and comment.
pub open spec fn entries_view(out: Seq<((usize, usize, usize), usize, Comment)>) -> Seq<
    ((usize, usize, usize), int, Comment),
> {
    out.map_values(|e: ((usize, usize, usize), usize, Comment)| (e.0, e.1 as int, e.2))
}

/// Inserts `entry` into `out`, in order, after the comments at its place:
/// it comes after every comment of `out` by index.
fn insert_in_order(
    out: &mut Vec<((usize, usize, usize), usize, Comment)>,
    entry: ((usize, usize, usize), usize, Comment),
)
    requires
        in_order(entries_view(old(out)@)),
        forall|k: int| 0 <= k < old(out).len() ==> (#[trigger] old(out)@[k]).1 < entry.1,
    ensures
        in_order(entries_view(final(out)@)),
        entries_view(final(out)@).to_multiset() == entries_view(old(out)@).to_multiset().insert(
            (entry.0, entry.1 as int, entry.2),
        ),
        forall|k: int|
            0 <= k < final(out).len() ==> (#[trigger] final(out)@[k]).1 <= entry.1,
{
    broadcast use vstd::seq_lib::group_to_multiset_ensures;

    let ghost before = entries_view(out@);
    let ghost e = (entry.0, entry.1 as int, entry.2);
    let mut at: usize = 0;
    while at < out.len() && !place_before(entry.0, out[at].0)
        invariant
            at <= out.len(),
            before == entries_view(out@),
            forall|k: int| 0 <= k < at ==> !place_lt(entry.0, (#[trigger] out@[k]).0),
        decreases out.len() - at,
    {
        at = at + 1;
    }
    let ghost old_out = out@;
    out.insert(at, entry);
    proof {
        assert(entries_view(out@) =~= before.insert(at as int, e));
        let s = entries_view(out@);
        before.insert_ensures(at as int, e);
        assert forall|k: int, l: int| 0 <= k < l < s.len() implies comes_before(
            #[trigger] s[k],
            #[trigger] s[l],
        ) by {
            if l < at {
                assert(s[k] == before[k] && s[l] == before[l]);
            } else if l == at {
                assert(s[k] == before[k]);
                assert(before[k].1 < e.1);
                assert(!place_lt(entry.0, old_out[k].0));
            } else if k > at {
                assert(s[k] == before[k - 1] && s[l] == before[l - 1]);
            } else if k == at {
                assert(s[l] == before[l - 1]);
                assert(place_lt(entry.0, old_out[at as int].0));
                if l - 1 > at {
                    assert(comes_before(before[at as int], before[l - 1]));
                }
            } else {
                assert(s[k] == before[k] && s[l] == before[l - 1]);
            }
        }
        assert forall|k: int| 0 <= k < out.len() implies (#[trigger] out@[k]).1 <= entry.1 by {
            if k < at {
                assert(out@[k] == old_out[k]);
            } else if k > at {
                assert(out@[k] == old_out[k - 1]);
            }
        }
    }
}

/// Whether `c` is the comment of the entry `e` as a finished review
/// holds it: as written, with the lines shown with it in `hunks`.
pub open spec fn finished_as(
    c: Comment,
    e: ((usize, usize, usize), int, Comment),
    hunks: Seq<Vec<crate::git::Hunk>>,
) -> bool {
    &&& c.reference == e.2.reference
    &&& c.line == e.2.line
    &&& c.content == e.2.content
    &&& strings(c.context@) == context_lines(hunks, e.0)
}

/// The review of `pending` and the message `text`: the comments that
/// still resolve to a line, in the order of the diff, each with its line
/// and up to two lines before it in the hunks of the files as shown,
/// `hunks`; and the message, trimmed, where it says anything; none where
/// no comment resolves.
pub fn finish(pending: Vec<Pending>, text: &str, hunks: &Vec<Vec<crate::git::Hunk>>) -> (r: Option<
    Review,
>)
    ensures
        match r {
            Some(review) => {
                &&& resolved(pending@).len() > 0
                &&& crate::git::text_view(review.message) == review_message(text@)
                &&& exists|s: Seq<((usize, usize, usize), int, Comment)>|
                    #![trigger in_order(s)]
                    {
                        &&& in_order(s)
                        &&& s.to_multiset() == resolved(pending@).to_multiset()
                        &&& review.comments@.len() == s.len()
                        &&& forall|k: int|
                            0 <= k < s.len() ==> finished_as(
                                #[trigger] review.comments@[k],
                                s[k],
                                hunks@,
                            )
                    }
            },
            None => resolved(pending@).len() == 0,
        },
{
    broadcast use vstd::std_specs::vec::axiom_spec_into_iter;
    broadcast use vstd::seq_lib::group_to_multiset_ensures;

    let ghost all = pending@;
    assert(all.len() == pending.len());
    let mut out: Vec<((usize, usize, usize), usize, Comment)> = Vec::new();
    assert(entries_view(out@) =~= seq![]);
    assert(all.take(0) =~= seq![]);
    let mut idx: usize = 0;
    for p in it: pending.into_iter()
        invariant
            it.seq() == all,
            idx == it.index(),
            all.len() <= usize::MAX,
            forall|k: int| 0 <= k < out.len() ==> (#[trigger] out@[k]).1 < idx,
            in_order(entries_view(out@)),
            entries_view(out@).to_multiset() == resolved(all.take(idx as int)).to_multiset(),
    {
        proof {
            let t = all.take(idx + 1);
            assert(t.drop_last() =~= all.take(idx as int));
            assert(t.last() == p);
        }
        match p.order {
            Some(place) => {
                let ghost e = (place, idx as int, p.comment);
                insert_in_order(&mut out, (place, idx, p.comment));
                proof {
                    let t = all.take(idx + 1);
                    assert(t.len() - 1 == idx);
                    assert(resolved(t) =~= resolved(all.take(idx as int)).push(e));
                    vstd::seq_lib::to_multiset_build(resolved(all.take(idx as int)), e);
                }
            },
            None => {
                proof {
                    assert(resolved(all.take(idx + 1)) =~= resolved(all.take(idx as int)));
                }
            },
        }
        idx = idx + 1;
    }
    assert(idx == all.len());
    proof {
        assert(all.take(all.len() as int) =~= all);
        assert(resolved(all).to_multiset().len() == resolved(all).len());
        assert(entries_view(out@).to_multiset().len() == entries_view(out@).len());
    }
    if out.len() == 0 {
        assert(entries_view(out@).len() == 0);
        return None;
    }
    let ghost order = entries_view(out@);
    let ghost cs = out@;
    let mut comments: Vec<Comment> = Vec::new();
    for e in it2: out.into_iter()
        invariant
            it2.seq() == cs,
            order == entries_view(cs),
            comments.len() == it2.index(),
            forall|j: int|
                0 <= j < comments.len() ==> finished_as(#[trigger] comments@[j], order[j], hunks@),
    {
        let ghost k = it2.index() as int;
        let context = context_of(hunks, e.0);
        let c = e.2;
        comments.push(Comment { reference: c.reference, line: c.line, content: c.content, context });
        proof {
            assert(order[k].2 == cs[k].2);
            assert(order[k].0 == cs[k].0);
        }
    }
    assert(in_order(order));
    let trimmed_text = trimmed(&chars_of(text));
    let message = if trimmed_text.len() > 0 {
        Some(string_of(&trimmed_text))
    } else {
        None
    };
    Some(Review { message, comments })
}

/// Whether the place `a` comes before `b` in the diff.
fn place_before(a: (usize, usize, usize), b: (usize, usize, usize)) -> (r: bool)
    ensures
        r == place_lt(a, b),
{
    a.0 < b.0 || (a.0 == b.0 && (a.1 < b.1 || (a.1 == b.1 && a.2 < b.2)))
}

proof fn lemma_comes_before_strict(a: ((usize, usize, usize), int, Comment), b: (
    (usize, usize, usize),
    int,
    Comment,
))
    ensures
        !(comes_before(a, b) && comes_before(b, a)),
        !comes_before(a, a),
{
}

/// The order of a review's comments is the only one: two sequences in
/// order that hold the same comments are the same.
pub proof fn law_one_order_per_review(
    s1: Seq<((usize, usize, usize), int, Comment)>,
    s2: Seq<((usize, usize, usize), int, Comment)>,
)
    requires
        in_order(s1),
        in_order(s2),
        s1.to_multiset() == s2.to_multiset(),
    ensures
        s1 == s2,
    decreases s1.len(),
{
    broadcast use vstd::seq_lib::group_to_multiset_ensures;

    assert(s1.len() == s1.to_multiset().len());
    assert(s2.len() == s2.to_multiset().len());
    if s1.len() == 0 {
        assert(s1 =~= s2);
    } else {
        let a = s1[0];
        let b = s2[0];
        assert(s1.to_multiset().count(a) > 0);
        assert(s2.to_multiset().count(b) > 0);
        assert(s2.contains(a));
        assert(s1.contains(b));
        let j = choose|j: int| 0 <= j < s2.len() && s2[j] == a;
        let i = choose|i: int| 0 <= i < s1.len() && s1[i] == b;
        lemma_comes_before_strict(a, b);
        lemma_comes_before_strict(a, a);
        if i > 0 {
            assert(comes_before(s1[0], s1[i]));
            if j > 0 {
                assert(comes_before(s2[0], s2[j]));
            }
        }
        if j > 0 {
            assert(comes_before(s2[0], s2[j]));
        }
        assert(a == b);
        let t1 = s1.drop_first();
        let t2 = s2.drop_first();
        assert(s1.remove(0) =~= t1);
        assert(s2.remove(0) =~= t2);
        vstd::seq_lib::to_multiset_remove(s1, 0);
        vstd::seq_lib::to_multiset_remove(s2, 0);
        assert(in_order(t1)) by {
            assert forall|k: int, l: int| 0 <= k < l < t1.len() implies comes_before(
                #[trigger] t1[k],
                #[trigger] t1[l],
            ) by {
                assert(t1[k] == s1[k + 1] && t1[l] == s1[l + 1]);
            }
        }
        assert(in_order(t2)) by {
            assert forall|k: int, l: int| 0 <= k < l < t2.len() implies comes_before(
                #[trigger] t2[k],
                #[trigger] t2[l],
            ) by {
                assert(t2[k] == s2[k + 1] && t2[l] == s2[l + 1]);
            }
        }
        law_one_order_per_review(t1, t2);
        assert(s1 =~= seq![a] + t1);
        assert(s2 =~= seq![b] + t2);
    }
}

} // verus!
