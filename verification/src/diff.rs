//! The diff of two texts as it is shown: line by line, each line cut into
//! the segments it is drawn in, its changed words emphasized and the rest
//! cut where the syntax highlighter's scopes end, with the numbers of the
//! lines on either side.
//!
//! The colors, and the scopes themselves, are left to the caller.

use vstd::prelude::*;

use crate::git::{Hunk, Line, LineView};
use crate::output::str_bytes;
use crate::text::{byte_len, char_width, chars_of, extend, lemma_byte_len_concat, push_str, string_of};

verus! {

/// The role of a line in a diff.
#[derive(Debug, Clone, Copy, PartialEq, Eq, Structural)]
pub enum Tag {
    Context,
    Addition,
    Deletion,
}

/// One line of a diff: its role, its text, and its text again as the
/// words the diff compared, each marked where it changed.
#[derive(Debug, Clone)]
pub struct Change {
    pub tag: Tag,
    pub text: String,
    pub values: Vec<(bool, String)>,
}

/// The texts of `vs`, one after the other.
pub open spec fn joined_values(vs: Seq<(bool, Seq<char>)>) -> Seq<char>
    decreases vs.len(),
{
    if vs.len() == 0 {
        seq![]
    } else {
        joined_values(vs.drop_last()) + vs.last().1
    }
}

/// The values of a change, by their text.
pub open spec fn values_view(vs: Seq<(bool, String)>) -> Seq<(bool, Seq<char>)> {
    vs.map_values(|v: (bool, String)| (v.0, v.1@))
}

/// Whether a line of role `t` belongs to the old side of a diff (`old`)
/// or to the new one: context belongs to both.
pub open spec fn on_side(t: Tag, old: bool) -> bool {
    t == Tag::Context || (old && t == Tag::Deletion) || (!old && t == Tag::Addition)
}

/// The text of one side of the lines `lines`, each its role and its text:
/// the texts of the lines on that side, one after the other.
pub open spec fn side(lines: Seq<(Tag, Seq<char>)>, old: bool) -> Seq<char>
    decreases lines.len(),
{
    if lines.len() == 0 {
        seq![]
    } else {
        side(lines.drop_last(), old) + if on_side(lines.last().0, old) {
            lines.last().1
        } else {
            seq![]
        }
    }
}

/// The length of the first line of `s`, its terminator included: a
/// `\n`, a `\r` alone, or `\r\n` as one.
pub open spec fn line_token_len(s: Seq<char>) -> nat
    decreases s.len(),
{
    if s.len() == 0 {
        0
    } else if s[0] == '\n' {
        1
    } else if s[0] == '\r' {
        if s.len() > 1 && s[1] == '\n' {
            2
        } else {
            1
        }
    } else {
        1 + line_token_len(s.drop_first())
    }
}

/// The first line of a non-empty text is not empty and fits in it.
pub proof fn lemma_line_token_len(s: Seq<char>)
    ensures
        s.len() > 0 ==> 1 <= line_token_len(s) <= s.len(),
    decreases s.len(),
{
    if s.len() > 0 && s[0] != '\n' && s[0] != '\r' {
        lemma_line_token_len(s.drop_first());
        assert(line_token_len(s) == 1 + line_token_len(s.drop_first()));
        if s.len() == 1 {
            assert(line_token_len(s.drop_first()) == 0);
        }
    }
}

/// The lines of `s`, each with its terminator, as a diff of lines splits
/// a text: after each `\n`, each `\r` alone and each `\r\n`; a last line
/// without a terminator is a line too.
pub open spec fn text_lines(s: Seq<char>) -> Seq<Seq<char>>
    decreases s.len(),
{
    if s.len() == 0 {
        seq![]
    } else {
        proof {
            lemma_line_token_len(s);
        }
        seq![s.take(line_token_len(s) as int)] + text_lines(s.skip(line_token_len(s) as int))
    }
}

/// The texts of the lines `lines` on one side, in order: the old side
/// where `old`, the new one otherwise.
pub open spec fn side_lines(lines: Seq<(Tag, Seq<char>)>, old: bool) -> Seq<Seq<char>>
    decreases lines.len(),
{
    if lines.len() == 0 {
        seq![]
    } else {
        side_lines(lines.drop_last(), old) + if on_side(lines.last().0, old) {
            seq![lines.last().1]
        } else {
            Seq::<Seq<char>>::empty()
        }
    }
}

/// The lines as `similar` gives them, each its role and the text of its
/// words.
pub open spec fn raw_lines(raw: Seq<(Tag, Vec<(bool, String)>)>) -> Seq<(Tag, Seq<char>)> {
    raw.map_values(|x: (Tag, Vec<(bool, String)>)| (x.0, joined_values(values_view(x.1@))))
}

/// The lines of a diff, each its role and its text.
pub open spec fn change_lines(cs: Seq<Change>) -> Seq<(Tag, Seq<char>)> {
    cs.map_values(|c: Change| (c.tag, c.text@))
}

/// The lines of the diff of `old` and `new`, with their changed words:
/// `TextDiff::from_lines` of `similar` and its inline changes with the
/// default options, given `budget_ms` milliseconds to refine them. The
/// changes flatten the diff's operations, which cover both texts line by
/// line, in order, also where the deadline cuts the refinement short; so
/// the context and deleted lines make up `old`, and the context and added
/// ones `new`, each change one line of its text as `from_lines` splits it
/// (after `\n`, `\r` or `\r\n`), which is all that is claimed. How the lines are aligned and
/// which words are marked is left to the crate, whose documentation
/// leaves it undefined, and depends on the deadline.
#[verifier::external_body]
fn inline_changes(old: &str, new: &str, budget_ms: u64) -> (r: Vec<(Tag, Vec<(bool, String)>)>)
    ensures
        side(raw_lines(r@), true) == old@,
        side(raw_lines(r@), false) == new@,
        side_lines(raw_lines(r@), true) == text_lines(old@),
        side_lines(raw_lines(r@), false) == text_lines(new@),
{
    let deadline = std::time::Instant::now() + std::time::Duration::from_millis(budget_ms);
    similar::TextDiff::from_lines(old, new)
        .iter_all_inline_changes_with_options_deadline(
            similar::InlineChangeOptions::default(),
            Some(deadline),
        )
        .map(|change| {
            let tag = match change.tag() {
                similar::ChangeTag::Equal => Tag::Context,
                similar::ChangeTag::Insert => Tag::Addition,
                similar::ChangeTag::Delete => Tag::Deletion,
            };
            (tag, change.values().iter().map(|&(emphasized, value)| (emphasized, value.to_owned())).collect())
        })
        .collect()
}

/// How long the refinement of the changed words may take, in
/// milliseconds.
pub const INLINE_DEADLINE_MS: u64 = 10;

/// The text of the values `vs`, one after the other.
fn join_values(vs: &Vec<(bool, String)>) -> (r: String)
    ensures
        r@ == joined_values(values_view(vs@)),
{
    let ghost view = values_view(vs@);
    let mut out: Vec<char> = Vec::new();
    let mut i: usize = 0;
    while i < vs.len()
        invariant
            i <= vs.len(),
            view == values_view(vs@),
            out@ == joined_values(view.take(i as int)),
        decreases vs.len() - i,
    {
        proof {
            let t = view.take(i + 1);
            assert(t.drop_last() =~= view.take(i as int));
            assert(t.last() == (vs@[i as int].0, vs@[i as int].1@));
        }
        push_str(&mut out, vs[i].1.as_str());
        i = i + 1;
    }
    assert(view.take(i as int) =~= view);
    string_of(&out)
}

proof fn lemma_joined_len(vs: Seq<(bool, String)>, k: int)
    requires
        0 <= k <= vs.len(),
    ensures
        byte_len(joined_values(values_view(vs.take(k)))) == run_len(lens_of(vs), 0, k),
    decreases k,
{
    if k == 0 {
        assert(values_view(vs.take(0)) =~= seq![]);
        assert(byte_len(seq![]) == 0) by {
            reveal_with_fuel(byte_len, 1);
        }
    } else {
        lemma_joined_len(vs, k - 1);
        let t = values_view(vs.take(k));
        assert(t.drop_last() =~= values_view(vs.take(k - 1)));
        lemma_byte_len_concat(joined_values(t.drop_last()), t.last().1);
    }
}

/// A copy of the values `vs`.
fn copy_values(vs: &Vec<(bool, String)>) -> (r: Vec<(bool, String)>)
    ensures
        values_view(r@) == values_view(vs@),
{
    let mut r: Vec<(bool, String)> = Vec::new();
    let mut i: usize = 0;
    while i < vs.len()
        invariant
            i <= vs.len(),
            values_view(r@) == values_view(vs@.take(i as int)),
        decreases vs.len() - i,
    {
        let ghost before = r@;
        r.push((vs[i].0, vs[i].1.clone()));
        proof {
            assert(values_view(r@) =~= values_view(before).push((vs@[i as int].0, vs@[i as int].1@)));
            assert(values_view(vs@.take(i + 1)) =~= values_view(vs@.take(i as int)).push(
                (vs@[i as int].0, vs@[i as int].1@),
            ));
        }
        i = i + 1;
    }
    assert(vs@.take(i as int) =~= vs@);
    r
}

/// The lines of a diff as `similar` gave them, `raw`, each its role and
/// its words, each word marked where it changed: each with its role, its
/// words, and its text, the words one after the other.
pub fn changes_from(raw: &Vec<(Tag, Vec<(bool, String)>)>) -> (r: Vec<Change>)
    ensures
        r.len() == raw.len(),
        change_lines(r@) == raw_lines(raw@),
        forall|k: int|
            0 <= k < r.len() ==> {
                &&& (#[trigger] r@[k]).tag == raw@[k].0
                &&& values_view(r@[k].values@) == values_view(raw@[k].1@)
                &&& r@[k].text@ == joined_values(values_view(raw@[k].1@))
                &&& run_len(lens_of(r@[k].values@), 0, r@[k].values.len() as int) == byte_len(
                    r@[k].text@,
                )
            },
{
    let mut r: Vec<Change> = Vec::new();
    let mut i: usize = 0;
    while i < raw.len()
        invariant
            i <= raw.len(),
            r.len() == i,
            forall|k: int|
                0 <= k < r.len() ==> {
                    &&& (#[trigger] r@[k]).tag == raw@[k].0
                    &&& values_view(r@[k].values@) == values_view(raw@[k].1@)
                    &&& r@[k].text@ == joined_values(values_view(raw@[k].1@))
                    &&& run_len(lens_of(r@[k].values@), 0, r@[k].values.len() as int) == byte_len(
                        r@[k].text@,
                    )
                },
        decreases raw.len() - i,
    {
        let (tag, values) = &raw[i];
        let text = join_values(values);
        let copied = copy_values(values);
        proof {
            lemma_joined_len(copied@, copied.len() as int);
            assert(copied@.take(copied.len() as int) =~= copied@);
        }
        r.push(Change { tag: *tag, text, values: copied });
        i = i + 1;
    }
    assert(change_lines(r@) =~= raw_lines(raw@));
    r
}

/// The lines of the diff of `old` and `new`, each with its text: the
/// words it was compared by, one after the other. The context and deleted
/// lines make up `old`, the context and added ones `new`, each change one
/// line of its text, its terminator kept. How the lines
/// align and which words are marked is `similar`'s, within a deadline:
/// the lines are what [`changes_from`] makes of whatever it gives.
pub fn changes(old: &str, new: &str) -> (r: Vec<Change>)
    ensures
        side(change_lines(r@), true) == old@,
        side(change_lines(r@), false) == new@,
        side_lines(change_lines(r@), true) == text_lines(old@),
        side_lines(change_lines(r@), false) == text_lines(new@),
        forall|k: int|
            0 <= k < r.len() ==> (#[trigger] r@[k]).text@ == joined_values(
                values_view(r@[k].values@),
            ),
        forall|k: int|
            0 <= k < r.len() ==> run_len(lens_of((#[trigger] r@[k]).values@), 0, r@[k].values.len() as int)
                == byte_len(r@[k].text@),
{
    let raw = inline_changes(old, new, INLINE_DEADLINE_MS);
    let r = changes_from(&raw);
    assert forall|k: int| 0 <= k < r.len() implies (#[trigger] r@[k]).text@ == joined_values(
        values_view(r@[k].values@),
    ) by {
        assert(r@[k].tag == raw@[k].0);
    }
    r
}

/// The text of one side of a hunk: the lines on that side, each ended
/// by a newline; the old side where `old`, the new one otherwise.
pub open spec fn side_of(ls: Seq<LineView>, old: bool) -> Seq<char>
    decreases ls.len(),
{
    if ls.len() == 0 {
        seq![]
    } else {
        side_of(ls.drop_last(), old) + match ls.last() {
            LineView::Context { text, .. } => text.push('\n'),
            LineView::Added { text, .. } => if old {
                seq![]
            } else {
                text.push('\n')
            },
            LineView::Deleted { text, .. } => if old {
                text.push('\n')
            } else {
                seq![]
            },
        }
    }
}

/// The two sides of `hunk`, old and new, as texts to diff.
pub fn sides(hunk: &Hunk) -> (r: (String, String))
    ensures
        r.0@ == side_of(hunk@.lines, true),
        r.1@ == side_of(hunk@.lines, false),
{
    let ghost ls = hunk@.lines;
    let mut old: Vec<char> = Vec::new();
    let mut new: Vec<char> = Vec::new();
    let mut i: usize = 0;
    while i < hunk.lines.len()
        invariant
            i <= hunk.lines.len(),
            ls == hunk@.lines,
            ls.len() == hunk.lines.len(),
            old@ == side_of(ls.take(i as int), true),
            new@ == side_of(ls.take(i as int), false),
        decreases hunk.lines.len() - i,
    {
        proof {
            let t = ls.take(i + 1);
            assert(t.drop_last() =~= ls.take(i as int));
            assert(t.last() == hunk.lines@[i as int]@);
        }
        let ghost (o0, n0) = (old@, new@);
        match &hunk.lines[i] {
            Line::Context { text, .. } => {
                push_str(&mut old, text.as_str());
                old.push('\n');
                push_str(&mut new, text.as_str());
                new.push('\n');
                assert(old@ =~= o0 + text@.push('\n'));
                assert(new@ =~= n0 + text@.push('\n'));
            },
            Line::Added { text, .. } => {
                push_str(&mut new, text.as_str());
                new.push('\n');
                assert(new@ =~= n0 + text@.push('\n'));
                assert(old@ =~= o0 + seq![]);
            },
            Line::Deleted { text, .. } => {
                push_str(&mut old, text.as_str());
                old.push('\n');
                assert(old@ =~= o0 + text@.push('\n'));
                assert(new@ =~= n0 + seq![]);
            },
        }
        i = i + 1;
    }
    assert(ls.take(i as int) =~= ls);
    (string_of(&old), string_of(&new))
}

/// The numbers of lines tagged `tags`, the first on the old side
/// numbered `old`, on the new side `new`: a context line has both, an
/// added line a new one, a deleted line an old one.
pub open spec fn numbers_of(tags: Seq<Tag>, old: int, new: int) -> Seq<(Option<usize>, Option<usize>)>
    decreases tags.len(),
{
    if tags.len() == 0 {
        seq![]
    } else {
        match tags[0] {
            Tag::Context => seq![(Some(old as usize), Some(new as usize))] + numbers_of(
                tags.drop_first(),
                old + 1,
                new + 1,
            ),
            Tag::Addition => seq![(None, Some(new as usize))] + numbers_of(
                tags.drop_first(),
                old,
                new + 1,
            ),
            Tag::Deletion => seq![(Some(old as usize), None)] + numbers_of(
                tags.drop_first(),
                old + 1,
                new,
            ),
        }
    }
}

/// The numbers of the lines tagged `tags` in the gutter, the first
/// numbered `old` and `new`.
pub fn gutter(tags: &Vec<Tag>, old: usize, new: usize) -> (r: Vec<(Option<usize>, Option<usize>)>)
    requires
        old + tags.len() <= usize::MAX,
        new + tags.len() <= usize::MAX,
    ensures
        r@ == numbers_of(tags@, old as int, new as int),
{
    let mut r: Vec<(Option<usize>, Option<usize>)> = Vec::new();
    let mut o = old;
    let mut n = new;
    let mut i: usize = 0;
    assert(tags@.skip(0) =~= tags@);
    while i < tags.len()
        invariant
            i <= tags.len(),
            o <= old + i,
            n <= new + i,
            old + tags.len() <= usize::MAX,
            new + tags.len() <= usize::MAX,
            r@ + numbers_of(tags@.skip(i as int), o as int, n as int) == numbers_of(
                tags@,
                old as int,
                new as int,
            ),
        decreases tags.len() - i,
    {
        let ghost (before, o0, n0) = (r@, o as int, n as int);
        proof {
            assert(tags@.skip(i as int).drop_first() =~= tags@.skip(i + 1));
            assert(tags@.skip(i as int)[0] == tags@[i as int]);
        }
        match tags[i] {
            Tag::Context => {
                r.push((Some(o), Some(n)));
                o = o + 1;
                n = n + 1;
            },
            Tag::Addition => {
                r.push((None, Some(n)));
                n = n + 1;
            },
            Tag::Deletion => {
                r.push((Some(o), None));
                o = o + 1;
            },
        }
        proof {
            let head = r@.last();
            assert(r@ =~= before.push(head));
            assert(numbers_of(tags@.skip(i as int), o0, n0) =~= seq![head] + numbers_of(
                tags@.skip(i + 1),
                o as int,
                n as int,
            ));
            assert(r@ + numbers_of(tags@.skip(i + 1), o as int, n as int) =~= before + numbers_of(
                tags@.skip(i as int),
                o0,
                n0,
            ));
        }
        i = i + 1;
    }
    assert(tags@.skip(i as int) =~= seq![]);
    assert(r@ + numbers_of(tags@.skip(i as int), o as int, n as int) =~= r@);
    r
}

/// The marker a line is drawn behind: its sign, or a space, and a space.
pub open spec fn marker_of(tag: Tag) -> Seq<char> {
    match tag {
        Tag::Context => "  "@,
        Tag::Addition => "+ "@,
        Tag::Deletion => "- "@,
    }
}

impl Tag {
    /// The marker a line of this role is drawn behind.
    pub fn marker(&self) -> (s: String)
        ensures
            s@ == marker_of(*self),
    {
        let mut v: Vec<char> = Vec::new();
        match self {
            Tag::Context => push_str(&mut v, "  "),
            Tag::Addition => push_str(&mut v, "+ "),
            Tag::Deletion => push_str(&mut v, "- "),
        }
        string_of(&v)
    }
}

/// A segment of a line as it is drawn: a run of changed words, or a part
/// of the rest within one scope of the syntax highlighter (`None` past
/// the last), by the byte offsets of its start and end.
#[derive(Debug, Clone, Copy, PartialEq, Eq, Structural)]
pub enum Segment {
    Emphasis { start: usize, end: usize },
    Scoped { start: usize, end: usize, scope: Option<usize> },
}

/// Where a line ends before its terminator, in bytes: a `\n`, a `\r\n`
/// or a lone `\r` is dropped.
pub open spec fn line_end(line: Seq<char>) -> int {
    let n = byte_len(line) as int;
    if line.len() > 0 && line.last() == '\n' {
        if line.len() > 1 && line[line.len() - 2] == '\r' {
            n - 2
        } else {
            n - 1
        }
    } else if line.len() > 0 && line.last() == '\r' {
        n - 1
    } else {
        n
    }
}

/// The values of a line by whether they changed and their length in
/// bytes.
pub open spec fn lens_of(vs: Seq<(bool, String)>) -> Seq<(bool, nat)> {
    vs.map_values(|v: (bool, String)| (v.0, byte_len(v.1@)))
}

/// The length of the values `i..j` of `vals`.
pub open spec fn run_len(vals: Seq<(bool, nat)>, i: int, j: int) -> int
    decreases j - i,
{
    if j <= i {
        0
    } else {
        run_len(vals, i, j - 1) + vals[j - 1].1
    }
}

/// The end of the run of changed values from `i`.
pub open spec fn emphasis_end(vals: Seq<(bool, nat)>, i: int) -> int
    decreases vals.len() - i,
{
    if 0 <= i < vals.len() && vals[i].0 {
        emphasis_end(vals, i + 1)
    } else {
        i
    }
}

/// The scope cursor moved up to `pos`: the next scope to take, where the
/// current one ends, and which it is. Scopes are taken in turn until one
/// ends past `pos`; once they run out, the rest of the line, up to
/// `len`, is in none.
pub open spec fn synced(ends: Seq<usize>, len: int, pos: int, c: (int, int, Option<int>)) -> (
    int,
    int,
    Option<int>,
)
    decreases ends.len() - c.0,
{
    if c.1 > pos {
        c
    } else if 0 <= c.0 < ends.len() {
        synced(ends, len, pos, (c.0 + 1, ends[c.0] as int, Some(c.0)))
    } else {
        (c.0, len, None)
    }
}

/// The scope a cursor is in.
pub open spec fn scope_index(c: (int, int, Option<int>)) -> Option<usize> {
    match c.2 {
        Some(k) => Some(k as usize),
        None => None,
    }
}

/// The segments from `pos` to `stop`, cut where scopes end, and the
/// cursor after them.
pub open spec fn scoped(ends: Seq<usize>, len: int, pos: int, stop: int, c: (
    int,
    int,
    Option<int>,
)) -> (Seq<Segment>, (int, int, Option<int>))
    decreases stop - pos,
{
    if pos >= stop {
        (seq![], c)
    } else {
        let c1 = synced(ends, len, pos, c);
        let s = if stop < c1.1 {
            stop
        } else {
            c1.1
        };
        if s <= pos {
            (seq![], c1)
        } else {
            let rest = scoped(ends, len, s, stop, c1);
            (
                seq![Segment::Scoped { start: pos as usize, end: s as usize, scope: scope_index(c1) }]
                    + rest.0,
                rest.1,
            )
        }
    }
}

/// The emphasis of a run of changed values from `pos` to `p`: cut where
/// the line ends, at `end`, before its terminator, and none where nothing
/// of it is left.
pub open spec fn emphasis(pos: int, p: int, end: int) -> Seq<Segment> {
    let q = if end < p {
        end
    } else {
        p
    };
    if pos < q {
        seq![Segment::Emphasis { start: pos as usize, end: q as usize }]
    } else {
        seq![]
    }
}

/// The segments of the values of a line from `i` on, drawn from `pos`
/// with the scope cursor `c`: where `hl`, a run of changed values is one
/// segment; the rest is cut where scopes end; all of it stops where the
/// line ends, at `end`.
pub open spec fn walk(
    vals: Seq<(bool, nat)>,
    ends: Seq<usize>,
    len: int,
    end: int,
    hl: bool,
    i: int,
    pos: int,
    c: (int, int, Option<int>),
) -> Seq<Segment>
    decreases vals.len() - i,
{
    if i < 0 || i >= vals.len() {
        seq![]
    } else if hl && vals[i].0 {
        let j = emphasis_end(vals, i);
        let p = pos + run_len(vals, i, j);
        let emph = emphasis(pos, p, end);
        if j <= i || j >= vals.len() {
            emph
        } else {
            let stop = if end < p + vals[j].1 {
                end
            } else {
                p + vals[j].1
            };
            let r = scoped(ends, len, p, stop, c);
            emph + r.0 + walk(
                vals,
                ends,
                len,
                end,
                hl,
                j + 1,
                if p < stop {
                    stop
                } else {
                    p
                },
                r.1,
            )
        }
    } else {
        let stop = if end < pos + vals[i].1 {
            end
        } else {
            pos + vals[i].1
        };
        let r = scoped(ends, len, pos, stop, c);
        r.0 + walk(
            vals,
            ends,
            len,
            end,
            hl,
            i + 1,
            if pos < stop {
                stop
            } else {
                pos
            },
            r.1,
        )
    }
}

/// The cursor before any scope is taken: in the first scope, or, where
/// there is none, in none up to `len`.
pub open spec fn first_cursor(ends: Seq<usize>, len: int) -> (int, int, Option<int>) {
    if ends.len() > 0 {
        (1, ends[0] as int, Some(0))
    } else {
        (0, len, None)
    }
}

/// The segments `line` is drawn in, a line of role `tag` compared as
/// `values`, its scopes ending at `ends`: the changed values of an added
/// or deleted line, run by run, are emphasized whole; the rest is cut
/// where a scope ends; all of it stops before the line's terminator.
pub open spec fn segments_of(tag: Tag, line: Seq<char>, values: Seq<(bool, String)>, ends: Seq<usize>) -> Seq<Segment> {
    let len = byte_len(line) as int;
    walk(lens_of(values), ends, len, line_end(line), tag != Tag::Context, 0, 0, first_cursor(ends, len))
}

/// A cursor, by its integers.
pub open spec fn cursor_view(c: (usize, usize, Option<usize>)) -> (int, int, Option<int>) {
    (
        c.0 as int,
        c.1 as int,
        match c.2 {
            Some(k) => Some(k as int),
            None => None,
        },
    )
}

proof fn lemma_run_len_split(vals: Seq<(bool, nat)>, a: int, b: int, c: int)
    requires
        a <= b <= c,
    ensures
        run_len(vals, a, c) == run_len(vals, a, b) + run_len(vals, b, c),
        run_len(vals, b, c) >= 0,
    decreases c - b,
{
    if c > b {
        lemma_run_len_split(vals, a, b, c - 1);
    }
}

proof fn lemma_emphasis_end(vals: Seq<(bool, nat)>, i: int)
    requires
        0 <= i <= vals.len(),
    ensures
        i <= emphasis_end(vals, i) <= vals.len(),
        0 <= i < vals.len() && vals[i].0 ==> emphasis_end(vals, i) > i,
        emphasis_end(vals, i) < vals.len() ==> !vals[emphasis_end(vals, i)].0,
    decreases vals.len() - i,
{
    if i < vals.len() && vals[i].0 {
        lemma_emphasis_end(vals, i + 1);
    }
}

/// Where `line` ends before its terminator.
fn line_end_of(line: &str) -> (e: usize)
    ensures
        e == line_end(line@),
        e <= byte_len(line@),
{
    let chars = chars_of(line);
    let n = str_bytes(line);
    let k = chars.len();
    proof {
        if k > 0 {
            crate::text::lemma_byte_len_take(line@, k - 1);
            assert(line@.take(k as int) =~= line@);
        }
        if k > 1 {
            crate::text::lemma_byte_len_take(line@, k - 2);
        }
    }
    if k > 0 && chars[k - 1] == '\n' {
        if k > 1 && chars[k - 2] == '\r' {
            n - 2
        } else {
            n - 1
        }
    } else if k > 0 && chars[k - 1] == '\r' {
        n - 1
    } else {
        n
    }
}

/// The cursor moved up to `pos`.
fn sync(ends: &Vec<usize>, len: usize, pos: usize, c: (usize, usize, Option<usize>)) -> (r: (
    usize,
    usize,
    Option<usize>,
))
    requires
        pos < len,
        c.0 <= ends.len(),
    ensures
        cursor_view(r) == synced(ends@, len as int, pos as int, cursor_view(c)),
        r.1 > pos,
        r.0 <= ends.len(),
{
    let mut cur = c;
    while cur.1 <= pos && cur.0 < ends.len()
        invariant
            cur.0 <= ends.len(),
            synced(ends@, len as int, pos as int, cursor_view(c)) == synced(
                ends@,
                len as int,
                pos as int,
                cursor_view(cur),
            ),
        decreases ends.len() - cur.0,
    {
        let next = cur.0;
        cur = (next + 1, ends[next], Some(next));
    }
    if cur.1 <= pos {
        cur = (cur.0, len, None);
    }
    cur
}

/// Appends the segments from `pos` to `stop` to `out`; where it got to
/// and the cursor after.
fn cut_scoped(
    ends: &Vec<usize>,
    len: usize,
    pos: usize,
    stop: usize,
    c: (usize, usize, Option<usize>),
    out: &mut Vec<Segment>,
) -> (r: (usize, (usize, usize, Option<usize>)))
    requires
        stop <= len,
        c.0 <= ends.len(),
    ensures
        final(out)@ == old(out)@ + scoped(ends@, len as int, pos as int, stop as int, cursor_view(c)).0,
        cursor_view(r.1) == scoped(ends@, len as int, pos as int, stop as int, cursor_view(c)).1,
        r.0 == if pos < stop {
            stop
        } else {
            pos
        },
        r.1.0 <= ends.len(),
{
    let mut p = pos;
    let mut cur = c;
    while p < stop
        invariant
            stop <= len,
            cur.0 <= ends.len(),
            pos <= p,
            pos < stop ==> p <= stop,
            pos >= stop ==> p == pos,
            old(out)@ + scoped(ends@, len as int, pos as int, stop as int, cursor_view(c)).0 == out@
                + scoped(ends@, len as int, p as int, stop as int, cursor_view(cur)).0,
            scoped(ends@, len as int, pos as int, stop as int, cursor_view(c)).1 == scoped(
                ends@,
                len as int,
                p as int,
                stop as int,
                cursor_view(cur),
            ).1,
        decreases stop - p,
    {
        let ghost (before, p0, c0) = (out@, p as int, cursor_view(cur));
        cur = sync(ends, len, p, cur);
        let s = if stop < cur.1 {
            stop
        } else {
            cur.1
        };
        let seg = Segment::Scoped { start: p, end: s, scope: cur.2 };
        out.push(seg);
        proof {
            assert(scope_index(cursor_view(cur)) == cur.2);
            assert(out@ =~= before + seq![seg]);
            let rest = scoped(ends@, len as int, s as int, stop as int, cursor_view(cur));
            assert(scoped(ends@, len as int, p0, stop as int, c0).0 =~= seq![seg] + rest.0);
            assert(out@ + rest.0 =~= before + (seq![seg] + rest.0));
        }
        p = s;
    }
    (p, cur)
}

/// The run of changed values from `i`: where it ends, and its length.
fn emphasis_run(values: &Vec<(bool, String)>, i: usize) -> (r: (usize, usize))
    requires
        i <= values.len(),
        run_len(lens_of(values@), i as int, values.len() as int) <= usize::MAX,
    ensures
        r.0 == emphasis_end(lens_of(values@), i as int),
        r.1 == run_len(lens_of(values@), i as int, r.0 as int),
{
    let ghost vals = lens_of(values@);
    let mut j = i;
    let mut total: usize = 0;
    while j < values.len() && values[j].0
        invariant
            vals == lens_of(values@),
            i <= j <= values.len(),
            total == run_len(vals, i as int, j as int),
            emphasis_end(vals, i as int) == emphasis_end(vals, j as int),
            run_len(vals, i as int, values.len() as int) <= usize::MAX,
        decreases values.len() - j,
    {
        proof {
            lemma_run_len_split(vals, i as int, j + 1, values.len() as int);
        }
        let w = str_bytes(values[j].1.as_str());
        total = total + w;
        j = j + 1;
    }
    (j, total)
}

/// The segments of a value of `w` bytes drawn from `pos`, cut where
/// scopes end and where the line ends, at `end`, appended to `out`; where
/// the drawing got to, and the cursor after.
fn cut_value(
    ends: &Vec<usize>,
    len: usize,
    end: usize,
    pos: usize,
    w: usize,
    c: (usize, usize, Option<usize>),
    out: &mut Vec<Segment>,
) -> (r: (usize, (usize, usize, Option<usize>)))
    requires
        end <= len,
        pos + w <= len,
        c.0 <= ends.len(),
    ensures
        ({
            let stop = if end < pos + w {
                end as int
            } else {
                pos + w
            };
            let s = scoped(ends@, len as int, pos as int, stop, cursor_view(c));
            &&& final(out)@ == old(out)@ + s.0
            &&& cursor_view(r.1) == s.1
            &&& r.0 == if pos < stop {
                stop
            } else {
                pos as int
            }
        }),
        r.1.0 <= ends.len(),
{
    let stop = if end < pos + w {
        end
    } else {
        pos + w
    };
    cut_scoped(ends, len, pos, stop, c, out)
}

proof fn lemma_walk_plain(
    vals: Seq<(bool, nat)>,
    ends: Seq<usize>,
    len: int,
    end: int,
    hl: bool,
    i: int,
    pos: int,
    c: (int, int, Option<int>),
)
    requires
        0 <= i < vals.len(),
        !(hl && vals[i].0),
    ensures
        ({
            let stop = if end < pos + vals[i].1 {
                end
            } else {
                pos + vals[i].1
            };
            let r = scoped(ends, len, pos, stop, c);
            walk(vals, ends, len, end, hl, i, pos, c) == r.0 + walk(
                vals,
                ends,
                len,
                end,
                hl,
                i + 1,
                if pos < stop {
                    stop
                } else {
                    pos
                },
                r.1,
            )
        }),
{
}

proof fn lemma_walk_emphasis(
    vals: Seq<(bool, nat)>,
    ends: Seq<usize>,
    len: int,
    end: int,
    hl: bool,
    i: int,
    pos: int,
    c: (int, int, Option<int>),
)
    requires
        0 <= i < vals.len(),
        hl && vals[i].0,
        emphasis_end(vals, i) > i,
    ensures
        ({
            let j = emphasis_end(vals, i);
            let p = pos + run_len(vals, i, j);
            let emph = emphasis(pos, p, end);
            &&& j >= vals.len() ==> walk(vals, ends, len, end, hl, i, pos, c) == emph
            &&& j < vals.len() ==> {
                let stop = if end < p + vals[j].1 {
                    end
                } else {
                    p + vals[j].1
                };
                let r = scoped(ends, len, p, stop, c);
                walk(vals, ends, len, end, hl, i, pos, c) == emph + r.0 + walk(
                    vals,
                    ends,
                    len,
                    end,
                    hl,
                    j + 1,
                    if p < stop {
                        stop
                    } else {
                        p
                    },
                    r.1,
                )
            }
        }),
{
}

/// The segments `line` is drawn in, a line of role `tag` compared as
/// `values`, the words it is made of, its scopes ending at `ends`.
#[verifier::rlimit(40)]
pub fn segments(tag: Tag, line: &str, values: &Vec<(bool, String)>, ends: &Vec<usize>) -> (r: Vec<
    Segment,
>)
    requires
        run_len(lens_of(values@), 0, values.len() as int) == byte_len(line@),
    ensures
        r@ == segments_of(tag, line@, values@, ends@),
{
    let ghost vals = lens_of(values@);
    let len = str_bytes(line);
    let end = line_end_of(line);
    let hl = tag != Tag::Context;
    let mut cur: (usize, usize, Option<usize>) = if ends.len() > 0 {
        (1, ends[0], Some(0))
    } else {
        (0, len, None)
    };
    let ghost whole = segments_of(tag, line@, values@, ends@);
    let mut out: Vec<Segment> = Vec::new();
    let mut pos: usize = 0;
    let mut i: usize = 0;
    while i < values.len()
        invariant_except_break
            out@ + walk(vals, ends@, len as int, end as int, hl, i as int, pos as int, cursor_view(cur))
                == whole,
        invariant
            vals == lens_of(values@),
            vals.len() == values.len(),
            whole == segments_of(tag, line@, values@, ends@),
            len == byte_len(line@),
            end == line_end(line@),
            end <= len,
            hl == (tag != Tag::Context),
            i <= values.len(),
            cur.0 <= ends.len(),
            pos <= run_len(vals, 0, i as int),
            run_len(vals, 0, values.len() as int) == len,
        ensures
            out@ == whole,
        decreases values.len() - i,
    {
        proof {
            lemma_run_len_split(vals, 0, i as int, values.len() as int);
            lemma_emphasis_end(vals, i as int);
        }
        let ghost (before, i0, pos0, c0) = (out@, i as int, pos as int, cursor_view(cur));
        if hl && values[i].0 {
            let (j, total) = emphasis_run(values, i);
            proof {
                lemma_walk_emphasis(vals, ends@, len as int, end as int, hl, i0, pos0, c0);
                lemma_emphasis_end(vals, j as int);
                lemma_run_len_split(vals, 0, i as int, j as int);
                lemma_run_len_split(vals, 0, j as int, values.len() as int);
            }
            let p = pos + total;
            let q = if end < p {
                end
            } else {
                p
            };
            if pos < q {
                out.push(Segment::Emphasis { start: pos, end: q });
            }
            let ghost emph = emphasis(pos as int, p as int, end as int);
            assert(out@ =~= before + emph);
            if j >= values.len() {
                break;
            }
            proof {
                lemma_run_len_split(vals, 0, j + 1, values.len() as int);
            }
            let w = str_bytes(values[j].1.as_str());
            let (np, nc) = cut_value(ends, len, end, p, w, cur, &mut out);
            proof {
                let stop = if end < p + w {
                    end as int
                } else {
                    p + w
                };
                let r = scoped(ends@, len as int, p as int, stop, c0);
                assert(out@ =~= before + emph + r.0);
            }
            pos = np;
            cur = nc;
            i = j + 1;
        } else {
            proof {
                lemma_walk_plain(vals, ends@, len as int, end as int, hl, i0, pos0, c0);
                lemma_run_len_split(vals, 0, i + 1, values.len() as int);
            }
            let w = str_bytes(values[i].1.as_str());
            let (np, nc) = cut_value(ends, len, end, pos, w, cur, &mut out);
            pos = np;
            cur = nc;
            i = i + 1;
        }
    }
    out
}

/// Where a segment starts.
pub open spec fn seg_start(s: Segment) -> int {
    match s {
        Segment::Emphasis { start, .. } => start as int,
        Segment::Scoped { start, .. } => start as int,
    }
}

/// Where a segment ends.
pub open spec fn seg_end(s: Segment) -> int {
    match s {
        Segment::Emphasis { end, .. } => end as int,
        Segment::Scoped { end, .. } => end as int,
    }
}

/// Whether `segs` follow each other from `from` without gap or overlap.
pub open spec fn chained(segs: Seq<Segment>, from: int) -> bool {
    forall|k: int|
        0 <= k < segs.len() ==> seg_start(#[trigger] segs[k]) == if k == 0 {
            from
        } else {
            seg_end(segs[k - 1])
        }
}

/// Where a chain of `segs` from `from` ends.
pub open spec fn chain_end(segs: Seq<Segment>, from: int) -> int {
    if segs.len() == 0 {
        from
    } else {
        seg_end(segs.last())
    }
}

/// Whether each segment of `segs` holds something and ends by `end`.
pub open spec fn within(segs: Seq<Segment>, end: int) -> bool {
    forall|k: int| 0 <= k < segs.len() ==> seg_start(#[trigger] segs[k]) < seg_end(segs[k]) <= end
}

proof fn lemma_chained_concat(a: Seq<Segment>, b: Seq<Segment>, from: int, end: int)
    requires
        chained(a, from),
        chained(b, chain_end(a, from)),
        within(a, end),
        within(b, end),
    ensures
        chained(a + b, from),
        chain_end(a + b, from) == chain_end(b, chain_end(a, from)),
        within(a + b, end),
{
    assert forall|k: int| 0 <= k < (a + b).len() implies seg_start(#[trigger] (a + b)[k]) == if k
        == 0 {
        from
    } else {
        seg_end((a + b)[k - 1])
    } by {
        if k < a.len() {
            assert((a + b)[k] == a[k]);
        } else {
            assert((a + b)[k] == b[k - a.len()]);
            if k > a.len() {
                assert((a + b)[k - 1] == b[k - a.len() - 1]);
            } else if a.len() > 0 {
                assert((a + b)[k - 1] == a.last());
            }
        }
    }
    assert forall|k: int| 0 <= k < (a + b).len() implies seg_start(#[trigger] (a + b)[k]) < seg_end(
        (a + b)[k],
    ) <= end by {
        if k < a.len() {
            assert((a + b)[k] == a[k]);
        } else {
            assert((a + b)[k] == b[k - a.len()]);
        }
    }
    if b.len() > 0 {
        assert((a + b).last() == b.last());
    } else {
        assert(a + b =~= a);
    }
}

proof fn lemma_synced(ends: Seq<usize>, len: int, pos: int, c: (int, int, Option<int>))
    requires
        pos < len,
    ensures
        synced(ends, len, pos, c).1 > pos,
    decreases ends.len() - c.0,
{
    if c.1 <= pos && 0 <= c.0 < ends.len() {
        lemma_synced(ends, len, pos, (c.0 + 1, ends[c.0] as int, Some(c.0)));
    }
}

proof fn lemma_scoped(ends: Seq<usize>, len: int, pos: int, stop: int, c: (int, int, Option<int>))
    requires
        0 <= pos,
        stop <= len <= usize::MAX,
    ensures
        chained(scoped(ends, len, pos, stop, c).0, pos),
        chain_end(scoped(ends, len, pos, stop, c).0, pos) == if pos < stop {
            stop
        } else {
            pos
        },
        within(scoped(ends, len, pos, stop, c).0, stop),
    decreases stop - pos,
{
    if pos < stop {
        let c1 = synced(ends, len, pos, c);
        lemma_synced(ends, len, pos, c);
        let s = if stop < c1.1 {
            stop
        } else {
            c1.1
        };
        lemma_scoped(ends, len, s, stop, c1);
        let seg = Segment::Scoped { start: pos as usize, end: s as usize, scope: scope_index(c1) };
        let rest = scoped(ends, len, s, stop, c1).0;
        assert(chained(seq![seg], pos));
        assert(within(seq![seg], stop));
        lemma_chained_concat(seq![seg], rest, pos, stop);
        assert(scoped(ends, len, pos, stop, c).0 == seq![seg] + rest);
    } else {
        assert(scoped(ends, len, pos, stop, c).0 =~= seq![]);
    }
}

proof fn lemma_within_grows(segs: Seq<Segment>, a: int, b: int)
    requires
        within(segs, a),
        a <= b,
    ensures
        within(segs, b),
{
    assert forall|k: int| 0 <= k < segs.len() implies seg_start(#[trigger] segs[k]) < seg_end(
        segs[k],
    ) <= b by {}
}

/// The bound a plain step of the walk keeps.
proof fn lemma_walk_plain_step(
    vals: Seq<(bool, nat)>,
    ends: Seq<usize>,
    len: int,
    end: int,
    hl: bool,
    i: int,
    pos: int,
    c: (int, int, Option<int>),
)
    requires
        0 <= i < vals.len(),
        !(hl && vals[i].0),
        0 <= pos,
        end <= len <= usize::MAX,
        ({
            let stop = if end < pos + vals[i].1 {
                end
            } else {
                pos + vals[i].1
            };
            let r = scoped(ends, len, pos, stop, c);
            let np = if pos < stop {
                stop
            } else {
                pos
            };
            &&& chained(walk(vals, ends, len, end, hl, i + 1, np, r.1), np)
            &&& within(walk(vals, ends, len, end, hl, i + 1, np, r.1), end)
        }),
    ensures
        chained(walk(vals, ends, len, end, hl, i, pos, c), pos),
        within(walk(vals, ends, len, end, hl, i, pos, c), end),
{
    let stop = if end < pos + vals[i].1 {
        end
    } else {
        pos + vals[i].1
    };
    let r = scoped(ends, len, pos, stop, c);
    lemma_scoped(ends, len, pos, stop, c);
    lemma_within_grows(r.0, stop, end);
    let np = if pos < stop {
        stop
    } else {
        pos
    };
    let w = walk(vals, ends, len, end, hl, i + 1, np, r.1);
    lemma_walk_plain(vals, ends, len, end, hl, i, pos, c);
    lemma_chained_concat(r.0, w, pos, end);
}

/// The bound an emphasized step of the walk keeps.
proof fn lemma_walk_emphasis_step(
    vals: Seq<(bool, nat)>,
    ends: Seq<usize>,
    len: int,
    end: int,
    hl: bool,
    i: int,
    pos: int,
    c: (int, int, Option<int>),
)
    requires
        0 <= i < vals.len(),
        hl && vals[i].0,
        emphasis_end(vals, i) > i,
        0 <= pos,
        pos + run_len(vals, i, emphasis_end(vals, i)) <= len,
        run_len(vals, i, emphasis_end(vals, i)) >= 0,
        end <= len <= usize::MAX,
        ({
            let j = emphasis_end(vals, i);
            let p = pos + run_len(vals, i, j);
            j < vals.len() ==> {
                let stop = if end < p + vals[j].1 {
                    end
                } else {
                    p + vals[j].1
                };
                let r = scoped(ends, len, p, stop, c);
                let np = if p < stop {
                    stop
                } else {
                    p
                };
                &&& chained(walk(vals, ends, len, end, hl, j + 1, np, r.1), np)
                &&& within(walk(vals, ends, len, end, hl, j + 1, np, r.1), end)
            }
        }),
    ensures
        chained(walk(vals, ends, len, end, hl, i, pos, c), pos),
        within(walk(vals, ends, len, end, hl, i, pos, c), end),
{
    let j = emphasis_end(vals, i);
    let p = pos + run_len(vals, i, j);
    let emph = emphasis(pos, p, end);
    let q = if end < p {
        end
    } else {
        p
    };
    assert(chained(emph, pos));
    assert(within(emph, end));
    lemma_walk_emphasis(vals, ends, len, end, hl, i, pos, c);
    if j < vals.len() {
        let stop = if end < p + vals[j].1 {
            end
        } else {
            p + vals[j].1
        };
        let r = scoped(ends, len, p, stop, c);
        lemma_scoped(ends, len, p, stop, c);
        lemma_within_grows(r.0, stop, end);
        let np = if p < stop {
            stop
        } else {
            p
        };
        let w = walk(vals, ends, len, end, hl, j + 1, np, r.1);
        if p <= end {
            assert(chain_end(emph, pos) == p);
            lemma_chained_concat(emph, r.0, pos, end);
            lemma_chained_concat(emph + r.0, w, pos, end);
        } else {
            assert(r.0.len() == 0);
            assert(np == p);
            if w.len() > 0 {
                assert(seg_start(w[0]) == np);
                assert(seg_start(w[0]) < seg_end(w[0]) <= end);
            }
            assert(emph + r.0 + w =~= emph);
        }
    }
}

proof fn lemma_walk(
    vals: Seq<(bool, nat)>,
    ends: Seq<usize>,
    len: int,
    end: int,
    hl: bool,
    i: int,
    pos: int,
    c: (int, int, Option<int>),
)
    requires
        0 <= i <= vals.len(),
        0 <= pos,
        pos + run_len(vals, i, vals.len() as int) <= len,
        end <= len <= usize::MAX,
    ensures
        chained(walk(vals, ends, len, end, hl, i, pos, c), pos),
        within(walk(vals, ends, len, end, hl, i, pos, c), end),
    decreases vals.len() - i,
{
    let n = vals.len() as int;
    if i < n {
        lemma_run_len_split(vals, i, i + 1, n);
        lemma_run_len_split(vals, i, i, n);
        assert(run_len(vals, i, i + 1) == vals[i].1);
        lemma_emphasis_end(vals, i);
        if hl && vals[i].0 {
            let j = emphasis_end(vals, i);
            lemma_run_len_split(vals, i, j, n);
            lemma_run_len_split(vals, i, i, j);
            let p = pos + run_len(vals, i, j);
            if j < n {
                lemma_run_len_split(vals, j, j + 1, n);
                assert(run_len(vals, j, j) == 0);
                assert(run_len(vals, j, j + 1) == vals[j].1);
                let stop = if end < p + vals[j].1 {
                    end
                } else {
                    p + vals[j].1
                };
                let r = scoped(ends, len, p, stop, c);
                let np = if p < stop {
                    stop
                } else {
                    p
                };
                lemma_walk(vals, ends, len, end, hl, j + 1, np, r.1);
            }
            lemma_walk_emphasis_step(vals, ends, len, end, hl, i, pos, c);
        } else {
            let stop = if end < pos + vals[i].1 {
                end
            } else {
                pos + vals[i].1
            };
            let r = scoped(ends, len, pos, stop, c);
            let np = if pos < stop {
                stop
            } else {
                pos
            };
            lemma_walk(vals, ends, len, end, hl, i + 1, np, r.1);
            lemma_walk_plain_step(vals, ends, len, end, hl, i, pos, c);
        }
    }
}

proof fn lemma_chain_end_concat(a: Seq<Segment>, b: Seq<Segment>, from: int)
    ensures
        chain_end(a + b, from) == chain_end(b, chain_end(a, from)),
{
    if b.len() > 0 {
        assert((a + b).last() == b.last());
    } else {
        assert(a + b =~= a);
    }
}

/// A chain from a point past `end` of segments that end by `end` is
/// empty.
proof fn lemma_chain_past_end(segs: Seq<Segment>, from: int, end: int)
    requires
        chained(segs, from),
        within(segs, end),
        from >= end,
    ensures
        segs.len() == 0,
{
    if segs.len() > 0 {
        assert(seg_start(segs[0]) == from);
        assert(seg_start(segs[0]) < seg_end(segs[0]) <= end);
    }
}

/// The walk from a point on the line, with the rest of the values
/// reaching the line's full length, draws up to where the line ends.
proof fn lemma_walk_reaches(
    vals: Seq<(bool, nat)>,
    ends: Seq<usize>,
    len: int,
    end: int,
    hl: bool,
    i: int,
    pos: int,
    c: (int, int, Option<int>),
)
    requires
        0 <= i <= vals.len(),
        0 <= pos,
        0 <= end <= len <= usize::MAX,
        pos + run_len(vals, i, vals.len() as int) <= len,
        pos + run_len(vals, i, vals.len() as int) == len || pos >= end,
    ensures
        chain_end(walk(vals, ends, len, end, hl, i, pos, c), pos) == if pos < end {
            end
        } else {
            pos
        },
    decreases vals.len() - i,
{
    let n = vals.len() as int;
    lemma_walk(vals, ends, len, end, hl, i, pos, c);
    if i < n {
        lemma_run_len_split(vals, i, i + 1, n);
        lemma_run_len_split(vals, i, i, n);
        assert(run_len(vals, i, i + 1) == vals[i].1);
        lemma_emphasis_end(vals, i);
        if hl && vals[i].0 {
            let j = emphasis_end(vals, i);
            lemma_run_len_split(vals, i, j, n);
            lemma_run_len_split(vals, i, i, j);
            let p = pos + run_len(vals, i, j);
            let emph = emphasis(pos, p, end);
            lemma_walk_emphasis(vals, ends, len, end, hl, i, pos, c);
            if j < n {
                lemma_run_len_split(vals, j, j + 1, n);
                assert(run_len(vals, j, j) == 0);
                assert(run_len(vals, j, j + 1) == vals[j].1);
                let stop = if end < p + vals[j].1 {
                    end
                } else {
                    p + vals[j].1
                };
                let r = scoped(ends, len, p, stop, c);
                lemma_scoped(ends, len, p, stop, c);
                let np = if p < stop {
                    stop
                } else {
                    p
                };
                let w = walk(vals, ends, len, end, hl, j + 1, np, r.1);
                lemma_walk(vals, ends, len, end, hl, j + 1, np, r.1);
                lemma_walk_reaches(vals, ends, len, end, hl, j + 1, np, r.1);
                lemma_chain_end_concat(emph, r.0, pos);
                lemma_chain_end_concat(emph + r.0, w, pos);
                if p >= end {
                    lemma_chain_past_end(w, np, end);
                    assert(r.0.len() == 0);
                }
            }
        } else {
            let stop = if end < pos + vals[i].1 {
                end
            } else {
                pos + vals[i].1
            };
            let r = scoped(ends, len, pos, stop, c);
            lemma_scoped(ends, len, pos, stop, c);
            let np = if pos < stop {
                stop
            } else {
                pos
            };
            lemma_walk_plain(vals, ends, len, end, hl, i, pos, c);
            lemma_walk(vals, ends, len, end, hl, i + 1, np, r.1);
            lemma_walk_reaches(vals, ends, len, end, hl, i + 1, np, r.1);
            lemma_chain_end_concat(r.0, walk(vals, ends, len, end, hl, i + 1, np, r.1), pos);
        }
    }
}

/// The segments of a line cover it from its start up to its terminator,
/// one after the other without gap or overlap, each holding something.
pub proof fn law_segments_cover_the_line(
    tag: Tag,
    line: Seq<char>,
    values: Seq<(bool, String)>,
    ends: Seq<usize>,
)
    requires
        run_len(lens_of(values), 0, values.len() as int) == byte_len(line),
        byte_len(line) <= usize::MAX,
    ensures
        chained(segments_of(tag, line, values, ends), 0),
        within(segments_of(tag, line, values, ends), line_end(line)),
        chain_end(segments_of(tag, line, values, ends), 0) == line_end(line),
{
    let len = byte_len(line) as int;
    assert(line_end(line) <= len) by {
        if line.len() > 0 {
            crate::text::lemma_byte_len_take(line, line.len() - 1);
            assert(line.take(line.len() as int) =~= line);
        }
        if line.len() > 1 {
            crate::text::lemma_byte_len_take(line, line.len() - 2);
        }
    }
    lemma_walk(
        lens_of(values),
        ends,
        len,
        line_end(line),
        tag != Tag::Context,
        0,
        0,
        first_cursor(ends, len),
    );
    lemma_run_len_split(lens_of(values), 0, 0, values.len() as int);
    assert(line_end(line) >= 0) by {
        if line.len() > 1 {
            crate::text::lemma_byte_len_take(line, line.len() - 1);
            crate::text::lemma_byte_len_take(line, line.len() - 2);
            assert(line.take(line.len() as int) =~= line);
            assert(char_width(line[line.len() - 1]) >= 1);
            assert(char_width(line[line.len() - 2]) >= 1);
        } else if line.len() == 1 {
            crate::text::lemma_byte_len_take(line, 0);
            assert(line.take(1) =~= line);
            assert(char_width(line[0]) >= 1);
        }
    }
    lemma_walk_reaches(
        lens_of(values),
        ends,
        len,
        line_end(line),
        tag != Tag::Context,
        0,
        0,
        first_cursor(ends, len),
    );
}

} // verus!
