//! What git reports of a project: the branch and the size of the pending
//! change (`git status --porcelain=v2` and `git diff --numstat`), and the
//! pending change itself, file by file and hunk by hunk (a unified diff).
//!
//! Running git is left to the caller; this module reads what it printed.

use vstd::prelude::*;

use crate::text::{
    chars_of, find_char, first_of, lines, parse_u64, parse_usize, parsed_below, same_chars,
    split_lines, split_words, starts_with, string_of, strip_prefix, views, without_prefix, words,
    has_prefix, trim, trimmed, rfind, last_match, slice_of, strip_cr, push_str, decode_lossy,
    lossy_utf8, word_len, is_space, trim_start, lemma_trim_start_skip, lemma_first_of, digits_value,
    number_digits, lemma_first_of_none, lemma_first_of_bounds,
};

verus! {

/// The branch a repository is on.
#[derive(Debug, Clone, PartialEq, Eq, PartialOrd, Ord, Hash)]
pub enum Branch {
    /// A branch without a commit yet.
    Unborn(String),
    Named(String),
    /// No branch: `HEAD` names a commit.
    Detached(Sha),
}

/// The name of a commit.
#[derive(Debug, Clone, PartialEq, Eq, PartialOrd, Ord, Hash)]
pub struct Sha(String);

/// A branch, by the text of its name or commit.
pub enum BranchView {
    Unborn(Seq<char>),
    Named(Seq<char>),
    Detached(Seq<char>),
}

impl Sha {
    /// The commit's name, as git printed it.
    pub fn as_str(&self) -> (s: &str)
        ensures
            s@ == self@,
    {
        self.0.as_str()
    }
}

impl View for Sha {
    type V = Seq<char>;

    closed spec fn view(&self) -> Seq<char> {
        self.0@
    }
}

impl View for Branch {
    type V = BranchView;

    open spec fn view(&self) -> BranchView {
        match self {
            Branch::Unborn(name) => BranchView::Unborn(name@),
            Branch::Named(name) => BranchView::Named(name@),
            Branch::Detached(sha) => BranchView::Detached(sha@),
        }
    }
}

/// Where a repository stands: its branch, the lines added and deleted
/// since `HEAD`, and the files git does not track.
#[derive(Debug, Clone)]
pub struct Status {
    pub branch: Branch,
    pub additions: u64,
    pub deletions: u64,
    pub untracked: Vec<String>,
}

/// A status, by its parts' views.
pub struct StatusView {
    pub branch: BranchView,
    pub additions: u64,
    pub deletions: u64,
    pub untracked: Seq<Seq<char>>,
}

impl View for Status {
    type V = StatusView;

    open spec fn view(&self) -> StatusView {
        StatusView {
            branch: self.branch@,
            additions: self.additions,
            deletions: self.deletions,
            untracked: self.untracked@.map_values(|s: String| s@),
        }
    }
}

/// Why git could not be asked, or what it answered was not understood.
#[derive(Debug, Clone)]
pub struct Error {
    message: String,
}

impl Error {
    /// An error that reads `message`.
    pub fn new(message: String) -> (e: Error)
        ensures
            e@ == message@,
    {
        Error { message }
    }

    /// What the error says.
    pub fn to_string(&self) -> (s: String)
        ensures
            s@ == self@,
    {
        self.message.clone()
    }
}

impl View for Error {
    type V = Seq<char>;

    closed spec fn view(&self) -> Seq<char> {
        self.message@
    }
}

/// The optional characters `o`, by their view.
pub open spec fn chars_view(o: Option<Vec<char>>) -> Option<Seq<char>> {
    match o {
        Some(v) => Some(v@),
        None => None,
    }
}

/// The rest of the first line of `ls` that starts with `p`: each line in
/// turn, the first that has `p` wins.
pub open spec fn first_after(ls: Seq<Seq<char>>, p: Seq<char>) -> Option<Seq<char>>
    decreases ls.len(),
{
    if ls.len() == 0 {
        None
    } else {
        match first_after(ls.drop_last(), p) {
            Some(found) => Some(found),
            None => if starts_with(ls.last(), p) {
                Some(without_prefix(ls.last(), p))
            } else {
                None
            },
        }
    }
}

/// The rest of each line of `ls` that starts with `p`, in order.
pub open spec fn all_after(ls: Seq<Seq<char>>, p: Seq<char>) -> Seq<Seq<char>>
    decreases ls.len(),
{
    if ls.len() == 0 {
        seq![]
    } else if starts_with(ls.last(), p) {
        all_after(ls.drop_last(), p).push(without_prefix(ls.last(), p))
    } else {
        all_after(ls.drop_last(), p)
    }
}

/// The branch that a commit name `oid` and a head name `head` describe:
/// an `(initial)` commit is an unborn branch, a `(detached)` head a bare
/// commit; without either there is none.
pub open spec fn branch_of(oid: Option<Seq<char>>, head: Option<Seq<char>>) -> Option<BranchView> {
    match (oid, head) {
        (Some(sha), Some(name)) => if sha == "(initial)"@ {
            Some(BranchView::Unborn(name))
        } else if name == "(detached)"@ {
            Some(BranchView::Detached(sha))
        } else {
            Some(BranchView::Named(name))
        },
        _ => None,
    }
}

/// The branch that `git status --porcelain=v2 -b` reports in `report`.
pub open spec fn reported_branch(report: Seq<char>) -> Option<BranchView> {
    branch_of(
        first_after(lines(report), "# branch.oid "@),
        first_after(lines(report), "# branch.head "@),
    )
}

/// The untracked files that `git status --porcelain=v2` reports.
pub open spec fn reported_untracked(report: Seq<char>) -> Seq<Seq<char>> {
    all_after(lines(report), "? "@)
}

/// What the status report reads when it names no branch.
pub open spec fn no_branch_message() -> Seq<char> {
    "git status returned no branch oid/head"@
}

/// `x + y`, wrapped to 64 bits.
pub open spec fn wrapped_sum(x: u64, y: u64) -> u64 {
    if x + y > u64::MAX {
        (x + y - 0x1_0000_0000_0000_0000) as u64
    } else {
        (x + y) as u64
    }
}

/// The added and deleted line counts of one `git diff --numstat` row:
/// its first two words, where both are numbers (a binary file has `-`).
pub open spec fn numstat_row(line: Seq<char>) -> Option<(u64, u64)> {
    let ws = words(line);
    if ws.len() >= 2 {
        match (
            parsed_below(ws[0], u64::MAX as nat + 1),
            parsed_below(ws[1], u64::MAX as nat + 1),
        ) {
            (Some(a), Some(d)) => Some((a as u64, d as u64)),
            _ => None,
        }
    } else {
        None
    }
}

/// Where the chars of `s` from `i` up to `n` are no spaces and the one at
/// `n` is, the word from `i` ends at `n`.
proof fn lemma_word_len(s: Seq<char>, i: int, n: int)
    requires
        0 <= i <= n < s.len(),
        forall|m: int| i <= m < n ==> !is_space(#[trigger] s[m]),
        is_space(s[n]),
    ensures
        word_len(s, i) == n,
    decreases n - i,
{
    if i < n {
        lemma_word_len(s, i + 1, n);
    }
}

/// The words of spaces `ws`, a word `w` and what follows it from a space
/// on: `w`, then the words of the rest.
proof fn lemma_words_lead(ws: Seq<char>, w: Seq<char>, rest: Seq<char>)
    requires
        forall|m: int| 0 <= m < ws.len() ==> is_space(#[trigger] ws[m]),
        w.len() > 0,
        forall|m: int| 0 <= m < w.len() ==> !is_space(#[trigger] w[m]),
        rest.len() > 0,
        is_space(rest[0]),
    ensures
        words(ws + w + rest) == seq![w] + words(rest),
{
    let s = ws + w + rest;
    assert forall|m: int| 0 <= m < ws.len() implies is_space(#[trigger] s[m]) by {
        assert(s[m] == ws[m]);
    }
    lemma_trim_start_skip(s, ws.len() as int);
    let t = s.skip(ws.len() as int);
    assert(t =~= w + rest);
    assert(t[0] == w[0]);
    assert(trim_start(t) == t);
    assert forall|m: int| 0 <= m < w.len() implies !is_space(#[trigger] t[m]) by {
        assert(t[m] == w[m]);
    }
    assert(t[w.len() as int] == rest[0]);
    lemma_word_len(t, 0, w.len() as int);
    assert(t.take(w.len() as int) =~= w);
    assert(t.skip(w.len() as int) =~= rest);
}

/// A row of `git diff --numstat` adds the lines it counts, whatever its
/// path holds: where the row is the decimal numbers `added` and
/// `deleted`, a tab each after them, and a path without a line break,
/// the report of that row alone totals `added` lines added and `deleted`
/// deleted.
pub proof fn law_a_row_counts_its_numbers(added: Seq<char>, deleted: Seq<char>, path: Seq<char>)
    requires
        added.len() > 0,
        deleted.len() > 0,
        forall|m: int| 0 <= m < added.len() ==> '0' <= #[trigger] added[m] <= '9',
        forall|m: int| 0 <= m < deleted.len() ==> '0' <= #[trigger] deleted[m] <= '9',
        digits_value(added) <= u64::MAX,
        digits_value(deleted) <= u64::MAX,
        forall|m: int| 0 <= m < path.len() ==> #[trigger] path[m] != '\n',
    ensures
        numstat_totals(added + "\t"@ + deleted + "\t"@ + path + "\n"@) == (
            digits_value(added) as u64,
            digits_value(deleted) as u64,
        ),
{
    reveal_strlit("\t");
    reveal_strlit("\n");
    let tab = "\t"@;
    let row = added + tab + deleted + tab + path;
    let s = row + "\n"@;
    assert forall|m: int| 0 <= m < row.len() implies s[m] != '\n' by {
        assert(s[m] == row[m]);
        if m < added.len() {
            assert(row[m] == added[m]);
        } else if m < added.len() + 1 {
        } else if m < added.len() + 1 + deleted.len() {
            assert(row[m] == deleted[m - added.len() - 1]);
        } else if m < added.len() + 2 + deleted.len() {
        } else {
            assert(row[m] == path[m - added.len() - 2 - deleted.len()]);
        }
    }
    lemma_first_of(s, '\n', row.len() as int);
    assert(s.take(row.len() as int) =~= row);
    assert(s.skip(row.len() as int + 1) =~= Seq::<char>::empty());
    assert(lines(Seq::<char>::empty()) =~= Seq::<Seq<char>>::empty());
    assert(lines(s) == seq![strip_cr(s.take(row.len() as int))] + lines(
        s.skip(row.len() as int + 1),
    ));
    assert(lines(s) =~= seq![strip_cr(row)]);
    let p2 = strip_cr(path);
    let tail = tab + p2;
    let line = added + tab + deleted + tail;
    assert(strip_cr(row) =~= line);
    assert forall|m: int| 0 <= m < added.len() implies !is_space(#[trigger] added[m]) by {}
    assert forall|m: int| 0 <= m < deleted.len() implies !is_space(#[trigger] deleted[m]) by {}
    let empty = Seq::<char>::empty();
    assert(line =~= empty + added + (tab + deleted + tail));
    lemma_words_lead(empty, added, tab + deleted + tail);
    assert(tab + deleted + tail =~= tab + deleted + tail);
    lemma_words_lead(tab, deleted, tail);
    let ws = words(line);
    assert(ws[0] == added);
    assert(ws[1] == deleted);
    assert(number_digits(added) == Some(added));
    assert(number_digits(deleted) == Some(deleted));
    assert(numstat_row(line) == Some((digits_value(added) as u64, digits_value(deleted) as u64)));
    let one = seq![line];
    assert(one.drop_last() =~= Seq::<Seq<char>>::empty());
    assert(numstat_sums(one.drop_last()) == (0u64, 0u64));
    assert(one.last() == line);
    assert(numstat_sums(one) == (
        wrapped_sum(0, digits_value(added) as u64),
        wrapped_sum(0, digits_value(deleted) as u64),
    ));
}

/// The sums of the rows of `ls` that count lines, row by row.
pub open spec fn numstat_sums(ls: Seq<Seq<char>>) -> (u64, u64)
    decreases ls.len(),
{
    if ls.len() == 0 {
        (0, 0)
    } else {
        let (a, d) = numstat_sums(ls.drop_last());
        match numstat_row(ls.last()) {
            Some((x, y)) => (wrapped_sum(a, x), wrapped_sum(d, y)),
            None => (a, d),
        }
    }
}

/// The lines added and deleted in all that `git diff --numstat` reports.
pub open spec fn numstat_totals(report: Seq<char>) -> (u64, u64) {
    numstat_sums(lines(report))
}

/// The counts of one numstat row.
fn numstat_counts(line: &Vec<char>) -> (r: Option<(u64, u64)>)
    ensures
        r == numstat_row(line@),
{
    let ws = split_words(line);
    if ws.len() < 2 {
        return None;
    }
    match (parse_u64(&ws[0]), parse_u64(&ws[1])) {
        (Some(a), Some(d)) => Some((a, d)),
        _ => None,
    }
}

proof fn lemma_lines_concat(a: Seq<char>, b: Seq<char>)
    requires
        a.len() == 0 || a.last() == '\n',
    ensures
        lines(a + b) == lines(a) + lines(b),
    decreases a.len(),
{
    if a.len() == 0 {
        assert(a + b =~= b);
        assert(lines(a) =~= Seq::<Seq<char>>::empty());
        assert(lines(a) + lines(b) =~= lines(b));
    } else {
        lemma_first_of_none(a, '\n');
        lemma_first_of_bounds(a, '\n');
        let i = first_of(a, '\n')->0;
        let s = a + b;
        assert forall|m: int| 0 <= m < i implies s[m] != '\n' by {
            assert(s[m] == a[m]);
        }
        assert(s[i] == a[i]);
        lemma_first_of(s, '\n', i);
        assert(s.take(i) =~= a.take(i));
        let rest = a.skip(i + 1);
        assert(s.skip(i + 1) =~= rest + b);
        if rest.len() > 0 {
            assert(rest.last() == a.last());
        }
        lemma_lines_concat(rest, b);
        assert(lines(s) =~= lines(a) + lines(b));
    }
}

proof fn lemma_wrapped_sum_assoc(a: u64, b: u64, c: u64)
    ensures
        wrapped_sum(wrapped_sum(a, b), c) == wrapped_sum(a, wrapped_sum(b, c)),
{
}

proof fn lemma_sums_concat(x: Seq<Seq<char>>, y: Seq<Seq<char>>)
    ensures
        numstat_sums(x + y) == (
            wrapped_sum(numstat_sums(x).0, numstat_sums(y).0),
            wrapped_sum(numstat_sums(x).1, numstat_sums(y).1),
        ),
    decreases y.len(),
{
    if y.len() == 0 {
        assert(x + y =~= x);
    } else {
        lemma_sums_concat(x, y.drop_last());
        assert((x + y).drop_last() =~= x + y.drop_last());
        assert((x + y).last() == y.last());
        let (a, d) = numstat_sums(x);
        let (b, e) = numstat_sums(y.drop_last());
        match numstat_row(y.last()) {
            Some((p, q)) => {
                lemma_wrapped_sum_assoc(a, b, p);
                lemma_wrapped_sum_assoc(d, e, q);
            },
            None => {},
        }
    }
}

/// Reports add up: the totals of two reports, one after the other, are
/// the sums of their totals, wrapping at 64 bits, where the first ends
/// its last row with a line break.
pub proof fn law_reports_add_up(first: Seq<char>, second: Seq<char>)
    requires
        first.len() == 0 || first.last() == '\n',
    ensures
        numstat_totals(first + second) == (
            wrapped_sum(numstat_totals(first).0, numstat_totals(second).0),
            wrapped_sum(numstat_totals(first).1, numstat_totals(second).1),
        ),
{
    lemma_lines_concat(first, second);
    lemma_sums_concat(lines(first), lines(second));
}

/// The lines added and deleted in all that `git diff --numstat` reports
/// in `report`; the sums wrap at 64 bits.
pub fn numstat(report: &str) -> (r: (u64, u64))
    ensures
        r == numstat_totals(report@),
{
    let text = chars_of(report);
    let ls = split_lines(&text);
    let mut additions: u64 = 0;
    let mut deletions: u64 = 0;
    let mut i: usize = 0;
    while i < ls.len()
        invariant
            i <= ls.len(),
            views(ls@) == lines(report@),
            (additions, deletions) == numstat_sums(views(ls@).take(i as int)),
        decreases ls.len() - i,
    {
        proof {
            let t = views(ls@).take(i + 1);
            assert(t.drop_last() =~= views(ls@).take(i as int));
            assert(t.last() == ls@[i as int]@);
        }
        match numstat_counts(&ls[i]) {
            Some((a, d)) => {
                additions = additions.wrapping_add(a);
                deletions = deletions.wrapping_add(d);
            },
            None => {},
        }
        i = i + 1;
    }
    assert(views(ls@).take(i as int) =~= views(ls@));
    (additions, deletions)
}

impl Status {
    /// The status that `git status --porcelain=v2 -b -uall` reports in
    /// `report`, with no lines counted yet; an error where it names no
    /// branch.
    pub fn parse(report: &str) -> (r: Result<Status, Error>)
        ensures
            match r {
                Ok(status) => {
                    &&& reported_branch(report@) == Some(status@.branch)
                    &&& status.additions == 0
                    &&& status.deletions == 0
                    &&& status@.untracked == reported_untracked(report@)
                },
                Err(e) => reported_branch(report@) is None && e@ == no_branch_message(),
            },
    {
        let text = chars_of(report);
        let ls = split_lines(&text);
        let oid_prefix = chars_of("# branch.oid ");
        let head_prefix = chars_of("# branch.head ");
        let file_prefix = chars_of("? ");
        let mut oid: Option<Vec<char>> = None;
        let mut head: Option<Vec<char>> = None;
        let mut untracked: Vec<String> = Vec::new();
        let mut i: usize = 0;
        while i < ls.len()
            invariant
                i <= ls.len(),
                views(ls@) == lines(report@),
                oid_prefix@ == "# branch.oid "@,
                head_prefix@ == "# branch.head "@,
                file_prefix@ == "? "@,
                chars_view(oid) == first_after(views(ls@).take(i as int), oid_prefix@),
                chars_view(head) == first_after(views(ls@).take(i as int), head_prefix@),
                untracked@.map_values(|s: String| s@) == all_after(
                    views(ls@).take(i as int),
                    file_prefix@,
                ),
            decreases ls.len() - i,
        {
            let line = &ls[i];
            proof {
                let t = views(ls@).take(i + 1);
                assert(t.drop_last() =~= views(ls@).take(i as int));
                assert(t.last() == line@);
            }
            if oid.is_none() && has_prefix(line, &oid_prefix) {
                oid = Some(strip_prefix(line, &oid_prefix));
            }
            if head.is_none() && has_prefix(line, &head_prefix) {
                head = Some(strip_prefix(line, &head_prefix));
            }
            if has_prefix(line, &file_prefix) {
                let file = strip_prefix(line, &file_prefix);
                let ghost before = untracked@;
                untracked.push(string_of(&file));
                proof {
                    assert(untracked@.map_values(|s: String| s@) =~= before.map_values(
                        |s: String| s@,
                    ).push(file@));
                }
            }
            i = i + 1;
        }
        assert(views(ls@).take(i as int) =~= views(ls@));
        let initial = chars_of("(initial)");
        let detached = chars_of("(detached)");
        let branch = match (oid, head) {
            (Some(sha), Some(name)) => {
                if same_chars(&sha, &initial) {
                    Branch::Unborn(string_of(&name))
                } else if same_chars(&name, &detached) {
                    Branch::Detached(Sha(string_of(&sha)))
                } else {
                    Branch::Named(string_of(&name))
                }
            },
            _ => {
                return Err(Error::new(string_of(&chars_of("git status returned no branch oid/head"))));
            },
        };
        Ok(Status { branch, additions: 0, deletions: 0, untracked })
    }

    /// Whether the repository has a `HEAD` commit to measure the pending
    /// change against: whether its branch is born.
    pub fn has_head(&self) -> (b: bool)
        ensures
            b == !(self.branch is Unborn),
    {
        match &self.branch {
            Branch::Unborn(_) => false,
            _ => true,
        }
    }

    /// This status with the lines counted in `report`, what
    /// `git diff HEAD --numstat` printed.
    pub fn with_numstat(self, report: &str) -> (r: Status)
        ensures
            r@.branch == self@.branch,
            r@.untracked == self@.untracked,
            (r.additions, r.deletions) == numstat_totals(report@),
    {
        let (additions, deletions) = numstat(report);
        Status { additions, deletions, ..self }
    }
}

/// The pending change of a repository, file by file.
#[derive(Debug, Clone, Default, PartialEq, Eq)]
pub struct Diff {
    pub files: Vec<File>,
}

/// The change of one file.
#[derive(Debug, Clone, PartialEq, Eq)]
pub struct File {
    pub path: String,
    /// The path before a rename, if the file was renamed.
    pub original: Option<String>,
    pub state: State,
    /// Whether the file mode changed, e.g. the executable bit.
    pub mode_changed: bool,
    pub insertions: u64,
    pub deletions: u64,
    pub hunks: Vec<Hunk>,
}

/// What happened to a file.
#[derive(Debug, Clone, Copy, PartialEq, Eq, Structural)]
pub enum State {
    Created,
    Modified,
    Deleted,
    ModeChanged,
    Binary,
}

/// One region of change in a file.
#[derive(Debug, Clone, PartialEq, Eq)]
pub struct Hunk {
    pub old: Range,
    pub new: Range,
    pub heading: Option<String>,
    pub lines: Vec<Line>,
}

/// The lines a hunk spans on one side: from `start`, `count` of them.
#[derive(Debug, Clone, Copy, PartialEq, Eq, Structural)]
pub struct Range {
    pub start: usize,
    pub count: usize,
}

/// One line of a hunk, with its numbers on the sides it is on.
#[derive(Debug, Clone, PartialEq, Eq)]
pub enum Line {
    Context { old: usize, new: usize, text: String },
    Added { new: usize, text: String },
    Deleted { old: usize, text: String },
}

/// A line of a hunk, its text by its characters.
pub enum LineView {
    Context { old: usize, new: usize, text: Seq<char> },
    Added { new: usize, text: Seq<char> },
    Deleted { old: usize, text: Seq<char> },
}

/// A hunk, by its parts' views.
pub struct HunkView {
    pub old: Range,
    pub new: Range,
    pub heading: Option<Seq<char>>,
    pub lines: Seq<LineView>,
}

/// The change of a file, by its parts' views.
pub struct FileView {
    pub path: Seq<char>,
    pub original: Option<Seq<char>>,
    pub state: State,
    pub mode_changed: bool,
    pub insertions: u64,
    pub deletions: u64,
    pub hunks: Seq<HunkView>,
}

/// The optional text `o`, by its view.
pub open spec fn text_view(o: Option<String>) -> Option<Seq<char>> {
    match o {
        Some(s) => Some(s@),
        None => None,
    }
}

impl View for Line {
    type V = LineView;

    open spec fn view(&self) -> LineView {
        match self {
            Line::Context { old, new, text } => LineView::Context { old: *old, new: *new, text: text@ },
            Line::Added { new, text } => LineView::Added { new: *new, text: text@ },
            Line::Deleted { old, text } => LineView::Deleted { old: *old, text: text@ },
        }
    }
}

impl View for Hunk {
    type V = HunkView;

    open spec fn view(&self) -> HunkView {
        HunkView {
            old: self.old,
            new: self.new,
            heading: text_view(self.heading),
            lines: self.lines@.map_values(|l: Line| l@),
        }
    }
}

impl View for File {
    type V = FileView;

    open spec fn view(&self) -> FileView {
        FileView {
            path: self.path@,
            original: text_view(self.original),
            state: self.state,
            mode_changed: self.mode_changed,
            insertions: self.insertions,
            deletions: self.deletions,
            hunks: self.hunks@.map_values(|h: Hunk| h@),
        }
    }
}

impl View for Diff {
    type V = Seq<FileView>;

    open spec fn view(&self) -> Seq<FileView> {
        self.files@.map_values(|f: File| f@)
    }
}

/// `x + 1`, wrapped.
pub open spec fn next_number(x: usize) -> usize {
    if x == usize::MAX {
        0
    } else {
        (x + 1) as usize
    }
}

/// `x + 1`, wrapped to 64 bits.
pub open spec fn next_count(x: u64) -> u64 {
    wrapped_sum(x, 1)
}

/// `s` read as a `usize`, or `fallback` where it is none.
pub open spec fn number_or(s: Seq<char>, fallback: usize) -> usize {
    match parsed_below(s, usize::MAX as nat + 1) {
        Some(n) => n as usize,
        None => fallback,
    }
}

/// The range a hunk header gives as `token`: `-start,count` or
/// `+start,count`, the count one where it is left out, and a part that
/// is no number read as zero for the start and one for the count.
pub open spec fn range_of(token: Seq<char>) -> Range {
    let t = if starts_with(token, "-"@) {
        without_prefix(token, "-"@)
    } else {
        without_prefix(token, "+"@)
    };
    match first_of(t, ',') {
        None => Range { start: number_or(t, 0), count: 1 },
        Some(c) => {
            let rest = t.skip(c + 1);
            let second = match first_of(rest, ',') {
                Some(d) => rest.take(d),
                None => rest,
            };
            Range { start: number_or(t.take(c), 0), count: number_or(second, 1) }
        },
    }
}

/// The heading of a hunk header `line`: what follows its last `@@`,
/// trimmed, where anything does.
pub open spec fn heading_of(line: Seq<char>) -> Option<Seq<char>> {
    match last_match(line, "@@"@) {
        Some(k) => {
            let h = trim(line.skip(k + "@@"@.len()));
            if h.len() > 0 {
                Some(h)
            } else {
                None
            }
        },
        None => None,
    }
}

/// The old and the new path that the operands `a/<old> b/<new>` of a
/// `diff --git` line name; paths may hold spaces, so the split is at the
/// last ` b/`, whose `b/` is the new path's prefix, stripped once.
pub open spec fn paths_of(operands: Seq<char>) -> (Seq<char>, Seq<char>) {
    let (a, b) = match last_match(operands, " b/"@) {
        Some(k) => (operands.take(k), operands.skip(k + " b/"@.len())),
        None => (seq![], seq![]),
    };
    (without_prefix(a, "a/"@), b)
}

/// The reader of a patch between two lines: the files read, the file
/// and the hunk being read, and the line numbers reached in it.
pub struct Reading {
    pub files: Seq<FileView>,
    pub path: Option<Seq<char>>,
    pub original: Option<Seq<char>>,
    pub state: State,
    pub mode_changed: bool,
    pub insertions: u64,
    pub deletions: u64,
    pub hunks: Seq<HunkView>,
    /// The hunk being read, its lines aside in `lines`.
    pub hunk: Option<HunkView>,
    pub lines: Seq<LineView>,
    pub old: usize,
    pub new: usize,
}

/// The reader before the first line.
pub open spec fn reading_start() -> Reading {
    Reading {
        files: seq![],
        path: None,
        original: None,
        state: State::Modified,
        mode_changed: false,
        insertions: 0,
        deletions: 0,
        hunks: seq![],
        hunk: None,
        lines: seq![],
        old: 0,
        new: 0,
    }
}

/// `r` with the hunk being read, if any, closed: it takes the lines read.
pub open spec fn hunk_closed(r: Reading) -> Reading {
    match r.hunk {
        Some(h) => Reading {
            hunks: r.hunks.push(HunkView { lines: r.lines, ..h }),
            hunk: None,
            lines: seq![],
            ..r
        },
        None => r,
    }
}

/// `r` with the file being read, if any, added to the files; a mode
/// change with no hunks is just a mode change.
pub open spec fn file_closed(r: Reading) -> Reading {
    match r.path {
        Some(path) => Reading {
            files: r.files.push(
                FileView {
                    path,
                    original: r.original,
                    state: if r.mode_changed && r.hunks.len() == 0 {
                        State::ModeChanged
                    } else {
                        r.state
                    },
                    mode_changed: r.mode_changed,
                    insertions: r.insertions,
                    deletions: r.deletions,
                    hunks: r.hunks,
                },
            ),
            path: None,
            original: None,
            hunks: seq![],
            ..r
        },
        None => r,
    }
}

/// A `diff --git` line starts the next file.
pub open spec fn read_file_header(r: Reading, line: Seq<char>) -> Reading {
    if starts_with(line, "diff --git "@) {
        let closed = file_closed(hunk_closed(r));
        let (a, b) = paths_of(without_prefix(line, "diff --git "@));
        Reading {
            path: Some(b),
            original: if a != b {
                Some(a)
            } else {
                None
            },
            state: State::Modified,
            mode_changed: false,
            insertions: 0,
            deletions: 0,
            ..closed
        }
    } else {
        r
    }
}

/// An extended header line says what happened to the file.
pub open spec fn read_marker(r: Reading, line: Seq<char>) -> Reading {
    if starts_with(line, "new file mode "@) {
        Reading { state: State::Created, ..r }
    } else if starts_with(line, "deleted file mode "@) {
        Reading { state: State::Deleted, ..r }
    } else if starts_with(line, "old mode "@) || starts_with(line, "new mode "@) {
        Reading { mode_changed: true, ..r }
    } else if starts_with(line, "Binary files "@) {
        Reading { state: State::Binary, ..r }
    } else {
        r
    }
}

/// A `@@ ` line starts the next hunk, and seeds the line numbers.
pub open spec fn read_hunk_header(r: Reading, line: Seq<char>) -> Reading {
    if starts_with(line, "@@ "@) {
        let closed = hunk_closed(r);
        let ws = words(without_prefix(line, "@@ "@));
        let old = range_of(
            if ws.len() > 0 {
                ws[0]
            } else {
                seq![]
            },
        );
        let new = range_of(
            if ws.len() > 1 {
                ws[1]
            } else {
                seq![]
            },
        );
        Reading {
            hunk: Some(HunkView { old, new, heading: heading_of(line), lines: seq![] }),
            old: old.start,
            new: new.start,
            ..closed
        }
    } else {
        r
    }
}

/// A body line: a context, added or deleted line, numbered; the file
/// headers `--- ` and `+++ ` outside a hunk are passed over.
pub open spec fn read_body(r: Reading, line: Seq<char>) -> Reading {
    if starts_with(line, " "@) {
        Reading {
            lines: r.lines.push(
                LineView::Context {
                    old: r.old,
                    new: r.new,
                    text: strip_cr(without_prefix(line, " "@)),
                },
            ),
            old: next_number(r.old),
            new: next_number(r.new),
            ..r
        }
    } else if r.hunk is None && (starts_with(line, "--- "@) || starts_with(line, "+++ "@)) {
        r
    } else if starts_with(line, "+"@) {
        Reading {
            lines: r.lines.push(
                LineView::Added { new: r.new, text: strip_cr(without_prefix(line, "+"@)) },
            ),
            new: next_number(r.new),
            insertions: next_count(r.insertions),
            ..r
        }
    } else if starts_with(line, "-"@) {
        Reading {
            lines: r.lines.push(
                LineView::Deleted { old: r.old, text: strip_cr(without_prefix(line, "-"@)) },
            ),
            old: next_number(r.old),
            deletions: next_count(r.deletions),
            ..r
        }
    } else {
        r
    }
}

/// The reader after one more line of the patch.
pub open spec fn read_line(r: Reading, line: Seq<char>) -> Reading {
    read_body(read_hunk_header(read_marker(read_file_header(r, line), line), line), line)
}

/// The reader after the lines `ls`.
pub open spec fn read_lines(ls: Seq<Seq<char>>) -> Reading
    decreases ls.len(),
{
    if ls.len() == 0 {
        reading_start()
    } else {
        read_line(read_lines(ls.drop_last()), ls.last())
    }
}

/// The files of the unified diff `patch`, as `git diff` prints it.
pub open spec fn patch_files(patch: Seq<char>) -> Seq<FileView> {
    file_closed(hunk_closed(read_lines(lines(patch)))).files
}

/// `s` read as a `usize`, or `fallback`.
fn number_or_else(s: &Vec<char>, fallback: usize) -> (n: usize)
    ensures
        n == number_or(s@, fallback),
{
    match parse_usize(s) {
        Some(n) => n,
        None => fallback,
    }
}

/// The words of a patch that the reader looks for.
struct Marks {
    diff_git: Vec<char>,
    new_file: Vec<char>,
    deleted_file: Vec<char>,
    old_mode: Vec<char>,
    new_mode: Vec<char>,
    binary: Vec<char>,
    hunk_start: Vec<char>,
    hunk_end: Vec<char>,
    space: Vec<char>,
    old_header: Vec<char>,
    new_header: Vec<char>,
    plus: Vec<char>,
    minus: Vec<char>,
    a_side: Vec<char>,
    b_operand: Vec<char>,
}

impl Marks {
    spec fn valid(&self) -> bool {
        &&& self.diff_git@ == "diff --git "@
        &&& self.new_file@ == "new file mode "@
        &&& self.deleted_file@ == "deleted file mode "@
        &&& self.old_mode@ == "old mode "@
        &&& self.new_mode@ == "new mode "@
        &&& self.binary@ == "Binary files "@
        &&& self.hunk_start@ == "@@ "@
        &&& self.hunk_end@ == "@@"@
        &&& self.space@ == " "@
        &&& self.old_header@ == "--- "@
        &&& self.new_header@ == "+++ "@
        &&& self.plus@ == "+"@
        &&& self.minus@ == "-"@
        &&& self.a_side@ == "a/"@
        &&& self.b_operand@ == " b/"@
    }

    fn new() -> (m: Marks)
        ensures
            m.valid(),
    {
        Marks {
            diff_git: chars_of("diff --git "),
            new_file: chars_of("new file mode "),
            deleted_file: chars_of("deleted file mode "),
            old_mode: chars_of("old mode "),
            new_mode: chars_of("new mode "),
            binary: chars_of("Binary files "),
            hunk_start: chars_of("@@ "),
            hunk_end: chars_of("@@"),
            space: chars_of(" "),
            old_header: chars_of("--- "),
            new_header: chars_of("+++ "),
            plus: chars_of("+"),
            minus: chars_of("-"),
            a_side: chars_of("a/"),
            b_operand: chars_of(" b/"),
        }
    }
}

/// The range a hunk header gives as `token`.
fn range(token: &Vec<char>, marks: &Marks) -> (r: Range)
    requires
        marks.valid(),
    ensures
        r == range_of(token@),
{
    let t = if has_prefix(token, &marks.minus) {
        strip_prefix(token, &marks.minus)
    } else {
        strip_prefix(token, &marks.plus)
    };
    match find_char(&t, ',') {
        None => Range { start: number_or_else(&t, 0), count: 1 },
        Some(c) => {
            proof {
                crate::text::lemma_first_of_bounds(t@, ',');
            }
            let first = slice_of(&t, 0, c);
            let rest = slice_of(&t, c + 1, t.len());
            let second = match find_char(&rest, ',') {
                Some(d) => {
                    proof {
                        crate::text::lemma_first_of_bounds(rest@, ',');
                    }
                    slice_of(&rest, 0, d)
                },
                None => slice_of(&rest, 0, rest.len()),
            };
            proof {
                assert(first@ =~= t@.take(c as int));
                assert(rest@ =~= t@.skip(c + 1));
                match first_of(rest@, ',') {
                    Some(d) => assert(second@ =~= rest@.take(d)),
                    None => assert(second@ =~= rest@),
                }
            }
            Range { start: number_or_else(&first, 0), count: number_or_else(&second, 1) }
        },
    }
}

/// The heading of the hunk header `line`.
fn heading(line: &Vec<char>, marks: &Marks) -> (h: Option<String>)
    requires
        marks.valid(),
    ensures
        text_view(h) == heading_of(line@),
{
    match rfind(line, &marks.hunk_end) {
        Some(k) => {
            let n = marks.hunk_end.len();
            assert(crate::text::holds_at(line@, k as int, marks.hunk_end@));
            assert(k + n <= line.len());
            let rest = slice_of(line, k + n, line.len());
            assert(rest@ =~= line@.skip(k + "@@"@.len()));
            let h = trimmed(&rest);
            if h.len() > 0 {
                Some(string_of(&h))
            } else {
                None
            }
        },
        None => None,
    }
}

/// The old and the new path of the operands of a `diff --git` line.
fn paths(operands: &Vec<char>, marks: &Marks) -> (r: (Vec<char>, Vec<char>))
    requires
        marks.valid(),
    ensures
        (r.0@, r.1@) == paths_of(operands@),
{
    let (a, b) = match rfind(operands, &marks.b_operand) {
        Some(k) => {
            let n = marks.b_operand.len();
            assert(crate::text::holds_at(operands@, k as int, marks.b_operand@));
            assert(k + n <= operands.len());
            let a = slice_of(operands, 0, k);
            let b = slice_of(operands, k + n, operands.len());
            assert(a@ =~= operands@.take(k as int));
            assert(b@ =~= operands@.skip(k + " b/"@.len()));
            (a, b)
        },
        None => {
            let a: Vec<char> = Vec::new();
            let b: Vec<char> = Vec::new();
            assert(a@ =~= seq![]);
            (a, b)
        },
    };
    (strip_prefix(&a, &marks.a_side), b)
}

/// The reader of a patch, line by line.
struct Reader {
    files: Vec<File>,
    path: Option<String>,
    original: Option<String>,
    state: State,
    mode_changed: bool,
    insertions: u64,
    deletions: u64,
    hunks: Vec<Hunk>,
    hunk: Option<Hunk>,
    lines: Vec<Line>,
    old: usize,
    new: usize,
}

impl View for Reader {
    type V = Reading;

    closed spec fn view(&self) -> Reading {
        Reading {
            files: self.files@.map_values(|f: File| f@),
            path: text_view(self.path),
            original: text_view(self.original),
            state: self.state,
            mode_changed: self.mode_changed,
            insertions: self.insertions,
            deletions: self.deletions,
            hunks: self.hunks@.map_values(|h: Hunk| h@),
            hunk: match self.hunk {
                Some(h) => Some(h@),
                None => None,
            },
            lines: self.lines@.map_values(|l: Line| l@),
            old: self.old,
            new: self.new,
        }
    }
}

impl Reader {
    fn new() -> (r: Reader)
        ensures
            r@ == reading_start(),
    {
        let r = Reader {
            files: Vec::new(),
            path: None,
            original: None,
            state: State::Modified,
            mode_changed: false,
            insertions: 0,
            deletions: 0,
            hunks: Vec::new(),
            hunk: None,
            lines: Vec::new(),
            old: 0,
            new: 0,
        };
        assert(r@.files =~= seq![]);
        assert(r@.hunks =~= seq![]);
        assert(r@.lines =~= seq![]);
        r
    }

    fn close_hunk(&mut self)
        ensures
            final(self)@ == hunk_closed(old(self)@),
    {
        match self.hunk.take() {
            Some(h) => {
                let mut taken: Vec<Line> = Vec::new();
                std::mem::swap(&mut taken, &mut self.lines);
                let ghost before = self.hunks@;
                self.hunks.push(Hunk { lines: taken, ..h });
                assert(self.hunks@.map_values(|h: Hunk| h@) =~= before.map_values(|h: Hunk| h@).push(
                    HunkView { lines: taken@.map_values(|l: Line| l@), ..h@ },
                ));
                assert(self.lines@.map_values(|l: Line| l@) =~= seq![]);
            },
            None => {},
        }
    }

    fn close_file(&mut self)
        ensures
            final(self)@ == file_closed(old(self)@),
    {
        match self.path.take() {
            Some(path) => {
                let original = self.original.take();
                let state = if self.mode_changed && self.hunks.len() == 0 {
                    State::ModeChanged
                } else {
                    self.state
                };
                let mut hunks: Vec<Hunk> = Vec::new();
                std::mem::swap(&mut hunks, &mut self.hunks);
                let file = File {
                    path,
                    original,
                    state,
                    mode_changed: self.mode_changed,
                    insertions: self.insertions,
                    deletions: self.deletions,
                    hunks,
                };
                let ghost before = self.files@;
                self.files.push(file);
                assert(self.files@.map_values(|f: File| f@) =~= before.map_values(|f: File| f@).push(
                    file@,
                ));
                assert(self.hunks@.map_values(|h: Hunk| h@) =~= seq![]);
            },
            None => {},
        }
    }

    fn read_file_header(&mut self, line: &Vec<char>, marks: &Marks)
        requires
            marks.valid(),
        ensures
            final(self)@ == read_file_header(old(self)@, line@),
    {
        if has_prefix(line, &marks.diff_git) {
            self.close_hunk();
            self.close_file();
            let operands = strip_prefix(line, &marks.diff_git);
            let (a, b) = paths(&operands, marks);
            self.original = if same_chars(&a, &b) {
                None
            } else {
                Some(string_of(&a))
            };
            self.path = Some(string_of(&b));
            self.state = State::Modified;
            self.mode_changed = false;
            self.insertions = 0;
            self.deletions = 0;
        }
    }

    fn read_marker(&mut self, line: &Vec<char>, marks: &Marks)
        requires
            marks.valid(),
        ensures
            final(self)@ == read_marker(old(self)@, line@),
    {
        if has_prefix(line, &marks.new_file) {
            self.state = State::Created;
        } else if has_prefix(line, &marks.deleted_file) {
            self.state = State::Deleted;
        } else if has_prefix(line, &marks.old_mode) || has_prefix(line, &marks.new_mode) {
            self.mode_changed = true;
        } else if has_prefix(line, &marks.binary) {
            self.state = State::Binary;
        }
    }

    fn read_hunk_header(&mut self, line: &Vec<char>, marks: &Marks)
        requires
            marks.valid(),
        ensures
            final(self)@ == read_hunk_header(old(self)@, line@),
    {
        if has_prefix(line, &marks.hunk_start) {
            self.close_hunk();
            let metadata = strip_prefix(line, &marks.hunk_start);
            let ws = split_words(&metadata);
            let empty: Vec<char> = Vec::new();
            let old = if ws.len() > 0 {
                range(&ws[0], marks)
            } else {
                range(&empty, marks)
            };
            let new = if ws.len() > 1 {
                range(&ws[1], marks)
            } else {
                range(&empty, marks)
            };
            proof {
                assert(empty@ =~= seq![]);
                if ws.len() > 0 {
                    assert(views(ws@)[0] == ws@[0]@);
                }
                if ws.len() > 1 {
                    assert(views(ws@)[1] == ws@[1]@);
                }
            }
            let heading = heading(line, marks);
            self.old = old.start;
            self.new = new.start;
            self.hunk = Some(Hunk { old, new, heading, lines: Vec::new() });
            assert(self.hunk.unwrap()@.lines =~= seq![]);
        }
    }

    fn read_body(&mut self, line: &Vec<char>, marks: &Marks)
        requires
            marks.valid(),
        ensures
            final(self)@ == read_body(old(self)@, line@),
    {
        let ghost before = self.lines@;
        if has_prefix(line, &marks.space) {
            let text = cr_stripped(&strip_prefix(line, &marks.space));
            self.lines.push(Line::Context { old: self.old, new: self.new, text: string_of(&text) });
            self.old = self.old.wrapping_add(1);
            self.new = self.new.wrapping_add(1);
        } else if self.hunk.is_none() && (has_prefix(line, &marks.old_header) || has_prefix(
            line,
            &marks.new_header,
        )) {
        } else if has_prefix(line, &marks.plus) {
            let text = cr_stripped(&strip_prefix(line, &marks.plus));
            self.lines.push(Line::Added { new: self.new, text: string_of(&text) });
            self.new = self.new.wrapping_add(1);
            self.insertions = self.insertions.wrapping_add(1);
        } else if has_prefix(line, &marks.minus) {
            let text = cr_stripped(&strip_prefix(line, &marks.minus));
            self.lines.push(Line::Deleted { old: self.old, text: string_of(&text) });
            self.old = self.old.wrapping_add(1);
            self.deletions = self.deletions.wrapping_add(1);
        }
        proof {
            if self.lines@.len() > before.len() {
                assert(self.lines@.map_values(|l: Line| l@) =~= before.map_values(|l: Line| l@).push(
                    self.lines@.last()@,
                ));
            }
        }
    }

    fn read_line(&mut self, line: &Vec<char>, marks: &Marks)
        requires
            marks.valid(),
        ensures
            final(self)@ == read_line(old(self)@, line@),
    {
        self.read_file_header(line, marks);
        self.read_marker(line, marks);
        self.read_hunk_header(line, marks);
        self.read_body(line, marks);
    }
}

/// `l` without a trailing `\r`.
fn cr_stripped(l: &Vec<char>) -> (t: Vec<char>)
    ensures
        t@ == strip_cr(l@),
{
    if l.len() > 0 && l[l.len() - 1] == '\r' {
        let t = slice_of(l, 0, l.len() - 1);
        assert(t@ =~= l@.drop_last());
        t
    } else {
        let t = slice_of(l, 0, l.len());
        assert(t@ =~= l@);
        t
    }
}

impl Diff {
    /// The files of the unified diff `patch`, as
    /// `git diff --no-color --no-ext-diff -U3` prints it.
    pub fn parse(patch: &str) -> (d: Diff)
        ensures
            d@ == patch_files(patch@),
    {
        let marks = Marks::new();
        let text = chars_of(patch);
        let ls = split_lines(&text);
        let mut reader = Reader::new();
        let mut i: usize = 0;
        while i < ls.len()
            invariant
                i <= ls.len(),
                marks.valid(),
                views(ls@) == lines(patch@),
                reader@ == read_lines(views(ls@).take(i as int)),
            decreases ls.len() - i,
        {
            proof {
                let t = views(ls@).take(i + 1);
                assert(t.drop_last() =~= views(ls@).take(i as int));
                assert(t.last() == ls@[i as int]@);
            }
            reader.read_line(&ls[i], &marks);
            i = i + 1;
        }
        assert(views(ls@).take(i as int) =~= views(ls@));
        reader.close_hunk();
        reader.close_file();
        let d = Diff { files: reader.files };
        d
    }
}

/// How many of the lines `ls` start a file: `diff --git` lines.
pub open spec fn file_headers(ls: Seq<Seq<char>>) -> nat
    decreases ls.len(),
{
    if ls.len() == 0 {
        0
    } else if starts_with(ls.last(), "diff --git "@) {
        file_headers(ls.drop_last()) + 1
    } else {
        file_headers(ls.drop_last())
    }
}

/// A file read whole says it is `ModeChanged` exactly when its mode
/// changed and it has no hunk.
pub open spec fn mode_state_agrees(f: FileView) -> bool {
    (f.state == State::ModeChanged) <==> (f.mode_changed && f.hunks.len() == 0)
}

proof fn lemma_reading_counts(ls: Seq<Seq<char>>)
    ensures
        read_lines(ls).files.len() + (if read_lines(ls).path is Some {
            1int
        } else {
            0int
        }) == file_headers(ls),
        read_lines(ls).state != State::ModeChanged,
        forall|i: int|
            0 <= i < read_lines(ls).files.len() ==> mode_state_agrees(
                #[trigger] read_lines(ls).files[i],
            ),
    decreases ls.len(),
{
    if ls.len() > 0 {
        lemma_reading_counts(ls.drop_last());
        let r = read_lines(ls.drop_last());
        let line = ls.last();
        let h = hunk_closed(r);
        let c = file_closed(h);
        assert(forall|i: int| 0 <= i < c.files.len() ==> mode_state_agrees(#[trigger] c.files[i]))
            by {
            if r.path is Some {
                assert forall|i: int| 0 <= i < c.files.len() implies mode_state_agrees(
                    #[trigger] c.files[i],
                ) by {
                    if i < r.files.len() {
                        assert(c.files[i] == r.files[i]);
                    }
                }
            }
        }
    }
}

/// `x` moved on `k` lines: `k` times its next number.
pub open spec fn advanced(x: usize, k: nat) -> usize
    decreases k,
{
    if k == 0 {
        x
    } else {
        next_number(advanced(x, (k - 1) as nat))
    }
}

/// How many of `ls` are on the old side: context and deleted lines.
pub open spec fn old_count(ls: Seq<LineView>) -> nat
    decreases ls.len(),
{
    if ls.len() == 0 {
        0
    } else {
        old_count(ls.drop_last()) + if ls.last() is Added {
            0nat
        } else {
            1nat
        }
    }
}

/// How many of `ls` are on the new side: context and added lines.
pub open spec fn new_count(ls: Seq<LineView>) -> nat
    decreases ls.len(),
{
    if ls.len() == 0 {
        0
    } else {
        new_count(ls.drop_last()) + if ls.last() is Deleted {
            0nat
        } else {
            1nat
        }
    }
}

/// Whether the lines `ls` of a hunk are numbered one after the other on
/// each side, from `old` on the old side and `new` on the new one: each
/// line carries, on each side it is on, the number after those of the
/// lines before it on that side.
pub open spec fn numbered(ls: Seq<LineView>, old: usize, new: usize) -> bool {
    forall|k: int|
        0 <= k < ls.len() ==> match #[trigger] ls[k] {
            LineView::Context { old: o, new: n, .. } => o == advanced(old, old_count(ls.take(k)))
                && n == advanced(new, new_count(ls.take(k))),
            LineView::Added { new: n, .. } => n == advanced(new, new_count(ls.take(k))),
            LineView::Deleted { old: o, .. } => o == advanced(old, old_count(ls.take(k))),
        }
}

/// Whether the hunks `hs` are each numbered from the starts of its
/// header.
pub open spec fn hunks_numbered(hs: Seq<HunkView>) -> bool {
    forall|j: int| 0 <= j < hs.len() ==> numbered(#[trigger] hs[j].lines, hs[j].old.start, hs[j].new.start)
}

/// Whether `line`, read by a reader in the state `r`, adds a line to a
/// hunk: a context, added or deleted line; the file headers `--- ` and
/// `+++ ` outside a hunk are not.
pub open spec fn adds_line(r: Reading, line: Seq<char>) -> bool {
    starts_with(line, " "@) || (!(r.hunk is None && (starts_with(line, "--- "@) || starts_with(
        line,
        "+++ "@,
    ))) && (starts_with(line, "+"@) || starts_with(line, "-"@)))
}

/// The reader after the headers `line` may be, before its body is read.
pub open spec fn headers_read(r: Reading, line: Seq<char>) -> Reading {
    read_hunk_header(read_marker(read_file_header(r, line), line), line)
}

/// Whether every line of `ls` that adds a line to a hunk comes under a
/// hunk header: as in a patch that `git diff` prints.
pub open spec fn lines_under_headers(ls: Seq<Seq<char>>) -> bool {
    forall|i: int|
        0 <= i < ls.len() ==> (#[trigger] headers_read(read_lines(ls.take(i)), ls[i])).hunk is None
            ==> !adds_line(headers_read(read_lines(ls.take(i)), ls[i]), ls[i])
}

/// What the reader keeps of the numbering: the hunk being read numbered
/// from its header, with the next numbers past its lines, and no lines
/// aside outside a hunk; every hunk read numbered.
pub open spec fn numbering_kept(r: Reading) -> bool {
    &&& match r.hunk {
        Some(h) => numbered(r.lines, h.old.start, h.new.start) && r.old == advanced(
            h.old.start,
            old_count(r.lines),
        ) && r.new == advanced(h.new.start, new_count(r.lines)),
        None => r.lines.len() == 0,
    }
    &&& hunks_numbered(r.hunks)
    &&& forall|f: int| 0 <= f < r.files.len() ==> hunks_numbered(#[trigger] r.files[f].hunks)
}

proof fn lemma_numbered_push(ls: Seq<LineView>, old: usize, new: usize, x: LineView)
    requires
        numbered(ls, old, new),
        match x {
            LineView::Context { old: o, new: n, .. } => o == advanced(old, old_count(ls))
                && n == advanced(new, new_count(ls)),
            LineView::Added { new: n, .. } => n == advanced(new, new_count(ls)),
            LineView::Deleted { old: o, .. } => o == advanced(old, old_count(ls)),
        },
    ensures
        numbered(ls.push(x), old, new),
        old_count(ls.push(x)) == old_count(ls) + if x is Added { 0nat } else { 1nat },
        new_count(ls.push(x)) == new_count(ls) + if x is Deleted { 0nat } else { 1nat },
{
    let t = ls.push(x);
    assert(t.drop_last() =~= ls);
    assert forall|k: int| 0 <= k < t.len() implies match #[trigger] t[k] {
        LineView::Context { old: o, new: n, .. } => o == advanced(old, old_count(t.take(k)))
            && n == advanced(new, new_count(t.take(k))),
        LineView::Added { new: n, .. } => n == advanced(new, new_count(t.take(k))),
        LineView::Deleted { old: o, .. } => o == advanced(old, old_count(t.take(k))),
    } by {
        if k < ls.len() {
            assert(t.take(k) =~= ls.take(k));
            assert(t[k] == ls[k]);
        } else {
            assert(t.take(k) =~= ls);
        }
    }
}

proof fn lemma_hunk_closed_numbering(r: Reading)
    requires
        numbering_kept(r),
    ensures
        numbering_kept(hunk_closed(r)),
        hunk_closed(r).hunk is None,
{
    match r.hunk {
        Some(h) => {
            let c = hunk_closed(r);
            let nh = HunkView { lines: r.lines, ..h };
            assert forall|j: int| 0 <= j < c.hunks.len() implies numbered(
                #[trigger] c.hunks[j].lines,
                c.hunks[j].old.start,
                c.hunks[j].new.start,
            ) by {
                if j < r.hunks.len() {
                    assert(c.hunks[j] == r.hunks[j]);
                } else {
                    assert(c.hunks[j] == nh);
                }
            }
        },
        None => {},
    }
}

proof fn lemma_file_closed_numbering(r: Reading)
    requires
        numbering_kept(r),
        r.hunk is None,
    ensures
        numbering_kept(file_closed(r)),
        file_closed(r).hunk is None,
{
    match r.path {
        Some(path) => {
            let c = file_closed(r);
            assert(c.hunks =~= Seq::<HunkView>::empty());
            assert forall|f: int| 0 <= f < c.files.len() implies hunks_numbered(
                #[trigger] c.files[f].hunks,
            ) by {
                if f < r.files.len() {
                    assert(c.files[f] == r.files[f]);
                }
            }
        },
        None => {},
    }
}

proof fn lemma_read_line_numbering(r: Reading, line: Seq<char>)
    requires
        numbering_kept(r),
        headers_read(r, line).hunk is None ==> !adds_line(headers_read(r, line), line),
    ensures
        numbering_kept(read_line(r, line)),
{
    let a = read_file_header(r, line);
    if starts_with(line, "diff --git "@) {
        lemma_hunk_closed_numbering(r);
        lemma_file_closed_numbering(hunk_closed(r));
        let closed = file_closed(hunk_closed(r));
        assert forall|f: int| 0 <= f < a.files.len() implies hunks_numbered(
            #[trigger] a.files[f].hunks,
        ) by {
            assert(a.files[f] == closed.files[f]);
        }
    }
    assert(numbering_kept(a));
    let b = read_marker(a, line);
    assert(numbering_kept(b));
    let c = read_hunk_header(b, line);
    if starts_with(line, "@@ "@) {
        lemma_hunk_closed_numbering(b);
        assert(hunk_closed(b).lines.len() == 0);
        assert forall|f: int| 0 <= f < c.files.len() implies hunks_numbered(
            #[trigger] c.files[f].hunks,
        ) by {
            assert(c.files[f] == hunk_closed(b).files[f]);
        }
    }
    assert(numbering_kept(c));
    assert(c == headers_read(r, line));
    let d = read_body(c, line);
    match c.hunk {
        Some(h) => {
            if starts_with(line, " "@) {
                let x = LineView::Context {
                    old: c.old,
                    new: c.new,
                    text: strip_cr(without_prefix(line, " "@)),
                };
                lemma_numbered_push(c.lines, h.old.start, h.new.start, x);
            } else if starts_with(line, "+"@) {
                let x = LineView::Added { new: c.new, text: strip_cr(without_prefix(line, "+"@)) };
                lemma_numbered_push(c.lines, h.old.start, h.new.start, x);
            } else if starts_with(line, "-"@) {
                let x = LineView::Deleted { old: c.old, text: strip_cr(without_prefix(line, "-"@)) };
                lemma_numbered_push(c.lines, h.old.start, h.new.start, x);
            }
        },
        None => {
            assert(d == c);
        },
    }
}

proof fn lemma_read_lines_numbering(ls: Seq<Seq<char>>)
    requires
        lines_under_headers(ls),
    ensures
        numbering_kept(read_lines(ls)),
    decreases ls.len(),
{
    if ls.len() > 0 {
        let init = ls.drop_last();
        assert forall|i: int| 0 <= i < init.len() implies (#[trigger] headers_read(
            read_lines(init.take(i)),
            init[i],
        )).hunk is None ==> !adds_line(headers_read(read_lines(init.take(i)), init[i]), init[i]) by {
            assert(init.take(i) =~= ls.take(i));
            assert(init[i] == ls[i]);
            assert(headers_read(read_lines(ls.take(i)), ls[i]).hunk is None ==> !adds_line(
                headers_read(read_lines(ls.take(i)), ls[i]),
                ls[i],
            ));
        }
        lemma_read_lines_numbering(init);
        let k = ls.len() - 1;
        assert(ls.take(k) =~= init);
        assert(headers_read(read_lines(ls.take(k)), ls[k]).hunk is None ==> !adds_line(
            headers_read(read_lines(ls.take(k)), ls[k]),
            ls[k],
        ));
        lemma_read_line_numbering(read_lines(init), ls.last());
    }
}

/// The lines of each hunk of a patch are numbered one after the other on
/// each side, from the starts its header gives, where every line that
/// adds to a hunk comes under a hunk header, as in a patch `git diff`
/// prints.
pub proof fn law_hunk_lines_are_numbered_in_turn(patch: Seq<char>)
    requires
        lines_under_headers(lines(patch)),
    ensures
        forall|f: int|
            0 <= f < patch_files(patch).len() ==> hunks_numbered(
                #[trigger] patch_files(patch)[f].hunks,
            ),
{
    let r = read_lines(lines(patch));
    lemma_read_lines_numbering(lines(patch));
    lemma_hunk_closed_numbering(r);
    lemma_file_closed_numbering(hunk_closed(r));
}

/// Whether the hunk `h` holds as many lines on each side as its header
/// says.
pub open spec fn counted(h: HunkView) -> bool {
    old_count(h.lines) == h.old.count && new_count(h.lines) == h.new.count
}

/// Whether each of the hunks `hs` holds as many lines as its header says.
pub open spec fn hunks_counted(hs: Seq<HunkView>) -> bool {
    forall|j: int| 0 <= j < hs.len() ==> counted(#[trigger] hs[j])
}

/// Whether the lines read into the hunk being read by `r`, if any, reach
/// the ends of the ranges its header gives, on both sides.
pub open spec fn adds_up(r: Reading) -> bool {
    match r.hunk {
        Some(h) => r.old == h.old.start + h.old.count && r.new == h.new.start + h.new.count,
        None => true,
    }
}

/// Whether `line` closes the hunk being read: a file or a hunk header.
pub open spec fn closes_hunk(line: Seq<char>) -> bool {
    starts_with(line, "diff --git "@) || starts_with(line, "@@ "@)
}

/// Whether each hunk of the lines `ls` adds up where it closes, at the
/// next header or at the end: as in a patch `git diff` prints, whose
/// hunk headers count the lines under them.
pub open spec fn hunks_add_up(ls: Seq<Seq<char>>) -> bool {
    &&& forall|i: int|
        0 <= i < ls.len() && closes_hunk(ls[i]) ==> adds_up(#[trigger] read_lines(ls.take(i)))
    &&& adds_up(read_lines(ls))
}

/// What the reader keeps of the counts, after `n` lines: no more lines
/// aside than were read, and every hunk read counted.
pub open spec fn counting_kept(r: Reading, n: nat) -> bool {
    &&& r.lines.len() <= n
    &&& hunks_counted(r.hunks)
    &&& forall|f: int| 0 <= f < r.files.len() ==> hunks_counted(#[trigger] r.files[f].hunks)
}

proof fn lemma_advanced_sum(x: usize, k: nat)
    requires
        k <= usize::MAX,
    ensures
        x + k <= usize::MAX ==> advanced(x, k) == x + k,
        x + k > usize::MAX ==> advanced(x, k) == x + k - usize::MAX - 1,
    decreases k,
{
    if k > 0 {
        lemma_advanced_sum(x, (k - 1) as nat);
    }
}

proof fn lemma_counts_bound(ls: Seq<LineView>)
    ensures
        old_count(ls) <= ls.len(),
        new_count(ls) <= ls.len(),
    decreases ls.len(),
{
    if ls.len() > 0 {
        lemma_counts_bound(ls.drop_last());
    }
}

proof fn lemma_hunk_closed_counting(r: Reading, n: nat)
    requires
        r.hunk is Some ==> numbering_kept(r),
        counting_kept(r, n),
        adds_up(r),
        n <= usize::MAX,
    ensures
        counting_kept(hunk_closed(r), n),
{
    match r.hunk {
        Some(h) => {
            let c = hunk_closed(r);
            let nh = HunkView { lines: r.lines, ..h };
            lemma_counts_bound(r.lines);
            lemma_advanced_sum(h.old.start, old_count(r.lines));
            lemma_advanced_sum(h.new.start, new_count(r.lines));
            assert(counted(nh));
            assert forall|j: int| 0 <= j < c.hunks.len() implies counted(#[trigger] c.hunks[j]) by {
                if j < r.hunks.len() {
                    assert(c.hunks[j] == r.hunks[j]);
                } else {
                    assert(c.hunks[j] == nh);
                }
            }
        },
        None => {},
    }
}

proof fn lemma_file_closed_counting(r: Reading, n: nat)
    requires
        counting_kept(r, n),
    ensures
        counting_kept(file_closed(r), n),
{
    match r.path {
        Some(path) => {
            let c = file_closed(r);
            assert(c.hunks =~= Seq::<HunkView>::empty());
            assert forall|f: int| 0 <= f < c.files.len() implies hunks_counted(
                #[trigger] c.files[f].hunks,
            ) by {
                if f < r.files.len() {
                    assert(c.files[f] == r.files[f]);
                }
            }
        },
        None => {},
    }
}

proof fn lemma_read_line_counting(r: Reading, line: Seq<char>, n: nat)
    requires
        numbering_kept(r),
        counting_kept(r, n),
        closes_hunk(line) ==> adds_up(r),
        n < usize::MAX,
    ensures
        counting_kept(read_line(r, line), n + 1),
{
    let a = read_file_header(r, line);
    if starts_with(line, "diff --git "@) {
        lemma_hunk_closed_counting(r, n);
        lemma_file_closed_counting(hunk_closed(r), n);
        let closed = file_closed(hunk_closed(r));
        assert forall|f: int| 0 <= f < a.files.len() implies hunks_counted(
            #[trigger] a.files[f].hunks,
        ) by {
            assert(a.files[f] == closed.files[f]);
        }
    }
    assert(counting_kept(a, n));
    let b = read_marker(a, line);
    assert(counting_kept(b, n));
    let c = read_hunk_header(b, line);
    if starts_with(line, "@@ "@) {
        if !starts_with(line, "diff --git "@) {
            assert(a == r);
            assert(b.hunk == r.hunk && b.lines == r.lines && b.old == r.old && b.new == r.new);
            assert(b.hunks == r.hunks && b.files == r.files);
        } else {
            assert(a.hunk is None);
        }
        lemma_hunk_closed_counting(b, n);
        assert forall|f: int| 0 <= f < c.files.len() implies hunks_counted(
            #[trigger] c.files[f].hunks,
        ) by {
            assert(c.files[f] == hunk_closed(b).files[f]);
        }
    }
    assert(counting_kept(c, n));
    let d = read_body(c, line);
    assert(d.lines.len() <= c.lines.len() + 1);
    assert(d.hunks == c.hunks && d.files == c.files);
}

#[verifier::spinoff_prover]
#[verifier::rlimit(40)]
proof fn lemma_read_lines_counting(ls: Seq<Seq<char>>)
    requires
        lines_under_headers(ls),
        forall|i: int|
            0 <= i < ls.len() && closes_hunk(ls[i]) ==> adds_up(#[trigger] read_lines(ls.take(i))),
        ls.len() <= usize::MAX,
    ensures
        counting_kept(read_lines(ls), ls.len()),
    decreases ls.len(),
{
    if ls.len() == 0 {
        assert(counting_kept(read_lines(ls), 0));
    } else {
        let init = ls.drop_last();
        let k = ls.len() - 1;
        assert forall|i: int| 0 <= i < init.len() implies (#[trigger] headers_read(
            read_lines(init.take(i)),
            init[i],
        )).hunk is None ==> !adds_line(headers_read(read_lines(init.take(i)), init[i]), init[i]) by {
            assert(init.take(i) =~= ls.take(i));
            assert(init[i] == ls[i]);
            assert(headers_read(read_lines(ls.take(i)), ls[i]).hunk is None ==> !adds_line(
                headers_read(read_lines(ls.take(i)), ls[i]),
                ls[i],
            ));
        }
        assert forall|i: int|
            0 <= i < init.len() && closes_hunk(init[i]) implies adds_up(
            #[trigger] read_lines(init.take(i)),
        ) by {
            assert(init.take(i) =~= ls.take(i));
            assert(init[i] == ls[i]);
        }
        lemma_read_lines_counting(init);
        lemma_read_lines_numbering(init);
        assert(ls.take(k) =~= init);
        if closes_hunk(ls[k]) {
            assert(adds_up(read_lines(ls.take(k))));
        }
        lemma_read_line_counting(read_lines(init), ls.last(), init.len());
    }
}

/// The hunks of a patch hold as many lines on each side as their headers
/// say, where every line that adds to a hunk comes under a hunk header
/// and every hunk's lines reach the ends of the ranges its header gives,
/// as in a patch `git diff` prints; for a patch of fewer lines than a
/// `usize` counts.
pub proof fn law_hunk_counts_match_their_headers(patch: Seq<char>)
    requires
        lines_under_headers(lines(patch)),
        hunks_add_up(lines(patch)),
        lines(patch).len() <= usize::MAX,
    ensures
        forall|f: int|
            0 <= f < patch_files(patch).len() ==> hunks_counted(
                #[trigger] patch_files(patch)[f].hunks,
            ),
{
    let ls = lines(patch);
    let r = read_lines(ls);
    lemma_read_lines_counting(ls);
    lemma_read_lines_numbering(ls);
    lemma_hunk_closed_counting(r, ls.len());
    lemma_hunk_closed_numbering(r);
    lemma_file_closed_counting(hunk_closed(r), ls.len());
}

/// Each `diff --git` line of a patch starts one file of it, and nothing
/// else does.
pub proof fn law_one_file_per_header(patch: Seq<char>)
    ensures
        patch_files(patch).len() == file_headers(lines(patch)),
{
    lemma_reading_counts(lines(patch));
}

/// A file of a patch is a mode change alone exactly when its mode changed
/// and it has no hunk.
pub proof fn law_mode_change_alone(patch: Seq<char>)
    ensures
        forall|i: int|
            0 <= i < patch_files(patch).len() ==> mode_state_agrees(
                #[trigger] patch_files(patch)[i],
            ),
{
    let ls = lines(patch);
    lemma_reading_counts(ls);
    let r = read_lines(ls);
    let c = file_closed(hunk_closed(r));
    if r.path is Some {
        assert forall|i: int| 0 <= i < c.files.len() implies mode_state_agrees(
            #[trigger] c.files[i],
        ) by {
            if i < r.files.len() {
                assert(c.files[i] == hunk_closed(r).files[i]);
            }
        }
    }
}

/// The words before the subcommand in every call of git: paths printed
/// as they are, and no lock taken that could stall the user's own git.
pub open spec fn git_options() -> Seq<Seq<char>> {
    seq!["-c"@, "core.quotePath=false"@, "--no-optional-locks"@]
}

/// The arguments to call git with to run `subcommand` with `args`.
pub fn git_args(subcommand: &str, args: &Vec<String>) -> (r: Vec<String>)
    ensures
        r@.map_values(|s: String| s@) == git_options().push(subcommand@) + args@.map_values(
            |s: String| s@,
        ),
{
    let mut r: Vec<String> = Vec::new();
    r.push("-c".to_owned());
    r.push("core.quotePath=false".to_owned());
    r.push("--no-optional-locks".to_owned());
    r.push(subcommand.to_owned());
    let ghost head = r@.map_values(|s: String| s@);
    assert(head =~= git_options().push(subcommand@));
    let mut i: usize = 0;
    while i < args.len()
        invariant
            i <= args.len(),
            head == git_options().push(subcommand@),
            r@.map_values(|s: String| s@) == head + args@.map_values(|s: String| s@).take(i as int),
        decreases args.len() - i,
    {
        let ghost before = r@;
        r.push(args[i].clone());
        proof {
            assert(r@.map_values(|s: String| s@) =~= before.map_values(|s: String| s@).push(
                args@[i as int]@,
            ));
            assert(args@.map_values(|s: String| s@).take(i + 1) =~= args@.map_values(
                |s: String| s@,
            ).take(i as int).push(args@[i as int]@));
        }
        i = i + 1;
    }
    assert(args@.map_values(|s: String| s@).take(i as int) =~= args@.map_values(|s: String| s@));
    r
}

/// What a failed call of git reads, with what it printed on its error
/// stream.
pub open spec fn failure_message(subcommand: Seq<char>, stderr: Seq<u8>) -> Seq<char> {
    "git "@ + subcommand + " failed: "@ + lossy_utf8(stderr)
}

/// What a call of git answered: the text it printed, where it succeeded;
/// an error that quotes its error stream, where it did not.
pub fn answer(subcommand: &str, success: bool, stdout: &[u8], stderr: &[u8]) -> (r: Result<
    String,
    Error,
>)
    ensures
        match r {
            Ok(text) => success && text@ == lossy_utf8(stdout@),
            Err(e) => !success && e@ == failure_message(subcommand@, stderr@),
        },
{
    if success {
        Ok(decode_lossy(stdout))
    } else {
        let mut message: Vec<char> = Vec::new();
        push_str(&mut message, "git ");
        push_str(&mut message, subcommand);
        push_str(&mut message, " failed: ");
        let detail = decode_lossy(stderr);
        push_str(&mut message, detail.as_str());
        Err(Error::new(string_of(&message)))
    }
}

impl Diff {
    /// The commit to measure the pending change against: `HEAD`, or, on
    /// an unborn branch, the empty tree, whose name `git mktree` printed
    /// as `empty_tree`.
    pub fn base(status: &Status, empty_tree: &str) -> (r: String)
        ensures
            r@ == if status.branch is Unborn {
                trim(empty_tree@)
            } else {
                "HEAD"@
            },
    {
        match &status.branch {
            Branch::Unborn(_) => string_of(&trimmed(&chars_of(empty_tree))),
            _ => "HEAD".to_owned(),
        }
    }
}

} // verus!
