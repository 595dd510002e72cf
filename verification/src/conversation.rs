//! The decisions of a conversation as the app holds it: where its context
//! starts after a compaction, when and where to compact, which items are
//! settled enough to save, what an abort cuts short, which items the
//! events of a reply and of a tool run update, and what the items show of
//! themselves: a compaction's notice, a reasoning's header, a tool run's
//! card.
//!
//! The app holds richer items (rendered markdown, the state of a running
//! tool); each is seen here by the little the decisions read of it.

use vstd::prelude::*;

use crate::html::{grouped, thousands};
use crate::output::{fit_count, fit_prefix, min_nat, texts, well_formed};
use crate::session::{status_content, Progress, Status};
use crate::text::{
    chars_of, decimal, extend, push_decimal, push_str, same_chars, slice_of, string_of, trim, trimmed,
};

verus! {

/// How a tool run stands: still running, or ended, and how.
#[derive(Debug, Clone)]
pub enum RunStatus {
    Running,
    Ended(Status),
}

/// The text of a reply as it streams in: the chunks received so far, the
/// last one outermost.
#[derive(Debug)]
pub enum Chunks {
    Empty,
    Then(Box<Chunks>, String),
}

/// The text the chunks `c` make, one after the other.
pub open spec fn chunks_text(c: Chunks) -> Seq<char>
    decreases c,
{
    match c {
        Chunks::Empty => seq![],
        Chunks::Then(rest, s) => chunks_text(*rest) + s@,
    }
}

/// The chunks `c` with the chunk `d` after them, where it holds anything.
pub open spec fn extended(c: Chunks, d: String) -> Chunks {
    if d@.len() == 0 {
        c
    } else {
        Chunks::Then(Box::new(c), d)
    }
}

impl Chunks {
    /// The chunks `self` with the chunk `d` after them, where it holds
    /// anything.
    pub fn extend(self, d: String) -> (r: Chunks)
        ensures
            r == extended(self, d),
            chunks_text(r) == chunks_text(self) + d@,
    {
        if d.as_str().is_empty() {
            assert(d@ =~= Seq::<char>::empty());
            assert(chunks_text(self) + d@ =~= chunks_text(self));
            self
        } else {
            Chunks::Then(Box::new(self), d)
        }
    }

    fn append_to(&self, out: &mut Vec<char>)
        ensures
            final(out)@ == old(out)@ + chunks_text(*self),
        decreases self,
    {
        match self {
            Chunks::Empty => {
                assert(out@ + chunks_text(*self) =~= out@);
            },
            Chunks::Then(rest, s) => {
                let ghost start = out@;
                rest.append_to(out);
                push_str(out, s.as_str());
                assert(out@ =~= start + chunks_text(*self));
            },
        }
    }

    /// The text the chunks make.
    pub fn text(&self) -> (r: String)
        ensures
            r@ == chunks_text(*self),
    {
        let mut out: Vec<char> = Vec::new();
        self.append_to(&mut out);
        assert(out@ =~= chunks_text(*self));
        string_of(&out)
    }
}

/// An item of the conversation, by what the decisions read of it.
#[derive(Debug)]
pub enum Entry {
    /// A message of the user.
    User,
    /// A reply of the model: the tokens its context held when its timings
    /// were last reported, if they were, the id of the last tool call it
    /// has begun, if any, and its text and reasoning as they stream in.
    Assistant { tokens: Option<u64>, last_call: Option<String>, content: Chunks, reasoning: Chunks },
    /// A run of the tool call `id`, and how it stands.
    Tool { id: String, status: RunStatus },
    /// A compaction of the items before `to`; finished once its summary
    /// is complete; with the tokens of its context, as for a reply.
    Compaction { to: usize, finished: bool, tokens: Option<u64> },
    /// A review of the pending change.
    Review,
}

/// The index of the last finished compaction among `es`.
pub open spec fn last_finished(es: Seq<Entry>) -> Option<int>
    decreases es.len(),
{
    if es.len() == 0 {
        None
    } else if es.last() matches Entry::Compaction { finished: true, .. } {
        Some(es.len() - 1)
    } else {
        last_finished(es.drop_last())
    }
}

/// Where the context of `es` starts: where the last finished compaction
/// cut, or at the start.
pub open spec fn start_of(es: Seq<Entry>) -> int {
    match last_finished(es) {
        Some(i) => match es[i] {
            Entry::Compaction { to, .. } => to as int,
            _ => 0,
        },
        None => 0,
    }
}

proof fn lemma_last_finished(es: Seq<Entry>)
    ensures
        last_finished(es) matches Some(i) ==> 0 <= i < es.len() && es[i] matches Entry::Compaction {
            finished: true,
            ..
        },
    decreases es.len(),
{
    if es.len() > 0 {
        lemma_last_finished(es.drop_last());
    }
}

/// The index of the last finished compaction.
pub fn last_compaction(entries: &Vec<Entry>) -> (r: Option<usize>)
    ensures
        match r {
            Some(i) => last_finished(entries@) == Some(i as int),
            None => last_finished(entries@) is None,
        },
{
    let mut k = entries.len();
    assert(entries@.take(k as int) =~= entries@);
    while k > 0
        invariant
            k <= entries.len(),
            last_finished(entries@) == last_finished(entries@.take(k as int)),
        decreases k,
    {
        proof {
            assert(entries@.take(k as int).drop_last() =~= entries@.take(k - 1));
            assert(entries@.take(k as int).last() == entries@[k - 1]);
        }
        match &entries[k - 1] {
            Entry::Compaction { finished: true, .. } => {
                return Some(k - 1);
            },
            _ => {},
        }
        k = k - 1;
    }
    None
}

/// Where the context starts: past the items the last finished
/// compaction summarized.
pub fn context_start(entries: &Vec<Entry>) -> (r: usize)
    ensures
        r == start_of(entries@),
{
    proof {
        assert(entries@.take(entries.len() as int) =~= entries@);
        lemma_last_finished(entries@);
    }
    match last_compaction(entries) {
        Some(i) => match &entries[i] {
            Entry::Compaction { to, .. } => *to,
            _ => 0,
        },
        None => 0,
    }
}

/// The tokens an item's timings report: a reply's or a compaction's.
pub open spec fn tokens_of(e: Entry) -> Option<u64> {
    match e {
        Entry::Assistant { tokens, .. } => tokens,
        Entry::Compaction { tokens, .. } => tokens,
        _ => None,
    }
}

/// The tokens of the last item of `es` from `start` on that reports them.
pub open spec fn latest_from(es: Seq<Entry>, start: int) -> Option<u64>
    decreases es.len(),
{
    if es.len() <= start || es.len() == 0 {
        None
    } else {
        match tokens_of(es.last()) {
            Some(t) => Some(t),
            None => latest_from(es.drop_last(), start),
        }
    }
}

/// How many tokens the context holds: those the last reply or compaction
/// of the context reported.
pub open spec fn context_tokens(es: Seq<Entry>) -> Option<u64> {
    latest_from(es, start_of(es))
}

/// How many tokens the context holds, where a reply of it reported them.
pub fn latest_tokens(entries: &Vec<Entry>) -> (r: Option<u64>)
    ensures
        r == context_tokens(entries@),
{
    let start = context_start(entries);
    let mut k = entries.len();
    assert(entries@.take(k as int) =~= entries@);
    while k > start
        invariant
            k <= entries.len(),
            start == start_of(entries@),
            latest_from(entries@, start as int) == latest_from(entries@.take(k as int), start as int),
        decreases k,
    {
        proof {
            assert(entries@.take(k as int).drop_last() =~= entries@.take(k - 1));
            assert(entries@.take(k as int).last() == entries@[k - 1]);
        }
        let found = match &entries[k - 1] {
            Entry::Assistant { tokens, .. } => *tokens,
            Entry::Compaction { tokens, .. } => *tokens,
            _ => None,
        };
        assert(found == tokens_of(entries@[k - 1]));
        if found.is_some() {
            return found;
        }
        k = k - 1;
    }
    None
}

/// The fewest tokens a compaction is given room for.
pub const COMPACTION_MIN_TOKENS: u64 = 4000;

/// The most tokens a compaction is given room for.
pub const COMPACTION_MAX_TOKENS: u64 = 10000;

/// The room a compaction needs in a context of `context_size` tokens: an
/// eighth of it, within the bounds above.
pub open spec fn budget_of(context_size: u64) -> u64 {
    let eighth = context_size / 8;
    if eighth < COMPACTION_MIN_TOKENS {
        COMPACTION_MIN_TOKENS
    } else if eighth > COMPACTION_MAX_TOKENS {
        COMPACTION_MAX_TOKENS
    } else {
        eighth
    }
}

/// The room a compaction needs in a context of `context_size` tokens.
pub fn compaction_budget(context_size: u64) -> (r: u64)
    ensures
        r == budget_of(context_size),
        COMPACTION_MIN_TOKENS <= r <= COMPACTION_MAX_TOKENS,
{
    let eighth = context_size / 8;
    if eighth < COMPACTION_MIN_TOKENS {
        COMPACTION_MIN_TOKENS
    } else if eighth > COMPACTION_MAX_TOKENS {
        COMPACTION_MAX_TOKENS
    } else {
        eighth
    }
}

/// `a - b`, or nothing below zero.
pub open spec fn saturating(a: u64, b: u64) -> u64 {
    if a >= b {
        (a - b) as u64
    } else {
        0
    }
}

/// Whether a context of `context_size` tokens, `total` of them used, is
/// to be compacted: when what is left is no more than the room a
/// compaction needs.
pub open spec fn compaction_due(context_size: u64, total: u64) -> bool {
    saturating(context_size, total) <= budget_of(context_size)
}

/// The tokens to keep intact after a compaction: a fifth of the context,
/// as `fifth` rounds it, and no fewer than half the room a compaction
/// needs.
pub open spec fn kept_tokens(context_size: u64, fifth: u64) -> u64 {
    let half = budget_of(context_size) / 2;
    if fifth > half {
        fifth
    } else {
        half
    }
}

/// Whether the reply `e` came early enough that, of `total` tokens, at
/// least `keep` came after it.
pub open spec fn keeps(e: Entry, total: u64, keep: u64) -> bool {
    e matches Entry::Assistant { tokens: Some(t), .. } && saturating(total, t) >= keep
}

/// The last index in `start..hi` of a reply that keeps `keep` of `total`
/// tokens after it.
pub open spec fn last_keeping(es: Seq<Entry>, start: int, hi: int, total: u64, keep: u64) -> Option<
    int,
>
    decreases hi - start,
{
    if hi <= start {
        None
    } else if keeps(es[hi - 1], total, keep) {
        Some(hi - 1)
    } else {
        last_keeping(es, start, hi - 1, total, keep)
    }
}

/// The end of the run of tool items from `k`.
pub open spec fn run_end(es: Seq<Entry>, k: int) -> int
    decreases es.len() - k,
{
    if 0 <= k < es.len() && es[k] is Tool {
        run_end(es, k + 1)
    } else {
        k
    }
}

/// Where a compaction cuts `es`, with `total` tokens in the context and
/// `keep` of them to be kept: past the last reply that keeps them after
/// it, and past the tool runs that answer it; at the start of the context
/// if no reply does.
pub open spec fn cut_of(es: Seq<Entry>, total: u64, keep: u64) -> int {
    let start = start_of(es);
    let base = match last_keeping(es, start, es.len() as int, total, keep) {
        Some(k) => k + 1,
        None => start,
    };
    run_end(es, base)
}

/// Whether the entry `e` is a reply early enough that, of `total` tokens,
/// at least `keep` came after it: its context held `t` tokens, and
/// `total` less `t`, or nothing where it held more, is `keep` or more.
pub open spec fn keeps_after(e: Entry, total: u64, keep: u64) -> bool {
    e matches Entry::Assistant { tokens: Some(t), .. } && (if total >= t {
        total - t
    } else {
        0
    }) >= keep
}

proof fn lemma_last_keeping_is_last(es: Seq<Entry>, start: int, hi: int, total: u64, keep: u64)
    requires
        0 <= start,
        hi <= es.len(),
    ensures
        match last_keeping(es, start, hi, total, keep) {
            Some(k) => start <= k < hi && keeps_after(es[k], total, keep) && forall|j: int|
                k < j < hi ==> !keeps_after(#[trigger] es[j], total, keep),
            None => forall|j: int| start <= j < hi ==> !keeps_after(#[trigger] es[j], total, keep),
        },
    decreases hi - start,
{
    if hi > start {
        lemma_last_keeping_is_last(es, start, hi - 1, total, keep);
    }
}

proof fn lemma_run_end_tools(es: Seq<Entry>, k: int)
    requires
        0 <= k <= es.len(),
    ensures
        forall|m: int| k <= m < run_end(es, k) ==> #[trigger] es[m] is Tool,
    decreases es.len() - k,
{
    if k < es.len() && es[k] is Tool {
        lemma_run_end_tools(es, k + 1);
    }
}

/// A compaction cuts past the last reply that keeps the tokens to keep
/// after it: no reply of the context from the cut on keeps `keep` of
/// `total` tokens after it; and what lies between the last reply before
/// the cut that does and the cut is its tool runs, or, where no reply
/// does, the cut is at the context's start, past its tool runs.
pub proof fn law_a_compaction_cuts_past_the_last_keeping_reply(
    es: Seq<Entry>,
    total: u64,
    keep: u64,
)
    requires
        start_of(es) <= es.len(),
    ensures
        ({
            let start = start_of(es);
            let to = cut_of(es, total, keep);
            &&& start <= to <= es.len()
            &&& forall|j: int| start <= j < es.len() && keeps_after(#[trigger] es[j], total, keep) ==> j < to
            &&& (forall|m: int| start <= m < to ==> #[trigger] es[m] is Tool) || exists|k: int|
                start <= k < to && keeps_after(#[trigger] es[k], total, keep) && forall|m: int|
                    k < m < to ==> #[trigger] es[m] is Tool
        }),
{
    let start = start_of(es);
    lemma_last_keeping_is_last(es, start, es.len() as int, total, keep);
    let base = match last_keeping(es, start, es.len() as int, total, keep) {
        Some(k) => k + 1,
        None => start,
    };
    lemma_run_end(es, base);
    lemma_run_end_tools(es, base);
    match last_keeping(es, start, es.len() as int, total, keep) {
        Some(k) => {
            assert(keeps_after(es[k], total, keep));
        },
        None => {},
    }
}

proof fn lemma_run_end(es: Seq<Entry>, k: int)
    requires
        0 <= k <= es.len(),
    ensures
        k <= run_end(es, k) <= es.len(),
        run_end(es, k) < es.len() ==> !(es[run_end(es, k)] is Tool),
    decreases es.len() - k,
{
    if k < es.len() && es[k] is Tool {
        lemma_run_end(es, k + 1);
    }
}

proof fn lemma_last_keeping(es: Seq<Entry>, start: int, hi: int, total: u64, keep: u64)
    ensures
        last_keeping(es, start, hi, total, keep) matches Some(k) ==> start <= k < hi,
    decreases hi - start,
{
    if hi > start {
        lemma_last_keeping(es, start, hi - 1, total, keep);
    }
}

/// Where a compaction of `entries` is to cut, if one is due: with
/// `context_size` tokens of context, `total` of them used, and `fifth` a
/// fifth of `total` rounded.
pub fn compaction_cut(entries: &Vec<Entry>, context_size: u64, total: u64, fifth: u64) -> (r:
    Option<usize>)
    requires
        start_of(entries@) <= entries.len(),
    ensures
        match r {
            Some(to) => compaction_due(context_size, total) && to == cut_of(
                entries@,
                total,
                kept_tokens(context_size, fifth),
            ),
            None => !compaction_due(context_size, total),
        },
        r matches Some(to) ==> start_of(entries@) <= to <= entries.len() && (to < entries.len()
            ==> !(entries@[to as int] is Tool)),
{
    let budget = compaction_budget(context_size);
    let left = if context_size >= total {
        context_size - total
    } else {
        0
    };
    if left > budget {
        return None;
    }
    let half = budget / 2;
    let keep = if fifth > half {
        fifth
    } else {
        half
    };
    let start = context_start(entries);
    let mut k = entries.len();
    let mut base = start;
    while k > start
        invariant_except_break
            base == start,
        invariant
            start <= k <= entries.len(),
            start == start_of(entries@),
            last_keeping(entries@, start as int, entries.len() as int, total, keep)
                == last_keeping(entries@, start as int, k as int, total, keep),
        ensures
            start <= base <= entries.len(),
            base == match last_keeping(
                entries@,
                start as int,
                entries.len() as int,
                total,
                keep,
            ) {
                Some(i) => i + 1,
                None => start as int,
            },
        decreases k,
    {
        let kept = match &entries[k - 1] {
            Entry::Assistant { tokens: Some(t), .. } => {
                let after = if total >= *t {
                    total - *t
                } else {
                    0
                };
                after >= keep
            },
            _ => false,
        };
        if kept {
            base = k;
            break;
        }
        k = k - 1;
    }
    proof {
        lemma_last_keeping(entries@, start as int, entries.len() as int, total, keep);
        lemma_run_end(entries@, base as int);
    }
    let mut end = base;
    while end < entries.len() && matches!(entries[end], Entry::Tool { .. })
        invariant
            base <= end <= entries.len(),
            run_end(entries@, base as int) == run_end(entries@, end as int),
        decreases entries.len() - end,
    {
        end = end + 1;
    }
    proof {
        lemma_run_end(entries@, end as int);
    }
    Some(end)
}

/// Whether the item at `i` of `es` is settled enough to save: a reply
/// once another item follows it or no work is under way, a tool run once
/// it stopped, a compaction once it finished.
pub open spec fn settled(es: Seq<Entry>, i: int, idle: bool) -> bool {
    match es[i] {
        Entry::User => true,
        Entry::Assistant { .. } => i + 1 != es.len() || idle,
        Entry::Tool { status, .. } => status is Ended,
        Entry::Compaction { finished, .. } => finished,
        Entry::Review => true,
    }
}

/// How many items from `from` on are settled, one after the other.
pub open spec fn settled_run(es: Seq<Entry>, from: int, idle: bool) -> nat
    decreases es.len() - from,
{
    if from < 0 || from >= es.len() || !settled(es, from, idle) {
        0
    } else {
        1 + settled_run(es, from + 1, idle)
    }
}

proof fn lemma_settled_run(es: Seq<Entry>, from: int, idle: bool)
    requires
        0 <= from,
    ensures
        from + settled_run(es, from, idle) <= es.len() || settled_run(es, from, idle) == 0,
    decreases es.len() - from,
{
    if from < es.len() && settled(es, from, idle) {
        lemma_settled_run(es, from + 1, idle);
    }
}

/// How many of the items after the `saved` first are to be saved: those
/// settled, up to the first that is not; `idle` where no work is under
/// way.
pub fn settled_count(entries: &Vec<Entry>, saved: usize, idle: bool) -> (n: usize)
    ensures
        n == settled_run(entries@, saved as int, idle),
{
    let mut i = saved;
    let mut n: usize = 0;
    while i < entries.len()
        invariant
            saved <= i,
            n == i - saved,
            settled_run(entries@, saved as int, idle) == n + settled_run(entries@, i as int, idle),
        decreases entries.len() - i,
    {
        let done = match &entries[i] {
            Entry::User => true,
            Entry::Assistant { .. } => i + 1 != entries.len() || idle,
            Entry::Tool { status, .. } => matches!(status, RunStatus::Ended(_)),
            Entry::Compaction { finished, .. } => *finished,
            Entry::Review => true,
        };
        if !done {
            return n;
        }
        i = i + 1;
        n = n + 1;
    }
    n
}

/// The indices of `es` below `n` of the tools still running, in order.
pub open spec fn running_below(es: Seq<Entry>, n: int) -> Seq<usize>
    decreases n,
{
    if n <= 0 {
        seq![]
    } else if es[n - 1] matches Entry::Tool { status: RunStatus::Running, .. } {
        running_below(es, n - 1).push((n - 1) as usize)
    } else {
        running_below(es, n - 1)
    }
}

/// The index of the last compaction of `es` below `n` that has not
/// finished.
pub open spec fn unfinished_below(es: Seq<Entry>, n: int) -> Option<int>
    decreases n,
{
    if n <= 0 {
        None
    } else if es[n - 1] matches Entry::Compaction { finished: false, .. } {
        Some(n - 1)
    } else {
        unfinished_below(es, n - 1)
    }
}

pub proof fn lemma_unfinished_below(es: Seq<Entry>, n: int)
    requires
        n <= es.len(),
    ensures
        unfinished_below(es, n) matches Some(i) ==> 0 <= i < n,
    decreases n,
{
    if n > 0 {
        lemma_unfinished_below(es, n - 1);
    }
}

/// What an abort cuts short: the tool runs still running, which end as
/// aborted, and the last compaction that has not finished, which is
/// dropped.
pub fn abort_targets(entries: &Vec<Entry>) -> (r: (Vec<usize>, Option<usize>))
    ensures
        r.0@ == running_below(entries@, entries.len() as int),
        match r.1 {
            Some(i) => unfinished_below(entries@, entries.len() as int) == Some(i as int),
            None => unfinished_below(entries@, entries.len() as int) is None,
        },
{
    let mut running: Vec<usize> = Vec::new();
    let mut unfinished: Option<usize> = None;
    let mut i: usize = 0;
    while i < entries.len()
        invariant
            i <= entries.len(),
            running@ == running_below(entries@, i as int),
            match unfinished {
                Some(k) => unfinished_below(entries@, i as int) == Some(k as int),
                None => unfinished_below(entries@, i as int) is None,
            },
        decreases entries.len() - i,
    {
        match &entries[i] {
            Entry::Tool { status: RunStatus::Running, .. } => {
                running.push(i);
            },
            Entry::Compaction { finished: false, .. } => {
                unfinished = Some(i);
            },
            _ => {},
        }
        i = i + 1;
    }
    (running, unfinished)
}

/// The index of the last message of the user among the `n` first of `es`.
pub open spec fn last_user_below(es: Seq<Entry>, n: int) -> Option<int>
    decreases n,
{
    if n <= 0 {
        None
    } else if es[n - 1] is User {
        Some(n - 1)
    } else {
        last_user_below(es, n - 1)
    }
}

/// The message of the user that opened the turn a compaction cut into:
/// where the context starts with a reply or a compaction, the last
/// message of the user before it.
pub open spec fn opener_of(es: Seq<Entry>) -> Option<int> {
    let start = start_of(es);
    if 0 <= start < es.len() && (es[start] is Assistant || es[start] is Compaction) {
        last_user_below(es, start)
    } else {
        None
    }
}

/// The index of the message of the user that opened the turn the context
/// starts in, when a compaction cut into that turn.
pub fn opener_turn(entries: &Vec<Entry>) -> (r: Option<usize>)
    ensures
        match r {
            Some(i) => opener_of(entries@) == Some(i as int),
            None => opener_of(entries@) is None,
        },
{
    let start = context_start(entries);
    if start >= entries.len() {
        return None;
    }
    let opens = match &entries[start] {
        Entry::Assistant { .. } => true,
        Entry::Compaction { .. } => true,
        _ => false,
    };
    if !opens {
        return None;
    }
    let mut k = start;
    while k > 0
        invariant
            k <= start < entries.len(),
            start == start_of(entries@),
            entries@[start as int] is Assistant || entries@[start as int] is Compaction,
            last_user_below(entries@, start as int) == last_user_below(entries@, k as int),
        decreases k,
    {
        match &entries[k - 1] {
            Entry::User => {
                return Some(k - 1);
            },
            _ => {},
        }
        k = k - 1;
    }
    None
}

/// The index of the last item of `es` below `n` that is no tool run.
pub open spec fn last_non_tool_below(es: Seq<Entry>, n: int) -> Option<int>
    decreases n,
{
    if n <= 0 {
        None
    } else if !(es[n - 1] is Tool) {
        Some(n - 1)
    } else {
        last_non_tool_below(es, n - 1)
    }
}

/// The reply the events of a completion update: the last item that is no
/// tool run, where it is a reply.
pub open spec fn reply_of(es: Seq<Entry>) -> Option<int> {
    match last_non_tool_below(es, es.len() as int) {
        Some(i) => if es[i] is Assistant {
            Some(i)
        } else {
            None
        },
        None => None,
    }
}

proof fn lemma_last_non_tool(es: Seq<Entry>, n: int)
    requires
        n <= es.len(),
    ensures
        last_non_tool_below(es, n) matches Some(i) ==> 0 <= i < n,
    decreases n,
{
    if n > 0 {
        lemma_last_non_tool(es, n - 1);
    }
}

pub proof fn lemma_reply_of(es: Seq<Entry>)
    ensures
        reply_of(es) matches Some(i) ==> 0 <= i < es.len() && es[i] is Assistant,
{
    lemma_last_non_tool(es, es.len() as int);
}

/// The index of the reply that the events of a completion update, if the
/// last item that is no tool run is one.
pub fn reply_target(entries: &Vec<Entry>) -> (r: Option<usize>)
    ensures
        match r {
            Some(i) => reply_of(entries@) == Some(i as int),
            None => reply_of(entries@) is None,
        },
{
    proof {
        lemma_last_non_tool(entries@, entries.len() as int);
    }
    let mut k = entries.len();
    while k > 0
        invariant
            k <= entries.len(),
            last_non_tool_below(entries@, entries.len() as int) == last_non_tool_below(
                entries@,
                k as int,
            ),
        decreases k,
    {
        match &entries[k - 1] {
            Entry::Tool { .. } => {},
            Entry::Assistant { .. } => {
                return Some(k - 1);
            },
            _ => {
                return None;
            },
        }
        k = k - 1;
    }
    None
}

/// The index of the last run of the tool call `id` among the `n` first of
/// `es`.
pub open spec fn last_run_below(es: Seq<Entry>, id: Seq<char>, n: int) -> Option<int>
    decreases n,
{
    if n <= 0 {
        None
    } else if es[n - 1] matches Entry::Tool { id: run, .. } && run@ == id {
        Some(n - 1)
    } else {
        last_run_below(es, id, n - 1)
    }
}

pub proof fn lemma_last_run_below(es: Seq<Entry>, id: Seq<char>, n: int)
    requires
        n <= es.len(),
    ensures
        last_run_below(es, id, n) matches Some(i) ==> 0 <= i < n,
    decreases n,
{
    if n > 0 {
        lemma_last_run_below(es, id, n - 1);
    }
}

/// The index of the last run of the tool call `id`: the one the events of
/// that call update.
pub fn tool_run(entries: &Vec<Entry>, id: &str) -> (r: Option<usize>)
    ensures
        match r {
            Some(i) => last_run_below(entries@, id@, entries.len() as int) == Some(i as int),
            None => last_run_below(entries@, id@, entries.len() as int) is None,
        },
{
    let mut k = entries.len();
    while k > 0
        invariant
            k <= entries.len(),
            last_run_below(entries@, id@, entries.len() as int) == last_run_below(
                entries@,
                id@,
                k as int,
            ),
        decreases k,
    {
        match &entries[k - 1] {
            Entry::Tool { id: run, .. } => {
                if same_chars(&chars_of(run.as_str()), &chars_of(id)) {
                    return Some(k - 1);
                }
            },
            _ => {},
        }
        k = k - 1;
    }
    None
}

/// The tokens a compaction's summary grew by between two reports of its
/// timings: the difference of their totals, where both report one.
pub fn compaction_growth(now: Option<u64>, before: Option<u64>) -> (n: u64)
    ensures
        n == match (now, before) {
            (Some(a), Some(b)) => saturating(a, b),
            _ => 0,
        },
{
    match (now, before) {
        (Some(a), Some(b)) => if a >= b {
            a - b
        } else {
            0
        },
        _ => 0,
    }
}

/// Whether `a` comes before `b` in the order of `String`: byte by byte,
/// which for UTF-8 is char by char, by code point, a prefix first.
pub open spec fn precedes(a: Seq<char>, b: Seq<char>) -> bool
    decreases a.len(),
{
    if a.len() == 0 {
        b.len() > 0
    } else if b.len() == 0 {
        false
    } else if a[0] != b[0] {
        (a[0] as u32) < (b[0] as u32)
    } else {
        precedes(a.drop_first(), b.drop_first())
    }
}

/// The least of `ids`, in the order of `String`.
pub open spec fn least(ids: Seq<Seq<char>>) -> Seq<char>
    recommends
        ids.len() > 0,
    decreases ids.len(),
{
    if ids.len() <= 1 {
        ids[0]
    } else {
        let rest = least(ids.drop_last());
        if precedes(ids.last(), rest) {
            ids.last()
        } else {
            rest
        }
    }
}

/// The model to use once the server lists `ids`: the current one while it
/// is listed, the least listed otherwise, as the first key of the map the
/// app keeps them in.
pub open spec fn chosen_model(current: Option<Seq<char>>, ids: Seq<Seq<char>>) -> Option<
    Seq<char>,
> {
    let first = if ids.len() > 0 {
        Some(least(ids))
    } else {
        None
    };
    match current {
        Some(c) => if ids.contains(c) {
            Some(c)
        } else {
            first
        },
        None => first,
    }
}

proof fn lemma_precedes_skip(a: Seq<char>, b: Seq<char>, i: int)
    requires
        0 <= i <= a.len(),
        i <= b.len(),
        a.take(i) == b.take(i),
    ensures
        precedes(a, b) == precedes(a.skip(i), b.skip(i)),
    decreases i,
{
    if i > 0 {
        assert(a.drop_first().take(i - 1) =~= a.take(i).drop_first());
        assert(b.drop_first().take(i - 1) =~= b.take(i).drop_first());
        assert(a[0] == a.take(i)[0]);
        assert(b[0] == b.take(i)[0]);
        lemma_precedes_skip(a.drop_first(), b.drop_first(), i - 1);
        assert(a.drop_first().skip(i - 1) =~= a.skip(i));
        assert(b.drop_first().skip(i - 1) =~= b.skip(i));
    } else {
        assert(a.skip(0) =~= a);
        assert(b.skip(0) =~= b);
    }
}

/// Whether `a` comes before `b` in the order of `String`.
pub fn comes_first(a: &str, b: &str) -> (r: bool)
    ensures
        r == precedes(a@, b@),
{
    let x = chars_of(a);
    let y = chars_of(b);
    let mut i: usize = 0;
    while i < x.len() && i < y.len() && x[i] == y[i]
        invariant
            i <= x.len(),
            i <= y.len(),
            x@ == a@,
            y@ == b@,
            x@.take(i as int) == y@.take(i as int),
        decreases x.len() - i,
    {
        assert(x@.take(i + 1) =~= x@.take(i as int).push(x@[i as int]));
        assert(y@.take(i + 1) =~= y@.take(i as int).push(y@[i as int]));
        i = i + 1;
    }
    proof {
        lemma_precedes_skip(x@, y@, i as int);
    }
    if i == x.len() {
        i < y.len()
    } else if i == y.len() {
        false
    } else {
        (x[i] as u32) < (y[i] as u32)
    }
}

/// The model to use once the server lists `ids`.
pub fn choose_model(current: Option<String>, ids: &Vec<String>) -> (r: Option<String>)
    ensures
        crate::git::text_view(r) == chosen_model(
            crate::git::text_view(current),
            ids@.map_values(|s: String| s@),
        ),
{
    let ghost all = ids@.map_values(|s: String| s@);
    match current {
        Some(c) => {
            let mut i: usize = 0;
            while i < ids.len()
                invariant
                    i <= ids.len(),
                    all == ids@.map_values(|s: String| s@),
                    crate::git::text_view(current) == Some(c@),
                    forall|k: int| 0 <= k < i ==> all[k] != c@,
                decreases ids.len() - i,
            {
                if same_chars(&chars_of(ids[i].as_str()), &chars_of(c.as_str())) {
                    assert(all[i as int] == c@);
                    assert(all.contains(c@));
                    return Some(c);
                }
                i = i + 1;
            }
            assert(!all.contains(c@));
        },
        None => {},
    }
    if ids.len() == 0 {
        return None;
    }
    let mut best: usize = 0;
    let mut i: usize = 1;
    while i < ids.len()
        invariant
            1 <= i <= ids.len(),
            best < i,
            all == ids@.map_values(|s: String| s@),
            all[best as int] == least(all.take(i as int)),
        decreases ids.len() - i,
    {
        proof {
            let t = all.take(i + 1);
            assert(t.drop_last() =~= all.take(i as int));
            assert(t.last() == all[i as int]);
        }
        if comes_first(ids[i].as_str(), ids[best].as_str()) {
            best = i;
        }
        i = i + 1;
    }
    proof {
        assert(all.take(i as int) =~= all);
        if ids.len() == 1 {
            assert(all.take(1)[0] == all[0]);
        }
    }
    Some(ids[best].clone())
}

/// The notice a compaction is shown as: how many tokens it compacted
/// into once finished; while the summary is under way, its tokens so
/// far, of reasoning until its content starts.
pub open spec fn compaction_notice_of(
    finished: bool,
    content_empty: bool,
    tokens: u64,
    reasoning_tokens: u64,
) -> Seq<char> {
    if finished {
        "Compacted into "@ + decimal(tokens as nat) + " tokens"@
    } else if content_empty {
        "Analyzing... "@ + decimal(reasoning_tokens as nat) + " tokens"@
    } else {
        "Compacting... "@ + decimal(tokens as nat) + " tokens"@
    }
}

/// The notice a compaction is shown as.
pub fn compaction_notice(finished: bool, content_empty: bool, tokens: u64, reasoning_tokens: u64) -> (r:
    String)
    ensures
        r@ == compaction_notice_of(finished, content_empty, tokens, reasoning_tokens),
{
    let mut out: Vec<char> = Vec::new();
    if finished {
        push_str(&mut out, "Compacted into ");
        push_decimal(&mut out, tokens);
    } else if content_empty {
        push_str(&mut out, "Analyzing... ");
        push_decimal(&mut out, reasoning_tokens);
    } else {
        push_str(&mut out, "Compacting... ");
        push_decimal(&mut out, tokens);
    }
    push_str(&mut out, " tokens");
    string_of(&out)
}

/// The progress bar a reply or a compaction shows while the model reads
/// its prompt: the tokens processed of the total, until all are; none
/// once they are.
pub open spec fn prompt_bar_of(progress: Progress) -> Option<(u64, u64)> {
    if progress.total != progress.processed {
        Some((progress.processed, progress.total))
    } else {
        None
    }
}

/// The progress bar of a prompt, by the tokens processed and the total;
/// the bar is drawn at their ratio.
pub fn prompt_bar(progress: Progress) -> (r: Option<(u64, u64)>)
    ensures
        r == prompt_bar_of(progress),
{
    if progress.total != progress.processed {
        Some((progress.processed, progress.total))
    } else {
        None
    }
}

/// What a compaction shows: the progress bar of its prompt, if any, over
/// its notice.
pub fn compaction_card(
    finished: bool,
    content_empty: bool,
    tokens: u64,
    reasoning_tokens: u64,
    prompt: Progress,
) -> (r: (Option<(u64, u64)>, String))
    ensures
        r.0 == prompt_bar_of(prompt),
        r.1@ == compaction_notice_of(finished, content_empty, tokens, reasoning_tokens),
{
    (prompt_bar(prompt), compaction_notice(finished, content_empty, tokens, reasoning_tokens))
}

/// The header of a reply's reasoning: whether the model is done with it
/// (its reply has content or calls), and how long it took, where the
/// reply's timings tell.
pub open spec fn reasoning_header_of(done: bool, took: Option<Seq<char>>) -> Seq<char> {
    match took {
        Some(t) => if done {
            "Thought for "@ + t
        } else {
            "Thinking... ("@ + t + ")"@
        },
        None => if done {
            "Thought"@
        } else {
            "Thinking..."@
        },
    }
}

/// The header of a reply's reasoning, `took` how long it took, written
/// out.
pub fn reasoning_header(done: bool, took: Option<&str>) -> (r: String)
    ensures
        r@ == reasoning_header_of(
            done,
            match took {
                Some(t) => Some(t@),
                None => None,
            },
        ),
{
    let mut out: Vec<char> = Vec::new();
    match took {
        Some(t) => {
            if done {
                push_str(&mut out, "Thought for ");
                push_str(&mut out, t);
            } else {
                push_str(&mut out, "Thinking... (");
                push_str(&mut out, t);
                push_str(&mut out, ")");
            }
        },
        None => {
            if done {
                push_str(&mut out, "Thought");
            } else {
                push_str(&mut out, "Thinking...");
            }
        },
    }
    string_of(&out)
}

/// How many of the first lines of a long finished output a tool's card
/// shows.
pub const CARD_HEAD: usize = 2;

/// How many of the last lines of a long finished output a tool's card
/// shows.
pub const CARD_TAIL: usize = 3;

/// How many bytes of a line a tool's card shows; the rest is left to an
/// ellipsis.
pub const CARD_LINE_WIDTH: usize = 200;

/// A line as a tool's card shows it: cut to the bytes it shows.
pub open spec fn card_line(l: Seq<char>) -> Seq<char> {
    l.take(fit_count(l, CARD_LINE_WIDTH as nat) as int)
}

/// The lines `ls` as a card shows them, none a notice.
pub open spec fn card_lines(ls: Seq<Seq<char>>) -> Seq<(Seq<char>, bool)> {
    ls.map_values(|l: Seq<char>| (card_line(l), false))
}

/// The notice of the `n` lines a card leaves out.
pub open spec fn elided_notice(n: nat) -> Seq<char> {
    if n == 1 {
        "... 1 line elided"@
    } else {
        "... "@ + grouped(decimal(n)) + " lines elided"@
    }
}

/// What the card of a finished tool run shows, each line with whether it
/// is a notice: of a run that succeeded with output, its first and last
/// lines, with a notice of those left out between them where there are
/// more, or all its lines; otherwise what the model is told of the run,
/// trimmed, or a notice that there is nothing.
pub open spec fn card_of(status: Status) -> Seq<(Seq<char>, bool)> {
    let told = trim(status_content(status));
    let fallback = seq![(if told.len() == 0 { "[No output]"@ } else { told }, false)];
    match status {
        Status::Success { output } => {
            let v = output@;
            let kept = v.head + v.tail;
            if v.lines == 0 {
                fallback
            } else if v.lines > CARD_HEAD + CARD_TAIL {
                let h = min_nat(min_nat(CARD_HEAD as nat, v.line_cap), v.head.len());
                let t = min_nat(min_nat(CARD_TAIL as nat, v.line_cap), kept.len());
                card_lines(v.head.take(h as int)) + seq![
                    (elided_notice((v.lines - CARD_HEAD - CARD_TAIL) as nat), true),
                ] + card_lines(kept.skip(kept.len() - t))
            } else {
                card_lines(kept)
            }
        },
        _ => fallback,
    }
}

/// Appends the lines `ls` as a card shows them to `out`.
fn push_card_lines(out: &mut Vec<(String, bool)>, ls: &Vec<String>)
    ensures
        final(out)@.map_values(|p: (String, bool)| (p.0@, p.1)) == old(out)@.map_values(
            |p: (String, bool)| (p.0@, p.1),
        ) + card_lines(texts(ls@)),
{
    let ghost start = out@.map_values(|p: (String, bool)| (p.0@, p.1));
    let mut i: usize = 0;
    while i < ls.len()
        invariant
            i <= ls.len(),
            out@.map_values(|p: (String, bool)| (p.0@, p.1)) == start + card_lines(
                texts(ls@).take(i as int),
            ),
        decreases ls.len() - i,
    {
        let line = chars_of(ls[i].as_str());
        let (fit, _) = fit_prefix(&line, CARD_LINE_WIDTH);
        let cut = slice_of(&line, 0, fit);
        let ghost before = out@;
        out.push((string_of(&cut), false));
        proof {
            assert(cut@ =~= line@.take(fit as int));
            assert(texts(ls@)[i as int] == ls@[i as int]@);
            assert(texts(ls@).take(i + 1) =~= texts(ls@).take(i as int).push(ls@[i as int]@));
            assert(out@.map_values(|p: (String, bool)| (p.0@, p.1)) =~= before.map_values(
                |p: (String, bool)| (p.0@, p.1),
            ).push((card_line(ls@[i as int]@), false)));
        }
        i = i + 1;
    }
    assert(texts(ls@).take(i as int) =~= texts(ls@));
}

/// What the card of a finished tool run shows, each line with whether it
/// is a notice.
pub fn card(status: &Status) -> (r: Vec<(String, bool)>)
    requires
        status matches Status::Success { output } ==> well_formed(output@),
    ensures
        r@.map_values(|p: (String, bool)| (p.0@, p.1)) == card_of(*status),
{
    let mut r: Vec<(String, bool)> = Vec::new();
    match status {
        Status::Success { output } => {
            let total = output.lines();
            if total > 0 {
                if total > CARD_HEAD + CARD_TAIL {
                    push_card_lines(&mut r, &output.head(CARD_HEAD));
                    let elided = total - CARD_HEAD - CARD_TAIL;
                    let mut notice: Vec<char> = Vec::new();
                    if elided == 1 {
                        push_str(&mut notice, "... 1 line elided");
                    } else {
                        push_str(&mut notice, "... ");
                        push_str(&mut notice, thousands(elided as u64).as_str());
                        push_str(&mut notice, " lines elided");
                    }
                    let ghost before = r@;
                    r.push((string_of(&notice), true));
                    proof {
                        assert(r@.map_values(|p: (String, bool)| (p.0@, p.1)) =~= before.map_values(
                            |p: (String, bool)| (p.0@, p.1),
                        ).push((elided_notice(elided as nat), true)));
                    }
                    push_card_lines(&mut r, &output.tail(CARD_TAIL));
                } else {
                    push_card_lines(&mut r, &output.all());
                }
                assert(r@.map_values(|p: (String, bool)| (p.0@, p.1)) =~= card_of(*status));
                return r;
            }
        },
        _ => {},
    }
    let told = trimmed(&chars_of(status.content().as_str()));
    if told.len() == 0 {
        r.push(("[No output]".to_owned(), false));
    } else {
        r.push((string_of(&told), false));
    }
    assert(r@.map_values(|p: (String, bool)| (p.0@, p.1)) =~= card_of(*status));
    r
}

} // verus!
