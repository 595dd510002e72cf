//! A bounded, line-oriented capture of a tool's output.
//!
//! The first `cap` lines are kept, as are the most recent; everything in
//! between is dropped. The kept content is additionally bounded by a byte
//! cap — notices excepted: a line alone longer than it is truncated, and
//! while the kept lines exceed it the oldest are dropped first — so an
//! unbounded amount of output cannot grow a session without bound.

use std::collections::VecDeque;

use vstd::prelude::*;

use crate::text::{
    byte_len, char_width, chars_of, decimal, extend, lemma_byte_len_concat,
    lemma_byte_len_is_encoding_len, lemma_byte_len_push, lemma_byte_len_take, push_decimal,
    push_str, string_of, utf8_width,
};

verus! {

/// The default cap: the most lines kept verbatim at the head and tail of
/// the output; beyond this, the middle is dropped.
pub const DEFAULT_CAP: usize = 500;

/// The default byte cap: the most bytes kept across the head and tail of
/// the output; beyond this, the oldest kept lines are dropped.
pub const DEFAULT_BYTE_CAP: usize = 65536;

/// The longest truncation notice: `[... 999999999 bytes elided]`.
pub const MAX_TRUNCATION_NOTICE: usize = 28;

/// The bytes a sequence of kept lines takes, a newline for each.
pub open spec fn kept_bytes(ls: Seq<Seq<char>>) -> nat
    decreases ls.len(),
{
    if ls.len() == 0 {
        0
    } else {
        byte_len(ls[0]) + 1 + kept_bytes(ls.drop_first())
    }
}

pub proof fn lemma_kept_bytes_concat(a: Seq<Seq<char>>, b: Seq<Seq<char>>)
    ensures
        kept_bytes(a + b) == kept_bytes(a) + kept_bytes(b),
    decreases a.len(),
{
    if a.len() > 0 {
        assert((a + b).drop_first() =~= a.drop_first() + b);
        lemma_kept_bytes_concat(a.drop_first(), b);
    } else {
        assert(a + b =~= b);
    }
}

pub proof fn lemma_kept_bytes_push(a: Seq<Seq<char>>, l: Seq<char>)
    ensures
        kept_bytes(a.push(l)) == kept_bytes(a) + byte_len(l) + 1,
{
    assert(a.push(l) =~= a + seq![l]);
    lemma_kept_bytes_concat(a, seq![l]);
    assert(seq![l].drop_first() =~= Seq::<Seq<char>>::empty());
    reveal_with_fuel(kept_bytes, 2);
}

/// How many leading chars of `s` fit in `budget` bytes: the cut
/// `str::floor_char_boundary` finds.
pub open spec fn fit_count(s: Seq<char>, budget: nat) -> nat
    decreases s.len(),
{
    if s.len() > 0 && char_width(s[0]) <= budget {
        1 + fit_count(s.drop_first(), (budget - char_width(s[0])) as nat)
    } else {
        0
    }
}

/// The notice of `n` bytes cut from a line.
pub open spec fn bytes_notice(n: nat) -> Seq<char> {
    "[... "@ + decimal(n) + " bytes elided]"@
}

/// The notice of `n` lines left out of the output.
pub open spec fn lines_notice(n: nat) -> Seq<char> {
    "[... "@ + decimal(n) + " lines elided]"@
}

/// `line` cut to at most `budget` bytes, the dropped bytes marked with a
/// notice in the bracket convention.
pub open spec fn truncated(line: Seq<char>, budget: nat) -> Seq<char> {
    let keep = if budget >= MAX_TRUNCATION_NOTICE {
        (budget - MAX_TRUNCATION_NOTICE) as nat
    } else {
        0
    };
    let at = fit_count(line, keep);
    line.take(at as int) + bytes_notice((byte_len(line) - byte_len(line.take(at as int))) as nat)
}

/// The abstract state of an [`Output`].
pub struct OutputView {
    pub line_cap: nat,
    pub byte_cap: nat,
    pub head: Seq<Seq<char>>,
    pub tail: Seq<Seq<char>>,
    /// The lines pushed.
    pub lines: nat,
    /// The bytes pushed, a newline for each line.
    pub bytes: nat,
    /// The bytes of the kept lines, a newline for each.
    pub retained: nat,
    /// The oldest kept lines the byte cap dropped.
    pub front: nat,
}

/// The line an output keeps of `line`: cut to the byte cap when bounded.
pub open spec fn kept_line(byte_cap: nat, line: Seq<char>, bounded: bool) -> Seq<char> {
    if bounded && byte_len(line) + 1 > byte_cap {
        truncated(line, if byte_cap >= 1 { (byte_cap - 1) as nat } else { 0 })
    } else {
        line
    }
}

/// How many of the oldest of `ls` must go for the rest to fit in `cap`
/// bytes: the least such number.
pub open spec fn drop_needed(ls: Seq<Seq<char>>, cap: nat) -> nat
    decreases ls.len(),
{
    if kept_bytes(ls) <= cap || ls.len() == 0 {
        0
    } else {
        1 + drop_needed(ls.drop_first(), cap)
    }
}

/// Where a kept line goes: to the head while the head is short of the
/// line cap, and to the tail otherwise, the tail losing its oldest line
/// past the cap.
pub open spec fn placed(v: OutputView, kept: Seq<char>) -> (Seq<Seq<char>>, Seq<Seq<char>>) {
    if v.head.len() < v.line_cap {
        (v.head.push(kept), v.tail)
    } else if v.tail.len() + 1 > v.line_cap {
        (v.head, v.tail.push(kept).drop_first())
    } else {
        (v.head, v.tail.push(kept))
    }
}

/// The state after appending `line`: it is placed, and then, when
/// bounded, the oldest kept lines yield, head first, until the rest fits
/// the byte cap.
pub open spec fn appended(v: OutputView, line: Seq<char>, bounded: bool) -> OutputView {
    let (head, tail) = placed(v, kept_line(v.byte_cap, line, bounded));
    let d = if bounded {
        drop_needed(head + tail, v.byte_cap)
    } else {
        0
    };
    let from_head = if d <= head.len() {
        d
    } else {
        head.len()
    };
    let head2 = head.skip(from_head as int);
    let tail2 = tail.skip(d - from_head);
    OutputView {
        line_cap: v.line_cap,
        byte_cap: v.byte_cap,
        head: head2,
        tail: tail2,
        lines: v.lines + 1,
        bytes: v.bytes + byte_len(line) + 1,
        retained: kept_bytes(head2 + tail2),
        front: v.front + d,
    }
}

/// The lines of `ls`, joined by newlines.
pub open spec fn joined(ls: Seq<Seq<char>>) -> Seq<char>
    decreases ls.len(),
{
    if ls.len() == 0 {
        Seq::empty()
    } else if ls.len() == 1 {
        ls[0]
    } else {
        joined(ls.drop_last()) + "\n"@ + ls.last()
    }
}

/// Each line of `ls` after a newline.
pub open spec fn each_after_newline(ls: Seq<Seq<char>>) -> Seq<char>
    decreases ls.len(),
{
    if ls.len() == 0 {
        Seq::empty()
    } else {
        each_after_newline(ls.drop_last()) + "\n"@ + ls.last()
    }
}

/// The text of an output: the kept lines, with a notice of the oldest
/// lines the byte cap dropped leading them, and a notice of the elided
/// middle between the head and the tail.
pub open spec fn rendered(v: OutputView) -> Seq<char> {
    let middle = v.lines - v.head.len() - v.tail.len() - v.front;
    let leading = if v.front > 0 {
        seq![lines_notice(v.front)]
    } else {
        Seq::empty()
    };
    joined(leading + v.head) + (if middle > 0 {
        "\n"@ + lines_notice(middle as nat)
    } else {
        Seq::empty()
    }) + each_after_newline(v.tail)
}

/// The views of a sequence of strings.
pub open spec fn texts(v: Seq<String>) -> Seq<Seq<char>> {
    v.map_values(|s: String| s@)
}

#[derive(Debug, Clone)]
pub struct Output {
    line_cap: usize,
    byte_cap: usize,
    head: VecDeque<String>,
    tail: VecDeque<String>,
    lines: usize,
    bytes: usize,
    retained: usize,
    front: usize,
}

impl View for Output {
    type V = OutputView;

    closed spec fn view(&self) -> OutputView {
        OutputView {
            line_cap: self.line_cap as nat,
            byte_cap: self.byte_cap as nat,
            head: texts(self.head@),
            tail: texts(self.tail@),
            lines: self.lines as nat,
            bytes: self.bytes as nat,
            retained: self.retained as nat,
            front: self.front as nat,
        }
    }
}

/// What every output keeps: the head and the tail within the line cap,
/// the retained bytes those of the kept lines, and the kept and dropped
/// lines within the lines pushed.
pub open spec fn well_formed(v: OutputView) -> bool {
    &&& v.head.len() <= v.line_cap
    &&& v.tail.len() <= v.line_cap
    &&& v.retained == kept_bytes(v.head + v.tail)
    &&& v.front + v.head.len() + v.tail.len() <= v.lines
}

/// The byte length of `s`.
pub fn str_bytes(s: &str) -> (n: usize)
    ensures
        n == byte_len(s@),
{
    proof {
        lemma_byte_len_is_encoding_len(s@);
    }
    str_len(s)
}

/// The length of the UTF-8 encoding of `s`, which a `str` always holds
/// in full, so it fits a `usize`.
fn str_len(s: &str) -> (n: usize)
    ensures
        n == vstd::utf8::encode_utf8(s@).len(),
{
    s.as_bytes().len()
}

pub proof fn lemma_decimal_len(n: nat, k: nat)
    requires
        k >= 1,
        n < vstd::arithmetic::power::pow(10, k),
    ensures
        decimal(n).len() <= k,
    decreases n,
{
    if n >= 10 {
        vstd::arithmetic::power::lemma_pow_positive(10, (k - 1) as nat);
        assert(k >= 2) by {
            if k == 1 {
                vstd::arithmetic::power::lemma_pow1(10);
            }
        }
        assert(n / 10 < vstd::arithmetic::power::pow(10, (k - 1) as nat)) by {
            vstd::arithmetic::power::lemma_pow_adds(10, 1, (k - 1) as nat);
            vstd::arithmetic::power::lemma_pow1(10);
            let p = vstd::arithmetic::power::pow(10, (k - 1) as nat);
            assert(vstd::arithmetic::power::pow(10, k) == 10 * p);
            vstd::arithmetic::div_mod::lemma_div_is_ordered(n as int, (10 * p - 1) as int, 10);
            vstd::arithmetic::div_mod::lemma_div_by_multiple((p - 1) as int + 1, 10);
            assert((10 * p - 1) / 10 < p) by (nonlinear_arith)
                requires
                    p >= 1,
            ;
        }
        lemma_decimal_len(n / 10, (k - 1) as nat);
    }
}

proof fn lemma_u64_decimal_len(n: u64)
    ensures
        decimal(n as nat).len() <= 20,
{
    vstd::arithmetic::power::lemma_pow_strictly_increases(10, 19, 20);
    assert(vstd::arithmetic::power::pow(10, 20) == 100000000000000000000nat) by {
        reveal_with_fuel(vstd::arithmetic::power::pow, 21);
    }
    lemma_decimal_len(n as nat, 20);
}

/// The number of leading chars of `s` within `budget` bytes, and their
/// bytes.
pub(crate) fn fit_prefix(s: &Vec<char>, budget: usize) -> (r: (usize, usize))
    ensures
        r.0 == fit_count(s@, budget as nat),
        r.0 <= s.len(),
        r.1 == byte_len(s@.take(r.0 as int)),
        r.1 <= budget,
{
    let mut i: usize = 0;
    let mut used: usize = 0;
    assert(s@.take(0) =~= Seq::<char>::empty());
    assert(s@.skip(0) =~= s@);
    while i < s.len() && utf8_width(s[i]) <= budget - used
        invariant
            i <= s.len(),
            used <= budget,
            used == byte_len(s@.take(i as int)),
            fit_count(s@, budget as nat) == i + fit_count(s@.skip(i as int), (budget - used) as nat),
        decreases s.len() - i,
    {
        proof {
            lemma_byte_len_take(s@, i as int);
            let t = s@.skip(i as int);
            assert(t[0] == s@[i as int]);
            assert(t.drop_first() =~= s@.skip(i + 1));
        }
        used = used + utf8_width(s[i]);
        i = i + 1;
    }
    proof {
        assert(fit_count(s@.skip(i as int), (budget - used) as nat) == 0) by {
            if i < s.len() {
                assert(s@.skip(i as int)[0] == s@[i as int]);
            }
        }
    }
    (i, used)
}

/// Truncates `line` to at most `budget` bytes, marking the dropped bytes
/// with a notice in the bracket convention.
pub fn truncate(line: &str, budget: usize) -> (r: String)
    ensures
        r@ == truncated(line@, budget as nat),
{
    let chars = chars_of(line);
    let keep = if budget >= MAX_TRUNCATION_NOTICE {
        budget - MAX_TRUNCATION_NOTICE
    } else {
        0
    };
    let (at, at_bytes) = fit_prefix(&chars, keep);
    let total = str_bytes(line);
    proof {
        assert(chars@ =~= chars@.take(at as int) + chars@.skip(at as int));
        lemma_byte_len_concat(chars@.take(at as int), chars@.skip(at as int));
    }
    let elided = total - at_bytes;
    let mut out: Vec<char> = Vec::new();
    let mut i: usize = 0;
    while i < at
        invariant
            i <= at <= chars.len(),
            out@ == chars@.take(i as int),
        decreases at - i,
    {
        out.push(chars[i]);
        i = i + 1;
        assert(out@ =~= chars@.take(i as int));
    }
    push_str(&mut out, "[... ");
    push_decimal(&mut out, elided as u64);
    push_str(&mut out, " bytes elided]");
    assert(out@ =~= truncated(line@, budget as nat));
    string_of(&out)
}


/// Whether every char of `s` is ASCII.
pub open spec fn all_ascii(s: Seq<char>) -> bool {
    forall|i: int| 0 <= i < s.len() ==> (#[trigger] s[i] as u32) < 0x80
}

proof fn lemma_ascii_byte_len(s: Seq<char>)
    requires
        all_ascii(s),
    ensures
        byte_len(s) == s.len(),
    decreases s.len(),
{
    if s.len() > 0 {
        assert(all_ascii(s.drop_first())) by {
            assert forall|i: int| 0 <= i < s.drop_first().len() implies (#[trigger] s.drop_first()[i]
                as u32) < 0x80 by {
                assert(s.drop_first()[i] == s[i + 1]);
            }
        }
        assert((s[0] as u32) < 0x80);
        lemma_ascii_byte_len(s.drop_first());
    }
}

proof fn lemma_decimal_ascii(n: nat)
    ensures
        all_ascii(decimal(n)),
    decreases n,
{
    if n >= 10 {
        lemma_decimal_ascii(n / 10);
        let d = decimal(n / 10).push(crate::text::digit_char(n % 10));
        assert forall|i: int| 0 <= i < d.len() implies (#[trigger] d[i] as u32) < 0x80 by {
            if i < d.len() - 1 {
                assert(d[i] == decimal(n / 10)[i]);
            }
        }
    }
}

/// A truncation notice takes at most 39 bytes.
proof fn lemma_bytes_notice_len(n: u64)
    ensures
        byte_len(bytes_notice(n as nat)) <= 39,
{
    reveal_strlit("[... ");
    reveal_strlit(" bytes elided]");
    lemma_u64_decimal_len(n);
    lemma_decimal_ascii(n as nat);
    let s = bytes_notice(n as nat);
    assert(all_ascii(s)) by {
        assert forall|i: int| 0 <= i < s.len() implies (#[trigger] s[i] as u32) < 0x80 by {
            if i >= 5 && i < 5 + decimal(n as nat).len() {
                assert(s[i] == decimal(n as nat)[i - 5]);
            }
        }
    }
    lemma_ascii_byte_len(s);
}

/// A kept line is at most 40 bytes longer than the line pushed.
proof fn lemma_kept_line_len(byte_cap: nat, line: Seq<char>, bounded: bool)
    requires
        byte_len(line) <= u64::MAX,
    ensures
        byte_len(kept_line(byte_cap, line, bounded)) <= byte_len(line) + 40,
{
    if bounded && byte_len(line) + 1 > byte_cap {
        let budget: nat = if byte_cap >= 1 { (byte_cap - 1) as nat } else { 0 };
        let keep: nat = if budget >= MAX_TRUNCATION_NOTICE {
            (budget - MAX_TRUNCATION_NOTICE) as nat
        } else {
            0
        };
        let at = fit_count(line, keep);
        lemma_fit_count_bounds(line, keep);
        assert(line =~= line.take(at as int) + line.skip(at as int));
        lemma_byte_len_concat(line.take(at as int), line.skip(at as int));
        let e = (byte_len(line) - byte_len(line.take(at as int))) as nat;
        lemma_bytes_notice_len(e as u64);
        lemma_byte_len_concat(line.take(at as int), bytes_notice(e));
    }
}

proof fn lemma_fit_count_bounds(s: Seq<char>, budget: nat)
    ensures
        fit_count(s, budget) <= s.len(),
    decreases s.len(),
{
    if s.len() > 0 && char_width(s[0]) <= budget {
        lemma_fit_count_bounds(s.drop_first(), (budget - char_width(s[0])) as nat);
    }
}

/// The oldest `d` of `head + tail` dropped: the head yields first.
proof fn lemma_skip_split(head: Seq<Seq<char>>, tail: Seq<Seq<char>>, d: int)
    requires
        0 <= d <= head.len() + tail.len(),
    ensures
        (head + tail).skip(d) == head.skip(if d <= head.len() { d } else { head.len() as int })
            + tail.skip(d - (if d <= head.len() { d } else { head.len() as int })),
{
    let f = if d <= head.len() { d } else { head.len() as int };
    assert((head + tail).skip(d) =~= head.skip(f) + tail.skip(d - f));
}

proof fn lemma_drop_needed_step(ls: Seq<Seq<char>>, cap: nat, d: int)
    requires
        0 <= d < ls.len(),
        kept_bytes(ls.skip(d)) > cap,
    ensures
        drop_needed(ls.skip(d), cap) == 1 + drop_needed(ls.skip(d + 1), cap),
{
    assert(ls.skip(d).drop_first() =~= ls.skip(d + 1));
}

/// Placing a line adds its bytes to the kept ones, less those of the line
/// the tail drops, and keeps the line caps and the count of lines.
proof fn lemma_placed(v: OutputView, kept: Seq<char>)
    requires
        v.head.len() <= v.line_cap,
        v.tail.len() <= v.line_cap,
    ensures
        ({
            let (h, t) = placed(v, kept);
            &&& h.len() <= v.line_cap
            &&& t.len() <= v.line_cap
            &&& h.len() + t.len() <= v.head.len() + v.tail.len() + 1
            &&& kept_bytes(h + t) <= kept_bytes(v.head + v.tail) + byte_len(kept) + 1
            &&& (v.head.len() < v.line_cap || v.tail.len() + 1 <= v.line_cap) ==> kept_bytes(h + t)
                == kept_bytes(v.head + v.tail) + byte_len(kept) + 1
            &&& !(v.head.len() < v.line_cap || v.tail.len() + 1 <= v.line_cap) ==> kept_bytes(h
                + t) + byte_len(v.tail.push(kept)[0]) + 1 == kept_bytes(v.head + v.tail)
                + byte_len(kept) + 1
        }),
{
    lemma_kept_bytes_concat(v.head, v.tail);
    lemma_kept_bytes_push(v.tail, kept);
    lemma_kept_bytes_push(v.head, kept);
    if v.head.len() < v.line_cap {
        lemma_kept_bytes_concat(v.head.push(kept), v.tail);
    } else if v.tail.len() + 1 > v.line_cap {
        let t = v.tail.push(kept);
        lemma_kept_bytes_concat(v.head, t.drop_first());
    } else {
        lemma_kept_bytes_concat(v.head, v.tail.push(kept));
    }
}

/// Appending keeps an output well formed.
pub proof fn lemma_appended_well_formed(v: OutputView, line: Seq<char>, bounded: bool)
    requires
        well_formed(v),
    ensures
        well_formed(appended(v, line, bounded)),
{
    let kept = kept_line(v.byte_cap, line, bounded);
    lemma_placed(v, kept);
    let (head, tail) = placed(v, kept);
    let d = if bounded {
        drop_needed(head + tail, v.byte_cap)
    } else {
        0
    };
    lemma_drop_needed_bounds(head + tail, v.byte_cap);
}

proof fn lemma_drop_needed_bounds(ls: Seq<Seq<char>>, cap: nat)
    ensures
        drop_needed(ls, cap) <= ls.len(),
        kept_bytes(ls.skip(drop_needed(ls, cap) as int)) <= cap,
    decreases ls.len(),
{
    if kept_bytes(ls) <= cap || ls.len() == 0 {
        assert(ls.skip(0) =~= ls);
    } else {
        lemma_drop_needed_bounds(ls.drop_first(), cap);
        let d = drop_needed(ls.drop_first(), cap);
        assert(ls.drop_first().skip(d as int) =~= ls.skip(d + 1 as int));
    }
}

proof fn lemma_texts_push(s: Seq<String>, x: String)
    ensures
        texts(s.push(x)) == texts(s).push(x@),
{
    assert(texts(s.push(x)) =~= texts(s).push(x@));
}

/// A copy of `s`.
fn copy_string(s: &String) -> (r: String)
    ensures
        r@ == s@,
{
    s.clone()
}

/// The smaller of two naturals.
pub open spec fn min_nat(a: nat, b: nat) -> nat {
    if a <= b {
        a
    } else {
        b
    }
}

/// `notice` in brackets.
pub open spec fn bracketed(notice: Seq<char>) -> Seq<char> {
    "["@ + notice + "]"@
}

/// The bytes of a prefix are at most those of the whole.
proof fn lemma_kept_bytes_prefix(ls: Seq<Seq<char>>, i: int)
    requires
        0 <= i <= ls.len(),
    ensures
        kept_bytes(ls.take(i)) <= kept_bytes(ls),
{
    assert(ls =~= ls.take(i) + ls.skip(i));
    lemma_kept_bytes_concat(ls.take(i), ls.skip(i));
}

/// Appends the notice of `n` lines left out to `out`.
fn push_notice_text(out: &mut Vec<char>, n: usize)
    ensures
        final(out)@ == old(out)@ + lines_notice(n as nat),
{
    push_str(out, "[... ");
    push_decimal(out, n as u64);
    push_str(out, " lines elided]");
}

/// A bounded push leaves the kept lines within the byte cap.
pub proof fn lemma_push_within_byte_cap(v: OutputView, line: Seq<char>)
    ensures
        appended(v, line, true).retained <= v.byte_cap,
{
    let (head, tail) = placed(v, kept_line(v.byte_cap, line, true));
    let d = drop_needed(head + tail, v.byte_cap);
    lemma_drop_needed_bounds(head + tail, v.byte_cap);
    lemma_skip_split(head, tail, d as int);
}

/// The state after pushing each of `ls` in order.
pub open spec fn pushed_all(v: OutputView, ls: Seq<Seq<char>>) -> OutputView
    decreases ls.len(),
{
    if ls.len() == 0 {
        v
    } else {
        appended(pushed_all(v, ls.drop_last()), ls.last(), true)
    }
}

/// Lines that fit both caps, pushed into an empty output, are all kept,
/// verbatim and in order, and its text is the lines joined by newlines.
pub proof fn law_short_output_kept_in_full(line_cap: nat, byte_cap: nat, ls: Seq<Seq<char>>)
    requires
        ls.len() <= line_cap,
        kept_bytes(ls) <= byte_cap,
    ensures
        pushed_all(empty_view(line_cap, byte_cap), ls) == (OutputView {
            line_cap,
            byte_cap,
            head: ls,
            tail: Seq::empty(),
            lines: ls.len(),
            bytes: kept_bytes(ls),
            retained: kept_bytes(ls),
            front: 0,
        }),
        rendered(pushed_all(empty_view(line_cap, byte_cap), ls)) == joined(ls),
    decreases ls.len(),
{
    if ls.len() > 0 {
        let init = ls.drop_last();
        let line = ls.last();
        assert(ls =~= init.push(line));
        lemma_kept_bytes_push(init, line);
        law_short_output_kept_in_full(line_cap, byte_cap, init);
        let v = pushed_all(empty_view(line_cap, byte_cap), init);
        assert(kept_line(byte_cap, line, true) == line);
        let (head, tail) = placed(v, line);
        assert(head == ls && tail =~= Seq::<Seq<char>>::empty());
        assert(head + tail =~= ls);
        assert(drop_needed(head + tail, byte_cap) == 0);
        assert(head.skip(0) =~= head);
        assert(tail.skip(0) =~= tail);
    } else {
        assert(Seq::<Seq<char>>::empty() + Seq::<Seq<char>>::empty() =~= Seq::<Seq<char>>::empty());
    }
    let w = pushed_all(empty_view(line_cap, byte_cap), ls);
    assert(Seq::<Seq<char>>::empty() + ls =~= ls);
    assert(each_after_newline(Seq::<Seq<char>>::empty()) =~= Seq::<char>::empty());
    assert(rendered(w) =~= joined(ls));
}

impl Output {
    /// An output with the default caps.
    pub fn new() -> (o: Self)
        ensures
            o@ == empty_view(DEFAULT_CAP as nat, DEFAULT_BYTE_CAP as nat),
            well_formed(o@),
    {
        Self::with_caps(DEFAULT_CAP, DEFAULT_BYTE_CAP)
    }

    /// Creates an output that keeps at most `cap` lines verbatim at the
    /// head and tail; beyond this, the middle is dropped.
    pub fn with_cap(cap: usize) -> (o: Self)
        ensures
            o@ == empty_view(cap as nat, DEFAULT_BYTE_CAP as nat),
            well_formed(o@),
    {
        Self::with_caps(cap, DEFAULT_BYTE_CAP)
    }

    /// Creates an output with the line cap `line_cap` and the byte cap
    /// `byte_cap`.
    pub fn with_caps(line_cap: usize, byte_cap: usize) -> (o: Self)
        ensures
            o@ == empty_view(line_cap as nat, byte_cap as nat),
            well_formed(o@),
    {
        let o = Self {
            line_cap,
            byte_cap,
            head: VecDeque::new(),
            tail: VecDeque::new(),
            lines: 0,
            bytes: 0,
            retained: 0,
            front: 0,
        };
        assert(o@.head =~= Seq::<Seq<char>>::empty());
        assert(o@.tail =~= Seq::<Seq<char>>::empty());
        assert(o@.head + o@.tail =~= Seq::<Seq<char>>::empty());
        o
    }

    /// Whether `line` can be pushed: the counts stay within a `usize`.
    pub open spec fn can_push(&self, line: Seq<char>) -> bool {
        &&& self@.lines < usize::MAX
        &&& self@.bytes + byte_len(line) + 1 <= usize::MAX
        &&& self@.retained + byte_len(line) + 41 <= usize::MAX
    }

    /// Drops the oldest kept lines, the head's first, until the rest fit
    /// the byte cap.
    fn evict(&mut self)
        requires
            old(self)@.retained == kept_bytes(old(self)@.head + old(self)@.tail),
            old(self)@.front + old(self)@.head.len() + old(self)@.tail.len() <= usize::MAX,
        ensures
            ({
                let v = old(self)@;
                let d = drop_needed(v.head + v.tail, v.byte_cap);
                let f = if d <= v.head.len() {
                    d
                } else {
                    v.head.len()
                };
                final(self)@ == OutputView {
                    head: v.head.skip(f as int),
                    tail: v.tail.skip(d - f),
                    retained: kept_bytes(v.head.skip(f as int) + v.tail.skip(d - f)),
                    front: v.front + d,
                    ..v
                }
            }),
    {
        let ghost v0 = self@;
        let ghost placed_head = v0.head;
        let ghost placed_tail = v0.tail;
        let ghost all = placed_head + placed_tail;
        let ghost mut d: int = 0;
        proof {
            assert(all.skip(0) =~= all);
            assert(placed_head.skip(0) =~= placed_head);
            assert(placed_tail.skip(0) =~= placed_tail);
        }
        while self.retained > self.byte_cap
            invariant
                0 <= d <= all.len(),
                all == placed_head + placed_tail,
                placed_head == v0.head,
                placed_tail == v0.tail,
                self.byte_cap == v0.byte_cap,
                self.line_cap == v0.line_cap,
                self.lines == v0.lines,
                self.bytes == v0.bytes,
                self.retained == kept_bytes(all.skip(d)),
                texts(self.head@) == placed_head.skip(
                    if d <= placed_head.len() { d } else { placed_head.len() as int },
                ),
                texts(self.tail@) == placed_tail.skip(
                    d - (if d <= placed_head.len() { d } else { placed_head.len() as int }),
                ),
                self.front == v0.front + d,
                v0.front + all.len() <= usize::MAX,
                drop_needed(all, v0.byte_cap) == d + drop_needed(all.skip(d), v0.byte_cap),
            decreases all.len() - d,
        {
            proof {
                lemma_skip_split(placed_head, placed_tail, d);
                if d == all.len() {
                    assert(all.skip(d) =~= Seq::<Seq<char>>::empty());
                }
            }
            let ghost h = texts(self.head@);
            let ghost t = texts(self.tail@);
            let evicted = if self.head.len() == 0 {
                self.tail.pop_front()
            } else {
                self.head.pop_front()
            };
            match evicted {
                Some(e) => {
                    let e_len = str_bytes(e.as_str());
                    proof {
                        lemma_drop_needed_step(all, v0.byte_cap, d);
                        lemma_skip_split(placed_head, placed_tail, d);
                        assert(all.skip(d) == h + t);
                        assert(all.skip(d)[0] == e@) by {
                            if h.len() == 0 {
                                assert(h + t =~= t);
                            } else {
                                assert((h + t)[0] == h[0]);
                            }
                        }
                        assert(all.skip(d).drop_first() =~= all.skip(d + 1));
                        lemma_skip_split(placed_head, placed_tail, d + 1);
                        if h.len() == 0 {
                            assert(texts(self.tail@) =~= t.drop_first());
                        } else {
                            assert(texts(self.head@) =~= h.drop_first());
                        }
                    }
                    self.retained = self.retained - (e_len + 1);
                    self.front = self.front + 1;
                    proof {
                        d = d + 1;
                    }
                },
                None => {
                    proof {
                        assert(all.skip(d) =~= Seq::<Seq<char>>::empty());
                    }
                },
            }
        }
        proof {
            assert(drop_needed(all.skip(d), v0.byte_cap) == 0);
            lemma_skip_split(placed_head, placed_tail, d);
            let f = if d <= placed_head.len() { d } else { placed_head.len() as int };
            assert(self@.head =~= placed_head.skip(f));
            assert(self@.tail =~= placed_tail.skip(d - f));
        }
    }

    /// Whether `line` can be pushed: whether the counts it adds to fit a
    /// `usize`.
    pub fn has_room(&self, line: &str) -> (b: bool)
        ensures
            b == self.can_push(line@),
    {
        let n = str_bytes(line);
        self.lines < usize::MAX && n < usize::MAX - self.bytes && n <= usize::MAX - 41
            && self.retained <= usize::MAX - 41 - n
    }

    /// Appends a line to the output.
    ///
    /// A line alone longer than the byte cap is truncated, and while the
    /// kept lines exceed it the oldest kept lines are dropped.
    pub fn push(&mut self, line: String)
        requires
            well_formed(old(self)@),
            old(self).can_push(line@),
        ensures
            final(self)@ == appended(old(self)@, line@, true),
            well_formed(final(self)@),
            final(self)@.retained <= final(self)@.byte_cap,
    {
        let ghost v0 = self@;
        let ghost l = line@;
        self.append(line, true);
        proof {
            lemma_push_within_byte_cap(v0, l);
        }
    }

    /// Pushes a message the tool itself generates, bracketed: the bracket
    /// convention keeps such notices distinguishable from verbatim content
    /// in the model's tool response.
    ///
    /// Notices are exempt from the byte cap: they report on it, and must
    /// survive it.
    pub fn push_notice(&mut self, notice: String)
        requires
            well_formed(old(self)@),
            old(self).can_push(bracketed(notice@)),
        ensures
            final(self)@ == appended(old(self)@, bracketed(notice@), false),
            well_formed(final(self)@),
    {
        let mut v: Vec<char> = Vec::new();
        v.push('[');
        let n = chars_of(notice.as_str());
        extend(&mut v, &n);
        v.push(']');
        proof {
            reveal_strlit("[");
            reveal_strlit("]");
            assert(v@ =~= bracketed(notice@));
        }
        let line = string_of(&v);
        self.append(line, false);
    }

    /// The total number of lines pushed.
    pub fn lines(&self) -> (n: usize)
        ensures
            n == self@.lines,
    {
        self.lines
    }

    /// The total bytes of every line pushed, newline included.
    pub fn bytes(&self) -> (n: usize)
        ensures
            n == self@.bytes,
    {
        self.bytes
    }

    /// The most lines kept at the head, and at the tail.
    pub fn line_cap(&self) -> (n: usize)
        ensures
            n == self@.line_cap,
    {
        self.line_cap
    }

    /// The most bytes the kept lines take, notices aside.
    pub fn byte_cap(&self) -> (n: usize)
        ensures
            n == self@.byte_cap,
    {
        self.byte_cap
    }

    /// The bytes of the kept lines, a newline for each.
    pub fn retained(&self) -> (n: usize)
        ensures
            n == self@.retained,
    {
        self.retained
    }

    /// The oldest kept lines the byte cap dropped.
    pub fn front(&self) -> (n: usize)
        ensures
            n == self@.front,
    {
        self.front
    }

    /// The number of lines not kept: the elided middle, plus the oldest
    /// kept lines the byte cap dropped, if any.
    pub fn lines_ellided(&self) -> (n: usize)
        requires
            well_formed(self@),
        ensures
            n == self@.lines - self@.head.len() - self@.tail.len(),
            n >= self@.front,
    {
        self.lines - self.head.len() - self.tail.len()
    }

    /// The first `n` kept lines, in reading order; `n` is capped at the
    /// output's cap.
    pub fn head(&self, n: usize) -> (r: Vec<String>)
        ensures
            texts(r@) == self@.head.take(min_nat(min_nat(n as nat, self@.line_cap), self@.head.len()) as int),
    {
        let mut k = if n < self.line_cap {
            n
        } else {
            self.line_cap
        };
        if k > self.head.len() {
            k = self.head.len();
        }
        let mut r: Vec<String> = Vec::new();
        let mut i: usize = 0;
        while i < k
            invariant
                i <= k <= self.head@.len(),
                texts(r@) == texts(self.head@).take(i as int),
            decreases k - i,
        {
            let line = copy_string(&self.head[i]);
            let ghost before = r@;
            r.push(line);
            proof { lemma_texts_push(before, line); }
            i = i + 1;
            assert(texts(r@) =~= texts(self.head@).take(i as int));
        }
        r
    }

    /// The most recent `n` lines, in reading order; `n` is capped at the
    /// output's cap.
    pub fn tail(&self, n: usize) -> (r: Vec<String>)
        ensures
            ({
                let all = self@.head + self@.tail;
                let k = min_nat(min_nat(n as nat, self@.line_cap), all.len());
                texts(r@) == all.skip(all.len() - k)
            }),
    {
        let n = if n < self.line_cap {
            n
        } else {
            self.line_cap
        };
        let from_tail = if self.tail.len() < n {
            self.tail.len()
        } else {
            n
        };
        let from_head = if n - from_tail < self.head.len() {
            n - from_tail
        } else {
            self.head.len()
        };
        let mut r: Vec<String> = Vec::new();
        let mut i: usize = self.head.len() - from_head;
        while i < self.head.len()
            invariant
                from_head <= self.head@.len(),
                self.head@.len() - from_head <= i <= self.head@.len(),
                texts(r@) == texts(self.head@).subrange(self.head@.len() - from_head, i as int),
            decreases self.head@.len() - i,
        {
            let line = copy_string(&self.head[i]);
            let ghost before = r@;
            r.push(line);
            proof { lemma_texts_push(before, line); }
            i = i + 1;
            assert(texts(r@) =~= texts(self.head@).subrange(self.head@.len() - from_head, i as int));
        }
        let ghost from_h = texts(r@);
        let mut j: usize = self.tail.len() - from_tail;
        while j < self.tail.len()
            invariant
                from_tail <= self.tail@.len(),
                self.tail@.len() - from_tail <= j <= self.tail@.len(),
                texts(r@) == from_h + texts(self.tail@).subrange(self.tail@.len() - from_tail, j as int),
            decreases self.tail@.len() - j,
        {
            let line = copy_string(&self.tail[j]);
            let ghost before = r@;
            r.push(line);
            proof { lemma_texts_push(before, line); }
            j = j + 1;
            assert(texts(r@) =~= from_h + texts(self.tail@).subrange(self.tail@.len() - from_tail, j as int));
        }
        proof {
            let all = self@.head + self@.tail;
            let k = min_nat(min_nat(n as nat, self@.line_cap), all.len());
            assert(texts(r@) =~= all.skip(all.len() - k));
        }
        r
    }

    /// All the kept lines, in reading order.
    pub fn all(&self) -> (r: Vec<String>)
        ensures
            texts(r@) == self@.head + self@.tail,
    {
        let mut r: Vec<String> = Vec::new();
        let mut i: usize = 0;
        while i < self.head.len()
            invariant
                i <= self.head@.len(),
                texts(r@) == texts(self.head@).take(i as int),
            decreases self.head@.len() - i,
        {
            let line = copy_string(&self.head[i]);
            let ghost before = r@;
            r.push(line);
            proof { lemma_texts_push(before, line); }
            i = i + 1;
            assert(texts(r@) =~= texts(self.head@).take(i as int));
        }
        let mut j: usize = 0;
        while j < self.tail.len()
            invariant
                j <= self.tail@.len(),
                texts(r@) == texts(self.head@) + texts(self.tail@).take(j as int),
            decreases self.tail@.len() - j,
        {
            let line = copy_string(&self.tail[j]);
            let ghost before = r@;
            r.push(line);
            proof { lemma_texts_push(before, line); }
            j = j + 1;
            assert(texts(r@) =~= texts(self.head@) + texts(self.tail@).take(j as int));
        }
        assert(texts(self.tail@).take(j as int) =~= texts(self.tail@));
        assert(texts(self.head@).take(i as int) =~= texts(self.head@));
        r
    }

    /// The text of the output: the kept lines, with a notice of the
    /// elided middle and of the oldest lines the byte cap dropped, when
    /// the output overflowed the caps.
    pub fn to_string(&self) -> (s: String)
        requires
            well_formed(self@),
        ensures
            s@ == rendered(self@),
    {
        let front = self.front;
        let middle = self.lines - self.head.len() - self.tail.len() - front;
        let ghost leading: Seq<Seq<char>> = if front > 0 {
            seq![lines_notice(front as nat)]
        } else {
            Seq::empty()
        };
        let mut out: Vec<char> = Vec::new();
        if front > 0 {
            push_notice_text(&mut out, front);
            assert(out@ =~= joined(leading));
        } else {
            assert(out@ =~= joined(leading));
        }
        let mut i: usize = 0;
        while i < self.head.len()
            invariant
                i <= self.head@.len(),
                front == self.front,
                leading.len() == (if front > 0 { 1int } else { 0 }),
                out@ == joined(leading + texts(self.head@).take(i as int)),
            decreases self.head@.len() - i,
        {
            let ghost ls = leading + texts(self.head@).take(i as int);
            if i > 0 || front > 0 {
                out.push('\n');
            }
            let line = chars_of(self.head[i].as_str());
            extend(&mut out, &line);
            proof {
                reveal_strlit("\n");
                let ls2 = leading + texts(self.head@).take(i + 1);
                assert(ls2.drop_last() =~= ls);
                assert(ls2.last() == line@);
                if ls.len() == 0 {
                    assert(ls2.len() == 1);
                    assert(out@ =~= joined(ls2));
                } else {
                    assert(out@ =~= joined(ls2));
                }
            }
            i = i + 1;
        }
        assert(texts(self.head@).take(i as int) =~= texts(self.head@));
        let ghost before_middle = out@;
        if middle > 0 {
            out.push('\n');
            push_notice_text(&mut out, middle);
            proof {
                reveal_strlit("\n");
                assert(out@ =~= before_middle + ("\n"@ + lines_notice(middle as nat)));
            }
        }
        let ghost before_tail = out@;
        assert(each_after_newline(texts(self.tail@).take(0)) =~= Seq::<char>::empty());
        let mut j: usize = 0;
        while j < self.tail.len()
            invariant
                j <= self.tail@.len(),
                out@ == before_tail + each_after_newline(texts(self.tail@).take(j as int)),
            decreases self.tail@.len() - j,
        {
            out.push('\n');
            let line = chars_of(self.tail[j].as_str());
            extend(&mut out, &line);
            proof {
                reveal_strlit("\n");
                let ls = texts(self.tail@).take(j as int);
                let ls2 = texts(self.tail@).take(j + 1);
                assert(ls2.drop_last() =~= ls);
                assert(out@ =~= before_tail + each_after_newline(ls2));
            }
            j = j + 1;
        }
        assert(texts(self.tail@).take(j as int) =~= texts(self.tail@));
        proof {
            assert(out@ =~= rendered(self@));
        }
        string_of(&out)
    }

    /// An output with the given state, when it is one an output can be in.
    pub fn from_parts(
        line_cap: usize,
        byte_cap: usize,
        head: Vec<String>,
        tail: Vec<String>,
        lines: usize,
        bytes: usize,
        front: usize,
    ) -> (r: Option<Self>)
        ensures
            r matches Some(o) ==> well_formed(o@) && o@.line_cap == line_cap && o@.byte_cap
                == byte_cap && o@.head == texts(head@) && o@.tail == texts(tail@) && o@.lines
                == lines && o@.bytes == bytes && o@.front == front,
            r is None <==> !(head@.len() <= line_cap && tail@.len() <= line_cap && front
                + head@.len() + tail@.len() <= lines && kept_bytes(texts(head@) + texts(tail@))
                <= usize::MAX),
    {
        if head.len() > line_cap || tail.len() > line_cap {
            return None;
        }
        if front > lines || head.len() > lines - front || tail.len() > lines - front - head.len() {
            return None;
        }
        let mut retained: usize = 0;
        let mut h: VecDeque<String> = VecDeque::new();
        let mut i: usize = 0;
        let ghost all = texts(head@) + texts(tail@);
        assert(all.take(0) =~= Seq::<Seq<char>>::empty());
        while i < head.len()
            invariant
                i <= head@.len(),
                all == texts(head@) + texts(tail@),
                retained == kept_bytes(all.take(i as int)),
                texts(h@) == texts(head@).take(i as int),
            decreases head@.len() - i,
        {
            let n = str_bytes(head[i].as_str());
            proof {
                assert(all.take(i + 1) =~= all.take(i as int).push(all[i as int]));
                lemma_kept_bytes_push(all.take(i as int), all[i as int]);
                lemma_kept_bytes_prefix(all, i + 1);
            }
            if n >= usize::MAX - retained {
                proof {
                    lemma_kept_bytes_prefix(all, i + 1);
                }
                return None;
            }
            retained = retained + n + 1;
            let line = copy_string(&head[i]);
            let ghost before = h@;
            h.push_back(line);
            proof { lemma_texts_push(before, line); }
            i = i + 1;
            assert(texts(h@) =~= texts(head@).take(i as int));
        }
        let mut t: VecDeque<String> = VecDeque::new();
        let mut j: usize = 0;
        while j < tail.len()
            invariant
                i == head@.len(),
                j <= tail@.len(),
                all == texts(head@) + texts(tail@),
                retained == kept_bytes(all.take(i + j)),
                texts(h@) == texts(head@),
                texts(t@) == texts(tail@).take(j as int),
            decreases tail@.len() - j,
        {
            let n = str_bytes(tail[j].as_str());
            proof {
                assert(all.take(i + j + 1) =~= all.take(i + j).push(all[i + j]));
                assert(all[i + j] == texts(tail@)[j as int]);
                lemma_kept_bytes_push(all.take(i + j), all[i + j]);
                lemma_kept_bytes_prefix(all, i + j + 1);
            }
            if n >= usize::MAX - retained {
                return None;
            }
            retained = retained + n + 1;
            let line = copy_string(&tail[j]);
            let ghost before = t@;
            t.push_back(line);
            proof { lemma_texts_push(before, line); }
            j = j + 1;
            assert(texts(t@) =~= texts(tail@).take(j as int));
        }
        assert(all.take(i + j) =~= all);
        assert(texts(t@) =~= texts(tail@));
        let o = Output { line_cap, byte_cap, head: h, tail: t, lines, bytes, retained, front };
        assert(o@.head == texts(head@));
        assert(o@.tail == texts(tail@));
        assert(o@.retained == kept_bytes(o@.head + o@.tail));
        Some(o)
    }

    fn append(&mut self, line: String, bounded: bool)
        requires
            well_formed(old(self)@),
            old(self).can_push(line@),
        ensures
            final(self)@ == appended(old(self)@, line@, bounded),
            well_formed(final(self)@),
    {
        let ghost v0 = self@;
        let ghost pushed = line@;
        let len = str_bytes(line.as_str());
        self.lines = self.lines + 1;
        self.bytes = self.bytes + len + 1;
        let line = if bounded && len + 1 > self.byte_cap {
            let budget = if self.byte_cap >= 1 {
                self.byte_cap - 1
            } else {
                0
            };
            truncate(line.as_str(), budget)
        } else {
            line
        };
        let ghost kept = line@;
        assert(kept == kept_line(v0.byte_cap, pushed, bounded));
        proof {
            lemma_kept_line_len(v0.byte_cap, pushed, bounded);
        }
        let kept_len = str_bytes(line.as_str());
        self.retained = self.retained + kept_len + 1;
        self.place(line);
        proof {
            lemma_placed(v0, kept);
        }
        if bounded {
            self.evict();
        } else {
            proof {
                assert(self@.head.skip(0) =~= self@.head);
                assert(self@.tail.skip(0) =~= self@.tail);
            }
        }
        proof {
            lemma_appended_well_formed(v0, pushed, bounded);
        }
    }

    /// Places a kept line whose bytes `retained` already counts, less
    /// the line the tail drops.
    fn place(&mut self, line: String)
        requires
            old(self)@.head.len() <= old(self)@.line_cap,
            old(self)@.tail.len() <= old(self)@.line_cap,
            old(self)@.retained == kept_bytes(old(self)@.head + old(self)@.tail) + byte_len(line@)
                + 1,
        ensures
            ({
                let (h, t) = placed(old(self)@, line@);
                final(self)@ == OutputView { head: h, tail: t, retained: kept_bytes(h + t), ..old(self)@ }
            }),
    {
        let ghost v0 = self@;
        let ghost kept = line@;
        proof {
            lemma_placed(v0, kept);
        }
        if self.head.len() < self.line_cap {
            self.head.push_back(line);
            assert(texts(self.head@) =~= v0.head.push(kept));
        } else {
            self.tail.push_back(line);
            assert(texts(self.tail@) =~= v0.tail.push(kept));
            if self.tail.len() > self.line_cap {
                let ghost before = texts(self.tail@);
                let evicted = self.tail.pop_front();
                assert(texts(self.tail@) =~= before.drop_first());
                match evicted {
                    Some(e) => {
                        let e_len = str_bytes(e.as_str());
                        self.retained = self.retained - (e_len + 1);
                    },
                    None => {},
                }
            }
        }
    }
}

impl Default for Output {
    fn default() -> (o: Self)
        ensures
            o@ == empty_view(DEFAULT_CAP as nat, DEFAULT_BYTE_CAP as nat),
            well_formed(o@),
    {
        Self::new()
    }
}

/// The state of an output nothing was pushed to.
pub open spec fn empty_view(line_cap: nat, byte_cap: nat) -> OutputView {
    OutputView {
        line_cap,
        byte_cap,
        head: Seq::empty(),
        tail: Seq::empty(),
        lines: 0,
        bytes: 0,
        retained: 0,
        front: 0,
    }
}

/// A notice is exempt from the byte cap: pushing one drops no kept line,
/// and the notice is among the kept lines, where any line is kept.
pub proof fn law_a_notice_survives_the_byte_cap(v: OutputView, notice: Seq<char>)
    requires
        well_formed(v),
        v.line_cap > 0,
    ensures
        appended(v, notice, false).front == v.front,
        (appended(v, notice, false).head + appended(v, notice, false).tail).contains(notice),
{
    let w = appended(v, notice, false);
    let (head, tail) = placed(v, kept_line(v.byte_cap, notice, false));
    assert(kept_line(v.byte_cap, notice, false) == notice);
    assert(w.head =~= head);
    assert(w.tail =~= tail);
    if v.head.len() < v.line_cap {
        assert((w.head + w.tail)[v.head.len() as int] == notice);
    } else {
        let k = w.head.len() + w.tail.len() - 1;
        assert(w.tail.last() == notice);
        assert((w.head + w.tail)[k] == notice);
    }
}


/// The chars `fit_count` keeps take at most the budget.
proof fn lemma_fit_count_byte_len(s: Seq<char>, budget: nat)
    ensures
        byte_len(s.take(fit_count(s, budget) as int)) <= budget,
    decreases s.len(),
{
    if s.len() > 0 && char_width(s[0]) <= budget {
        let rest = s.drop_first();
        let b = (budget - char_width(s[0])) as nat;
        lemma_fit_count_byte_len(rest, b);
        lemma_fit_count_bounds(rest, b);
        let n = fit_count(rest, b);
        assert(s.take((1 + n) as int) =~= seq![s[0]] + rest.take(n as int));
        lemma_byte_len_concat(seq![s[0]], rest.take(n as int));
        assert(seq![s[0]].drop_first() =~= Seq::<char>::empty());
        assert(byte_len(seq![s[0]]) == char_width(s[0])) by {
            reveal_with_fuel(byte_len, 2);
        }
    } else {
        assert(s.take(0) =~= Seq::<char>::empty());
    }
}

/// Under a byte cap that holds a truncation notice, a line of less than
/// a gigabyte is kept within the cap, newline included, and verbatim when
/// it fits.
proof fn lemma_kept_line_fits(byte_cap: nat, line: Seq<char>)
    requires
        byte_cap > MAX_TRUNCATION_NOTICE,
        byte_len(line) < 1_000_000_000,
    ensures
        byte_len(kept_line(byte_cap, line, true)) + 1 <= byte_cap,
        byte_len(line) + 1 <= byte_cap ==> kept_line(byte_cap, line, true) == line,
{
    if byte_len(line) + 1 > byte_cap {
        let budget = (byte_cap - 1) as nat;
        let keep = (budget - MAX_TRUNCATION_NOTICE) as nat;
        let at = fit_count(line, keep);
        lemma_fit_count_bounds(line, keep);
        lemma_fit_count_byte_len(line, keep);
        assert(line =~= line.take(at as int) + line.skip(at as int));
        lemma_byte_len_concat(line.take(at as int), line.skip(at as int));
        let e = (byte_len(line) - byte_len(line.take(at as int))) as nat;
        reveal_strlit("[... ");
        reveal_strlit(" bytes elided]");
        vstd::arithmetic::power::lemma_pow_positive(10, 9);
        assert(vstd::arithmetic::power::pow(10, 9) == 1_000_000_000) by {
            vstd::arithmetic::power::lemma_pow_adds(10, 4, 5);
            reveal_with_fuel(vstd::arithmetic::power::pow, 6);
        }
        lemma_decimal_len(e, 9);
        lemma_decimal_ascii(e);
        let n = bytes_notice(e);
        assert(all_ascii(n)) by {
            assert forall|i: int| 0 <= i < n.len() implies (#[trigger] n[i] as u32) < 0x80 by {
                if i >= 5 && i < 5 + decimal(e).len() {
                    assert(n[i] == decimal(e)[i - 5]);
                }
            }
        }
        lemma_ascii_byte_len(n);
        lemma_byte_len_concat(line.take(at as int), n);
    }
}

/// The sequence `ls` drops at most `i` of its oldest lines to fit `cap`
/// bytes when its lines from `i` on fit.
proof fn lemma_drop_needed_at_most(ls: Seq<Seq<char>>, cap: nat, i: int)
    requires
        0 <= i <= ls.len(),
        kept_bytes(ls.skip(i)) <= cap,
    ensures
        drop_needed(ls, cap) <= i,
    decreases ls.len(),
{
    if !(kept_bytes(ls) <= cap || ls.len() == 0) {
        assert(ls.skip(0) =~= ls);
        assert(ls.drop_first().skip(i - 1) =~= ls.skip(i));
        lemma_drop_needed_at_most(ls.drop_first(), cap, i - 1);
    }
}

/// Under byte pressure the oldest kept lines yield first: a line pushed
/// is kept, cut to the byte cap, as the newest kept line, where the cap
/// can hold a truncation notice and the line is under a gigabyte. The
/// one exception is a head the byte cap has thinned while the tail holds
/// lines: the line then goes to the head, whose front yields first.
pub proof fn law_the_newest_line_is_kept(v: OutputView, line: Seq<char>)
    requires
        well_formed(v),
        v.line_cap > 0,
        v.byte_cap > MAX_TRUNCATION_NOTICE,
        byte_len(line) < 1_000_000_000,
        v.head.len() == v.line_cap || v.tail.len() == 0,
    ensures
        ({
            let w = appended(v, line, true);
            &&& (w.head + w.tail).len() > 0
            &&& (w.head + w.tail).last() == kept_line(v.byte_cap, line, true)
            &&& byte_len((w.head + w.tail).last()) + 1 <= v.byte_cap
            &&& byte_len(line) + 1 <= v.byte_cap ==> (w.head + w.tail).last() == line
        }),
{
    let kept = kept_line(v.byte_cap, line, true);
    lemma_kept_line_fits(v.byte_cap, line);
    let (head, tail) = placed(v, kept);
    let hs = head + tail;
    if v.head.len() < v.line_cap {
        assert(hs =~= v.head.push(kept));
    } else if v.tail.len() + 1 > v.line_cap {
        assert(hs.last() == kept);
    }
    assert(hs.len() > 0 && hs.last() == kept);
    let last = hs.len() - 1;
    assert(hs.skip(last) =~= seq![kept]);
    assert(seq![kept].drop_first() =~= Seq::<Seq<char>>::empty());
    assert(kept_bytes(seq![kept]) == byte_len(kept) + 1) by {
        reveal_with_fuel(kept_bytes, 2);
    }
    lemma_drop_needed_at_most(hs, v.byte_cap, last);
    let d = drop_needed(hs, v.byte_cap);
    lemma_skip_split(head, tail, d as int);
    let w = appended(v, line, true);
    assert(w.head + w.tail == hs.skip(d as int));
    assert(hs.skip(d as int).last() == hs.last());
}

} // verus!
