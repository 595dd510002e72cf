//! What escaping raw HTML keeps: a document escaped once is left as it is
//! by a second escape, and the escape rewrites nothing but `<` into
//! `&lt;`.

use vstd::prelude::*;

use crate::html::{
    backticks, fence_opener, leading_run, raw_html_escaped, raw_lines, raw_step, tag_like,
    text_line, toggled,
};
use crate::text::{
    byte_len, first_of, is_space, lemma_byte_len_concat, lemma_first_of, lemma_first_of_bounds,
    lemma_first_of_none, lemma_trim_start_len, lemma_trim_start_skip, lines, strip_cr, trim_start,
};

verus! {

/// Whether the text step escapes the `<` at the start of `s`.
spec fn escapes_first(s: Seq<char>, code: Seq<nat>) -> bool {
    code.len() == 0 && s[0] == '<' && 1 < s.len() && tag_like(s[1])
}

proof fn lemma_run_bounds(t: Seq<char>, x: char)
    ensures
        leading_run(t, x) <= t.len(),
        forall|m: int| 0 <= m < leading_run(t, x) ==> t[m] == x,
        leading_run(t, x) < t.len() ==> t[leading_run(t, x) as int] != x,
    decreases t.len(),
{
    if t.len() > 0 && t[0] == x {
        lemma_run_bounds(t.drop_first(), x);
        assert forall|m: int| 0 <= m < leading_run(t, x) implies t[m] == x by {
            if m > 0 {
                assert(t[m] == t.drop_first()[m - 1]);
            }
        }
        if leading_run(t, x) < t.len() {
            assert(t[leading_run(t, x) as int] == t.drop_first()[leading_run(t.drop_first(), x) as int]);
        }
    }
}

proof fn lemma_run_skip(t: Seq<char>, x: char, k: int)
    requires
        0 <= k <= leading_run(t, x),
    ensures
        leading_run(t, x) == k + leading_run(t.skip(k), x),
    decreases k,
{
    lemma_run_bounds(t, x);
    if k == 0 {
        assert(t.skip(0) =~= t);
    } else {
        lemma_run_skip(t.drop_first(), x, k - 1);
        assert(t.drop_first().skip(k - 1) =~= t.skip(k));
    }
}

proof fn lemma_run_concat(a: Seq<char>, b: Seq<char>, x: char)
    requires
        forall|m: int| 0 <= m < a.len() ==> a[m] == x,
    ensures
        leading_run(a + b, x) == a.len() + leading_run(b, x),
    decreases a.len(),
{
    if a.len() == 0 {
        assert(a + b =~= b);
    } else {
        assert((a + b).drop_first() =~= a.drop_first() + b);
        lemma_run_concat(a.drop_first(), b, x);
    }
}

/// The text step read from position `i` is the text step of what
/// follows `i`.
proof fn lemma_text_shift(s: Seq<char>, i: int, code: Seq<nat>)
    requires
        0 <= i <= s.len(),
    ensures
        text_line(s, i, code) == text_line(s.skip(i), 0, code),
    decreases s.len() - i,
{
    let t = s.skip(i);
    if i < s.len() {
        assert(t[0] == s[i]);
        assert(t.skip(0) =~= t);
        if s[i] == '`' {
            let run = leading_run(t, '`');
            lemma_run_bounds(t, '`');
            if run > 0 && i + run <= s.len() {
                lemma_text_shift(s, i + run, toggled(code, run));
                lemma_text_shift(t, run as int, toggled(code, run));
                assert(t.skip(run as int) =~= s.skip(i + run));
            }
        } else {
            if i + 1 < s.len() {
                assert(t[1] == s[i + 1]);
            }
            lemma_text_shift(s, i + 1, code);
            lemma_text_shift(t, 1, code);
            assert(t.skip(1) =~= s.skip(i + 1));
        }
    }
}

/// One step of the text escape, from the start of `s`.
proof fn lemma_text_unfold(s: Seq<char>, code: Seq<nat>)
    requires
        s.len() > 0,
    ensures
        s[0] == '`' ==> {
            let r = leading_run(s, '`');
            &&& 0 < r <= s.len()
            &&& r < s.len() ==> s[r as int] != '`'
            &&& text_line(s, 0, code) == backticks(r) + text_line(
                s.skip(r as int),
                0,
                toggled(code, r),
            )
        },
        s[0] != '`' && escapes_first(s, code) ==> text_line(s, 0, code) == "&lt;"@ + text_line(
            s.skip(1),
            0,
            code,
        ),
        s[0] != '`' && !escapes_first(s, code) ==> text_line(s, 0, code) == seq![s[0]] + text_line(
            s.skip(1),
            0,
            code,
        ),
{
    assert(s.skip(0) =~= s);
    lemma_run_bounds(s, '`');
    if s[0] == '`' {
        lemma_text_shift(s, leading_run(s, '`') as int, toggled(code, leading_run(s, '`')));
    } else {
        lemma_text_shift(s, 1, code);
    }
}

/// The escape of a non-empty text starts with its first character, or
/// with the `&` that stands for a `<`.
proof fn lemma_text_head(s: Seq<char>, code: Seq<nat>)
    ensures
        s.len() == 0 ==> text_line(s, 0, code) == Seq::<char>::empty(),
        s.len() > 0 ==> text_line(s, 0, code).len() > 0 && (text_line(s, 0, code)[0] == s[0] || (
        s[0] == '<' && text_line(s, 0, code)[0] == '&')),
{
    reveal_strlit("&lt;");
    if s.len() > 0 {
        lemma_text_unfold(s, code);
    } else {
        assert(text_line(s, 0, code) =~= Seq::<char>::empty());
    }
}

/// Characters other than backticks and `<` are kept, as they are, in front
/// of the escape of what follows them.
proof fn lemma_text_prefix(p: Seq<char>, q: Seq<char>, code: Seq<nat>)
    requires
        forall|m: int| 0 <= m < p.len() ==> p[m] != '`' && p[m] != '<',
    ensures
        text_line(p + q, 0, code) == p + text_line(q, 0, code),
    decreases p.len(),
{
    if p.len() == 0 {
        assert(p + q =~= q);
    } else {
        let s = p + q;
        assert(s[0] == p[0]);
        lemma_text_unfold(s, code);
        assert(s.skip(1) =~= p.skip(1) + q);
        lemma_text_prefix(p.skip(1), q, code);
        assert(p =~= seq![p[0]] + p.skip(1));
        assert(seq![p[0]] + (p.skip(1) + text_line(q, 0, code)) =~= p + text_line(q, 0, code));
    }
}

/// The escape of a text brings in no line break, and ends with the
/// character the text ends with.
proof fn lemma_text_chars(s: Seq<char>, code: Seq<nat>)
    ensures
        (forall|m: int| 0 <= m < s.len() ==> s[m] != '\n') ==> forall|m: int|
            0 <= m < text_line(s, 0, code).len() ==> text_line(s, 0, code)[m] != '\n',
        s.len() > 0 ==> text_line(s, 0, code).len() > 0 && text_line(s, 0, code).last()
            == s.last(),
    decreases s.len(),
{
    reveal_strlit("&lt;");
    lemma_text_head(s, code);
    if s.len() > 0 {
        lemma_text_unfold(s, code);
        let (k, c2): (int, Seq<nat>) = if s[0] == '`' {
            (leading_run(s, '`') as int, toggled(code, leading_run(s, '`')))
        } else {
            (1, code)
        };
        let rest = s.skip(k);
        lemma_run_bounds(s, '`');
        lemma_text_chars(rest, c2);
        lemma_text_head(rest, c2);
        let u = text_line(rest, 0, c2);
        let head: Seq<char> = if s[0] == '`' {
            backticks(leading_run(s, '`'))
        } else if escapes_first(s, code) {
            "&lt;"@
        } else {
            seq![s[0]]
        };
        assert(text_line(s, 0, code) == head + u);
        if rest.len() > 0 {
            assert(rest.last() == s.last());
        } else {
            assert(u =~= Seq::<char>::empty());
            assert(head + u =~= head);
        }
        if forall|m: int| 0 <= m < s.len() ==> s[m] != '\n' {
            assert forall|m: int| 0 <= m < rest.len() implies rest[m] != '\n' by {
                assert(rest[m] == s[m + k]);
            }
            assert forall|m: int| 0 <= m < (head + u).len() implies (head + u)[m] != '\n' by {
                if m >= head.len() {
                    assert((head + u)[m] == u[m - head.len()]);
                }
            }
        }
    }
}

/// The escape keeps the length of a leading run of any character but
/// `<` and `&`.
proof fn lemma_text_run(s: Seq<char>, code: Seq<nat>, x: char)
    requires
        x != '<',
        x != '&',
    ensures
        leading_run(text_line(s, 0, code), x) == leading_run(s, x),
    decreases s.len(),
{
    reveal_strlit("&lt;");
    lemma_text_head(s, code);
    if s.len() > 0 {
        lemma_text_unfold(s, code);
        lemma_run_bounds(s, '`');
        let w = text_line(s, 0, code);
        if s[0] == '`' {
            let r = leading_run(s, '`');
            let rest = s.skip(r as int);
            let u = text_line(rest, 0, toggled(code, r));
            if x == '`' {
                lemma_text_run(rest, toggled(code, r), x);
                lemma_run_concat(backticks(r), u, x);
                lemma_run_skip(s, x, r as int);
            } else {
                assert(w[0] == '`');
            }
        } else if escapes_first(s, code) {
            assert(w[0] == '&');
        } else {
            let rest = s.skip(1);
            let u = text_line(rest, 0, code);
            if s[0] == x {
                lemma_text_run(rest, code, x);
                assert(w.drop_first() =~= u);
                assert(s.drop_first() =~= rest);
            }
        }
    }
}

/// Escaping an escaped text changes nothing.
proof fn lemma_text_twice(s: Seq<char>, code: Seq<nat>)
    ensures
        text_line(text_line(s, 0, code), 0, code) == text_line(s, 0, code),
    decreases s.len(),
{
    reveal_strlit("&lt;");
    lemma_text_head(s, code);
    let w = text_line(s, 0, code);
    if s.len() == 0 {
        lemma_text_head(w, code);
    } else {
        lemma_text_unfold(s, code);
        lemma_run_bounds(s, '`');
        if s[0] == '`' {
            let r = leading_run(s, '`');
            let rest = s.skip(r as int);
            let c2 = toggled(code, r);
            let u = text_line(rest, 0, c2);
            lemma_text_twice(rest, c2);
            lemma_text_run(rest, c2, '`');
            if rest.len() > 0 {
                assert(rest[0] == s[r as int]);
            }
            lemma_run_concat(backticks(r), u, '`');
            assert(w[0] == '`');
            lemma_text_unfold(w, code);
            assert(w.skip(r as int) =~= u);
        } else if escapes_first(s, code) {
            let u = text_line(s.skip(1), 0, code);
            lemma_text_twice(s.skip(1), code);
            lemma_text_prefix("&lt;"@, u, code);
        } else {
            let rest = s.skip(1);
            let u = text_line(rest, 0, code);
            lemma_text_twice(rest, code);
            lemma_text_head(rest, code);
            assert(w[0] == s[0]);
            if w.len() > 1 {
                assert(w[1] == u[0]);
                assert(rest[0] == s[1]);
            }
            assert(!escapes_first(w, code));
            lemma_text_unfold(w, code);
            assert(w.skip(1) =~= u);
        }
    }
}

/// The escape of a text line opens the fence the line opens, if any.
proof fn lemma_text_fence(l: Seq<char>)
    ensures
        fence_opener(text_line(l, 0, seq![])) == fence_opener(l),
{
    reveal_strlit("&lt;");
    let code: Seq<nat> = seq![];
    let t = trim_start(l);
    lemma_trim_start_len(l);
    let k = choose|k: int|
        0 <= k <= l.len() && trim_start(l) == l.skip(k) && forall|m: int|
            0 <= m < k ==> is_space(#[trigger] l[m]);
    let sp = l.take(k);
    assert(l =~= sp + t);
    assert forall|m: int| 0 <= m < sp.len() implies sp[m] != '`' && sp[m] != '<' by {
        assert(is_space(l[m]));
    }
    lemma_text_prefix(sp, t, code);
    let u = text_line(t, 0, code);
    let w = text_line(l, 0, code);
    assert(w == sp + u);
    lemma_text_head(t, code);
    assert(!is_space('&'));
    assert((sp + u).skip(k) =~= u);
    assert forall|m: int| 0 <= m < k implies is_space(#[trigger] (sp + u)[m]) by {
        assert((sp + u)[m] == l[m]);
    }
    lemma_trim_start_skip(sp + u, k);
    assert(trim_start(u) == u);
    lemma_byte_len_concat(sp, u);
    lemma_byte_len_concat(sp, t);
    if k == 0 && l.len() > 0 {
        assert(l[0] == t[0]);
        assert(!is_space(l[0]));
        assert(w[0] == u[0]);
    }
    if k > 0 {
        assert(w[0] == l[0]);
    }
    if t.len() > 0 && (t[0] == '`' || t[0] == '~') {
        lemma_text_run(t, code, t[0]);
    }
}

/// The lines `ys`, each with a newline after it.
pub open spec fn joined(ys: Seq<Seq<char>>) -> Seq<char>
    decreases ys.len(),
{
    if ys.len() == 0 {
        seq![]
    } else {
        joined(ys.drop_last()) + ys.last() + "\n"@
    }
}

proof fn lemma_joined_front(ys: Seq<Seq<char>>)
    requires
        ys.len() > 0,
    ensures
        joined(ys) == ys[0] + "\n"@ + joined(ys.drop_first()),
    decreases ys.len(),
{
    if ys.len() == 1 {
        assert(ys.drop_last() =~= Seq::<Seq<char>>::empty());
        assert(ys.drop_first() =~= Seq::<Seq<char>>::empty());
        assert(joined(ys) =~= ys[0] + "\n"@ + joined(ys.drop_first()));
    } else {
        lemma_joined_front(ys.drop_last());
        assert(ys.drop_last().drop_first() =~= ys.drop_first().drop_last());
        assert(ys.drop_last()[0] == ys[0]);
        assert(ys.drop_first().last() == ys.last());
        assert(joined(ys) =~= ys[0] + "\n"@ + joined(ys.drop_first()));
    }
}

/// Whether no line of `ys` holds a line break, or ends in a carriage
/// return.
spec fn plain_lines(ys: Seq<Seq<char>>) -> bool {
    forall|k: int|
        0 <= k < ys.len() ==> !(#[trigger] ys[k].len() > 0 && ys[k].last() == '\r') && forall|
            m: int,
        |
            0 <= m < ys[k].len() ==> ys[k][m] != '\n'
}

/// Lines joined with newlines split back into the same lines.
proof fn lemma_lines_joined(ys: Seq<Seq<char>>)
    requires
        plain_lines(ys),
    ensures
        lines(joined(ys)) == ys,
    decreases ys.len(),
{
    reveal_strlit("\n");
    if ys.len() == 0 {
        assert(lines(joined(ys)) =~= ys);
    } else {
        lemma_joined_front(ys);
        let y = ys[0];
        let rest = joined(ys.drop_first());
        let s = y + "\n"@ + rest;
        assert forall|m: int| 0 <= m < y.len() implies s[m] != '\n' by {
            assert(s[m] == y[m]);
        }
        assert(s[y.len() as int] == '\n');
        lemma_first_of(s, '\n', y.len() as int);
        assert(s.take(y.len() as int) =~= y);
        assert(s.skip(y.len() as int + 1) =~= rest);
        assert(strip_cr(y) == y);
        assert(plain_lines(ys.drop_first())) by {
            assert forall|k: int| 0 <= k < ys.drop_first().len() implies ys.drop_first()[k]
                == ys[k + 1] by {}
        }
        lemma_lines_joined(ys.drop_first());
        assert(lines(s) =~= ys);
    }
}

/// No line of `s` holds a line break.
proof fn lemma_lines_break_free(s: Seq<char>)
    ensures
        forall|k: int, m: int|
            0 <= k < lines(s).len() && 0 <= m < lines(s)[k].len() ==> lines(s)[k][m] != '\n',
    decreases s.len(),
{
    if s.len() > 0 {
        lemma_first_of_bounds(s, '\n');
        lemma_first_of_none(s, '\n');
        match first_of(s, '\n') {
            None => {},
            Some(i) => {
                lemma_lines_break_free(s.skip(i + 1));
                let l = strip_cr(s.take(i));
                assert forall|k: int, m: int|
                    0 <= k < lines(s).len() && 0 <= m < lines(s)[k].len() implies lines(s)[k][m]
                    != '\n' by {
                    if k == 0 {
                        assert(lines(s)[0] == l);
                        assert(l[m] == s[m]);
                    } else {
                        assert(lines(s)[k] == lines(s.skip(i + 1))[k - 1]);
                    }
                }
            },
        }
    }
}

/// The `k`th of the lines `ls` as the escape writes it: as it is in a
/// fence or when it opens one, escaped otherwise.
spec fn kept_line(ls: Seq<Seq<char>>, k: int) -> Seq<char> {
    if raw_lines(ls.take(k)).1 is Some || fence_opener(ls[k]) is Some {
        ls[k]
    } else {
        text_line(ls[k], 0, seq![])
    }
}

/// The lines `ls` as the escape writes them.
spec fn kept_lines(ls: Seq<Seq<char>>) -> Seq<Seq<char>> {
    Seq::new(ls.len(), |k: int| kept_line(ls, k))
}

proof fn lemma_kept_drop_last(ls: Seq<Seq<char>>)
    requires
        ls.len() > 0,
    ensures
        kept_lines(ls).drop_last() == kept_lines(ls.drop_last()),
        ls.take(ls.len() - 1) == ls.drop_last(),
{
    assert(ls.take(ls.len() - 1) =~= ls.drop_last());
    assert forall|k: int| 0 <= k < ls.len() - 1 implies kept_line(ls, k) == kept_line(
        ls.drop_last(),
        k,
    ) by {
        assert(ls.take(k) =~= ls.drop_last().take(k));
    }
    assert(kept_lines(ls).drop_last() =~= kept_lines(ls.drop_last()));
}

/// The escape is the lines as it writes them, each with a newline.
proof fn lemma_escape_joined(ls: Seq<Seq<char>>)
    ensures
        raw_lines(ls).0 == joined(kept_lines(ls)),
    decreases ls.len(),
{
    if ls.len() > 0 {
        lemma_kept_drop_last(ls);
        lemma_escape_joined(ls.drop_last());
    }
}

/// Escaping the lines as the escape wrote them gives the same text and
/// leaves the same fence open.
proof fn lemma_escape_kept(ls: Seq<Seq<char>>)
    ensures
        raw_lines(kept_lines(ls)) == raw_lines(ls),
    decreases ls.len(),
{
    if ls.len() > 0 {
        lemma_kept_drop_last(ls);
        lemma_escape_kept(ls.drop_last());
        let l = ls.last();
        lemma_text_fence(l);
        lemma_text_twice(l, seq![]);
        assert(kept_lines(ls).last() == kept_line(ls, ls.len() - 1));
    }
}

/// Escaping raw HTML twice gives what escaping it once gives, wherever
/// no line of the markdown, once split, still ends in a carriage return.
pub proof fn law_escaping_twice_changes_nothing(markdown: Seq<char>)
    requires
        forall|k: int|
            0 <= k < lines(markdown).len() ==> !(#[trigger] lines(markdown)[k].len() > 0
                && lines(markdown)[k].last() == '\r'),
    ensures
        raw_html_escaped(raw_html_escaped(markdown)) == raw_html_escaped(markdown),
{
    let ls = lines(markdown);
    let ys = kept_lines(ls);
    lemma_lines_break_free(markdown);
    assert(plain_lines(ys)) by {
        assert forall|k: int| 0 <= k < ys.len() implies !(#[trigger] ys[k].len() > 0
            && ys[k].last() == '\r') && forall|m: int| 0 <= m < ys[k].len() ==> ys[k][m]
            != '\n' by {
            lemma_text_chars(ls[k], seq![]);
            assert(forall|m: int| 0 <= m < ls[k].len() ==> ls[k][m] != '\n');
        }
    }
    lemma_escape_joined(ls);
    lemma_lines_joined(ys);
    lemma_escape_kept(ls);
}

/// Whether `&lt;` stands in `s` at `i`.
pub open spec fn lt_at(s: Seq<char>, i: int) -> bool {
    0 <= i && i + 4 <= s.len() && s.subrange(i, i + 4) == "&lt;"@
}

/// Whether `&lt;` stands nowhere in `s`.
pub open spec fn free_of_lt(s: Seq<char>) -> bool {
    forall|i: int| !#[trigger] lt_at(s, i)
}

/// `s` with each `&lt;` turned back into `<`, from left to right, as
/// `str::replace` does.
pub open spec fn lt_unescaped(s: Seq<char>) -> Seq<char>
    decreases s.len(),
{
    if s.len() == 0 {
        seq![]
    } else if s.len() >= 4 && s.take(4) == "&lt;"@ {
        seq!['<'] + lt_unescaped(s.skip(4))
    } else {
        seq![s[0]] + lt_unescaped(s.skip(1))
    }
}

/// Characters other than `&` are kept in front of what follows them.
proof fn lemma_unescaped_prefix(p: Seq<char>, q: Seq<char>)
    requires
        forall|m: int| 0 <= m < p.len() ==> p[m] != '&',
    ensures
        lt_unescaped(p + q) == p + lt_unescaped(q),
    decreases p.len(),
{
    reveal_strlit("&lt;");
    if p.len() == 0 {
        assert(p + q =~= q);
    } else {
        let s = p + q;
        assert(s[0] == p[0]);
        if s.len() >= 4 {
            assert(s.take(4)[0] == p[0]);
        }
        assert(s.skip(1) =~= p.skip(1) + q);
        lemma_unescaped_prefix(p.skip(1), q);
        assert(seq![p[0]] + (p.skip(1) + lt_unescaped(q)) =~= p + lt_unescaped(q));
    }
}

/// A line break ends any `&lt;` before it.
proof fn lemma_unescaped_break(a: Seq<char>, b: Seq<char>)
    ensures
        lt_unescaped(a + "\n"@ + b) == lt_unescaped(a) + "\n"@ + lt_unescaped(b),
    decreases a.len(),
{
    reveal_strlit("&lt;");
    reveal_strlit("\n");
    let s = a + "\n"@ + b;
    if a.len() == 0 {
        assert(s =~= "\n"@ + b);
        lemma_unescaped_prefix("\n"@, b);
        assert(lt_unescaped(a) =~= Seq::<char>::empty());
        assert(lt_unescaped(a) + "\n"@ + lt_unescaped(b) =~= "\n"@ + lt_unescaped(b));
    } else {
        if a.len() >= 4 {
            assert(s.take(4) =~= a.take(4));
        } else if s.len() >= 4 {
            assert(s[a.len() as int] == '\n');
            assert(s.take(4)[a.len() as int] == '\n');
            assert(s.take(4) != "&lt;"@);
        }
        if a.len() >= 4 && a.take(4) == "&lt;"@ {
            assert(s.skip(4) =~= a.skip(4) + "\n"@ + b);
            lemma_unescaped_break(a.skip(4), b);
        } else {
            assert(s.skip(1) =~= a.skip(1) + "\n"@ + b);
            lemma_unescaped_break(a.skip(1), b);
        }
    }
}

/// Text free of `&lt;` comes back whole.
proof fn lemma_unescaped_free(s: Seq<char>)
    requires
        free_of_lt(s),
    ensures
        lt_unescaped(s) == s,
    decreases s.len(),
{
    if s.len() > 0 {
        if s.len() >= 4 {
            assert(!lt_at(s, 0));
            assert(s.subrange(0, 4) =~= s.take(4));
        }
        assert forall|i: int| !#[trigger] lt_at(s.skip(1), i) by {
            if lt_at(s.skip(1), i) {
                assert(s.skip(1).subrange(i, i + 4) =~= s.subrange(i + 1, i + 5));
                assert(lt_at(s, i + 1));
            }
        }
        lemma_unescaped_free(s.skip(1));
        assert(s =~= seq![s[0]] + s.skip(1));
    }
}

/// Where the escape of `s` starts with `p`, a text without `&` or
/// backticks, so does `s`.
proof fn lemma_text_starts(s: Seq<char>, code: Seq<nat>, p: Seq<char>)
    requires
        p.len() <= text_line(s, 0, code).len(),
        text_line(s, 0, code).take(p.len() as int) == p,
        forall|m: int| 0 <= m < p.len() ==> p[m] != '&' && p[m] != '`',
    ensures
        p.len() <= s.len(),
        s.take(p.len() as int) == p,
    decreases p.len(),
{
    reveal_strlit("&lt;");
    let w = text_line(s, 0, code);
    lemma_text_head(s, code);
    if p.len() == 0 {
        assert(s.take(0) =~= p);
    } else {
        assert(w[0] == p[0]);
        assert(s.len() > 0);
        lemma_text_unfold(s, code);
        assert(s[0] == p[0]);
        let u = text_line(s.skip(1), 0, code);
        assert(w == seq![s[0]] + u);
        assert(u.take(p.len() - 1) =~= p.skip(1)) by {
            assert forall|m: int| 0 <= m < p.len() - 1 implies u[m] == p.skip(1)[m] by {
                assert(u[m] == w[m + 1]);
                assert(w.take(p.len() as int)[m + 1] == p[m + 1]);
            }
        }
        lemma_text_starts(s.skip(1), code, p.skip(1));
        assert(s.take(p.len() as int) =~= p) by {
            assert forall|m: int| 0 <= m < p.len() implies s.take(p.len() as int)[m] == p[m] by {
                if m > 0 {
                    assert(s.skip(1).take(p.len() - 1)[m - 1] == p.skip(1)[m - 1]);
                }
            }
        }
    }
}

/// Turning `&lt;` back into `<` in the escape of a text free of `&lt;`
/// gives the text.
proof fn lemma_unescaped_text(s: Seq<char>, code: Seq<nat>)
    requires
        free_of_lt(s),
    ensures
        lt_unescaped(text_line(s, 0, code)) == s,
    decreases s.len(),
{
    reveal_strlit("&lt;");
    reveal_strlit("lt;");
    let w = text_line(s, 0, code);
    lemma_text_head(s, code);
    if s.len() == 0 {
        assert(lt_unescaped(w) =~= s);
    } else {
        lemma_text_unfold(s, code);
        lemma_run_bounds(s, '`');
        let k: int = if s[0] == '`' {
            leading_run(s, '`') as int
        } else {
            1
        };
        let rest = s.skip(k);
        assert forall|i: int| !#[trigger] lt_at(rest, i) by {
            if lt_at(rest, i) {
                assert(rest.subrange(i, i + 4) =~= s.subrange(i + k, i + k + 4));
                assert(lt_at(s, i + k));
            }
        }
        if s[0] == '`' {
            let c2 = toggled(code, leading_run(s, '`'));
            lemma_unescaped_text(rest, c2);
            lemma_unescaped_prefix(backticks(leading_run(s, '`')), text_line(rest, 0, c2));
            assert(backticks(leading_run(s, '`')) + rest =~= s);
        } else if escapes_first(s, code) {
            lemma_unescaped_text(rest, code);
            let u = text_line(rest, 0, code);
            assert(w.take(4) =~= "&lt;"@);
            assert(w.skip(4) =~= u);
            assert(seq!['<'] + rest =~= s);
        } else {
            lemma_unescaped_text(rest, code);
            let u = text_line(rest, 0, code);
            assert(w.skip(1) =~= u);
            if s[0] == '&' && w.len() >= 4 && w.take(4) == "&lt;"@ {
                assert(u.take(3) =~= "lt;"@) by {
                    assert forall|m: int| 0 <= m < 3 implies u[m] == "lt;"@[m] by {
                        assert(u[m] == w[m + 1]);
                        assert(w.take(4)[m + 1] == "&lt;"@[m + 1]);
                    }
                }
                lemma_text_starts(rest, code, "lt;"@);
                assert(s.subrange(0, 4) =~= "&lt;"@) by {
                    assert forall|m: int| 1 <= m < 4 implies s[m] == "&lt;"@[m] by {
                        assert(s[m] == rest.take(3)[m - 1]);
                    }
                }
                assert(lt_at(s, 0));
            }
            if w.len() >= 4 {
                assert(w.take(4)[0] == w[0]);
            }
            assert(seq![s[0]] + rest =~= s);
        }
    }
}

/// No line of text free of `&lt;` holds one.
proof fn lemma_lines_free(s: Seq<char>)
    requires
        free_of_lt(s),
    ensures
        forall|k: int| 0 <= k < lines(s).len() ==> free_of_lt(#[trigger] lines(s)[k]),
    decreases s.len(),
{
    if s.len() > 0 {
        lemma_first_of_bounds(s, '\n');
        match first_of(s, '\n') {
            None => {},
            Some(i) => {
                let rest = s.skip(i + 1);
                assert forall|j: int| !#[trigger] lt_at(rest, j) by {
                    if lt_at(rest, j) {
                        assert(rest.subrange(j, j + 4) =~= s.subrange(j + i + 1, j + i + 5));
                        assert(lt_at(s, j + i + 1));
                    }
                }
                lemma_lines_free(rest);
                let l = strip_cr(s.take(i));
                assert forall|j: int| !#[trigger] lt_at(l, j) by {
                    if lt_at(l, j) {
                        assert(l.subrange(j, j + 4) =~= s.subrange(j, j + 4));
                        assert(lt_at(s, j));
                    }
                }
                assert forall|k: int| 0 <= k < lines(s).len() implies free_of_lt(
                    #[trigger] lines(s)[k],
                ) by {
                    if k > 0 {
                        assert(lines(s)[k] == lines(rest)[k - 1]);
                    }
                }
            },
        }
    }
}

/// Turning `&lt;` back into `<` in the lines as the escape writes them
/// gives the lines.
proof fn lemma_unescaped_kept(ls: Seq<Seq<char>>)
    requires
        forall|k: int| 0 <= k < ls.len() ==> free_of_lt(#[trigger] ls[k]),
    ensures
        lt_unescaped(joined(kept_lines(ls))) == joined(ls),
    decreases ls.len(),
{
    if ls.len() > 0 {
        lemma_kept_drop_last(ls);
        lemma_unescaped_kept(ls.drop_last());
        let l = ls.last();
        assert(free_of_lt(ls[ls.len() - 1]));
        lemma_unescaped_free(l);
        lemma_unescaped_text(l, seq![]);
        let ys = kept_lines(ls);
        assert(ys.last() == kept_line(ls, ls.len() - 1));
        assert(lt_unescaped(ys.last()) == l);
        lemma_joined_end(ys.drop_last());
        lemma_joined_end(ls.drop_last());
        lemma_unescaped_join_last(joined(ys.drop_last()), ys.last());
        lemma_unescaped_join_last(joined(ls.drop_last()), l);
    }
}

/// Joined lines end with a newline.
proof fn lemma_joined_end(ys: Seq<Seq<char>>)
    ensures
        joined(ys).len() == 0 || joined(ys).last() == '\n',
{
    reveal_strlit("\n");
    if ys.len() == 0 {
        assert(joined(ys) =~= Seq::<char>::empty());
    }
}

/// `&lt;` is turned back line by line.
proof fn lemma_unescaped_join_last(a: Seq<char>, y: Seq<char>)
    requires
        a.len() == 0 || a.last() == '\n',
    ensures
        lt_unescaped(a + y + "\n"@) == lt_unescaped(a) + lt_unescaped(y) + "\n"@,
{
    reveal_strlit("\n");
    if a.len() == 0 {
        assert(a + y + "\n"@ =~= y + "\n"@ + Seq::<char>::empty());
        lemma_unescaped_break(y, Seq::<char>::empty());
        assert(lt_unescaped(Seq::<char>::empty()) =~= Seq::<char>::empty());
        assert(lt_unescaped(a) =~= Seq::<char>::empty());
        assert(lt_unescaped(a) + lt_unescaped(y) + "\n"@ =~= lt_unescaped(y) + "\n"@
            + lt_unescaped(Seq::<char>::empty()));
    } else {
        let a0 = a.drop_last();
        assert(a =~= a0 + "\n"@ + Seq::<char>::empty());
        assert(a + y + "\n"@ =~= a0 + "\n"@ + (y + "\n"@));
        lemma_unescaped_break(a0, y + "\n"@);
        lemma_unescaped_break(a0, Seq::<char>::empty());
        lemma_unescaped_break(y, Seq::<char>::empty());
        assert(y + "\n"@ =~= y + "\n"@ + Seq::<char>::empty());
        assert(lt_unescaped(Seq::<char>::empty()) =~= Seq::<char>::empty());
        assert(lt_unescaped(a) + lt_unescaped(y) + "\n"@ =~= lt_unescaped(a0) + "\n"@ + (
        lt_unescaped(y) + "\n"@));
    }
}

/// Escaping raw HTML rewrites nothing but `<` into `&lt;`: in markdown
/// that holds no `&lt;`, turning each `&lt;` of its escape back into `<`
/// gives its lines, each ended by a newline.
pub proof fn law_escaping_only_rewrites_lt(markdown: Seq<char>)
    requires
        free_of_lt(markdown),
    ensures
        lt_unescaped(raw_html_escaped(markdown)) == joined(lines(markdown)),
{
    let ls = lines(markdown);
    lemma_lines_free(markdown);
    lemma_escape_joined(ls);
    lemma_unescaped_kept(ls);
}

/// A `<` in prose is escaped where it opens a tag, and only there: in a
/// line of text `before`, `<`, `c` and `after`, with no line break, no
/// backtick and no other `<`, and no tilde before the `<`, the `<` becomes
/// `&lt;` where `c` is an ASCII letter of either case, `/`, `!` or `?`,
/// and stays otherwise; nothing else changes, and the line ends with a
/// newline.
pub proof fn law_a_tag_opening_is_escaped(before: Seq<char>, c: char, after: Seq<char>)
    requires
        c != '\n' && c != '`' && c != '<',
        forall|m: int|
            0 <= m < before.len() ==> #[trigger] before[m] != '\n' && before[m] != '`' && before[m]
                != '<' && before[m] != '~',
        forall|m: int|
            0 <= m < after.len() ==> #[trigger] after[m] != '\n' && after[m] != '`' && after[m]
                != '<',
    ensures
        raw_html_escaped(before + "<"@ + seq![c] + after) == before + (if ('a' <= c <= 'z') || (
        'A' <= c <= 'Z') || c == '/' || c == '!' || c == '?' {
            "&lt;"@
        } else {
            "<"@
        }) + seq![c] + after + "\n"@,
{
    reveal_strlit("<");
    reveal_strlit("&lt;");
    reveal_strlit("\n");
    let m = before + "<"@ + seq![c] + after;
    let n = before.len() as int;
    assert(m[n] == '<');
    assert forall|k: int| 0 <= k < m.len() implies m[k] != '\n' by {
        if k < n {
            assert(m[k] == before[k]);
        } else if k > n + 1 {
            assert(m[k] == after[k - n - 2]);
        }
    }
    lemma_first_of(m, '\n', m.len() as int);
    assert(lines(m) =~= seq![m]);
    let ls = seq![m];
    assert(ls.drop_last() =~= Seq::<Seq<char>>::empty());
    assert(raw_lines(ls) == raw_step(raw_lines(ls.drop_last()), m));
    // The line opens no fence: what leads it after its indentation is a
    // char of `before`, or the `<`.
    lemma_trim_start_len(m);
    let k = choose|k: int|
        0 <= k <= m.len() && trim_start(m) == m.skip(k) && forall|j: int|
            0 <= j < k ==> is_space(#[trigger] m[j]);
    assert(!is_space('<'));
    if k > n {
        assert(is_space(m[n]));
    }
    assert(trim_start(m)[0] == m[k]);
    if k < n {
        assert(m[k] == before[k]);
    }
    assert(fence_opener(m) is None);
    // The text escape passes over `before`, escapes the `<` and passes over
    // the rest.
    let rest = "<"@ + seq![c] + after;
    assert(m =~= before + rest);
    assert forall|j: int| 0 <= j < before.len() implies before[j] != '`' && before[j] != '<' by {}
    lemma_text_prefix(before, rest, seq![]);
    lemma_text_unfold(rest, seq![]);
    assert(rest[1] == c);
    let tag = ('a' <= c <= 'z') || ('A' <= c <= 'Z') || c == '/' || c == '!' || c == '?';
    assert(tag_like(c) == tag);
    assert(escapes_first(rest, seq![]) == tag);
    let tail = seq![c] + after;
    assert(rest.skip(1) =~= tail);
    assert forall|j: int| 0 <= j < tail.len() implies tail[j] != '`' && tail[j] != '<' by {
        if j > 0 {
            assert(tail[j] == after[j - 1]);
        }
    }
    lemma_text_prefix(tail, Seq::<char>::empty(), seq![]);
    assert(tail + Seq::<char>::empty() =~= tail);
    lemma_text_head(Seq::<char>::empty(), seq![]);
    assert(tail + text_line(Seq::<char>::empty(), 0, seq![]) =~= tail);
    if tag {
        assert(raw_html_escaped(m) =~= before + "&lt;"@ + seq![c] + after + "\n"@);
    } else {
        assert(raw_html_escaped(m) =~= before + "<"@ + seq![c] + after + "\n"@);
    }
}

} // verus!
