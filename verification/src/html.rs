//! The export of a session as a standalone HTML document: the escaping
//! of text, the protection of prose that looks like HTML, the grouping
//! of the model's turns into steps and the pieces of markup they make.
//!
//! What depends on the theme and the syntax highlighter (colors, spans)
//! is added by the caller.

use vstd::prelude::*;

use crate::git::{Hunk, Line};
use crate::session::{Call, Item, Reply, Status};
use crate::text::{
    byte_len, chars_of, decimal, extend, lines, push_decimal, push_str, split_lines, string_of,
    trim_start, views,
};
use crate::text::{first_match_from, holds_at};
use crate::tool::edit::{lemma_first_match_from, replace_all, replaced_from};

verus! {

/// The escape of one character for HTML text.
pub open spec fn escaped_char(c: char) -> Seq<char> {
    if c == '&' {
        "&amp;"@
    } else if c == '<' {
        "&lt;"@
    } else if c == '>' {
        "&gt;"@
    } else {
        seq![c]
    }
}

/// `text` escaped for inclusion in HTML: `&`, `<` and `>` spelled as
/// entities.
pub open spec fn escaped(text: Seq<char>) -> Seq<char>
    decreases text.len(),
{
    if text.len() == 0 {
        seq![]
    } else {
        escaped(text.drop_last()) + escaped_char(text.last())
    }
}

/// Appends `text`, escaped for HTML, to `out`.
pub fn push_escaped(out: &mut Vec<char>, text: &Vec<char>)
    ensures
        final(out)@ == old(out)@ + escaped(text@),
{
    let ghost start = out@;
    let mut i: usize = 0;
    while i < text.len()
        invariant
            i <= text.len(),
            out@ == start + escaped(text@.take(i as int)),
        decreases text.len() - i,
    {
        let c = text[i];
        proof {
            let t = text@.take(i + 1);
            assert(t.drop_last() =~= text@.take(i as int));
            assert(t.last() == c);
        }
        let ghost before = out@;
        if c == '&' {
            push_str(out, "&amp;");
        } else if c == '<' {
            push_str(out, "&lt;");
        } else if c == '>' {
            push_str(out, "&gt;");
        } else {
            out.push(c);
            assert(out@ =~= before + seq![c]);
        }
        assert(out@ =~= start + escaped(text@.take(i + 1)));
        i = i + 1;
    }
    assert(text@.take(i as int) =~= text@);
}

/// Escapes `text` for inclusion in HTML.
pub fn escape(text: &str) -> (r: String)
    ensures
        r@ == escaped(text@),
{
    let mut out: Vec<char> = Vec::new();
    push_escaped(&mut out, &chars_of(text));
    assert(out@ =~= escaped(text@));
    string_of(&out)
}

/// `source` with the escaping of body text reversed: `&gt;`, then
/// `&lt;`, then `&amp;` replaced, so that an escaped `&lt;` does not
/// become `<`.
pub open spec fn unescaped(source: Seq<char>) -> Seq<char> {
    replaced_from(
        replaced_from(replaced_from(source, "&gt;"@, ">"@, 0), "&lt;"@, "<"@, 0),
        "&amp;"@,
        "&"@,
        0,
    )
}

/// Reverses the escaping that body text gets: `&`, `<` and `>`.
pub fn unescape(source: &str) -> (r: String)
    ensures
        r@ == unescaped(source@),
{
    let gt = chars_of("&gt;");
    let lt = chars_of("&lt;");
    let amp = chars_of("&amp;");
    proof {
        reveal_strlit("&gt;");
        reveal_strlit("&lt;");
        reveal_strlit("&amp;");
    }
    let a = replace_all(&chars_of(source), &gt, &chars_of(">"));
    let b = replace_all(&a, &lt, &chars_of("<"));
    let c = replace_all(&b, &amp, &chars_of("&"));
    string_of(&c)
}

/// The escape of `c` with only the first `level` of `&`, `<` and `>`
/// spelled as entities: what is left of the escape after the entities
/// above `level` were replaced back.
pub open spec fn partly_escaped_char(c: char, level: int) -> Seq<char> {
    if level >= 1 && c == '&' {
        seq!['&', 'a', 'm', 'p', ';']
    } else if level >= 2 && c == '<' {
        seq!['&', 'l', 't', ';']
    } else if level >= 3 && c == '>' {
        seq!['&', 'g', 't', ';']
    } else {
        seq![c]
    }
}

/// `text` escaped up to `level`, char by char from the left.
pub open spec fn partly_escaped(text: Seq<char>, level: int) -> Seq<char>
    decreases text.len(),
{
    if text.len() == 0 {
        seq![]
    } else {
        partly_escaped_char(text[0], level) + partly_escaped(text.drop_first(), level)
    }
}

/// The char whose entity the unescaping replaces at `level`.
pub open spec fn level_char(level: int) -> char {
    if level == 1 {
        '&'
    } else if level == 2 {
        '<'
    } else {
        '>'
    }
}

proof fn lemma_partly_escaped_concat(a: Seq<char>, b: Seq<char>, level: int)
    ensures
        partly_escaped(a + b, level) == partly_escaped(a, level) + partly_escaped(b, level),
    decreases a.len(),
{
    if a.len() > 0 {
        assert((a + b).drop_first() =~= a.drop_first() + b);
        lemma_partly_escaped_concat(a.drop_first(), b, level);
        assert((a + b)[0] == a[0]);
    } else {
        assert(a + b =~= b);
    }
}

/// The full escape is the escape up to the last level.
proof fn lemma_escaped_is_partly(text: Seq<char>)
    ensures
        escaped(text) == partly_escaped(text, 3),
    decreases text.len(),
{
    if text.len() > 0 {
        let init = text.drop_last();
        lemma_escaped_is_partly(init);
        assert(text =~= init + seq![text.last()]);
        lemma_partly_escaped_concat(init, seq![text.last()], 3);
        assert(seq![text.last()].drop_first() =~= Seq::<char>::empty());
        reveal_strlit("&amp;");
        reveal_strlit("&lt;");
        reveal_strlit("&gt;");
        let c = text.last();
        assert(partly_escaped(seq![c], 3) == partly_escaped_char(c, 3) + partly_escaped(
            Seq::<char>::empty(),
            3,
        ));
        assert(partly_escaped(seq![c], 3) =~= partly_escaped_char(c, 3));
        assert(partly_escaped_char(c, 3) =~= escaped_char(c));
    }
}

/// From a position where `p` does not occur up to `m`, `str::replace`
/// copies the text as it is.
proof fn lemma_replaced_copies(s: Seq<char>, p: Seq<char>, q: Seq<char>, k: int, m: int)
    requires
        p.len() > 0,
        0 <= k <= m <= s.len(),
        forall|j: int| k <= j < m ==> !#[trigger] holds_at(s, j, p),
    ensures
        replaced_from(s, p, q, k) == s.subrange(k, m) + replaced_from(s, p, q, m),
    decreases m - k,
{
    if k < m {
        lemma_replaced_copies(s, p, q, k + 1, m);
        assert(!holds_at(s, k, p));
        assert(first_match_from(s, p, k) == first_match_from(s, p, k + 1));
        lemma_first_match_from(s, p, k + 1);
        match first_match_from(s, p, k + 1) {
            Some(i) => {
                assert(k + 1 <= i && i + p.len() <= s.len());
                let after = replaced_from(s, p, q, i + p.len());
                assert(replaced_from(s, p, q, k + 1) == s.subrange(k + 1, i) + q + after);
                assert(replaced_from(s, p, q, k) == s.subrange(k, i) + q + after);
                assert(s.subrange(k, i) + q + after =~= seq![s[k]] + (s.subrange(k + 1, i) + q
                    + after));
            },
            None => {
                assert(replaced_from(s, p, q, k) == s.skip(k));
                assert(replaced_from(s, p, q, k + 1) == s.skip(k + 1));
                assert(s.skip(k) =~= seq![s[k]] + s.skip(k + 1));
            },
        }
        assert(s.subrange(k, m) =~= seq![s[k]] + s.subrange(k + 1, m));
        assert(s.subrange(k, m) + replaced_from(s, p, q, m) =~= seq![s[k]] + (s.subrange(
            k + 1,
            m,
        ) + replaced_from(s, p, q, m)));
    } else {
        assert(s.subrange(k, m) =~= Seq::<char>::empty());
    }
}

/// Replacing the entity of `level` back in the escape up to `level`
/// gives the escape up to the level below: each entity is one char's,
/// and no match starts inside another's.
proof fn lemma_unescape_level(x: Seq<char>, text: Seq<char>, level: int)
    requires
        1 <= level <= 3,
    ensures
        replaced_from(
            x + partly_escaped(text, level),
            partly_escaped_char(level_char(level), level),
            seq![level_char(level)],
            x.len() as int,
        ) == partly_escaped(text, level - 1),
    decreases text.len(),
{
    let s = x + partly_escaped(text, level);
    let p = partly_escaped_char(level_char(level), level);
    let q = seq![level_char(level)];
    let k = x.len() as int;
    if text.len() == 0 {
        assert(s =~= x);
        assert(!holds_at(s, k, p));
        assert(first_match_from(s, p, k + 1) is None);
        assert(s.skip(k) =~= Seq::<char>::empty());
    } else {
        let c = text[0];
        let rest = text.drop_first();
        let ch = partly_escaped_char(c, level);
        assert(s =~= (x + ch) + partly_escaped(rest, level));
        lemma_unescape_level(x + ch, rest, level);
        if c == level_char(level) {
            assert(s.subrange(k, k + p.len()) =~= p);
            assert(holds_at(s, k, p));
            assert(s.subrange(k, k) =~= Seq::<char>::empty());
            assert(partly_escaped_char(c, level - 1) =~= q);
        } else {
            let m = k + ch.len();
            assert forall|j: int| k <= j < m implies !#[trigger] holds_at(s, j, p) by {
                if holds_at(s, j, p) {
                    assert(s.subrange(j, j + p.len())[0] == p[0]);
                    assert(s[j] == ch[j - k]);
                    if j == k {
                        assert(s.subrange(j, j + p.len())[1] == p[1]);
                        assert(s[j + 1] == ch[1]);
                    }
                }
            }
            lemma_replaced_copies(s, p, q, k, m);
            assert(s.subrange(k, m) =~= ch);
            assert(partly_escaped_char(c, level - 1) =~= ch);
        }
    }
}

/// What `unescape` undoes, `escape` did: the unescape of an escaped text
/// is the text.
pub proof fn law_unescape_reverses_escape(text: Seq<char>)
    ensures
        unescaped(escaped(text)) == text,
{
    reveal_strlit("&amp;");
    reveal_strlit("&lt;");
    reveal_strlit("&gt;");
    reveal_strlit("&");
    reveal_strlit("<");
    reveal_strlit(">");
    lemma_escaped_is_partly(text);
    let e = Seq::<char>::empty();
    lemma_unescape_level(e, text, 3);
    assert(e + partly_escaped(text, 3) =~= partly_escaped(text, 3));
    lemma_unescape_level(e, text, 2);
    assert(e + partly_escaped(text, 2) =~= partly_escaped(text, 2));
    lemma_unescape_level(e, text, 1);
    assert(e + partly_escaped(text, 1) =~= partly_escaped(text, 1));
    assert(partly_escaped_char(level_char(3), 3) =~= "&gt;"@);
    assert(partly_escaped_char(level_char(2), 2) =~= "&lt;"@);
    assert(partly_escaped_char(level_char(1), 1) =~= "&amp;"@);
    assert(seq![level_char(3)] =~= ">"@);
    assert(seq![level_char(2)] =~= "<"@);
    assert(seq![level_char(1)] =~= "&"@);
    lemma_partly_escaped_zero(text);
}

/// The escape up to no level is the text itself.
proof fn lemma_partly_escaped_zero(text: Seq<char>)
    ensures
        partly_escaped(text, 0) == text,
    decreases text.len(),
{
    if text.len() > 0 {
        lemma_partly_escaped_zero(text.drop_first());
        assert(text =~= seq![text[0]] + text.drop_first());
    }
}

/// The plural suffix for a count: nothing for one, `s` otherwise.
pub open spec fn plural_of(count: nat) -> Seq<char> {
    if count == 1 {
        seq![]
    } else {
        "s"@
    }
}

/// The plural suffix for a count: nothing for one, `s` otherwise.
pub fn plural(count: usize) -> (s: &'static str)
    ensures
        s@ == plural_of(count as nat),
{
    proof {
        reveal_strlit("");
    }
    if count == 1 {
        ""
    } else {
        "s"
    }
}

/// How many times each name of `names` occurs, in the order of its
/// first occurrence.
pub open spec fn tool_counts(names: Seq<Seq<char>>) -> Seq<(Seq<char>, nat)>
    decreases names.len(),
{
    if names.len() == 0 {
        seq![]
    } else {
        let counts = tool_counts(names.drop_last());
        let name = names.last();
        match first_count(counts, name) {
            Some(k) => counts.update(k, (name, counts[k].1 + 1)),
            None => counts.push((name, 1)),
        }
    }
}

/// Where `name` is counted in `counts`, if it is.
pub open spec fn first_count(counts: Seq<(Seq<char>, nat)>, name: Seq<char>) -> Option<int>
    decreases counts.len(),
{
    if counts.len() == 0 {
        None
    } else {
        match first_count(counts.drop_last(), name) {
            Some(k) => Some(k),
            None => if counts.last().0 == name {
                Some(counts.len() - 1)
            } else {
                None
            },
        }
    }
}

/// What a step did with the tool `name`, called `count` times.
pub open spec fn tool_phrase(name: Seq<char>, count: nat) -> Seq<char> {
    if name == "bash"@ {
        "ran "@ + decimal(count) + " command"@ + plural_of(count)
    } else if name == "read"@ {
        "read "@ + decimal(count) + " file"@ + plural_of(count)
    } else if name == "write"@ {
        "wrote "@ + decimal(count) + " file"@ + plural_of(count)
    } else if name == "edit"@ {
        "edited "@ + decimal(count) + " file"@ + plural_of(count)
    } else {
        "called "@ + name + " "@ + decimal(count) + " time"@ + plural_of(count)
    }
}

/// `s` with its first character made a capital, where it is a lower-case
/// ASCII letter.
pub open spec fn capitalized(s: Seq<char>) -> Seq<char> {
    if s.len() > 0 && 'a' <= s[0] <= 'z' {
        seq![((s[0] as u8) - 32) as char] + s.drop_first()
    } else {
        s
    }
}

/// The phrases of `counts`, joined by `, `.
pub open spec fn phrases(counts: Seq<(Seq<char>, nat)>) -> Seq<char>
    decreases counts.len(),
{
    if counts.len() == 0 {
        seq![]
    } else if counts.len() == 1 {
        tool_phrase(counts[0].0, counts[0].1)
    } else {
        phrases(counts.drop_last()) + ", "@ + tool_phrase(counts.last().0, counts.last().1)
    }
}

/// A summary of the tools called in a step, such as "Ran 3 commands,
/// edited 4 files": each tool counted, in the order of its first call.
pub open spec fn tools_summary(names: Seq<Seq<char>>) -> Seq<char> {
    capitalized(phrases(tool_counts(names)))
}

/// The phrase of one tool's count.
fn phrase(name: &Vec<char>, count: usize) -> (p: Vec<char>)
    ensures
        p@ == tool_phrase(name@, count as nat),
{
    let mut p: Vec<char> = Vec::new();
    let bash = chars_of("bash");
    let read = chars_of("read");
    let write = chars_of("write");
    let edit = chars_of("edit");
    if crate::text::same_chars(name, &bash) {
        push_str(&mut p, "ran ");
        push_decimal(&mut p, count as u64);
        push_str(&mut p, " command");
    } else if crate::text::same_chars(name, &read) {
        push_str(&mut p, "read ");
        push_decimal(&mut p, count as u64);
        push_str(&mut p, " file");
    } else if crate::text::same_chars(name, &write) {
        push_str(&mut p, "wrote ");
        push_decimal(&mut p, count as u64);
        push_str(&mut p, " file");
    } else if crate::text::same_chars(name, &edit) {
        push_str(&mut p, "edited ");
        push_decimal(&mut p, count as u64);
        push_str(&mut p, " file");
    } else {
        push_str(&mut p, "called ");
        extend(&mut p, name);
        push_str(&mut p, " ");
        push_decimal(&mut p, count as u64);
        push_str(&mut p, " time");
    }
    push_str(&mut p, plural(count));
    p
}

/// A summary of the tools called in a step, such as "Ran 3 commands,
/// edited 4 files", counting each tool in the order of its first call.
pub fn summarize_tools(names: &Vec<String>) -> (s: String)
    ensures
        s@ == tools_summary(names@.map_values(|n: String| n@)),
{
    let ghost all = names@.map_values(|n: String| n@);
    let mut counts: Vec<(Vec<char>, usize)> = Vec::new();
    let mut i: usize = 0;
    while i < names.len()
        invariant
            i <= names.len(),
            all == names@.map_values(|n: String| n@),
            counts@.map_values(|e: (Vec<char>, usize)| (e.0@, e.1 as nat)) == tool_counts(
                all.take(i as int),
            ),
            forall|k: int| 0 <= k < counts.len() ==> #[trigger] counts@[k].1 <= i,
        decreases names.len() - i,
    {
        let name = chars_of(names[i].as_str());
        let ghost view = counts@.map_values(|e: (Vec<char>, usize)| (e.0@, e.1 as nat));
        proof {
            let t = all.take(i + 1);
            assert(t.drop_last() =~= all.take(i as int));
            assert(t.last() == name@);
        }
        let mut k: usize = 0;
        let mut found = false;
        while k < counts.len()
            invariant_except_break
                !found,
            invariant
                k <= counts.len(),
                view == counts@.map_values(|e: (Vec<char>, usize)| (e.0@, e.1 as nat)),
                first_count(view.take(k as int), name@) is None,
            ensures
                found ==> k < counts.len() && view[k as int].0 == name@,
                !found ==> k == counts.len(),
            decreases counts.len() - k,
        {
            proof {
                let t = view.take(k + 1);
                assert(t.drop_last() =~= view.take(k as int));
                assert(t.last() == view[k as int]);
            }
            if crate::text::same_chars(&counts[k].0, &name) {
                found = true;
                assert(view[k as int].0 == counts@[k as int].0@);
                break;
            }
            k = k + 1;
        }
        proof {
            assert(view.take(view.len() as int) =~= view);
        }
        if found {
            proof {
                lemma_first_count_at(view, name@, k as int);
            }
            let n = counts[k].1;
            let key = crate::text::slice_of(&counts[k].0, 0, counts[k].0.len());
            assert(key@ =~= counts@[k as int].0@);
            counts.set(k, (key, n + 1));
            proof {
                assert(counts@.map_values(|e: (Vec<char>, usize)| (e.0@, e.1 as nat)) =~= view.update(
                    k as int,
                    (name@, view[k as int].1 + 1),
                ));
            }
        } else {
            let ghost before = counts@;
            counts.push((name, 1));
            assert(counts@.map_values(|e: (Vec<char>, usize)| (e.0@, e.1 as nat)) =~= view.push(
                (name@, 1),
            ));
        }
        i = i + 1;
    }
    assert(all.take(i as int) =~= all);
    let ghost cs = counts@.map_values(|e: (Vec<char>, usize)| (e.0@, e.1 as nat));
    let mut out: Vec<char> = Vec::new();
    let mut j: usize = 0;
    while j < counts.len()
        invariant
            j <= counts.len(),
            cs == counts@.map_values(|e: (Vec<char>, usize)| (e.0@, e.1 as nat)),
            out@ == phrases(cs.take(j as int)),
        decreases counts.len() - j,
    {
        let p = phrase(&counts[j].0, counts[j].1);
        proof {
            let t = cs.take(j + 1);
            assert(t.drop_last() =~= cs.take(j as int));
            assert(t.last() == cs[j as int]);
        }
        if j > 0 {
            push_str(&mut out, ", ");
        } else {
            assert(cs.take(1) =~= seq![cs[0]]);
        }
        extend(&mut out, &p);
        j = j + 1;
    }
    assert(cs.take(j as int) =~= cs);
    if out.len() > 0 && 'a' <= out[0] && out[0] <= 'z' {
        let first = ((out[0] as u8) - 32) as char;
        let mut r: Vec<char> = Vec::new();
        r.push(first);
        let rest = crate::text::slice_of(&out, 1, out.len());
        extend(&mut r, &rest);
        assert(r@ =~= seq![first] + out@.drop_first());
        string_of(&r)
    } else {
        string_of(&out)
    }
}

proof fn lemma_first_count_at(counts: Seq<(Seq<char>, nat)>, name: Seq<char>, k: int)
    requires
        0 <= k < counts.len(),
        counts[k].0 == name,
        first_count(counts.take(k), name) is None,
    ensures
        first_count(counts, name) == Some(k),
    decreases counts.len() - k,
{
    if k < counts.len() - 1 {
        assert(counts.drop_last().take(k) =~= counts.take(k));
        lemma_first_count_at(counts.drop_last(), name, k);
    } else {
        assert(counts.drop_last() =~= counts.take(k));
    }
}

/// A row of a diff: its class, its sign, its numbers on either side and
/// its text.
pub open spec fn row_html(
    class: Seq<char>,
    sign: Seq<char>,
    old: Option<usize>,
    new: Option<usize>,
    text: Seq<char>,
) -> Seq<char> {
    "<div class=\"diff-line "@ + class + "\"><span class=\"gutter\">"@ + number_text(old)
        + "</span><span class=\"gutter\">"@ + number_text(new)
        + "</span><span class=\"sign\">"@ + sign + "</span><span class=\"text\">"@ + escaped(
        text,
    ) + "</span></div>"@
}

/// A line number, or nothing.
pub open spec fn number_text(n: Option<usize>) -> Seq<char> {
    match n {
        Some(k) => decimal(k as nat),
        None => seq![],
    }
}

/// A row of a diff.
pub fn row(class: &str, sign: &str, old: Option<usize>, new: Option<usize>, text: &str) -> (r:
    String)
    ensures
        r@ == row_html(class@, sign@, old, new, text@),
{
    let mut out: Vec<char> = Vec::new();
    push_str(&mut out, "<div class=\"diff-line ");
    push_str(&mut out, class);
    push_str(&mut out, "\"><span class=\"gutter\">");
    match old {
        Some(k) => push_decimal(&mut out, k as u64),
        None => {},
    }
    push_str(&mut out, "</span><span class=\"gutter\">");
    match new {
        Some(k) => push_decimal(&mut out, k as u64),
        None => {},
    }
    push_str(&mut out, "</span><span class=\"sign\">");
    push_str(&mut out, sign);
    push_str(&mut out, "</span><span class=\"text\">");
    push_escaped(&mut out, &chars_of(text));
    push_str(&mut out, "</span></div>");
    proof {
        assert(out@ =~= row_html(class@, sign@, old, new, text@));
    }
    string_of(&out)
}

/// The row of one line of a hunk.
pub open spec fn line_row(line: crate::git::LineView) -> Seq<char> {
    match line {
        crate::git::LineView::Context { old, new, text } => row_html(
            "context"@,
            seq![],
            Some(old),
            Some(new),
            text,
        ),
        crate::git::LineView::Added { new, text } => row_html(
            "added"@,
            "+"@,
            None,
            Some(new),
            text,
        ),
        crate::git::LineView::Deleted { old, text } => row_html(
            "deleted"@,
            "-"@,
            Some(old),
            None,
            text,
        ),
    }
}

/// The rows of the lines `ls`.
pub open spec fn rows_html(ls: Seq<crate::git::LineView>) -> Seq<char>
    decreases ls.len(),
{
    if ls.len() == 0 {
        seq![]
    } else {
        rows_html(ls.drop_last()) + line_row(ls.last())
    }
}

/// The lines of a hunk as diff rows.
pub fn hunk(h: &Hunk) -> (r: String)
    ensures
        r@ == rows_html(h@.lines),
{
    let mut out: Vec<char> = Vec::new();
    let mut i: usize = 0;
    proof {
        reveal_strlit("");
    }
    while i < h.lines.len()
        invariant
            i <= h.lines.len(),
            out@ == rows_html(h@.lines.take(i as int)),
        decreases h.lines.len() - i,
    {
        proof {
            let t = h@.lines.take(i + 1);
            assert(t.drop_last() =~= h@.lines.take(i as int));
            assert(t.last() == h.lines@[i as int]@);
        }
        let r = match &h.lines[i] {
            Line::Context { old, new, text } => {
                let r = row("context", "", Some(*old), Some(*new), text.as_str());
                proof {
                    reveal_strlit("");
                }
                assert(r@ == line_row(h.lines@[i as int]@));
                r
            },
            Line::Added { new, text } => {
                let r = row("added", "+", None, Some(*new), text.as_str());
                assert(r@ == line_row(h.lines@[i as int]@));
                r
            },
            Line::Deleted { old, text } => {
                let r = row("deleted", "-", Some(*old), None, text.as_str());
                assert(r@ == line_row(h.lines@[i as int]@));
                r
            },
        };
        extend(&mut out, &chars_of(r.as_str()));
        i = i + 1;
    }
    assert(h@.lines.take(i as int) =~= h@.lines);
    string_of(&out)
}

/// Whether `c` may follow the `<` that opens a raw HTML tag: a letter,
/// or `/`, `!` or `?`.
pub open spec fn tag_like(c: char) -> bool {
    ('a' <= c <= 'z') || ('A' <= c <= 'Z') || c == '/' || c == '!' || c == '?'
}

/// How many of the first characters of `t` are `c`.
pub open spec fn leading_run(t: Seq<char>, c: char) -> nat
    decreases t.len(),
{
    if t.len() > 0 && t[0] == c {
        1 + leading_run(t.drop_first(), c)
    } else {
        0
    }
}

/// The fence that `line` opens, if it opens one: a run of at least three
/// backticks or tildes at its start, behind at most three bytes of
/// indentation; its character and its length.
pub open spec fn fence_opener(line: Seq<char>) -> Option<(char, nat)> {
    let t = trim_start(line);
    let indented = line.len() > 0 && line[0] == ' ' && byte_len(line) - byte_len(t) > 3;
    if !indented && t.len() > 0 && (t[0] == '`' || t[0] == '~') && leading_run(t, t[0]) >= 3 {
        Some((t[0], leading_run(t, t[0])))
    } else {
        None
    }
}

/// Whether `line` closes a fence of `len` characters `c`: it holds only
/// that character, at least as many times, after its indentation.
pub open spec fn fence_closes(line: Seq<char>, c: char, len: nat) -> bool {
    let t = trim_start(line);
    t.len() >= len && forall|i: int| 0 <= i < t.len() ==> t[i] == c
}

/// Where `run` is among the open code spans `code`, if it is.
pub open spec fn open_span(code: Seq<nat>, run: nat) -> Option<int>
    decreases code.len(),
{
    if code.len() == 0 {
        None
    } else if code[0] == run {
        Some(0)
    } else {
        match open_span(code.drop_first(), run) {
            Some(k) => Some(k + 1),
            None => None,
        }
    }
}

/// The open code spans after a run of `run` backticks: it closes the span
/// that a run as long opened, or opens one.
pub open spec fn toggled(code: Seq<nat>, run: nat) -> Seq<nat> {
    match open_span(code, run) {
        Some(k) => if 0 <= k < code.len() {
            code.remove(k)
        } else {
            code
        },
        None => code.push(run),
    }
}

/// `run` backticks.
pub open spec fn backticks(run: nat) -> Seq<char> {
    Seq::new(run, |i: int| '`')
}

/// The text of `line` from `i` on, with the open code spans `code`:
/// backtick runs open and close code spans, and outside them a `<` that
/// would open a tag is escaped.
pub open spec fn text_line(line: Seq<char>, i: int, code: Seq<nat>) -> Seq<char>
    decreases line.len() - i,
{
    if i < 0 || i >= line.len() {
        seq![]
    } else if line[i] == '`' {
        let run = leading_run(line.skip(i), '`');
        if run > 0 && i + run <= line.len() {
            backticks(run) + text_line(line, i + run, toggled(code, run))
        } else {
            seq![]
        }
    } else if code.len() == 0 && line[i] == '<' && i + 1 < line.len() && tag_like(line[i + 1]) {
        "&lt;"@ + text_line(line, i + 1, code)
    } else {
        seq![line[i]] + text_line(line, i + 1, code)
    }
}

/// The escaped markdown so far, and the fence it is in, if any.
pub open spec fn raw_step(state: (Seq<char>, Option<(char, nat)>), line: Seq<char>) -> (
    Seq<char>,
    Option<(char, nat)>,
) {
    let (out, fence) = state;
    match fence {
        Some((c, len)) => (
            out + line + "\n"@,
            if fence_closes(line, c, len) {
                None
            } else {
                fence
            },
        ),
        None => match fence_opener(line) {
            Some(opened) => (out + line + "\n"@, Some(opened)),
            None => (out + text_line(line, 0, seq![]) + "\n"@, None),
        },
    }
}

/// The lines `ls`, escaped one by one.
pub open spec fn raw_lines(ls: Seq<Seq<char>>) -> (Seq<char>, Option<(char, nat)>)
    decreases ls.len(),
{
    if ls.len() == 0 {
        (seq![], None)
    } else {
        raw_step(raw_lines(ls.drop_last()), ls.last())
    }
}

/// `markdown` with the `<` of would-be raw HTML tags in its text
/// escaped, so that prose like `Range<usize>` renders literally; code
/// regions, fenced blocks and inline code spans, are left as they are.
/// Each line ends with a newline.
pub open spec fn raw_html_escaped(markdown: Seq<char>) -> Seq<char> {
    raw_lines(lines(markdown)).0
}

/// The length of the run of `c` in `s` from `i`.
fn run_at(s: &Vec<char>, i: usize, c: char) -> (n: usize)
    requires
        i <= s.len(),
    ensures
        n == leading_run(s@.skip(i as int), c),
        i + n <= s.len(),
{
    let mut j = i;
    while j < s.len() && s[j] == c
        invariant
            i <= j <= s.len(),
            leading_run(s@.skip(i as int), c) == (j - i) + leading_run(s@.skip(j as int), c),
        decreases s.len() - j,
    {
        proof {
            let t = s@.skip(j as int);
            assert(t[0] == s@[j as int]);
            assert(t.drop_first() =~= s@.skip(j + 1));
        }
        j = j + 1;
    }
    proof {
        if j < s.len() {
            assert(s@.skip(j as int)[0] == s@[j as int]);
        }
    }
    j - i
}

/// Where `run` is among the open code spans.
fn find_span(code: &Vec<usize>, run: usize) -> (r: Option<usize>)
    ensures
        match r {
            Some(k) => open_span(code@.map_values(|n: usize| n as nat), run as nat) == Some(
                k as int,
            ) && k < code.len(),
            None => open_span(code@.map_values(|n: usize| n as nat), run as nat) is None,
        },
{
    let ghost view = code@.map_values(|n: usize| n as nat);
    let mut k: usize = 0;
    assert(view.skip(0) =~= view);
    while k < code.len()
        invariant
            k <= code.len(),
            view == code@.map_values(|n: usize| n as nat),
            open_span(view, run as nat) == match open_span(view.skip(k as int), run as nat) {
                Some(m) => Some(m + k),
                None => None::<int>,
            },
        decreases code.len() - k,
    {
        proof {
            let t = view.skip(k as int);
            assert(t[0] == code@[k as int] as nat);
            assert(t.drop_first() =~= view.skip(k + 1));
        }
        if code[k] == run {
            return Some(k);
        }
        k = k + 1;
    }
    assert(view.skip(k as int) =~= seq![]);
    None
}

/// Appends the text of `line`, its would-be tags escaped outside code
/// spans.
fn push_text_line(out: &mut Vec<char>, line: &Vec<char>)
    ensures
        final(out)@ == old(out)@ + text_line(line@, 0, seq![]),
{
    let ghost start = out@;
    let mut code: Vec<usize> = Vec::new();
    let mut i: usize = 0;
    assert(code@.map_values(|n: usize| n as nat) =~= seq![]);
    while i < line.len()
        invariant
            i <= line.len(),
            start + text_line(line@, 0, seq![]) == out@ + text_line(
                line@,
                i as int,
                code@.map_values(|n: usize| n as nat),
            ),
            forall|k: int| 0 <= k < code.len() ==> #[trigger] code@[k] <= line.len(),
        decreases line.len() - i,
    {
        let ghost cv = code@.map_values(|n: usize| n as nat);
        let c = line[i];
        if c == '`' {
            let run = run_at(line, i, '`');
            proof {
                assert(line@.skip(i as int)[0] == c);
            }
            let ghost before = out@;
            let mut m: usize = 0;
            while m < run
                invariant
                    m <= run,
                    out@ == before + backticks(m as nat),
                decreases run - m,
            {
                out.push('`');
                assert(backticks((m + 1) as nat) =~= backticks(m as nat).push('`'));
                m = m + 1;
            }
            match find_span(&code, run) {
                Some(k) => {
                    code.remove(k);
                    assert(code@.map_values(|n: usize| n as nat) =~= cv.remove(k as int));
                },
                None => {
                    code.push(run);
                    assert(code@.map_values(|n: usize| n as nat) =~= cv.push(run as nat));
                },
            }
            assert(out@ + text_line(line@, i + run, toggled(cv, run as nat)) =~= before + (
            backticks(run as nat) + text_line(line@, i + run, toggled(cv, run as nat))));
            i = i + run;
        } else if code.len() == 0 && c == '<' && i + 1 < line.len() && {
            let d = line[i + 1];
            ('a' <= d && d <= 'z') || ('A' <= d && d <= 'Z') || d == '/' || d == '!' || d == '?'
        } {
            let ghost before = out@;
            push_str(out, "&lt;");
            assert(cv =~= seq![]);
            assert(out@ + text_line(line@, i + 1, cv) =~= before + ("&lt;"@ + text_line(
                line@,
                i + 1,
                cv,
            )));
            i = i + 1;
        } else {
            let ghost before = out@;
            out.push(c);
            assert(out@ + text_line(line@, i + 1, cv) =~= before + (seq![c] + text_line(
                line@,
                i + 1,
                cv,
            )));
            i = i + 1;
        }
    }
}

/// Whether the first `n` characters of `s` take more than `limit` bytes.
fn prefix_exceeds(s: &Vec<char>, n: usize, limit: usize) -> (b: bool)
    requires
        n <= s.len(),
        limit <= 64,
    ensures
        b == (byte_len(s@.take(n as int)) > limit),
{
    let mut b: usize = 0;
    let mut i: usize = 0;
    assert(s@.take(0) =~= seq![]);
    while i < n
        invariant
            i <= n <= s.len(),
            limit <= 64,
            b == byte_len(s@.take(i as int)),
            b <= limit,
        decreases n - i,
    {
        proof {
            crate::text::lemma_byte_len_take(s@, i as int);
        }
        b = b + crate::text::utf8_width(s[i]);
        i = i + 1;
        if b > limit {
            proof {
                lemma_byte_len_prefix_grows(s@, i as int, n as int);
            }
            return true;
        }
    }
    false
}

proof fn lemma_byte_len_prefix_grows(s: Seq<char>, i: int, n: int)
    requires
        0 <= i <= n <= s.len(),
    ensures
        byte_len(s.take(i)) <= byte_len(s.take(n)),
    decreases n - i,
{
    if i < n {
        crate::text::lemma_byte_len_take(s, i);
        lemma_byte_len_prefix_grows(s, i + 1, n);
    }
}

/// The fence that `line` opens, if it opens one.
fn opened_fence(line: &Vec<char>) -> (r: Option<(char, usize)>)
    ensures
        match r {
            Some((c, n)) => fence_opener(line@) == Some((c, n as nat)),
            None => fence_opener(line@) is None,
        },
{
    let (start, _) = crate::text::trim_bounds(line);
    let ghost t = line@.skip(start as int);
    let deep = prefix_exceeds(line, start, 3);
    proof {
        assert(line@ =~= line@.take(start as int) + t);
        crate::text::lemma_byte_len_concat(line@.take(start as int), t);
    }
    let indented = line.len() > 0 && line[0] == ' ' && deep;
    if indented || start >= line.len() {
        return None;
    }
    let c = line[start];
    proof {
        assert(t[0] == c);
    }
    if c != '`' && c != '~' {
        return None;
    }
    let n = run_at(line, start, c);
    if n >= 3 {
        Some((c, n))
    } else {
        None
    }
}

/// Whether `line` closes a fence of `len` characters `c`.
fn closes_fence(line: &Vec<char>, c: char, len: usize) -> (b: bool)
    ensures
        b == fence_closes(line@, c, len as nat),
{
    let (start, _) = crate::text::trim_bounds(line);
    let ghost t = line@.skip(start as int);
    assert(t.len() == line.len() - start);
    if line.len() - start < len {
        return false;
    }
    let mut i = start;
    while i < line.len()
        invariant
            start <= i <= line.len(),
            t == line@.skip(start as int),
            t == trim_start(line@),
            len <= t.len(),
            forall|k: int| 0 <= k < i - start ==> t[k] == c,
        decreases line.len() - i,
    {
        if line[i] != c {
            assert(t[i - start] != c);
            return false;
        }
        assert(t[i - start] == line@[i as int]);
        i = i + 1;
    }
    true
}

/// Escapes the `<` of would-be raw HTML tags in the text of `markdown`,
/// so that prose like `Range<usize>` renders literally instead of
/// becoming a tag. Code regions, fenced blocks and inline code spans,
/// are left untouched, as the markdown renderer escapes them itself.
pub fn escape_raw_html(markdown: &str) -> (r: String)
    ensures
        r@ == raw_html_escaped(markdown@),
{
    let ls = split_lines(&chars_of(markdown));
    let mut out: Vec<char> = Vec::new();
    let mut fence: Option<(char, usize)> = None;
    let mut i: usize = 0;
    while i < ls.len()
        invariant
            i <= ls.len(),
            views(ls@) == lines(markdown@),
            raw_lines(views(ls@).take(i as int)) == (out@, match fence {
                Some((c, n)) => Some((c, n as nat)),
                None => None::<(char, nat)>,
            }),
        decreases ls.len() - i,
    {
        let line = &ls[i];
        proof {
            let t = views(ls@).take(i + 1);
            assert(t.drop_last() =~= views(ls@).take(i as int));
            assert(t.last() == line@);
        }
        let ghost before = out@;
        match fence {
            Some((c, n)) => {
                extend(&mut out, line);
                out.push('\n');
                if closes_fence(line, c, n) {
                    fence = None;
                }
                assert(out@ =~= before + line@ + "\n"@) by {
                    reveal_strlit("\n");
                }
            },
            None => {
                match opened_fence(line) {
                    Some(f) => {
                        extend(&mut out, line);
                        out.push('\n');
                        fence = Some(f);
                        assert(out@ =~= before + line@ + "\n"@) by {
                            reveal_strlit("\n");
                        }
                    },
                    None => {
                        push_text_line(&mut out, line);
                        let ghost mid = out@;
                        out.push('\n');
                        assert(out@ =~= mid + "\n"@) by {
                            reveal_strlit("\n");
                        }
                    },
                }
            },
        }
        i = i + 1;
    }
    assert(views(ls@).take(i as int) =~= views(ls@));
    string_of(&out)
}

/// What `serde_json` reads in `text` at `key`: nothing where `text` is
/// no JSON; where it is, the string at `key` of the object it holds, if
/// there is one.
pub uninterp spec fn json_string_field(text: Seq<char>, key: Seq<char>) -> Option<
    Option<Seq<char>>,
>;

/// The string at `key` of the JSON object `text` holds: parses `text`
/// with `serde_json::from_str` as a `serde_json::Value` and looks up
/// `key` with `Value::get` and `Value::as_str`; claims that the result
/// is `json_string_field` of the text and the key.
#[verifier::external_body]
fn string_field(text: &str, key: &str) -> (r: Option<Option<String>>)
    ensures
        match r {
            Some(field) => json_string_field(text@, key@) == Some(crate::git::text_view(field)),
            None => json_string_field(text@, key@) is None,
        },
{
    match serde_json::from_str::<serde_json::Value>(text) {
        Ok(value) => Some(value.get(key).and_then(|field| field.as_str()).map(str::to_owned)),
        Err(_) => None,
    }
}

/// The title of a call whose arguments are `arguments`, when they carry
/// one: a `title` with more than white space, or a `path`, or the first
/// line of a `command`.
pub open spec fn title_in(arguments: Seq<char>) -> Option<Seq<char>> {
    match json_string_field(arguments, "title"@) {
        None => None,
        Some(title) => {
            let named = match title {
                Some(t) => if crate::text::trim(t).len() > 0 {
                    Some(crate::text::trim(t))
                } else {
                    None
                },
                None => None,
            };
            match named {
                Some(t) => Some(t),
                None => match json_string_field(arguments, "path"@) {
                    Some(Some(p)) => Some(p),
                    _ => match json_string_field(arguments, "command"@) {
                        Some(Some(c)) => if lines(c).len() > 0 {
                            Some(lines(c)[0])
                        } else {
                            None
                        },
                        _ => None,
                    },
                },
            }
        },
    }
}

/// The title of a tool call, when its arguments carry one.
pub fn title_of(call: &Call) -> (r: Option<String>)
    ensures
        crate::git::text_view(r) == title_in(call.arguments@),
{
    let arguments = call.arguments.as_str();
    let title = match string_field(arguments, "title") {
        None => return None,
        Some(t) => t,
    };
    match title {
        Some(t) => {
            let trimmed = crate::text::trimmed(&chars_of(t.as_str()));
            if trimmed.len() > 0 {
                return Some(string_of(&trimmed));
            }
        },
        None => {},
    }
    match string_field(arguments, "path") {
        Some(Some(p)) => return Some(p),
        _ => {},
    }
    match string_field(arguments, "command") {
        Some(Some(c)) => {
            let ls = split_lines(&chars_of(c.as_str()));
            if ls.len() > 0 {
                assert(views(ls@)[0] == ls@[0]@);
                Some(string_of(&ls[0]))
            } else {
                None
            }
        },
        _ => None,
    }
}

/// One turn of a step: the index of its reply, and the tool runs that
/// follow it, from `start` to `end`.
#[derive(Debug, Clone, Copy, PartialEq, Eq, Structural)]
pub struct Turn {
    pub reply: usize,
    pub start: usize,
    pub end: usize,
}

/// What the document shows, in order: an item on its own, the message of
/// a turn before the step it introduces, or a step of merged turns.
#[derive(Debug, Clone)]
pub enum Block {
    Item(usize),
    Message(usize),
    Step(Vec<Turn>),
}

/// A block, its turns by their sequence.
pub enum BlockView {
    Item(usize),
    Message(usize),
    Step(Seq<Turn>),
}

impl View for Block {
    type V = BlockView;

    open spec fn view(&self) -> BlockView {
        match self {
            Block::Item(i) => BlockView::Item(*i),
            Block::Message(i) => BlockView::Message(*i),
            Block::Step(turns) => BlockView::Step(turns@),
        }
    }
}

/// Whether `item` is a reply that calls tools.
pub open spec fn calls_tools(item: Item) -> bool {
    item matches Item::Assistant(reply) && reply.tool_calls.len() > 0
}

/// Whether `item` is a reply that calls tools and says nothing: it folds
/// into the step before it.
pub open spec fn folds(item: Item) -> bool {
    item matches Item::Assistant(reply) && reply.tool_calls.len() > 0 && reply.content@.len() == 0
}

/// The first index from `k` on that is no tool run.
pub open spec fn tools_end(items: Seq<Item>, k: int) -> int
    decreases items.len() - k,
{
    if 0 <= k < items.len() && items[k] is Tool {
        tools_end(items, k + 1)
    } else {
        k
    }
}

/// The turns of the step that starts with the reply at `j`: the reply
/// and its tool runs, then each message-less reply that calls tools and
/// follows, with its own.
pub open spec fn turns_from(items: Seq<Item>, j: int) -> Seq<Turn>
    decreases items.len() - j,
{
    let end = tools_end(items, j + 1);
    let turn = Turn { reply: j as usize, start: (j + 1) as usize, end: end as usize };
    if j < end < items.len() && folds(items[end]) {
        seq![turn] + turns_from(items, end)
    } else {
        seq![turn]
    }
}

/// The blocks that show the items from `i` on.
pub open spec fn blocks_from(items: Seq<Item>, i: int) -> Seq<BlockView>
    decreases items.len() - i,
{
    if i < 0 || i >= items.len() {
        seq![]
    } else if calls_tools(items[i]) {
        let turns = turns_from(items, i);
        let next = turns.last().end as int;
        let message = match items[i] {
            Item::Assistant(reply) => if reply.content@.len() > 0 {
                seq![BlockView::Message(i as usize)]
            } else {
                seq![]
            },
            _ => seq![],
        };
        if i < next <= items.len() {
            message + seq![BlockView::Step(turns)] + blocks_from(items, next)
        } else {
            seq![]
        }
    } else {
        seq![BlockView::Item(i as usize)] + blocks_from(items, i + 1)
    }
}

proof fn lemma_tools_end(items: Seq<Item>, k: int)
    requires
        0 <= k <= items.len(),
    ensures
        k <= tools_end(items, k) <= items.len(),
        forall|m: int| k <= m < tools_end(items, k) ==> #[trigger] items[m] is Tool,
        tools_end(items, k) < items.len() ==> !(items[tools_end(items, k)] is Tool),
    decreases items.len() - k,
{
    if k < items.len() && items[k] is Tool {
        lemma_tools_end(items, k + 1);
    }
}

proof fn lemma_turns_from(items: Seq<Item>, j: int)
    requires
        0 <= j < items.len(),
        items.len() <= usize::MAX,
    ensures
        turns_from(items, j).len() >= 1,
        turns_from(items, j)[0].reply == j,
        j < turns_from(items, j).last().end <= items.len(),
    decreases items.len() - j,
{
    lemma_tools_end(items, j + 1);
    let end = tools_end(items, j + 1);
    if j < end < items.len() && folds(items[end]) {
        lemma_turns_from(items, end);
        let rest = turns_from(items, end);
        let turn = Turn { reply: j as usize, start: (j + 1) as usize, end: end as usize };
        assert((seq![turn] + rest).last() == rest.last());
    }
}

/// The first index from `k` on that is no tool run.
fn tools_end_at(items: &Vec<Item>, k: usize) -> (e: usize)
    requires
        k <= items.len(),
    ensures
        e == tools_end(items@, k as int),
        k <= e <= items.len(),
{
    proof {
        lemma_tools_end(items@, k as int);
    }
    let mut e = k;
    while e < items.len() && matches!(items[e], Item::Tool(_))
        invariant
            k <= e <= items.len(),
            tools_end(items@, k as int) == tools_end(items@, e as int),
        decreases items.len() - e,
    {
        e = e + 1;
    }
    e
}

/// Whether `item` folds into the step before it.
fn folds_in(item: &Item) -> (b: bool)
    ensures
        b == folds(*item),
{
    match item {
        Item::Assistant(reply) => reply.tool_calls.len() > 0 && reply.content.as_str().is_empty(),
        _ => false,
    }
}

/// The turns of the step that starts with the reply at `j`.
fn step_turns(items: &Vec<Item>, j: usize) -> (r: Vec<Turn>)
    requires
        j < items.len(),
    ensures
        r@ == turns_from(items@, j as int),
{
    let mut r: Vec<Turn> = Vec::new();
    let mut k = j;
    loop
        invariant
            j <= k < items.len(),
            r@ + turns_from(items@, k as int) == turns_from(items@, j as int),
        decreases items.len() - k,
    {
        let end = tools_end_at(items, k + 1);
        let turn = Turn { reply: k, start: k + 1, end };
        let ghost before = r@;
        r.push(turn);
        if end < items.len() && folds_in(&items[end]) {
            assert(r@ + turns_from(items@, end as int) =~= before + (seq![turn] + turns_from(
                items@,
                end as int,
            )));
            k = end;
        } else {
            assert(r@ =~= before + seq![turn]);
            return r;
        }
    }
}

/// The blocks that show `items`, in order: each reply that calls tools
/// starts a step, into which the message-less replies that call tools
/// after it fold, its message, if it has one, shown before it; every
/// other item stands on its own.
pub fn blocks(items: &Vec<Item>) -> (r: Vec<Block>)
    ensures
        r@.map_values(|b: Block| b@) == blocks_from(items@, 0),
{
    let mut r: Vec<Block> = Vec::new();
    let mut i: usize = 0;
    while i < items.len()
        invariant
            i <= items.len(),
            r@.map_values(|b: Block| b@) + blocks_from(items@, i as int) == blocks_from(items@, 0),
        decreases items.len() - i,
    {
        let ghost before = r@.map_values(|b: Block| b@);
        let starts = match &items[i] {
            Item::Assistant(reply) => reply.tool_calls.len() > 0,
            _ => false,
        };
        if starts {
            proof {
                assert(items@.len() == items.len());
                lemma_turns_from(items@, i as int);
            }
            let turns = step_turns(items, i);
            let next = turns[turns.len() - 1].end;
            let has_message = match &items[i] {
                Item::Assistant(reply) => !reply.content.as_str().is_empty(),
                _ => false,
            };
            if has_message {
                r.push(Block::Message(i));
            }
            let ghost mid = r@.map_values(|b: Block| b@);
            let ghost step = BlockView::Step(turns@);
            r.push(Block::Step(turns));
            proof {
                assert(r@.map_values(|b: Block| b@) =~= mid.push(step));
                if has_message {
                    assert(mid =~= before.push(BlockView::Message(i as usize)));
                } else {
                    assert(mid =~= before);
                }
                assert(r@.map_values(|b: Block| b@) + blocks_from(items@, next as int) =~= before
                    + blocks_from(items@, i as int));
            }
            i = next;
        } else {
            r.push(Block::Item(i));
            proof {
                assert(r@.map_values(|b: Block| b@) =~= before.push(BlockView::Item(i as usize)));
                assert(r@.map_values(|b: Block| b@) + blocks_from(items@, i + 1) =~= before
                    + blocks_from(items@, i as int));
            }
            i = i + 1;
        }
    }
    proof {
        assert(blocks_from(items@, i as int) =~= seq![]);
        assert(r@.map_values(|b: Block| b@) + seq![] =~= r@.map_values(|b: Block| b@));
    }
    r
}

/// The indices from `a` up to `b`.
pub open spec fn index_range(a: int, b: int) -> Seq<int> {
    Seq::new((if b > a {
        b - a
    } else {
        0
    }) as nat, |k: int| a + k)
}

/// The items a step's turns show: each reply and its tool runs.
pub open spec fn turn_items(turns: Seq<Turn>) -> Seq<int>
    decreases turns.len(),
{
    if turns.len() == 0 {
        seq![]
    } else {
        seq![turns[0].reply as int] + index_range(turns[0].start as int, turns[0].end as int)
            + turn_items(turns.drop_first())
    }
}

/// The items that the blocks `bs` show, in order: a message shows part
/// of the reply its step shows whole.
pub open spec fn shown(bs: Seq<BlockView>) -> Seq<int>
    decreases bs.len(),
{
    if bs.len() == 0 {
        seq![]
    } else {
        (match bs[0] {
            BlockView::Item(i) => seq![i as int],
            BlockView::Message(_) => seq![],
            BlockView::Step(turns) => turn_items(turns),
        }) + shown(bs.drop_first())
    }
}

proof fn lemma_range_split(a: int, m: int, b: int)
    requires
        a <= m <= b,
    ensures
        index_range(a, m) + index_range(m, b) == index_range(a, b),
{
    assert(index_range(a, m) + index_range(m, b) =~= index_range(a, b));
}

proof fn lemma_turn_items(items: Seq<Item>, j: int)
    requires
        0 <= j < items.len(),
        items.len() <= usize::MAX,
    ensures
        turn_items(turns_from(items, j)) == index_range(j, turns_from(items, j).last().end as int),
    decreases items.len() - j,
{
    lemma_tools_end(items, j + 1);
    lemma_turns_from(items, j);
    let end = tools_end(items, j + 1);
    let turns = turns_from(items, j);
    let head = seq![j] + index_range(j + 1, end);
    assert(head =~= index_range(j, end));
    assert(turns[0].reply as int == j);
    assert(turns[0].start as int == j + 1);
    assert(turns[0].end as int == end);
    if j < end < items.len() && folds(items[end]) {
        lemma_turn_items(items, end);
        lemma_turns_from(items, end);
        let rest = turns_from(items, end);
        assert(turns.drop_first() =~= rest);
        assert(turns.last() == rest.last());
        lemma_range_split(j, end, rest.last().end as int);
    } else {
        assert(turns.drop_first() =~= seq![]);
        assert(turn_items(turns.drop_first()) == Seq::<int>::empty());
        assert(turn_items(turns) =~= head + seq![]);
    }
}

proof fn lemma_blocks_show(items: Seq<Item>, i: int)
    requires
        0 <= i <= items.len(),
        items.len() <= usize::MAX,
    ensures
        shown(blocks_from(items, i)) == index_range(i, items.len() as int),
    decreases items.len() - i,
{
    if i == items.len() {
        assert(index_range(i, items.len() as int) =~= seq![]);
    } else if calls_tools(items[i]) {
        lemma_turns_from(items, i);
        lemma_turn_items(items, i);
        let turns = turns_from(items, i);
        let next = turns.last().end as int;
        lemma_blocks_show(items, next);
        let bs = blocks_from(items, i);
        let rest = blocks_from(items, next);
        let step = seq![BlockView::Step(turns)] + rest;
        assert(step.drop_first() =~= rest);
        assert(shown(step) == turn_items(turns) + shown(rest));
        match items[i] {
            Item::Assistant(reply) => {
                if reply.content@.len() > 0 {
                    assert(bs =~= seq![BlockView::Message(i as usize)] + step);
                    assert(bs.drop_first() =~= step);
                    assert(shown(bs) == shown(step));
                } else {
                    assert(bs =~= step);
                }
            },
            _ => {},
        }
        lemma_range_split(i, next, items.len() as int);
    } else {
        lemma_blocks_show(items, i + 1);
        let bs = blocks_from(items, i);
        assert(bs.drop_first() =~= blocks_from(items, i + 1));
        assert(seq![i] + index_range(i + 1, items.len() as int) =~= index_range(
            i,
            items.len() as int,
        ));
    }
}

/// Every item of a session is shown once, in order: the blocks show
/// the items from first to last, each reply with its tool runs.
pub proof fn law_every_item_shown_once(items: Seq<Item>)
    requires
        items.len() <= usize::MAX,
    ensures
        shown(blocks_from(items, 0)) == index_range(0, items.len() as int),
{
    lemma_blocks_show(items, 0);
}

/// The script of the document. Tools are collapsed by default, so a
/// tool's outputs are anchored at their end, as a terminal would, the
/// moment the tool is opened: the newest lines are the ones that matter.
pub const SCRIPT: &'static str = "
function anchorOutputs(scope) {
    for (const block of (scope ?? document).querySelectorAll('pre.tool-block.output')) {
        block.scrollTop = block.scrollHeight;
    }
}

for (const tool of document.querySelectorAll('details.item.tool')) {
    tool.addEventListener('toggle', () => {
        if (tool.open) {
            anchorOutputs(tool);
        }
    });
}
";

/// `text` with each `"` spelled `&quot;`, for an attribute.
pub open spec fn quotes_escaped(text: Seq<char>) -> Seq<char>
    decreases text.len(),
{
    if text.len() == 0 {
        seq![]
    } else {
        quotes_escaped(text.drop_last()) + if text.last() == '"' {
            "&quot;"@
        } else {
            seq![text.last()]
        }
    }
}

/// `ps` joined by `sep`.
pub open spec fn join(ps: Seq<Seq<char>>, sep: Seq<char>) -> Seq<char>
    decreases ps.len(),
{
    if ps.len() == 0 {
        seq![]
    } else if ps.len() == 1 {
        ps[0]
    } else {
        join(ps.drop_last(), sep) + sep + ps.last()
    }
}

/// The header of a step: the summary of its tools, with the exact list
/// of their names as a tooltip.
pub open spec fn step_header(names: Seq<Seq<char>>) -> Seq<char> {
    "<span class=\"step-tools\" title=\""@ + quotes_escaped(escaped(join(names, ", "@)))
        + "\">"@ + tools_summary(names) + "</span>"@
}

/// A step: its header, revealing what the turns thought and ran where
/// there is any, marked when one of its tools failed.
pub open spec fn step_html(names: Seq<Seq<char>>, failed: bool, thinking: Seq<char>) -> Seq<char> {
    let header = step_header(names);
    let head = if thinking.len() == 0 {
        "<div class=\"step-header\">"@ + header + "</div>"@
    } else {
        "<details class=\"step-thinking\"><summary class=\"step-header\">"@ + header
            + "</summary><div class=\"step-thinking-body\">"@ + thinking + "</div></details>"@
    };
    "<div class=\"step"@ + (if failed {
        " failed"@
    } else {
        seq![]
    }) + "\">"@ + head + "</div>"@
}

/// Appends `text` with each `"` spelled `&quot;`.
fn push_quotes_escaped(out: &mut Vec<char>, text: &Vec<char>)
    ensures
        final(out)@ == old(out)@ + quotes_escaped(text@),
{
    let ghost start = out@;
    let mut i: usize = 0;
    while i < text.len()
        invariant
            i <= text.len(),
            out@ == start + quotes_escaped(text@.take(i as int)),
        decreases text.len() - i,
    {
        proof {
            let t = text@.take(i + 1);
            assert(t.drop_last() =~= text@.take(i as int));
            assert(t.last() == text@[i as int]);
        }
        let ghost before = out@;
        if text[i] == '"' {
            push_str(out, "&quot;");
        } else {
            out.push(text[i]);
            assert(out@ =~= before + seq![text@[i as int]]);
        }
        assert(out@ =~= start + quotes_escaped(text@.take(i + 1)));
        i = i + 1;
    }
    assert(text@.take(i as int) =~= text@);
}

/// `names` joined by `sep`.
fn joined_names(names: &Vec<String>, sep: &str) -> (r: Vec<char>)
    ensures
        r@ == join(names@.map_values(|n: String| n@), sep@),
{
    let ghost all = names@.map_values(|n: String| n@);
    let mut r: Vec<char> = Vec::new();
    let mut i: usize = 0;
    while i < names.len()
        invariant
            i <= names.len(),
            all == names@.map_values(|n: String| n@),
            r@ == join(all.take(i as int), sep@),
        decreases names.len() - i,
    {
        proof {
            let t = all.take(i + 1);
            assert(t.drop_last() =~= all.take(i as int));
            assert(t.last() == names@[i as int]@);
            if i == 0 {
                assert(t =~= seq![names@[0]@]);
            }
        }
        if i > 0 {
            push_str(&mut r, sep);
        }
        push_str(&mut r, names[i].as_str());
        i = i + 1;
    }
    assert(all.take(i as int) =~= all);
    r
}

/// A step of the tools named `names`, marked when one failed, revealing
/// `thinking`: the reasoning and tool runs of its turns.
pub fn render_step(names: &Vec<String>, failed: bool, thinking: &str) -> (r: String)
    ensures
        r@ == step_html(names@.map_values(|n: String| n@), failed, thinking@),
{
    let ghost ns = names@.map_values(|n: String| n@);
    let mut header: Vec<char> = Vec::new();
    push_str(&mut header, "<span class=\"step-tools\" title=\"");
    let mut escaped_names: Vec<char> = Vec::new();
    push_escaped(&mut escaped_names, &joined_names(names, ", "));
    assert(escaped_names@ =~= escaped(join(ns, ", "@)));
    push_quotes_escaped(&mut header, &escaped_names);
    push_str(&mut header, "\">");
    let summary = summarize_tools(names);
    push_str(&mut header, summary.as_str());
    push_str(&mut header, "</span>");
    assert(header@ =~= step_header(ns));
    let mut out: Vec<char> = Vec::new();
    push_str(&mut out, "<div class=\"step");
    if failed {
        push_str(&mut out, " failed");
    }
    push_str(&mut out, "\">");
    let ghost mid = out@;
    if thinking.is_empty() {
        push_str(&mut out, "<div class=\"step-header\">");
        extend(&mut out, &header);
        push_str(&mut out, "</div>");
    } else {
        push_str(&mut out, "<details class=\"step-thinking\"><summary class=\"step-header\">");
        extend(&mut out, &header);
        push_str(&mut out, "</summary><div class=\"step-thinking-body\">");
        push_str(&mut out, thinking);
        push_str(&mut out, "</div></details>");
    }
    push_str(&mut out, "</div>");
    assert(out@ =~= step_html(ns, failed, thinking@));
    string_of(&out)
}

/// The names of the tools a step's turns ran, in call order.
pub open spec fn step_names(items: Seq<Item>, turns: Seq<Turn>) -> Seq<Seq<char>>
    decreases turns.len(),
{
    if turns.len() == 0 {
        seq![]
    } else {
        step_names(items, turns.drop_last()) + run_names(
            items,
            turns.last().start as int,
            turns.last().end as int,
        )
    }
}

/// The names of the tools run from `a` to `b`.
pub open spec fn run_names(items: Seq<Item>, a: int, b: int) -> Seq<Seq<char>>
    decreases b - a,
{
    if b <= a {
        seq![]
    } else {
        run_names(items, a, b - 1) + match items[b - 1] {
            Item::Tool(run) => seq![run.call.name@],
            _ => seq![],
        }
    }
}

/// Whether a run failed: it erred, or could not be understood.
pub open spec fn failed_run(item: Item) -> bool {
    item matches Item::Tool(run) && (run.status is Error || run.status is Invalid)
}

/// Whether a tool of a step's turns failed.
pub open spec fn step_failed(items: Seq<Item>, turns: Seq<Turn>) -> bool {
    exists|t: int, k: int|
        0 <= t < turns.len() && turns[t].start <= k < turns[t].end && failed_run(
            #[trigger] items[k],
        ) && #[trigger] turns[t].start == turns[t].start
}

/// A step is marked failed where one of its tools erred or could not be
/// understood, in any of its turns: where the item at `k`, in the runs of
/// the turn at `t`, is a tool run whose status is an error or invalid,
/// the step failed.
pub proof fn law_a_failed_tool_fails_its_step(items: Seq<Item>, turns: Seq<Turn>, t: int, k: int)
    requires
        0 <= t < turns.len(),
        turns[t].start <= k < turns[t].end,
        items[k] matches Item::Tool(run) && (run.status is Error || run.status is Invalid),
    ensures
        step_failed(items, turns),
{
    assert(failed_run(items[k]));
    assert(turns[t].start == turns[t].start);
}

/// A step whose tools all succeeded or were aborted is not marked failed:
/// where no item in the runs of any of its turns is a tool run that erred
/// or could not be understood, the step did not fail.
pub proof fn law_a_step_without_failures_does_not_fail(items: Seq<Item>, turns: Seq<Turn>)
    requires
        forall|t: int, k: int|
            #![trigger turns[t], items[k]]
            0 <= t < turns.len() && turns[t].start <= k < turns[t].end ==> !(items[k] matches Item::Tool(
                run,
            ) && (run.status is Error || run.status is Invalid)),
    ensures
        !step_failed(items, turns),
{
    if step_failed(items, turns) {
        let (t, k) = choose|t: int, k: int|
            0 <= t < turns.len() && turns[t].start <= k < turns[t].end && failed_run(
                #[trigger] items[k],
            ) && #[trigger] turns[t].start == turns[t].start;
        assert(turns[t] == turns[t] && items[k] == items[k]);
    }
}

/// A failed step stays failed as turns join it: after a turn is added to
/// a failed step, at its end or at its start, the step is still failed.
pub proof fn law_a_failed_step_stays_failed(items: Seq<Item>, turns: Seq<Turn>, more: Turn)
    requires
        step_failed(items, turns),
    ensures
        step_failed(items, turns.push(more)),
        step_failed(items, seq![more] + turns),
{
    let (t, k) = choose|t: int, k: int|
        0 <= t < turns.len() && turns[t].start <= k < turns[t].end && failed_run(
            #[trigger] items[k],
        ) && #[trigger] turns[t].start == turns[t].start;
    let pushed = turns.push(more);
    assert(pushed[t] == turns[t]);
    assert(pushed[t].start == pushed[t].start);
    let fronted = seq![more] + turns;
    assert(fronted[t + 1] == turns[t]);
    assert(fronted[t + 1].start == fronted[t + 1].start);
}

/// The names of the tools a step's turns ran, and whether one failed.
pub fn step_tools(items: &Vec<Item>, turns: &Vec<Turn>) -> (r: (Vec<String>, bool))
    requires
        forall|t: int| 0 <= t < turns.len() ==> (#[trigger] turns@[t]).start <= turns@[t].end
            <= items.len(),
    ensures
        r.0@.map_values(|n: String| n@) == step_names(items@, turns@),
        r.1 == step_failed(items@, turns@),
{
    let mut names: Vec<String> = Vec::new();
    let mut failed = false;
    let mut t: usize = 0;
    while t < turns.len()
        invariant
            t <= turns.len(),
            forall|u: int| 0 <= u < turns.len() ==> (#[trigger] turns@[u]).start <= turns@[u].end
                <= items.len(),
            names@.map_values(|n: String| n@) == step_names(items@, turns@.take(t as int)),
            failed == exists|u: int, k: int|
                0 <= u < t && turns@[u].start <= k < turns@[u].end && failed_run(
                    #[trigger] items@[k],
                ) && #[trigger] turns@[u].start == turns@[u].start,
        decreases turns.len() - t,
    {
        let turn = turns[t];
        proof {
            let tt = turns@.take(t + 1);
            assert(tt.drop_last() =~= turns@.take(t as int));
            assert(tt.last() == turn);
        }
        let ghost head = names@.map_values(|n: String| n@);
        let ghost was = failed;
        let mut k = turn.start;
        while k < turn.end
            invariant
                turn.start <= k <= turn.end <= items.len(),
                names@.map_values(|n: String| n@) == head + run_names(
                    items@,
                    turn.start as int,
                    k as int,
                ),
                failed == (was || exists|m: int|
                    turn.start <= m < k && failed_run(#[trigger] items@[m])),
            decreases turn.end - k,
        {
            let ghost before = names@;
            match &items[k] {
                Item::Tool(run) => {
                    names.push(run.call.name.clone());
                    assert(names@.map_values(|n: String| n@) =~= before.map_values(
                        |n: String| n@,
                    ).push(run.call.name@));
                    match run.status {
                        Status::Error { .. } => {
                            failed = true;
                        },
                        Status::Invalid => {
                            failed = true;
                        },
                        _ => {},
                    }
                },
                _ => {},
            }
            assert(run_names(items@, turn.start as int, k + 1) =~= run_names(
                items@,
                turn.start as int,
                k as int,
            ) + match items@[k as int] {
                Item::Tool(run) => seq![run.call.name@],
                _ => seq![],
            });
            k = k + 1;
        }
        proof {
            if failed && !was {
                let m = choose|m: int| turn.start <= m < k && failed_run(#[trigger] items@[m]);
                assert(turns@[t as int].start == turns@[t as int].start);
            }
            if was {
                let (u, m) = choose|u: int, m: int|
                    0 <= u < t && turns@[u].start <= m < turns@[u].end && failed_run(
                        #[trigger] items@[m],
                    ) && #[trigger] turns@[u].start == turns@[u].start;
                assert(turns@[u].start == turns@[u].start);
            }
        }
        t = t + 1;
    }
    assert(turns@.take(t as int) =~= turns@);
    (names, failed)
}

/// The class a tool run is marked with: how it ended.
pub open spec fn status_class(status: Status) -> Seq<char> {
    match status {
        Status::Success { .. } => "success"@,
        Status::Error { .. } => "error"@,
        Status::Invalid => "invalid"@,
        Status::Aborted => "aborted"@,
    }
}

/// An output block.
pub open spec fn output_block(text: Seq<char>) -> Seq<char> {
    "<pre class=\"tool-block output\">"@ + text + "</pre>"@
}

/// What a tool run shows of how it ended: its output, where there is
/// more than white space, its error, or a notice.
pub open spec fn status_output(status: Status) -> Seq<char> {
    match status {
        Status::Success { output } => {
            let text = crate::output::rendered(output@);
            if crate::text::trim(text).len() > 0 {
                output_block(escaped(text))
            } else {
                seq![]
            }
        },
        Status::Error { output } => output_block(escaped(output@)),
        Status::Invalid => output_block("[invalid tool call]"@),
        Status::Aborted => output_block("[execution aborted]"@),
    }
}

/// A tool run as a collapsible block: the badge and the title are the
/// summary, `view`, the view of its arguments, and its output the body.
pub open spec fn tool_html(
    status: Status,
    name: Seq<char>,
    title: Option<Seq<char>>,
    view: Seq<char>,
) -> Seq<char> {
    "<details class=\"item tool "@ + status_class(status)
        + "\"><summary class=\"tool-header\"><span class=\"tool-name\">"@ + escaped(name)
        + "</span>"@ + match title {
        Some(t) => "<span class=\"tool-title\">"@ + escaped(t) + "</span>"@,
        None => seq![],
    } + "</summary>"@ + view + status_output(status) + "</details>"@
}

/// A tool run as a collapsible block, with `view`, the view of its
/// arguments.
pub fn render_tool(run: &crate::session::ToolRun, view: &str) -> (r: String)
    requires
        run.status matches Status::Success { output } ==> crate::output::well_formed(output@),
    ensures
        r@ == tool_html(run.status, run.call.name@, title_in(run.call.arguments@), view@),
{
    let mut out: Vec<char> = Vec::new();
    push_str(&mut out, "<details class=\"item tool ");
    match &run.status {
        Status::Success { .. } => push_str(&mut out, "success"),
        Status::Error { .. } => push_str(&mut out, "error"),
        Status::Invalid => push_str(&mut out, "invalid"),
        Status::Aborted => push_str(&mut out, "aborted"),
    }
    push_str(&mut out, "\"><summary class=\"tool-header\"><span class=\"tool-name\">");
    push_escaped(&mut out, &chars_of(run.call.name.as_str()));
    push_str(&mut out, "</span>");
    let ghost mid = out@;
    match title_of(&run.call) {
        Some(t) => {
            push_str(&mut out, "<span class=\"tool-title\">");
            push_escaped(&mut out, &chars_of(t.as_str()));
            push_str(&mut out, "</span>");
        },
        None => {},
    }
    push_str(&mut out, "</summary>");
    push_str(&mut out, view);
    let ghost before = out@;
    match &run.status {
        Status::Success { output } => {
            let text = chars_of(output.to_string().as_str());
            if crate::text::trimmed(&text).len() > 0 {
                push_str(&mut out, "<pre class=\"tool-block output\">");
                push_escaped(&mut out, &text);
                push_str(&mut out, "</pre>");
            }
        },
        Status::Error { output } => {
            push_str(&mut out, "<pre class=\"tool-block output\">");
            push_escaped(&mut out, &chars_of(output.as_str()));
            push_str(&mut out, "</pre>");
        },
        Status::Invalid => push_str(&mut out, "<pre class=\"tool-block output\">[invalid tool call]</pre>"),
        Status::Aborted => push_str(&mut out, "<pre class=\"tool-block output\">[execution aborted]</pre>"),
    }
    push_str(&mut out, "</details>");
    proof {
        reveal_strlit("<pre class=\"tool-block output\">[invalid tool call]</pre>");
        reveal_strlit("<pre class=\"tool-block output\">[execution aborted]</pre>");
        reveal_strlit("<pre class=\"tool-block output\">");
        reveal_strlit("</pre>");
        reveal_strlit("[invalid tool call]");
        reveal_strlit("[execution aborted]");
    }
    assert(out@ =~= tool_html(run.status, run.call.name@, title_in(run.call.arguments@), view@));
    string_of(&out)
}

/// What the markdown renderer makes of `source`: the HTML that
/// `pulldown_cmark` writes for it, with tables, strikethrough, task
/// lists and metadata blocks enabled.
pub uninterp spec fn commonmark_html(source: Seq<char>) -> Seq<char>;

/// The HTML of the markdown `source`: parses it with
/// `pulldown_cmark::Parser::new_ext`, the extensions the app's markdown
/// widget enables on, and writes it with `pulldown_cmark::html::push_html`;
/// claims that the result is `commonmark_html` of the source.
#[verifier::external_body]
fn render_commonmark(source: &str) -> (r: String)
    ensures
        r@ == commonmark_html(source@),
{
    let options = pulldown_cmark::Options::ENABLE_YAML_STYLE_METADATA_BLOCKS
        | pulldown_cmark::Options::ENABLE_PLUSES_DELIMITED_METADATA_BLOCKS
        | pulldown_cmark::Options::ENABLE_TABLES
        | pulldown_cmark::Options::ENABLE_STRIKETHROUGH
        | pulldown_cmark::Options::ENABLE_TASKLISTS;
    let mut document = String::new();
    pulldown_cmark::html::push_html(&mut document, pulldown_cmark::Parser::new_ext(source, options));
    document
}

/// The HTML of `markdown`, before its code blocks are highlighted: prose
/// that looks like HTML is escaped first, as the renderer passes raw
/// HTML through.
pub fn markdown_html(markdown: &str) -> (r: String)
    ensures
        r@ == commonmark_html(raw_html_escaped(markdown@)),
{
    let source = escape_raw_html(markdown);
    render_commonmark(source.as_str())
}

/// The static styles of the document, colored by the `:root` variables
/// that [`style`] sets.
pub const CSS: &'static str = "
* {
    box-sizing: border-box;
}

body {
    margin: 0;
    background: var(--background);
    color: var(--text);
    font: 15px/1.6 system-ui, -apple-system, \"Segoe UI\", sans-serif;
}

.session {
    max-width: 770px;
    margin: 0 auto;
    padding: 40px 16px;
}

.session-header {
    color: var(--subtext);
    font-size: 13px;
    margin-bottom: 24px;
}

.item {
    margin-bottom: 15px;
}

.item.user {
    display: flex;
    justify-content: flex-end;
}

.bubble {
    background: var(--bubble);
    color: var(--bubble-text);
    border-radius: 2px;
    padding: 10px;
    max-width: 100%;
}

.reasoning {
    background: var(--card);
    color: var(--reasoning);
    border: 1px solid var(--border);
    border-radius: 5px;
    padding: 10px;
    font-family: ui-monospace, monospace;
    font-size: 13px;
}

.reasoning summary {
    font-weight: bold;
    cursor: pointer;
}

.reasoning div {
    margin-top: 10px;
}

/* A step groups one assistant turn: its last message is shown, and
   the reasoning and any earlier actions sit behind the header. */
.step {
    margin-bottom: 10px;
}

.step-header {
    display: flex;
    gap: 8px;
    align-items: baseline;
    padding: 3px 0;
    font-family: ui-monospace, monospace;
    font-size: 12px;
}

summary.step-header {
    cursor: pointer;
}

.step-tools {
    color: var(--subtext);
}

.step.failed .step-tools {
    color: var(--danger);
}

.step-thinking-body {
    margin-top: 6px;
    margin-left: 7px;
    padding-left: 12px;
    border-left: 1px solid var(--border);
}

.step-thinking-body .item,
.step-thinking-body .reasoning {
    margin-bottom: 8px;
}

.step-thinking-body > :last-child {
    margin-bottom: 0;
}

.item.tool,
.review-comment {
    background: var(--card);
    color: var(--card-text);
    border: 1px solid var(--border);
    border-radius: 5px;
    overflow: hidden;
}

.item.tool.success {
    border-color: var(--success);
}

.item.tool.error,
.item.tool.invalid,
.item.tool.aborted {
    border-color: var(--danger);
}

.tool-header,
.review-header {
    display: flex;
    gap: 10px;
    align-items: center;
    padding: 10px;
}

/* A tool is collapsed by default, like reasoning: the header is the
   clickable summary that reveals its view and output. */
.tool-header {
    cursor: pointer;
}

.tool-name,
.tool-title,
.review-index {
    font-family: ui-monospace, monospace;
    font-size: 13px;
}

.tool-name {
    background: var(--block);
    color: var(--text);
    border-radius: 5px;
    padding: 2px 5px;
}

pre.tool-block {
    background: var(--block);
    color: var(--text);
    font-family: ui-monospace, monospace;
    font-size: 13px;
    line-height: 1.5;
    margin: 0;
    padding: 10px;
    overflow-x: auto;
    white-space: pre;
}

pre.tool-block + pre.tool-block {
    border-top: 1px solid var(--border);
}

pre.tool-block.output {
    /* Cap the output at 10 lines, scrolling the rest:
       10 × (13px × 1.5) of text, plus the 20px padding. */
    max-height: 16.5em;
    overflow-y: auto;
    scrollbar-width: thin;
    scrollbar-color: var(--border) transparent;
}

pre.tool-block.output::-webkit-scrollbar {
    width: 8px;
}

pre.tool-block.output::-webkit-scrollbar-thumb {
    background: var(--border);
    border-radius: 4px;
}

.compaction {
    color: var(--subtext);
    font-size: 13px;
    text-align: center;
}

.review-content {
    padding: 10px;
}

.diff {
    background: var(--block);
    border-top: 1px solid var(--border);
    border-bottom: 1px solid var(--border);
    font-family: ui-monospace, monospace;
    font-size: 13px;
    line-height: 1.5;
}

.diff-line {
    display: flex;
    padding: 0 10px;
}

.diff-line.added {
    background: var(--added);
}

.diff-line.deleted {
    background: var(--deleted);
}

.gutter {
    min-width: 3ch;
    padding-right: 1ch;
    color: var(--subtext);
    opacity: 0.6;
    text-align: right;
    user-select: none;
}

.sign {
    width: 1ch;
}

.diff-line.added .sign {
    color: var(--success);
}

.diff-line.deleted .sign {
    color: var(--danger);
}

.diff-line .text {
    white-space: pre;
}

/* An edit's diff: the lines flow as inline, syntax-highlighted
   text, so the line is not a flex row. */
.diff.edit .diff-line {
    display: block;
    white-space: pre;
}

.item h1,
.item h2,
.item h3,
.item h4 {
    margin: 15px 0 10px;
    line-height: 1.3;
}

.item > :first-child,
.item .bubble > :first-child,
.item .review-content > :first-child {
    margin-top: 0;
}

.item > :last-child,
.item .bubble > :last-child,
.item .review-content > :last-child {
    margin-bottom: 0;
}

.item p {
    margin: 10px 0;
}

.item ul,
.item ol {
    margin: 10px 0;
    padding-left: 20px;
}

.item a {
    color: var(--link);
}

.item blockquote {
    margin: 10px 0;
    padding-left: 10px;
    border-left: 3px solid var(--border);
    color: var(--subtext);
}

.item code {
    background: var(--bubble);
    border-radius: 4px;
    padding: 1px 4px;
    font-family: ui-monospace, monospace;
    font-size: 0.9em;
}

.item pre {
    background: var(--block);
    border-radius: 5px;
    padding: 10px;
    overflow-x: auto;
}

.item pre code {
    background: none;
    padding: 0;
}

.item hr {
    margin: 15px 0;
    border: none;
    border-top: 1px solid var(--border);
}

.item table {
    margin: 10px 0;
    border-collapse: collapse;
}

.item th,
.item td {
    padding: 4px 8px;
    border: 1px solid var(--border);
}

.item input[type=\"checkbox\"] {
    margin-right: 5px;
}
";

/// The `:root` variables of the document, each `--name: value`, one per
/// line.
pub open spec fn root_vars(vars: Seq<(Seq<char>, Seq<char>)>) -> Seq<char>
    decreases vars.len(),
{
    if vars.len() == 0 {
        seq![]
    } else {
        root_vars(vars.drop_last()) + "            --"@ + vars.last().0 + ": "@ + vars.last().1 + ";\n"@
    }
}

/// The `<style>` block of the document: the `:root` variables `vars`,
/// each a name and a color, then the static styles.
pub fn style(vars: &Vec<(String, String)>) -> (r: String)
    ensures
        r@ == ":root {\n"@ + root_vars(vars@.map_values(|v: (String, String)| (v.0@, v.1@)))
            + "        }\n"@ + CSS@,
{
    let ghost all = vars@.map_values(|v: (String, String)| (v.0@, v.1@));
    let mut out: Vec<char> = Vec::new();
    push_str(&mut out, ":root {\n");
    let ghost head = out@;
    let mut i: usize = 0;
    while i < vars.len()
        invariant
            i <= vars.len(),
            all == vars@.map_values(|v: (String, String)| (v.0@, v.1@)),
            out@ == head + root_vars(all.take(i as int)),
        decreases vars.len() - i,
    {
        proof {
            let t = all.take(i + 1);
            assert(t.drop_last() =~= all.take(i as int));
            assert(t.last() == (vars@[i as int].0@, vars@[i as int].1@));
        }
        push_str(&mut out, "            --");
        push_str(&mut out, vars[i].0.as_str());
        push_str(&mut out, ": ");
        push_str(&mut out, vars[i].1.as_str());
        push_str(&mut out, ";\n");
        proof {
            assert(out@ =~= head + root_vars(all.take(i + 1)));
        }
        i = i + 1;
    }
    assert(all.take(i as int) =~= all);
    push_str(&mut out, "        }\n");
    push_str(&mut out, CSS);
    string_of(&out)
}

/// What opens a code block in the renderer's HTML.
pub const CODE_OPEN: &'static str = "<pre><code";

/// What closes a code block in the renderer's HTML.
pub const CODE_CLOSE: &'static str = "</code></pre>";

/// A piece of a document: text, or a whole code block.
#[derive(Debug, Clone)]
pub enum Piece {
    Text(String),
    Code(String),
}

/// A piece, by its text.
pub enum PieceView {
    Text(Seq<char>),
    Code(Seq<char>),
}

impl View for Piece {
    type V = PieceView;

    open spec fn view(&self) -> PieceView {
        match self {
            Piece::Text(t) => PieceView::Text(t@),
            Piece::Code(c) => PieceView::Code(c@),
        }
    }
}

/// `document` cut into its text and its code blocks, in order. A code
/// block that does not close ends the cutting: the text before it comes
/// first, then all the rest from where that text began.
pub open spec fn pieces_of(document: Seq<char>) -> Seq<PieceView>
    decreases document.len(),
{
    match crate::text::first_match(document, "<pre><code"@) {
        None => seq![PieceView::Text(document)],
        Some(start) => match crate::text::first_match_from(document, "</code></pre>"@, start) {
            None => seq![PieceView::Text(document.take(start)), PieceView::Text(document)],
            Some(close) => {
                let end = close + "</code></pre>"@.len();
                if 0 <= start <= close && 0 < end <= document.len() {
                    seq![
                        PieceView::Text(document.take(start)),
                        PieceView::Code(document.subrange(start, end)),
                    ] + pieces_of(document.skip(end))
                } else {
                    seq![PieceView::Text(document)]
                }
            },
        },
    }
}

/// `document` cut into its text and its code blocks.
pub fn code_pieces(document: &str) -> (r: Vec<Piece>)
    ensures
        r@.map_values(|p: Piece| p@) == pieces_of(document@),
{
    let open = chars_of("<pre><code");
    let close = chars_of("</code></pre>");
    proof {
        reveal_strlit("</code></pre>");
    }
    let all = chars_of(document);
    let mut r: Vec<Piece> = Vec::new();
    let mut at: usize = 0;
    assert(all@.skip(0) =~= all@);
    loop
        invariant
            at <= all.len(),
            open@ == "<pre><code"@,
            close@ == "</code></pre>"@,
            close@.len() == 13,
            all@ == document@,
            r@.map_values(|p: Piece| p@) + pieces_of(all@.skip(at as int)) == pieces_of(document@),
        decreases all.len() - at,
    {
        let rest = slice_of_chars(&all, at);
        let ghost before = r@.map_values(|p: Piece| p@);
        match crate::text::find_from(&rest, &open, 0) {
            None => {
                r.push(Piece::Text(string_of(&rest)));
                assert(r@.map_values(|p: Piece| p@) =~= before + seq![PieceView::Text(rest@)]);
                return r;
            },
            Some(start) => {
                proof {
                    crate::tool::edit::lemma_first_match_from(rest@, open@, 0);
                }
                let head = crate::text::slice_of(&rest, 0, start);
                match crate::text::find_from(&rest, &close, start) {
                    None => {
                        r.push(Piece::Text(string_of(&head)));
                        r.push(Piece::Text(string_of(&rest)));
                        assert(head@ =~= rest@.take(start as int));
                        assert(r@.map_values(|p: Piece| p@) =~= before + seq![
                            PieceView::Text(rest@.take(start as int)),
                            PieceView::Text(rest@),
                        ]);
                        return r;
                    },
                    Some(c) => {
                        proof {
                            crate::tool::edit::lemma_first_match_from(rest@, close@, start as int);
                        }
                        let end = c + close.len();
                        let block = crate::text::slice_of(&rest, start, end);
                        r.push(Piece::Text(string_of(&head)));
                        r.push(Piece::Code(string_of(&block)));
                        proof {
                            assert(head@ =~= rest@.take(start as int));
                            assert(rest@.skip(end as int) =~= all@.skip(at + end));
                            assert(r@.map_values(|p: Piece| p@) + pieces_of(all@.skip(at + end))
                                =~= before + pieces_of(rest@));
                        }
                        at = at + end;
                    },
                }
            },
        }
    }
}

/// The characters of `s` from `at` on.
fn slice_of_chars(s: &Vec<char>, at: usize) -> (t: Vec<char>)
    requires
        at <= s.len(),
    ensures
        t@ == s@.skip(at as int),
{
    let t = crate::text::slice_of(s, at, s.len());
    assert(t@ =~= s@.skip(at as int));
    t
}

/// Where the code block `block` opens its content: just past the `>` of
/// its `<code` tag.
pub open spec fn content_start(block: Seq<char>) -> int {
    match crate::text::first_match(block, "<code"@) {
        Some(code) => match crate::text::first_of(block.skip(code), '>') {
            Some(k) => code + k + 1,
            None => 0,
        },
        None => 0,
    }
}

/// Whether `block` is a code block whose tag and content can be told
/// apart: it holds a `<code` tag closed by a `>` before the block's
/// closing tags.
pub open spec fn block_well_formed(block: Seq<char>) -> bool {
    &&& block.len() >= "</code></pre>"@.len()
    &&& crate::text::first_match(block, "<code"@) is Some
    &&& crate::text::first_of(block.skip(crate::text::first_match(block, "<code"@)->0), '>') is Some
    &&& content_start(block) <= block.len() - "</code></pre>"@.len()
}

/// The language of the code block `block` and its source, where its tag
/// names a language: `<pre><code class="language-token">`.
pub open spec fn block_language(block: Seq<char>) -> Option<(Seq<char>, Seq<char>)> {
    let open = content_start(block);
    let head = block.take(open);
    let prefix = "<pre><code class=\"language-"@;
    if starts_with_seq(head, prefix) && head.len() >= prefix.len() + 2 && head.last() == '>'
        && head[head.len() - 2] == '"' {
        Some(
            (
                head.subrange(prefix.len() as int, head.len() - 2),
                unescaped(block.subrange(open, block.len() - "</code></pre>"@.len())),
            ),
        )
    } else {
        None
    }
}

/// Whether `s` starts with `p`.
pub open spec fn starts_with_seq(s: Seq<char>, p: Seq<char>) -> bool {
    crate::text::starts_with(s, p)
}

/// Whether the code block `block` can be told apart into tag and content.
pub fn well_formed_block(block: &str) -> (b: bool)
    ensures
        b == block_well_formed(block@),
{
    let chars = chars_of(block);
    let code_tag = chars_of("<code");
    proof {
        reveal_strlit("</code></pre>");
    }
    if chars.len() < 13 {
        return false;
    }
    match crate::text::find_from(&chars, &code_tag, 0) {
        None => false,
        Some(code) => {
            proof {
                crate::tool::edit::lemma_first_match_from(chars@, code_tag@, 0);
            }
            let tail = slice_of_chars(&chars, code);
            match crate::text::find_char(&tail, '>') {
                None => false,
                Some(k) => {
                    proof {
                        crate::text::lemma_first_of_bounds(tail@, '>');
                    }
                    code + k + 1 <= chars.len() - 13
                },
            }
        },
    }
}

/// The language of a code block and its source, unescaped, where its tag
/// names a language.
pub fn code_language(block: &str) -> (r: Option<(String, String)>)
    requires
        block_well_formed(block@),
    ensures
        match r {
            Some((language, source)) => block_language(block@) == Some((language@, source@)),
            None => block_language(block@) is None,
        },
{
    let chars = chars_of(block);
    let code_tag = chars_of("<code");
    proof {
        reveal_strlit("</code></pre>");
    }
    let code = match crate::text::find_from(&chars, &code_tag, 0) {
        Some(code) => code,
        None => return None,
    };
    proof {
        crate::tool::edit::lemma_first_match_from(chars@, code_tag@, 0);
    }
    let tail = slice_of_chars(&chars, code);
    let k = match crate::text::find_char(&tail, '>') {
        Some(k) => k,
        None => return None,
    };
    proof {
        crate::text::lemma_first_of_bounds(tail@, '>');
        assert(tail@.len() == chars@.len() - code);
    }
    assert(k < tail.len());
    assert(code + k < chars.len());
    let open = code + k + 1;
    let close = chars.len() - 13;
    let head = crate::text::slice_of(&chars, 0, open);
    assert(head@ =~= chars@.take(open as int));
    let prefix = chars_of("<pre><code class=\"language-");
    let n = head.len();
    if crate::text::has_prefix(&head, &prefix) && n >= prefix.len() + 2 && head[n - 1] == '>'
        && head[n - 2] == '"' {
        let language = crate::text::slice_of(&head, prefix.len(), n - 2);
        let inner = crate::text::slice_of(&chars, open, close);
        let source = unescape(string_of(&inner).as_str());
        Some((string_of(&language), source))
    } else {
        None
    }
}

/// `d`, its digits grouped by three with commas.
pub open spec fn grouped(d: Seq<char>) -> Seq<char>
    decreases d.len(),
{
    if d.len() <= 3 {
        d
    } else {
        grouped(d.take(d.len() - 3)) + ","@ + d.skip(d.len() - 3)
    }
}

/// `n` written with its thousands separated by commas.
pub fn thousands(n: u64) -> (r: String)
    ensures
        r@ == grouped(decimal(n as nat)),
{
    let d = crate::text::decimal_of(n);
    assert(d@.len() >= 1) by {
        if n as nat >= 10 {
            assert(decimal(n as nat) == decimal(n as nat / 10).push(
                crate::text::digit_char(n as nat % 10),
            ));
        }
    }
    let mut first = d.len() % 3;
    if first == 0 {
        first = 3;
    }
    if first > d.len() {
        first = d.len();
    }
    let mut out = crate::text::slice_of(&d, 0, first);
    let mut i = first;
    proof {
        lemma_grouped_prefix(d@, first as int);
    }
    assert((d.len() - i) % 3 == 0);
    while i < d.len()
        invariant
            1 <= first <= i <= d.len(),
            (d.len() - i) % 3 == 0,
            out@ == grouped(d@.take(i as int)),
        decreases d.len() - i,
    {
        push_str(&mut out, ",");
        let chunk = crate::text::slice_of(&d, i, i + 3);
        extend(&mut out, &chunk);
        proof {
            let t = d@.take(i + 3);
            assert(t.take(t.len() - 3) =~= d@.take(i as int));
            assert(t.skip(t.len() - 3) =~= chunk@);
        }
        i = i + 3;
    }
    assert(d@.take(i as int) =~= d@);
    string_of(&out)
}

proof fn lemma_grouped_prefix(d: Seq<char>, first: int)
    requires
        0 <= first <= d.len(),
        first <= 3,
    ensures
        grouped(d.take(first)) == d.take(first),
{
}

/// The text of a compaction.
pub open spec fn compaction_html(tokens: u64) -> Seq<char> {
    "<div class=\"item compaction\">Compacted into "@ + grouped(decimal(tokens as nat))
        + " tokens</div>"@
}

/// The text of a compaction.
pub fn render_compaction(tokens: u64) -> (r: String)
    ensures
        r@ == compaction_html(tokens),
{
    let mut out: Vec<char> = Vec::new();
    push_str(&mut out, "<div class=\"item compaction\">Compacted into ");
    push_str(&mut out, thousands(tokens).as_str());
    push_str(&mut out, " tokens</div>");
    string_of(&out)
}

/// How many items a session has, in words.
pub open spec fn count_label(count: nat) -> Seq<char> {
    if count == 1 {
        "1 item"@
    } else {
        decimal(count) + " items"@
    }
}

/// The standalone document of a session: its style, when it started, how
/// many items it has, the version of the program, its items and the
/// script that anchors tool outputs at their end.
pub open spec fn document_html(
    style: Seq<char>,
    started: Seq<char>,
    count: nat,
    items: Seq<char>,
) -> Seq<char> {
    "<!doctype html>\n<html lang=\"en\">\n<head>\n<meta charset=\"utf-8\">\n<meta name=\"viewport\" content=\"width=device-width, initial-scale=1\">\n<title>Pick session</title>\n<style>\n"@
        + style + "\n</style>\n</head>\n<body>\n<main class=\"session\">\n<header class=\"session-header\">"@
        + started + " · "@ + count_label(count) + " · Pick "@ + crate::session::PACKAGE_VERSION@
        + "</header>\n"@ + items + "\n</main>\n<script>"@ + crate::text::trim(SCRIPT@)
        + "</script>\n</body>\n</html>\n"@
}

/// The standalone document of a session with `count` items rendered as
/// `items`, styled by `style`, started at `started`.
pub fn document(style: &str, started: &str, count: usize, items: &str) -> (r: String)
    ensures
        r@ == document_html(style@, started@, count as nat, items@),
{
    let mut out: Vec<char> = Vec::new();
    push_str(
        &mut out,
        "<!doctype html>\n<html lang=\"en\">\n<head>\n<meta charset=\"utf-8\">\n<meta name=\"viewport\" content=\"width=device-width, initial-scale=1\">\n<title>Pick session</title>\n<style>\n",
    );
    push_str(&mut out, style);
    push_str(
        &mut out,
        "\n</style>\n</head>\n<body>\n<main class=\"session\">\n<header class=\"session-header\">",
    );
    push_str(&mut out, started);
    push_str(&mut out, " · ");
    let ghost before = out@;
    if count == 1 {
        push_str(&mut out, "1 item");
    } else {
        push_decimal(&mut out, count as u64);
        push_str(&mut out, " items");
    }
    push_str(&mut out, " · Pick ");
    push_str(&mut out, crate::session::PACKAGE_VERSION);
    push_str(&mut out, "</header>\n");
    push_str(&mut out, items);
    push_str(&mut out, "\n</main>\n<script>");
    extend(&mut out, &crate::text::trimmed(&chars_of(SCRIPT)));
    push_str(&mut out, "</script>\n</body>\n</html>\n");
    assert(out@ =~= document_html(style@, started@, count as nat, items@));
    string_of(&out)
}

/// A user's message: a bubble on the right, `content` its markdown
/// rendered.
pub open spec fn user_html(content: Seq<char>) -> Seq<char> {
    "<div class=\"item user\"><div class=\"bubble\">"@ + content + "</div></div>"@
}

/// An assistant's message: `reasoning` and `content` rendered.
pub open spec fn assistant_html(reasoning: Seq<char>, content: Seq<char>) -> Seq<char> {
    "<div class=\"item assistant\">"@ + reasoning + content + "</div>"@
}

/// A user's message, its markdown rendered as `content`.
pub fn render_user(content: &str) -> (r: String)
    ensures
        r@ == user_html(content@),
{
    let mut out: Vec<char> = Vec::new();
    push_str(&mut out, "<div class=\"item user\"><div class=\"bubble\">");
    push_str(&mut out, content);
    push_str(&mut out, "</div></div>");
    string_of(&out)
}

/// An assistant's message, its reasoning and content rendered.
pub fn render_assistant(reasoning: &str, content: &str) -> (r: String)
    ensures
        r@ == assistant_html(reasoning@, content@),
{
    let mut out: Vec<char> = Vec::new();
    push_str(&mut out, "<div class=\"item assistant\">");
    push_str(&mut out, reasoning);
    push_str(&mut out, content);
    push_str(&mut out, "</div>");
    string_of(&out)
}

/// The reasoning of a reply as a collapsible block, under `summary`, its
/// markdown rendered as `body`.
pub fn render_reasoning(summary: &str, body: &str) -> (r: String)
    ensures
        r@ == "<details class=\"reasoning\"><summary>"@ + summary@ + "</summary><div>"@ + body@
            + "</div></details>"@,
{
    let mut out: Vec<char> = Vec::new();
    push_str(&mut out, "<details class=\"reasoning\"><summary>");
    push_str(&mut out, summary);
    push_str(&mut out, "</summary><div>");
    push_str(&mut out, body);
    push_str(&mut out, "</div></details>");
    string_of(&out)
}

/// The lines of a preview as a monospace block: the HTML of each line's
/// spans, the first behind `prompt` where there is one, one line after
/// the other, and the preview's notice as a dim line.
pub open spec fn preview_block_html(
    lines: Seq<Seq<char>>,
    notice: Option<Seq<char>>,
    prompt: Option<Seq<char>>,
) -> Seq<char> {
    let shown = if lines.len() > 0 {
        lines.update(
            0,
            match prompt {
                Some(p) => escaped(p) + lines[0],
                None => lines[0],
            },
        )
    } else {
        lines
    };
    "<pre class=\"tool-block view\">"@ + join(shown, "\n"@) + match notice {
        Some(n) => "\n<span style=\"color:var(--subtext);\">"@ + escaped(n) + "</span>"@,
        None => seq![],
    } + "</pre>"@
}

/// A preview as a monospace block, `lines` the HTML of each of its lines,
/// `notice` its notice, with `prompt` before its first line.
pub fn preview_block(lines: &Vec<String>, notice: &Option<String>, prompt: Option<&str>) -> (r:
    String)
    ensures
        r@ == preview_block_html(
            lines@.map_values(|l: String| l@),
            crate::git::text_view(*notice),
            match prompt {
                Some(p) => Some(p@),
                None => None,
            },
        ),
{
    let ghost all = lines@.map_values(|l: String| l@);
    let ghost shown = if all.len() > 0 {
        all.update(
            0,
            match prompt {
                Some(p) => escaped(p@) + all[0],
                None => all[0],
            },
        )
    } else {
        all
    };
    let mut out: Vec<char> = Vec::new();
    push_str(&mut out, "<pre class=\"tool-block view\">");
    let ghost head = out@;
    let mut i: usize = 0;
    while i < lines.len()
        invariant
            i <= lines.len(),
            all == lines@.map_values(|l: String| l@),
            shown.len() == all.len(),
            forall|k: int| 0 < k < all.len() ==> shown[k] == all[k],
            all.len() > 0 ==> shown[0] == match prompt {
                Some(p) => escaped(p@) + all[0],
                None => all[0],
            },
            out@ == head + join(shown.take(i as int), "\n"@),
        decreases lines.len() - i,
    {
        let ghost before = out@;
        proof {
            let t = shown.take(i + 1);
            assert(t.drop_last() =~= shown.take(i as int));
            if i == 0 {
                assert(t =~= seq![shown[0]]);
            }
        }
        if i > 0 {
            push_str(&mut out, "\n");
        } else {
            match prompt {
                Some(p) => push_escaped(&mut out, &chars_of(p)),
                None => {},
            }
        }
        push_str(&mut out, lines[i].as_str());
        proof {
            if i == 0 {
                assert(out@ =~= head + shown[0]);
            } else {
                assert(out@ =~= head + (join(shown.take(i as int), "\n"@) + "\n"@ + shown[i as int]));
            }
        }
        i = i + 1;
    }
    assert(shown.take(i as int) =~= shown);
    match notice {
        Some(n) => {
            push_str(&mut out, "\n<span style=\"color:var(--subtext);\">");
            push_escaped(&mut out, &chars_of(n.as_str()));
            push_str(&mut out, "</span>");
        },
        None => {},
    }
    push_str(&mut out, "</pre>");
    assert(out@ =~= preview_block_html(all, crate::git::text_view(*notice), match prompt {
        Some(p) => Some(p@),
        None => None,
    }));
    string_of(&out)
}

/// How the arguments of a call are shown: not at all, as the raw
/// arguments, or by the view of the tool, with the fields it reads.
#[derive(Debug, Clone, PartialEq, Eq)]
pub enum ArgumentsView {
    /// A read: its title, the path, says it all.
    Nothing,
    /// The arguments as they are, pretty-printed where they are JSON.
    Raw,
    /// A command, behind a prompt.
    Bash { command: String },
    /// The content written to the file at `path`.
    Write { path: String, content: String },
    /// The diff of the replaced text in the file at `path`.
    Edit { path: String, old_string: String, new_string: String },
}

/// An arguments view, by its text.
pub enum ArgumentsViewView {
    Nothing,
    Raw,
    Bash { command: Seq<char> },
    Write { path: Seq<char>, content: Seq<char> },
    Edit { path: Seq<char>, old_string: Seq<char>, new_string: Seq<char> },
}

impl View for ArgumentsView {
    type V = ArgumentsViewView;

    open spec fn view(&self) -> ArgumentsViewView {
        match self {
            ArgumentsView::Nothing => ArgumentsViewView::Nothing,
            ArgumentsView::Raw => ArgumentsViewView::Raw,
            ArgumentsView::Bash { command } => ArgumentsViewView::Bash { command: command@ },
            ArgumentsView::Write { path, content } => ArgumentsViewView::Write {
                path: path@,
                content: content@,
            },
            ArgumentsView::Edit { path, old_string, new_string } => ArgumentsViewView::Edit {
                path: path@,
                old_string: old_string@,
                new_string: new_string@,
            },
        }
    }
}

/// How the arguments `arguments` of a call of the tool `name` are shown:
/// raw where they are no JSON; a read not at all; a command, a write and
/// an edit by their view where the arguments carry its fields as
/// strings; anything else raw.
pub open spec fn arguments_view(name: Seq<char>, arguments: Seq<char>) -> ArgumentsViewView {
    let field = |key: Seq<char>| json_string_field(arguments, key);
    if field("command"@) is None {
        ArgumentsViewView::Raw
    } else if name == "read"@ {
        ArgumentsViewView::Nothing
    } else if name == "bash"@ {
        match field("command"@) {
            Some(Some(command)) => ArgumentsViewView::Bash { command },
            _ => ArgumentsViewView::Raw,
        }
    } else if name == "write"@ {
        match (field("path"@), field("content"@)) {
            (Some(Some(path)), Some(Some(content))) => ArgumentsViewView::Write { path, content },
            _ => ArgumentsViewView::Raw,
        }
    } else if name == "edit"@ {
        match (field("path"@), field("old_string"@), field("new_string"@)) {
            (Some(Some(path)), Some(Some(old_string)), Some(Some(new_string))) => {
                ArgumentsViewView::Edit { path, old_string, new_string }
            },
            _ => ArgumentsViewView::Raw,
        }
    } else {
        ArgumentsViewView::Raw
    }
}

/// How the arguments of `call` are shown.
pub fn view_of(call: &Call) -> (r: ArgumentsView)
    ensures
        r@ == arguments_view(call.name@, call.arguments@),
{
    let arguments = call.arguments.as_str();
    let name = chars_of(call.name.as_str());
    let command = string_field(arguments, "command");
    if command.is_none() {
        return ArgumentsView::Raw;
    }
    if crate::text::same_chars(&name, &chars_of("read")) {
        return ArgumentsView::Nothing;
    }
    if crate::text::same_chars(&name, &chars_of("bash")) {
        return match command {
            Some(Some(command)) => ArgumentsView::Bash { command },
            _ => ArgumentsView::Raw,
        };
    }
    if crate::text::same_chars(&name, &chars_of("write")) {
        return match (string_field(arguments, "path"), string_field(arguments, "content")) {
            (Some(Some(path)), Some(Some(content))) => ArgumentsView::Write { path, content },
            _ => ArgumentsView::Raw,
        };
    }
    if crate::text::same_chars(&name, &chars_of("edit")) {
        return match (
            string_field(arguments, "path"),
            string_field(arguments, "old_string"),
            string_field(arguments, "new_string"),
        ) {
            (Some(Some(path)), Some(Some(old_string)), Some(Some(new_string))) => {
                ArgumentsView::Edit { path, old_string, new_string }
            },
            _ => ArgumentsView::Raw,
        };
    }
    ArgumentsView::Raw
}

/// The class of a line of a diff by its role.
pub open spec fn diff_class(tag: crate::diff::Tag) -> Seq<char> {
    match tag {
        crate::diff::Tag::Context => "context"@,
        crate::diff::Tag::Addition => "added"@,
        crate::diff::Tag::Deletion => "deleted"@,
    }
}

/// The lines of an edit's diff, `lines` each line's role and the HTML of
/// its spans, one after the other.
pub open spec fn diff_lines_html(lines: Seq<(crate::diff::Tag, Seq<char>)>) -> Seq<char>
    decreases lines.len(),
{
    if lines.len() == 0 {
        seq![]
    } else {
        diff_lines_html(lines.drop_last()) + "<div class=\"diff-line "@ + diff_class(
            lines.last().0,
        ) + "\">"@ + lines.last().1 + "</div>"@
    }
}

/// The view of an edit: the lines of its diff, `lines` each line's role
/// and the HTML of its spans.
pub fn edit_view(lines: &Vec<(crate::diff::Tag, String)>) -> (r: String)
    ensures
        r@ == "<div class=\"diff edit\">"@ + diff_lines_html(
            lines@.map_values(|l: (crate::diff::Tag, String)| (l.0, l.1@)),
        ) + "</div>"@,
{
    let ghost all = lines@.map_values(|l: (crate::diff::Tag, String)| (l.0, l.1@));
    let mut out: Vec<char> = Vec::new();
    push_str(&mut out, "<div class=\"diff edit\">");
    let ghost head = out@;
    let mut i: usize = 0;
    while i < lines.len()
        invariant
            i <= lines.len(),
            all == lines@.map_values(|l: (crate::diff::Tag, String)| (l.0, l.1@)),
            out@ == head + diff_lines_html(all.take(i as int)),
        decreases lines.len() - i,
    {
        proof {
            let t = all.take(i + 1);
            assert(t.drop_last() =~= all.take(i as int));
            assert(t.last() == (lines@[i as int].0, lines@[i as int].1@));
        }
        let ghost before = out@;
        push_str(&mut out, "<div class=\"diff-line ");
        match lines[i].0 {
            crate::diff::Tag::Context => push_str(&mut out, "context"),
            crate::diff::Tag::Addition => push_str(&mut out, "added"),
            crate::diff::Tag::Deletion => push_str(&mut out, "deleted"),
        }
        push_str(&mut out, "\">");
        push_str(&mut out, lines[i].1.as_str());
        push_str(&mut out, "</div>");
        proof {
            assert(out@ =~= head + diff_lines_html(all.take(i + 1)));
        }
        i = i + 1;
    }
    assert(all.take(i as int) =~= all);
    push_str(&mut out, "</div>");
    string_of(&out)
}

/// What `serde_json` prints of the JSON `text` holds, pretty: nothing
/// where `text` is no JSON.
pub uninterp spec fn json_pretty(text: Seq<char>) -> Option<Seq<char>>;

/// The JSON value `text` holds, printed pretty: parses `text` with
/// `serde_json::from_str` as a `serde_json::Value` and prints it with
/// `serde_json::to_string_pretty`; claims that the result is
/// `json_pretty` of the text.
#[verifier::external_body]
fn pretty_json(text: &str) -> (r: Option<String>)
    ensures
        crate::git::text_view(r) == json_pretty(text@),
{
    match serde_json::from_str::<serde_json::Value>(text) {
        Ok(value) => serde_json::to_string_pretty(&value).ok(),
        Err(_) => None,
    }
}

/// The arguments of a call as shown raw: pretty where they are JSON, as
/// they are otherwise.
pub fn arguments_of(arguments: &str) -> (r: String)
    ensures
        r@ == match json_pretty(arguments@) {
            Some(p) => p,
            None => arguments@,
        },
{
    match pretty_json(arguments) {
        Some(p) => p,
        None => arguments.to_owned(),
    }
}

} // verus!
