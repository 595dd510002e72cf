//! Paths as text, read as a Unix system reads them: components between
//! `/` separators, a leading `/` for the root.

use vstd::prelude::*;

use crate::text::{
    chars_of, extend, push_str, same_chars, slice_of, split_on, split_on_char, string_of, views,
};

verus! {

/// One component of a path, as `std::path::Component` has it on Unix.
pub enum Component {
    Root,
    Current,
    Parent,
    Normal(Seq<char>),
}

/// A component of a path, by its text.
#[derive(Debug, Clone)]
pub enum Part {
    Root,
    Current,
    Parent,
    Normal(Vec<char>),
}

impl View for Part {
    type V = Component;

    open spec fn view(&self) -> Component {
        match self {
            Part::Root => Component::Root,
            Part::Current => Component::Current,
            Part::Parent => Component::Parent,
            Part::Normal(name) => Component::Normal(name@),
        }
    }
}

/// The views of a sequence of parts.
pub open spec fn parts_view(ps: Seq<Part>) -> Seq<Component> {
    ps.map_values(|p: Part| p@)
}

/// The pieces of `p` between its `/` separators, empty ones included.
pub open spec fn segments(p: Seq<char>) -> Seq<Seq<char>> {
    split_on(p, '/')
}

/// The components that the segments `segs` make: empty segments and
/// `.` drop out, but a `.` that opens a relative path.
pub open spec fn segment_components(segs: Seq<Seq<char>>, first: bool) -> Seq<Component>
    decreases segs.len(),
{
    if segs.len() == 0 {
        seq![]
    } else {
        let s = segs[0];
        let rest = segment_components(segs.drop_first(), false);
        if s.len() == 0 {
            rest
        } else if s == "."@ {
            if first {
                seq![Component::Current] + rest
            } else {
                rest
            }
        } else if s == ".."@ {
            seq![Component::Parent] + rest
        } else {
            seq![Component::Normal(s)] + rest
        }
    }
}

/// Whether `p` starts at the root.
pub open spec fn is_absolute(p: Seq<char>) -> bool {
    p.len() > 0 && p[0] == '/'
}

/// The components of `p`, as `Path::components` yields them.
pub open spec fn components(p: Seq<char>) -> Seq<Component> {
    if is_absolute(p) {
        seq![Component::Root] + segment_components(segments(p), false)
    } else {
        segment_components(segments(p), true)
    }
}

/// The text of one component.
pub open spec fn component_text(c: Component) -> Seq<char> {
    match c {
        Component::Root => "/"@,
        Component::Current => "."@,
        Component::Parent => ".."@,
        Component::Normal(name) => name,
    }
}

/// The components `cs` joined by `/`.
pub open spec fn joined_components(cs: Seq<Component>) -> Seq<char>
    decreases cs.len(),
{
    if cs.len() == 0 {
        seq![]
    } else if cs.len() == 1 {
        component_text(cs[0])
    } else {
        joined_components(cs.drop_last()) + "/"@ + component_text(cs.last())
    }
}

/// The path the components `cs` spell, as a `PathBuf` built by pushing
/// them one by one reads.
pub open spec fn rendered(cs: Seq<Component>) -> Seq<char> {
    if cs.len() > 0 && cs[0] == Component::Root {
        "/"@ + joined_components(cs.drop_first())
    } else {
        joined_components(cs)
    }
}

/// `base` with `p` pushed onto it, as `PathBuf::push` does: an absolute
/// `p` replaces it, a relative one follows it after a separator.
pub open spec fn joined(base: Seq<char>, p: Seq<char>) -> Seq<char> {
    if is_absolute(p) || base.len() == 0 {
        p
    } else if base.last() == '/' {
        base + p
    } else {
        base + "/"@ + p
    }
}

/// The name of the last component of `p`, where it is a name: what
/// `Path::file_name` gives.
pub open spec fn file_name(p: Seq<char>) -> Option<Seq<char>> {
    let cs = components(p);
    if cs.len() > 0 {
        match cs.last() {
            Component::Normal(name) => Some(name),
            _ => None,
        }
    } else {
        None
    }
}

/// The extension of the file name `name`: what follows its last `.`,
/// unless that `.` opens the name. What `Path::extension` gives.
pub open spec fn name_extension(name: Seq<char>) -> Option<Seq<char>> {
    match crate::text::last_match(name, "."@) {
        Some(k) => if k > 0 {
            Some(name.skip(k + 1))
        } else {
            None
        },
        None => None,
    }
}

/// The extension of the file that `p` names.
pub open spec fn extension(p: Seq<char>) -> Option<Seq<char>> {
    match file_name(p) {
        Some(name) => name_extension(name),
        None => None,
    }
}

/// The components of `p`.
pub fn components_of(p: &Vec<char>) -> (r: Vec<Part>)
    ensures
        parts_view(r@) == components(p@),
{
    let segs = split_on_char(p, '/');
    let dot = chars_of(".");
    let dots = chars_of("..");
    let mut r: Vec<Part> = Vec::new();
    let absolute = p.len() > 0 && p[0] == '/';
    if absolute {
        r.push(Part::Root);
    }
    let ghost head = parts_view(r@);
    let mut i: usize = 0;
    assert(views(segs@).skip(0) =~= views(segs@));
    proof {
        assert(head + segment_components(views(segs@), !absolute) =~= components(p@)) by {
            if absolute {
                assert(head =~= seq![Component::Root]);
            } else {
                assert(head =~= seq![]);
            }
        }
    }
    while i < segs.len()
        invariant
            i <= segs.len(),
            dot@ == "."@,
            dots@ == ".."@,
            parts_view(r@) + segment_components(views(segs@).skip(i as int), !absolute && i == 0)
                == components(p@),
        decreases segs.len() - i,
    {
        let s = &segs[i];
        let ghost rest = views(segs@).skip(i as int);
        proof {
            assert(rest[0] == s@);
            assert(rest.drop_first() =~= views(segs@).skip(i + 1));
        }
        let ghost before = r@;
        if s.len() == 0 {
        } else if same_chars(s, &dot) {
            if !absolute && i == 0 {
                r.push(Part::Current);
            }
        } else if same_chars(s, &dots) {
            r.push(Part::Parent);
        } else {
            r.push(Part::Normal(slice_of(s, 0, s.len())));
        }
        proof {
            let tail = segment_components(views(segs@).skip(i + 1), false);
            if r@.len() > before.len() {
                assert(parts_view(r@) =~= parts_view(before).push(r@.last()@));
                assert(s@.subrange(0, s@.len() as int) =~= s@);
                assert(parts_view(r@) + tail =~= parts_view(before) + (seq![r@.last()@] + tail));
            } else {
                assert(r@ == before);
            }
        }
        i = i + 1;
    }
    proof {
        assert(views(segs@).skip(i as int) =~= seq![]);
        assert(parts_view(r@) + seq![] =~= parts_view(r@));
    }
    r
}

/// The text of a part.
fn part_text(part: &Part) -> (t: Vec<char>)
    ensures
        t@ == component_text(part@),
{
    match part {
        Part::Root => chars_of("/"),
        Part::Current => chars_of("."),
        Part::Parent => chars_of(".."),
        Part::Normal(name) => slice_of(name, 0, name.len()),
    }
}

/// The path the parts `ps` spell.
pub fn render(ps: &Vec<Part>) -> (r: String)
    ensures
        r@ == rendered(parts_view(ps@)),
{
    let mut out: Vec<char> = Vec::new();
    let mut i: usize = 0;
    let rooted = ps.len() > 0 && matches!(ps[0], Part::Root);
    if rooted {
        push_str(&mut out, "/");
        i = 1;
    }
    let start = i;
    let ghost cs = parts_view(ps@);
    proof {
        if rooted {
            assert(cs[0] == Component::Root);
        }
        assert(cs.subrange(start as int, start as int) =~= seq![]);
    }
    while i < ps.len()
        invariant
            start <= i <= ps.len(),
            cs == parts_view(ps@),
            start == (if rooted {
                1int
            } else {
                0int
            }),
            rooted == (cs.len() > 0 && cs[0] == Component::Root),
            out@ == (if rooted {
                "/"@
            } else {
                seq![]
            }) + joined_components(cs.subrange(start as int, i as int)),
        decreases ps.len() - i,
    {
        let text = part_text(&ps[i]);
        let ghost prefix = if rooted {
            "/"@
        } else {
            seq![]
        };
        let ghost before = out@;
        if i > start {
            push_str(&mut out, "/");
        }
        extend(&mut out, &text);
        proof {
            let sub = cs.subrange(start as int, i + 1);
            assert(sub.drop_last() =~= cs.subrange(start as int, i as int));
            assert(sub.last() == cs[i as int]);
            if i > start {
                assert(out@ =~= prefix + (joined_components(sub.drop_last()) + "/"@
                    + component_text(sub.last())));
            } else {
                assert(sub.len() == 1);
                assert(joined_components(cs.subrange(start as int, i as int)) =~= seq![]);
                assert(out@ =~= prefix + component_text(sub[0]));
            }
        }
        i = i + 1;
    }
    proof {
        if rooted {
            assert(cs.subrange(1, cs.len() as int) =~= cs.drop_first());
            assert(out@ =~= "/"@ + joined_components(cs.drop_first()));
        } else {
            assert(cs.subrange(0, cs.len() as int) =~= cs);
            assert(out@ =~= joined_components(cs));
        }
    }
    string_of(&out)
}

/// `base` with `p` pushed onto it.
pub fn join(base: &str, p: &str) -> (r: String)
    ensures
        r@ == joined(base@, p@),
{
    let b = chars_of(base);
    let q = chars_of(p);
    let mut out: Vec<char> = Vec::new();
    if (q.len() > 0 && q[0] == '/') || b.len() == 0 {
        extend(&mut out, &q);
        assert(out@ =~= q@);
    } else if b[b.len() - 1] == '/' {
        extend(&mut out, &b);
        extend(&mut out, &q);
    } else {
        extend(&mut out, &b);
        push_str(&mut out, "/");
        extend(&mut out, &q);
    }
    string_of(&out)
}

/// The name of the last component of `p`, where it is one.
pub fn name_of(p: &str) -> (r: Option<String>)
    ensures
        match r {
            Some(name) => file_name(p@) == Some(name@),
            None => file_name(p@) is None,
        },
{
    let cs = components_of(&chars_of(p));
    if cs.len() == 0 {
        return None;
    }
    proof {
        assert(parts_view(cs@).last() == cs@.last()@);
    }
    match &cs[cs.len() - 1] {
        Part::Normal(name) => Some(string_of(name)),
        _ => None,
    }
}

/// The extension of the file that `p` names, where it has one.
pub fn extension_of(p: &str) -> (r: Option<String>)
    ensures
        match r {
            Some(e) => extension(p@) == Some(e@),
            None => extension(p@) is None,
        },
{
    match name_of(p) {
        Some(name) => {
            let chars = chars_of(name.as_str());
            let dot = chars_of(".");
            match crate::text::rfind(&chars, &dot) {
                Some(k) => {
                    proof {
                        reveal_strlit(".");
                        assert(dot@.len() == 1);
                        assert(crate::text::holds_at(chars@, k as int, dot@));
                        assert(k + 1 <= chars.len());
                    }
                    if k > 0 {
                        let e = slice_of(&chars, k + 1, chars.len());
                        assert(e@ =~= chars@.skip(k + 1));
                        Some(string_of(&e))
                    } else {
                        None
                    }
                },
                None => None,
            }
        },
        None => None,
    }
}

/// The path of the directory holding what `p` names: `p` without its
/// last component, where that is no root, as `Path::parent` reads on a
/// path without `.` or repeated separators.
pub open spec fn parent(p: Seq<char>) -> Option<Seq<char>> {
    let cs = components(p);
    if cs.len() > 0 && cs.last() != Component::Root {
        Some(rendered(cs.drop_last()))
    } else {
        None
    }
}

/// Whether `p` lies under `base`, component by component, as
/// `Path::starts_with` has it.
pub open spec fn path_starts_with(p: Seq<char>, base: Seq<char>) -> bool {
    let a = components(p);
    let b = components(base);
    b.len() <= a.len() && a.take(b.len() as int) == b
}

/// A copy of `part`.
pub fn copy_part(part: &Part) -> (r: Part)
    ensures
        r@ == part@,
{
    match part {
        Part::Root => Part::Root,
        Part::Current => Part::Current,
        Part::Parent => Part::Parent,
        Part::Normal(name) => {
            let n = slice_of(name, 0, name.len());
            assert(n@ =~= name@);
            Part::Normal(n)
        },
    }
}

/// Whether two parts are the same component.
pub fn same_part(a: &Part, b: &Part) -> (r: bool)
    ensures
        r == (a@ == b@),
{
    match (a, b) {
        (Part::Root, Part::Root) => true,
        (Part::Current, Part::Current) => true,
        (Part::Parent, Part::Parent) => true,
        (Part::Normal(x), Part::Normal(y)) => same_chars(x, y),
        _ => false,
    }
}

/// The directory holding what `p` names, where there is one.
pub fn parent_of(p: &str) -> (r: Option<String>)
    ensures
        match r {
            Some(d) => parent(p@) == Some(d@),
            None => parent(p@) is None,
        },
{
    let cs = components_of(&chars_of(p));
    let n = cs.len();
    if n == 0 || matches!(cs[n - 1], Part::Root) {
        proof {
            if n > 0 {
                assert(parts_view(cs@).last() == cs@[n - 1]@);
            }
        }
        return None;
    }
    let mut head: Vec<Part> = Vec::new();
    let mut i: usize = 0;
    while i < n - 1
        invariant
            n == cs.len(),
            n > 0,
            i <= n - 1,
            parts_view(head@) == parts_view(cs@).take(i as int),
        decreases n - 1 - i,
    {
        let part = copy_part(&cs[i]);
        let ghost before = head@;
        head.push(part);
        assert(parts_view(head@) =~= parts_view(before).push(part@));
        assert(parts_view(head@) =~= parts_view(cs@).take(i + 1));
        i = i + 1;
    }
    proof {
        assert(parts_view(cs@).take(n - 1) =~= parts_view(cs@).drop_last());
        assert(parts_view(cs@).last() == cs@[n - 1]@);
    }
    Some(render(&head))
}

/// Whether `p` lies under `base`.
pub fn starts_with_path(p: &str, base: &str) -> (r: bool)
    ensures
        r == path_starts_with(p@, base@),
{
    let a = components_of(&chars_of(p));
    let b = components_of(&chars_of(base));
    if b.len() > a.len() {
        return false;
    }
    let mut i: usize = 0;
    while i < b.len()
        invariant
            b.len() <= a.len(),
            i <= b.len(),
            parts_view(a@) == components(p@),
            parts_view(b@) == components(base@),
            forall|k: int| 0 <= k < i ==> parts_view(a@)[k] == parts_view(b@)[k],
        decreases b.len() - i,
    {
        if !same_part(&a[i], &b[i]) {
            proof {
                assert(parts_view(a@)[i as int] == a@[i as int]@);
                assert(parts_view(b@)[i as int] == b@[i as int]@);
                assert(parts_view(a@).take(b.len() as int)[i as int] != parts_view(b@)[i as int]);
            }
            return false;
        }
        i = i + 1;
    }
    assert(parts_view(a@).take(b.len() as int) =~= parts_view(b@));
    true
}

} // verus!
