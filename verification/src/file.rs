//! The paths of the files the tools touch: equivalent paths fold to one,
//! so that operations on one file share one lock.

use vstd::prelude::*;

use crate::path::{
    component_text, components, components_of, is_absolute, joined_components, parts_view, render,
    rendered, segment_components, segments, Component, Part,
};
use crate::text::{first_of, lemma_first_of, lemma_first_of_bounds, lemma_first_of_none, split_on};
use crate::text::chars_of;

verus! {

/// The components `cs` with `.` dropped and each `..` taking back the
/// component before it, where there is one a path can be cut back from;
/// what pushing and popping a `PathBuf` component by component leaves.
pub open spec fn folded(cs: Seq<Component>) -> Seq<Component>
    decreases cs.len(),
{
    if cs.len() == 0 {
        seq![]
    } else {
        let f = folded(cs.drop_last());
        match cs.last() {
            Component::Current => f,
            Component::Parent => if f.len() > 0 && f.last() != Component::Root {
                f.drop_last()
            } else {
                f.push(Component::Parent)
            },
            Component::Root => seq![Component::Root],
            Component::Normal(name) => f.push(Component::Normal(name)),
        }
    }
}

/// `p` with its `.` and `..` segments folded lexically.
pub open spec fn normalized(p: Seq<char>) -> Seq<char> {
    rendered(folded(components(p)))
}

/// Lexically folds `.` and `..` segments, so that equivalent paths (like
/// `./src/main.rs` and `src/main.rs`) share the same lock.
pub fn normalize(path: &str) -> (r: String)
    ensures
        r@ == normalized(path@),
{
    let parts = components_of(&chars_of(path));
    let mut folded_parts: Vec<Part> = Vec::new();
    let mut i: usize = 0;
    while i < parts.len()
        invariant
            i <= parts.len(),
            parts_view(folded_parts@) == folded(parts_view(parts@).take(i as int)),
        decreases parts.len() - i,
    {
        let ghost cs = parts_view(parts@).take(i + 1);
        let ghost before = parts_view(folded_parts@);
        proof {
            assert(cs.drop_last() =~= parts_view(parts@).take(i as int));
            assert(cs.last() == parts@[i as int]@);
        }
        match &parts[i] {
            Part::Current => {},
            Part::Parent => {
                let n = folded_parts.len();
                if n > 0 && !matches!(folded_parts[n - 1], Part::Root) {
                    folded_parts.pop();
                    assert(parts_view(folded_parts@) =~= before.drop_last());
                } else {
                    folded_parts.push(Part::Parent);
                    assert(parts_view(folded_parts@) =~= before.push(Component::Parent));
                }
            },
            Part::Root => {
                folded_parts = Vec::new();
                folded_parts.push(Part::Root);
                assert(parts_view(folded_parts@) =~= seq![Component::Root]);
            },
            Part::Normal(name) => {
                folded_parts.push(Part::Normal(name.clone()));
                assert(parts_view(folded_parts@) =~= before.push(parts@[i as int]@));
            },
        }
        i = i + 1;
    }
    assert(parts_view(parts@).take(i as int) =~= parts_view(parts@));
    render(&folded_parts)
}

/// Whether the components `cs` leave nothing to fold: no `.`, the root
/// only first, and a `..` only first or right after the root, every
/// other component a name.
pub open spec fn fully_folded(cs: Seq<Component>) -> bool {
    forall|k: int|
        0 <= k < cs.len() ==> match #[trigger] cs[k] {
            Component::Current => false,
            Component::Root => k == 0,
            Component::Parent => k == 0 || (k == 1 && cs[0] == Component::Root),
            Component::Normal(_) => true,
        }
}

proof fn lemma_folded_shape(cs: Seq<Component>)
    ensures
        fully_folded(folded(cs)),
    decreases cs.len(),
{
    if cs.len() > 0 {
        let f = folded(cs.drop_last());
        lemma_folded_shape(cs.drop_last());
        let r = folded(cs);
        match cs.last() {
            Component::Parent => {
                if f.len() > 0 && f.last() != Component::Root {
                    assert forall|k: int| 0 <= k < r.len() implies match #[trigger] r[k] {
                        Component::Current => false,
                        Component::Root => k == 0,
                        Component::Parent => k == 0 || (k == 1 && r[0] == Component::Root),
                        Component::Normal(_) => true,
                    } by {
                        assert(r[k] == f[k]);
                    }
                } else {
                    if f.len() > 0 {
                        assert(f[f.len() - 1] == Component::Root);
                        assert(f.len() == 1);
                    }
                    assert forall|k: int| 0 <= k < r.len() implies match #[trigger] r[k] {
                        Component::Current => false,
                        Component::Root => k == 0,
                        Component::Parent => k == 0 || (k == 1 && r[0] == Component::Root),
                        Component::Normal(_) => true,
                    } by {
                        if k < f.len() {
                            assert(r[k] == f[k]);
                        }
                    }
                }
            },
            Component::Normal(name) => {
                assert forall|k: int| 0 <= k < r.len() implies match #[trigger] r[k] {
                    Component::Current => false,
                    Component::Root => k == 0,
                    Component::Parent => k == 0 || (k == 1 && r[0] == Component::Root),
                    Component::Normal(_) => true,
                } by {
                    if k < f.len() {
                        assert(r[k] == f[k]);
                    }
                }
            },
            _ => {},
        }
    }
}

proof fn lemma_folded_fixed(x: Seq<Component>)
    requires
        fully_folded(x),
    ensures
        folded(x) == x,
    decreases x.len(),
{
    if x.len() > 0 {
        let init = x.drop_last();
        assert(fully_folded(init)) by {
            assert forall|k: int| 0 <= k < init.len() implies match #[trigger] init[k] {
                Component::Current => false,
                Component::Root => k == 0,
                Component::Parent => k == 0 || (k == 1 && init[0] == Component::Root),
                Component::Normal(_) => true,
            } by {
                assert(init[k] == x[k]);
                assert(x[k] == x[k]);
            }
        }
        lemma_folded_fixed(init);
        let k = x.len() - 1;
        assert(x[k] == x.last());
        match x.last() {
            Component::Parent => {
                if k == 1 {
                    assert(init =~= seq![Component::Root]);
                } else {
                    assert(init.len() == 0);
                }
            },
            Component::Root => {
                assert(init.len() == 0);
            },
            _ => {},
        }
        assert(folded(x) =~= x);
    }
}

/// Folding leaves nothing to fold: no `.`, and no `..` that could take
/// back a component before it; so folding again changes nothing.
pub proof fn law_folding_twice_changes_nothing(cs: Seq<Component>)
    ensures
        fully_folded(folded(cs)),
        folded(folded(cs)) == folded(cs),
{
    lemma_folded_shape(cs);
    lemma_folded_fixed(folded(cs));
}

/// Whether `n` can be the name of a component: something, no `/`, and
/// neither `.` nor `..`.
pub open spec fn good_name(n: Seq<char>) -> bool {
    n.len() > 0 && !n.contains('/') && n != "."@ && n != ".."@
}

/// Whether every name among `cs` is one a component can have.
pub open spec fn good_names(cs: Seq<Component>) -> bool {
    forall|k: int| 0 <= k < cs.len() ==> (#[trigger] cs[k] matches Component::Normal(n) ==> good_name(n))
}

proof fn lemma_split_concat(a: Seq<char>, b: Seq<char>)
    ensures
        split_on(a + seq!['/'] + b, '/') == split_on(a, '/') + split_on(b, '/'),
    decreases a.len(),
{
    let s = a + seq!['/'] + b;
    lemma_first_of_bounds(a, '/');
    match first_of(a, '/') {
        Some(i) => {
            lemma_first_of(s, '/', i);
            assert(s.take(i) =~= a.take(i));
            assert(s.skip(i + 1) =~= a.skip(i + 1) + seq!['/'] + b);
            lemma_split_concat(a.skip(i + 1), b);
            assert(split_on(s, '/') =~= seq![a.take(i)] + split_on(a.skip(i + 1) + seq!['/'] + b, '/'));
            assert(split_on(a, '/') =~= seq![a.take(i)] + split_on(a.skip(i + 1), '/'));
        },
        None => {
            lemma_first_of_none(a, '/');
            assert forall|m: int| 0 <= m < a.len() implies s[m] != '/' by {
                assert(s[m] == a[m]);
            }
            lemma_first_of(s, '/', a.len() as int);
            assert(s.take(a.len() as int) =~= a);
            assert(s.skip(a.len() + 1 as int) =~= b);
        },
    }
}

proof fn lemma_split_plain(t: Seq<char>)
    requires
        !t.contains('/'),
    ensures
        split_on(t, '/') == seq![t],
{
    assert forall|m: int| 0 <= m < t.len() implies t[m] != '/' by {
        if t[m] == '/' {
            assert(t.contains('/'));
        }
    }
    lemma_first_of(t, '/', t.len() as int);
}

/// The texts of `cs`, in order.
pub open spec fn texts_of(cs: Seq<Component>) -> Seq<Seq<char>> {
    cs.map_values(|c: Component| component_text(c))
}

/// Whether `cs` are `..` and names only.
pub open spec fn steps_only(cs: Seq<Component>) -> bool {
    forall|k: int| 0 <= k < cs.len() ==> (#[trigger] cs[k] is Parent || cs[k] is Normal)
}

proof fn lemma_split_joined(ys: Seq<Component>)
    requires
        ys.len() > 0,
        steps_only(ys),
        good_names(ys),
    ensures
        split_on(joined_components(ys), '/') == texts_of(ys),
    decreases ys.len(),
{
    reveal_strlit("..");
    reveal_strlit("/");
    let last = ys.last();
    assert(ys[ys.len() - 1] == last);
    assert(!component_text(last).contains('/')) by {
        if component_text(last).contains('/') {
            if last is Parent {
                let m = choose|m: int| 0 <= m < component_text(last).len() && component_text(last)[m] == '/';
                assert(".."@[m] == '/');
            }
        }
    }
    lemma_split_plain(component_text(last));
    if ys.len() == 1 {
        assert(texts_of(ys) =~= seq![component_text(ys[0])]);
    } else {
        let init = ys.drop_last();
        assert forall|k: int| 0 <= k < init.len() implies (#[trigger] init[k] is Parent || init[k] is Normal) by {
            assert(init[k] == ys[k]);
        }
        assert forall|k: int| 0 <= k < init.len() implies (#[trigger] init[k] matches Component::Normal(n) ==> good_name(n)) by {
            assert(init[k] == ys[k]);
        }
        lemma_split_joined(init);
        assert("/"@ =~= seq!['/']);
        lemma_split_concat(joined_components(init), component_text(last));
        assert(texts_of(ys) =~= texts_of(init).push(component_text(last)));
    }
}

proof fn lemma_segment_components_texts(ys: Seq<Component>, first: bool)
    requires
        steps_only(ys),
        good_names(ys),
    ensures
        segment_components(texts_of(ys), first) == ys,
    decreases ys.len(),
{
    reveal_strlit("..");
    reveal_strlit(".");
    if ys.len() > 0 {
        let rest = ys.drop_first();
        assert forall|k: int| 0 <= k < rest.len() implies (#[trigger] rest[k] is Parent || rest[k] is Normal) by {
            assert(rest[k] == ys[k + 1]);
        }
        assert forall|k: int| 0 <= k < rest.len() implies (#[trigger] rest[k] matches Component::Normal(n) ==> good_name(n)) by {
            assert(rest[k] == ys[k + 1]);
        }
        lemma_segment_components_texts(rest, false);
        assert(texts_of(ys).drop_first() =~= texts_of(rest));
        assert(ys[0] is Parent || ys[0] is Normal);
        match ys[0] {
            Component::Normal(n) => {
                assert(good_name(n));
            },
            _ => {},
        }
        assert(ys =~= seq![ys[0]] + rest);
    } else {
        assert(texts_of(ys) =~= Seq::<Seq<char>>::empty());
    }
}

/// Components that leave nothing to fold, with names a path can hold,
/// read back from the path they spell, are themselves.
proof fn lemma_components_rendered(x: Seq<Component>)
    requires
        fully_folded(x),
        good_names(x),
    ensures
        components(rendered(x)) == x,
{
    reveal_strlit("/");
    reveal_strlit("..");
    if x.len() > 0 && x[0] == Component::Root {
        let ys = x.drop_first();
        assert forall|k: int| 0 <= k < ys.len() implies (#[trigger] ys[k] is Parent || ys[k] is Normal) by {
            assert(ys[k] == x[k + 1]);
            match x[k + 1] {
                Component::Root => {},
                Component::Current => {},
                _ => {},
            }
        }
        assert forall|k: int| 0 <= k < ys.len() implies (#[trigger] ys[k] matches Component::Normal(n) ==> good_name(n)) by {
            assert(ys[k] == x[k + 1]);
        }
        let j = joined_components(ys);
        let p = rendered(x);
        assert(p == "/"@ + j);
        assert(p =~= Seq::<char>::empty() + seq!['/'] + j);
        lemma_split_concat(Seq::<char>::empty(), j);
        lemma_split_plain(Seq::<char>::empty());
        assert(is_absolute(p));
        if ys.len() == 0 {
            lemma_split_plain(j);
            let segs = seq![Seq::<char>::empty(), Seq::<char>::empty()];
            assert(segments(p) =~= segs);
            assert(segs.drop_first().drop_first() =~= Seq::<Seq<char>>::empty());
            assert(segs.drop_first()[0].len() == 0);
            assert(segment_components(Seq::<Seq<char>>::empty(), false) =~= Seq::<Component>::empty());
            assert(segment_components(segs.drop_first(), false) =~= Seq::<Component>::empty());
            assert(segment_components(segs, false) =~= Seq::<Component>::empty());
        } else {
            lemma_split_joined(ys);
            lemma_segment_components_texts(ys, false);
            let segs = seq![Seq::<char>::empty()] + texts_of(ys);
            assert(segments(p) =~= segs);
            assert(segs.drop_first() =~= texts_of(ys));
            assert(segs[0].len() == 0);
            assert(segment_components(segs, false) == segment_components(texts_of(ys), false));
        }
        assert(x =~= seq![Component::Root] + ys);
        assert(components(p) == seq![Component::Root] + segment_components(segments(p), false));
    } else {
        assert forall|k: int| 0 <= k < x.len() implies (#[trigger] x[k] is Parent || x[k] is Normal) by {
            match x[k] {
                Component::Root => {},
                _ => {},
            }
        }
        let p = rendered(x);
        if x.len() == 0 {
            lemma_split_plain(p);
            let segs = seq![Seq::<char>::empty()];
            assert(segments(p) =~= segs);
            assert(segs.drop_first() =~= Seq::<Seq<char>>::empty());
            assert(segs[0].len() == 0);
            assert(segment_components(Seq::<Seq<char>>::empty(), false) =~= Seq::<Component>::empty());
            assert(segment_components(segs, true) =~= Seq::<Component>::empty());
            assert(!is_absolute(p));
        } else {
            lemma_split_joined(x);
            lemma_segment_components_texts(x, true);
            assert(!is_absolute(p)) by {
                if is_absolute(p) {
                    assert(split_on(p, '/')[0] == texts_of(x)[0]);
                    lemma_first_of(p, '/', 0);
                    assert(texts_of(x)[0].len() == 0);
                    match x[0] {
                        Component::Normal(n) => assert(good_name(n)),
                        _ => {},
                    }
                }
            }
        }
    }
}

proof fn lemma_split_pieces(p: Seq<char>)
    ensures
        forall|k: int| 0 <= k < split_on(p, '/').len() ==> !(#[trigger] split_on(p, '/')[k]).contains('/'),
    decreases p.len(),
{
    lemma_first_of_bounds(p, '/');
    lemma_first_of_none(p, '/');
    match first_of(p, '/') {
        Some(i) => {
            lemma_split_pieces(p.skip(i + 1));
            let r = split_on(p, '/');
            assert forall|k: int| 0 <= k < r.len() implies !(#[trigger] r[k]).contains('/') by {
                if k == 0 {
                    assert(r[0] == p.take(i));
                    if p.take(i).contains('/') {
                        let m = choose|m: int| 0 <= m < p.take(i).len() && p.take(i)[m] == '/';
                        assert(p[m] == '/');
                    }
                } else {
                    assert(r[k] == split_on(p.skip(i + 1), '/')[k - 1]);
                }
            }
        },
        None => {
            if p.contains('/') {
                let m = choose|m: int| 0 <= m < p.len() && p[m] == '/';
                assert(p[m] != '/');
            }
        },
    }
}

proof fn lemma_segment_names(segs: Seq<Seq<char>>, first: bool)
    requires
        forall|k: int| 0 <= k < segs.len() ==> !(#[trigger] segs[k]).contains('/'),
    ensures
        good_names(segment_components(segs, first)),
    decreases segs.len(),
{
    if segs.len() > 0 {
        let rest = segs.drop_first();
        assert forall|k: int| 0 <= k < rest.len() implies !(#[trigger] rest[k]).contains('/') by {
            assert(rest[k] == segs[k + 1]);
        }
        lemma_segment_names(rest, false);
        let r = segment_components(rest, false);
        let s0 = segs[0];
        let out = segment_components(segs, first);
        assert forall|k: int| 0 <= k < out.len() implies (#[trigger] out[k] matches Component::Normal(n) ==> good_name(n)) by {
            if s0.len() == 0 || (s0 == "."@ && !first) {
                assert(out[k] == r[k]);
            } else if k > 0 {
                assert(out[k] == r[k - 1]);
            }
        }
    }
}

proof fn lemma_components_names(p: Seq<char>)
    ensures
        good_names(components(p)),
{
    lemma_split_pieces(p);
    lemma_segment_names(segments(p), false);
    lemma_segment_names(segments(p), true);
    if is_absolute(p) {
        let r = segment_components(segments(p), false);
        let out = components(p);
        assert forall|k: int| 0 <= k < out.len() implies (#[trigger] out[k] matches Component::Normal(n) ==> good_name(n)) by {
            if k > 0 {
                assert(out[k] == r[k - 1]);
            }
        }
    }
}

proof fn lemma_folded_names(cs: Seq<Component>)
    requires
        good_names(cs),
    ensures
        good_names(folded(cs)),
    decreases cs.len(),
{
    if cs.len() > 0 {
        let init = cs.drop_last();
        assert forall|k: int| 0 <= k < init.len() implies (#[trigger] init[k] matches Component::Normal(n) ==> good_name(n)) by {
            assert(init[k] == cs[k]);
        }
        lemma_folded_names(init);
        let f = folded(init);
        let r = folded(cs);
        assert(cs[cs.len() - 1] == cs.last());
        assert forall|k: int| 0 <= k < r.len() implies (#[trigger] r[k] matches Component::Normal(n) ==> good_name(n)) by {
            if k < f.len() {
                match cs.last() {
                    Component::Root => {},
                    _ => {
                        assert(r[k] == f[k]);
                    },
                }
            }
        }
    }
}

/// Normalizing a normalized path changes nothing: its `.` and `..` are
/// all folded, so reading its components back and folding them again
/// gives the same path.
pub proof fn law_normalizing_twice_changes_nothing(p: Seq<char>)
    ensures
        normalized(normalized(p)) == normalized(p),
        fully_folded(components(normalized(p))),
{
    let x = folded(components(p));
    lemma_components_names(p);
    lemma_folded_names(components(p));
    law_folding_twice_changes_nothing(components(p));
    lemma_components_rendered(x);
}

} // verus!
