//! The order of paths (`Ord for Path`): component by component, where a root
//! comes before `.`, `.` before `..`, and those before names, and names compare
//! by their text (byte order of UTF-8, which is the order of code points).
use vstd::prelude::*;

use crate::path::{comps_view, components, path_components, strings_view, Comp, PathComponent};
use crate::text::chars_of;

verus! {

/// Lexicographic order of texts by code point.
pub open spec fn text_lt(a: Seq<char>, b: Seq<char>) -> bool
    decreases a.len(),
{
    if a.len() == 0 {
        b.len() > 0
    } else if b.len() == 0 {
        false
    } else if a[0] != b[0] {
        (a[0] as u32) < (b[0] as u32)
    } else {
        text_lt(a.drop_first(), b.drop_first())
    }
}

pub open spec fn comp_rank(c: Comp) -> int {
    match c {
        Comp::Root => 1,
        Comp::Cur => 2,
        Comp::Parent => 3,
        Comp::Normal(_) => 4,
    }
}

pub open spec fn comp_lt(a: Comp, b: Comp) -> bool {
    comp_rank(a) < comp_rank(b) || (a is Normal && b is Normal && text_lt(a->Normal_0, b->Normal_0))
}

/// Lexicographic order of component sequences.
pub open spec fn comps_lt(a: Seq<Comp>, b: Seq<Comp>) -> bool
    decreases a.len(),
{
    if a.len() == 0 {
        b.len() > 0
    } else if b.len() == 0 {
        false
    } else if a[0] != b[0] {
        comp_lt(a[0], b[0])
    } else {
        comps_lt(a.drop_first(), b.drop_first())
    }
}

/// `a < b` for paths.
pub open spec fn path_lt_spec(a: Seq<char>, b: Seq<char>) -> bool {
    comps_lt(components(a), components(b))
}

pub proof fn lemma_text_lt_irreflexive(a: Seq<char>)
    ensures
        !text_lt(a, a),
    decreases a.len(),
{
    if a.len() > 0 {
        lemma_text_lt_irreflexive(a.drop_first());
    }
}

pub proof fn lemma_text_lt_transitive(a: Seq<char>, b: Seq<char>, c: Seq<char>)
    requires
        text_lt(a, b),
        text_lt(b, c),
    ensures
        text_lt(a, c),
    decreases a.len(),
{
    if a.len() > 0 && b.len() > 0 && c.len() > 0 && a[0] == b[0] && b[0] == c[0] {
        lemma_text_lt_transitive(a.drop_first(), b.drop_first(), c.drop_first());
    }
}

pub proof fn lemma_comp_lt_order(a: Comp, b: Comp, c: Comp)
    ensures
        !comp_lt(a, a),
        comp_lt(a, b) && comp_lt(b, c) ==> comp_lt(a, c),
{
    if a is Normal {
        lemma_text_lt_irreflexive(a->Normal_0);
    }
    if comp_lt(a, b) && comp_lt(b, c) && a is Normal && b is Normal && c is Normal {
        lemma_text_lt_transitive(a->Normal_0, b->Normal_0, c->Normal_0);
    }
}

pub proof fn lemma_comps_lt_irreflexive(a: Seq<Comp>)
    ensures
        !comps_lt(a, a),
    decreases a.len(),
{
    if a.len() > 0 {
        lemma_comps_lt_irreflexive(a.drop_first());
    }
}

pub proof fn lemma_comps_lt_transitive(a: Seq<Comp>, b: Seq<Comp>, c: Seq<Comp>)
    requires
        comps_lt(a, b),
        comps_lt(b, c),
    ensures
        comps_lt(a, c),
    decreases a.len(),
{
    if a.len() > 0 && b.len() > 0 && c.len() > 0 {
        lemma_comp_lt_order(a[0], b[0], c[0]);
        if a[0] == b[0] && b[0] == c[0] {
            lemma_comps_lt_transitive(a.drop_first(), b.drop_first(), c.drop_first());
        } else if a[0] != b[0] && b[0] != c[0] {
            if a[0] == c[0] {
                lemma_comp_lt_order(a[0], a[0], a[0]);
                assert(comp_lt(a[0], b[0]) && comp_lt(b[0], a[0]));
                lemma_comp_lt_order(a[0], b[0], a[0]);
            }
        }
    }
}

fn text_less(a: &String, b: &String) -> (r: bool)
    ensures
        r == text_lt(a@, b@),
{
    let va = chars_of(a.as_str());
    let vb = chars_of(b.as_str());
    let mut i: usize = 0;
    assert(a@.skip(0) =~= a@);
    assert(b@.skip(0) =~= b@);
    while i < va.len() && i < vb.len() && va[i] == vb[i]
        invariant
            va@ == a@,
            vb@ == b@,
            i <= va@.len(),
            i <= vb@.len(),
            text_lt(a@, b@) == text_lt(a@.skip(i as int), b@.skip(i as int)),
        decreases va.len() - i,
    {
        assert(a@.skip(i as int).drop_first() =~= a@.skip(i + 1));
        assert(b@.skip(i as int).drop_first() =~= b@.skip(i + 1));
        i = i + 1;
    }
    if i == va.len() {
        i < vb.len()
    } else if i == vb.len() {
        false
    } else {
        assert(a@.skip(i as int)[0] == va@[i as int]);
        assert(b@.skip(i as int)[0] == vb@[i as int]);
        (va[i] as u32) < (vb[i] as u32)
    }
}

fn rank(c: &PathComponent) -> (r: u8)
    ensures
        r as int == comp_rank(c@),
{
    match c {
        PathComponent::RootDir => 1,
        PathComponent::CurDir => 2,
        PathComponent::ParentDir => 3,
        PathComponent::Normal(_) => 4,
    }
}

fn comp_less(a: &PathComponent, b: &PathComponent) -> (r: bool)
    ensures
        r == comp_lt(a@, b@),
{
    let ra = rank(a);
    let rb = rank(b);
    if ra < rb {
        return true;
    }
    match (a, b) {
        (PathComponent::Normal(x), PathComponent::Normal(y)) => text_less(x, y),
        _ => false,
    }
}

/// `a < b` for component lists.
pub fn comps_less(a: &Vec<PathComponent>, b: &Vec<PathComponent>) -> (r: bool)
    ensures
        r == comps_lt(comps_view(a@), comps_view(b@)),
{
    let ghost va = comps_view(a@);
    let ghost vb = comps_view(b@);
    let mut i: usize = 0;
    assert(va.skip(0) =~= va);
    assert(vb.skip(0) =~= vb);
    while i < a.len() && i < b.len() && a[i].same(&b[i])
        invariant
            i <= a@.len(),
            i <= b@.len(),
            va == comps_view(a@),
            vb == comps_view(b@),
            comps_lt(va, vb) == comps_lt(va.skip(i as int), vb.skip(i as int)),
        decreases a.len() - i,
    {
        assert(va.skip(i as int).drop_first() =~= va.skip(i + 1));
        assert(vb.skip(i as int).drop_first() =~= vb.skip(i + 1));
        i = i + 1;
    }
    if i == a.len() {
        i < b.len()
    } else if i == b.len() {
        false
    } else {
        assert(va.skip(i as int)[0] == va[i as int]);
        assert(vb.skip(i as int)[0] == vb[i as int]);
        comp_less(&a[i], &b[i])
    }
}

/// `a < b` for paths (`Ord for Path`).
pub fn path_less(a: &str, b: &str) -> (r: bool)
    ensures
        r == path_lt_spec(a@, b@),
{
    let ca = path_components(a);
    let cb = path_components(b);
    comps_less(&ca, &cb)
}


/// `s` is in ascending path order.
pub open spec fn paths_sorted(s: Seq<Seq<char>>) -> bool {
    forall|i: int, j: int| 0 <= i < j < s.len() ==> !path_lt_spec(#[trigger] s[j], #[trigger] s[i])
}

/// Sort paths in ascending path order (`<[PathBuf]>::sort`).
pub fn paths_sort(v: Vec<String>) -> (r: Vec<String>)
    ensures
        paths_sorted(strings_view(r@)),
        strings_view(r@).to_multiset() == strings_view(v@).to_multiset(),
{
    broadcast use vstd::seq_lib::group_to_multiset_ensures;

    let mut out: Vec<String> = Vec::new();
    let mut i: usize = 0;
    while i < v.len()
        invariant
            i <= v@.len(),
            paths_sorted(strings_view(out@)),
            strings_view(out@).to_multiset() == strings_view(v@).take(i as int).to_multiset(),
        decreases v.len() - i,
    {
        let x = &v[i];
        let mut p: usize = 0;
        while p < out.len() && !path_less(x.as_str(), out[p].as_str())
            invariant
                p <= out@.len(),
                forall|k: int| 0 <= k < p ==> !path_lt_spec(x@, #[trigger] out@[k]@),
            decreases out.len() - p,
        {
            p = p + 1;
        }
        let ghost old_view = strings_view(out@);
        out.insert(p, x.clone());
        proof {
            let nv = strings_view(out@);
            assert(nv =~= old_view.insert(p as int, x@));
            assert(strings_view(v@).take(i + 1) =~= strings_view(v@).take(i as int).push(x@));
            vstd::seq_lib::to_multiset_insert(old_view, p as int, x@);
            vstd::seq_lib::to_multiset_build(strings_view(v@).take(i as int), x@);
            assert forall|a: int, b: int| 0 <= a < b < nv.len() implies !path_lt_spec(
                #[trigger] nv[b],
                #[trigger] nv[a],
            ) by {
                if a < p && b < p {
                    assert(nv[a] == old_view[a] && nv[b] == old_view[b]);
                } else if a > p && b > p {
                    assert(nv[a] == old_view[a - 1] && nv[b] == old_view[b - 1]);
                } else if a < p && b > p {
                    assert(nv[a] == old_view[a] && nv[b] == old_view[b - 1]);
                } else if a == p {
                    let k = b - 1;
                    assert(nv[b] == old_view[k]);
                    if path_lt_spec(old_view[k], x@) {
                        assert(path_lt_spec(x@, old_view[p as int]));
                        lemma_comps_lt_transitive(
                            components(old_view[k]),
                            components(x@),
                            components(old_view[p as int]),
                        );
                        if k == p {
                            lemma_comps_lt_irreflexive(components(old_view[k]));
                        }
                    }
                } else {
                    assert(b == p);
                    assert(nv[a] == old_view[a]);
                    assert(old_view[a] == out@[a]@);
                }
            }
        }
        i = i + 1;
    }
    assert(strings_view(v@).take(v@.len() as int) =~= strings_view(v@));
    out
}

} // verus!
