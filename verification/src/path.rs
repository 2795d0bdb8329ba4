//! Paths as text, with the component semantics of `std::path::Path` on unix.
//!
//! A path is a `&str`; its meaning is the sequence of components that
//! `Path::components` yields: an optional root, an optional leading `.`,
//! then one entry per non-empty, non-`.` segment between `/` separators.
use vstd::prelude::*;

use crate::text::{
    chars_of, concat2, first_where, is_ascii_alnum, is_ascii_alpha, is_first, is_last,
    last_where, lemma_first_where, lemma_last_where, string_from_chars, trim, trim_spec,
};

verus! {

/// One component of a path, as `std::path::Component` (without the Windows prefix).
pub enum Comp {
    Root,
    Cur,
    Parent,
    Normal(Seq<char>),
}

/// The text of `s` cut at every `/`: always at least one (possibly empty) segment.
pub open spec fn split_slash(s: Seq<char>) -> Seq<Seq<char>>
    decreases s.len(),
{
    if s.len() == 0 {
        seq![Seq::empty()]
    } else {
        let r = split_slash(s.drop_last());
        if s.last() == '/' {
            r.push(Seq::empty())
        } else {
            r.update(r.len() - 1, r.last().push(s.last()))
        }
    }
}

pub proof fn lemma_split_slash_len(s: Seq<char>)
    ensures
        split_slash(s).len() >= 1,
    decreases s.len(),
{
    if s.len() > 0 {
        lemma_split_slash_len(s.drop_last());
    }
}

pub open spec fn dot() -> Seq<char> {
    seq!['.']
}

pub open spec fn dot_dot() -> Seq<char> {
    seq!['.', '.']
}

/// The component a non-empty, non-`.` segment stands for.
pub open spec fn seg_comp(g: Seq<char>) -> Comp {
    if g == dot_dot() {
        Comp::Parent
    } else {
        Comp::Normal(g)
    }
}

/// Empty and `.` segments yield no component.
pub open spec fn seg_kept(g: Seq<char>) -> bool {
    g.len() > 0 && g != dot()
}

pub open spec fn seg_comps(segs: Seq<Seq<char>>) -> Seq<Comp>
    decreases segs.len(),
{
    if segs.len() == 0 {
        Seq::empty()
    } else {
        let r = seg_comps(segs.drop_last());
        if seg_kept(segs.last()) {
            r.push(seg_comp(segs.last()))
        } else {
            r
        }
    }
}

pub open spec fn has_root(p: Seq<char>) -> bool {
    p.len() > 0 && p[0] == '/'
}

/// A relative path that is `.` or starts with `./` begins with a `CurDir` component.
pub open spec fn has_lead_cur(p: Seq<char>) -> bool {
    !has_root(p) && p.len() > 0 && p[0] == '.' && (p.len() == 1 || p[1] == '/')
}

/// `Path::components`.
pub open spec fn components(p: Seq<char>) -> Seq<Comp> {
    (if has_root(p) {
        seq![Comp::Root]
    } else {
        Seq::empty()
    }) + (if has_lead_cur(p) {
        seq![Comp::Cur]
    } else {
        Seq::empty()
    }) + seg_comps(split_slash(p))
}

/// The text a component contributes when a path is built from components.
pub open spec fn comp_text(c: Comp) -> Seq<char> {
    match c {
        Comp::Root => seq!['/'],
        Comp::Cur => dot(),
        Comp::Parent => dot_dot(),
        Comp::Normal(n) => n,
    }
}

/// The path `PathBuf::push` builds from `cs`, one component at a time.
pub open spec fn render(cs: Seq<Comp>) -> Seq<char>
    decreases cs.len(),
{
    if cs.len() == 0 {
        Seq::empty()
    } else {
        let r = render(cs.drop_last());
        let t = comp_text(cs.last());
        if r.len() == 0 || r.last() == '/' {
            r + t
        } else {
            r + seq!['/'] + t
        }
    }
}

/// Executable path component.
pub enum PathComponent {
    RootDir,
    CurDir,
    ParentDir,
    Normal(String),
}

impl View for PathComponent {
    type V = Comp;

    open spec fn view(&self) -> Comp {
        match self {
            PathComponent::RootDir => Comp::Root,
            PathComponent::CurDir => Comp::Cur,
            PathComponent::ParentDir => Comp::Parent,
            PathComponent::Normal(s) => Comp::Normal(s@),
        }
    }
}

pub open spec fn comps_view(v: Seq<PathComponent>) -> Seq<Comp> {
    v.map_values(|c: PathComponent| c@)
}

proof fn lemma_seg_kept(v: Seq<char>, from: int, to: int)
    requires
        0 <= from < to <= v.len(),
        !(to - from == 1 && v[from] == '.'),
    ensures
        seg_kept(v.subrange(from, to)),
{
    if v.subrange(from, to) == dot() {
        assert(v.subrange(from, to).len() == 1);
        assert(v.subrange(from, to)[0] == '.');
    }
}

fn segment_component(v: &Vec<char>, from: usize, to: usize) -> (c: PathComponent)
    requires
        from <= to <= v@.len(),
        seg_kept(v@.subrange(from as int, to as int)),
    ensures
        c@ == seg_comp(v@.subrange(from as int, to as int)),
{
    if to - from == 2 && v[from] == '.' && v[from + 1] == '.' {
        assert(v@.subrange(from as int, to as int) =~= dot_dot());
        PathComponent::ParentDir
    } else {
        let s = string_from_chars(v.as_slice(), from, to);
        assert(v@.subrange(from as int, to as int) != dot_dot()) by {
            if v@.subrange(from as int, to as int) == dot_dot() {
                assert(v@.subrange(from as int, to as int)[0] == '.');
                assert(v@.subrange(from as int, to as int)[1] == '.');
            }
        }
        PathComponent::Normal(s)
    }
}

/// `Path::components`.
pub fn path_components(p: &str) -> (out: Vec<PathComponent>)
    ensures
        comps_view(out@) == components(p@),
{
    let v = chars_of(p);
    let n = v.len();
    let root = n > 0 && v[0] == '/';
    let lead_cur = !root && n > 0 && v[0] == '.' && (n == 1 || v[1] == '/');
    let mut out: Vec<PathComponent> = Vec::new();
    if root {
        out.push(PathComponent::RootDir);
    }
    if lead_cur {
        out.push(PathComponent::CurDir);
    }
    let ghost head = comps_view(out@);
    assert(head =~= (if has_root(p@) {
        seq![Comp::Root]
    } else {
        Seq::<Comp>::empty()
    }) + (if has_lead_cur(p@) {
        seq![Comp::Cur]
    } else {
        Seq::<Comp>::empty()
    }));
    let mut start: usize = 0;
    let mut i: usize = 0;
    while i < n
        invariant
            v@ == p@,
            n == v@.len(),
            start <= i <= n,
            split_slash(v@.take(i as int)).len() >= 1,
            split_slash(v@.take(i as int)).last() == v@.subrange(start as int, i as int),
            comps_view(out@) == head + seg_comps(split_slash(v@.take(i as int)).drop_last()),
        decreases n - i,
    {
        let ghost before = split_slash(v@.take(i as int));
        assert(v@.take(i + 1).drop_last() =~= v@.take(i as int));
        if v[i] == '/' {
            let ghost segs_after = split_slash(v@.take(i + 1));
            assert(segs_after == before.push(Seq::empty()));
            assert(segs_after.drop_last() =~= before);
            let ghost old_view = comps_view(out@);
            if i > start && !(i - start == 1 && v[start] == '.') {
                proof { lemma_seg_kept(v@, start as int, i as int); }
                let c = segment_component(&v, start, i);
                out.push(c);
                assert(comps_view(out@) =~= old_view.push(c@));
            } else {
                assert(!seg_kept(v@.subrange(start as int, i as int))) by {
                    if i - start == 1 {
                        assert(v@.subrange(start as int, i as int) =~= dot());
                    }
                }
            }
            assert(comps_view(out@) =~= head + seg_comps(before)) by {
                assert(before.drop_last() + seq![before.last()] =~= before);
            }
            start = i + 1;
        } else {
            let ghost segs_after = split_slash(v@.take(i + 1));
            assert(segs_after.drop_last() =~= before.drop_last());
        }
        i = i + 1;
        assert(split_slash(v@.take(i as int)).last() =~= v@.subrange(start as int, i as int));
    }
    assert(v@.take(n as int) =~= v@);
    let ghost segs = split_slash(p@);
    let ghost old_view = comps_view(out@);
    if n > start && !(n - start == 1 && v[start] == '.') {
        proof { lemma_seg_kept(v@, start as int, n as int); }
        let c = segment_component(&v, start, n);
        out.push(c);
        assert(comps_view(out@) =~= old_view.push(c@));
    } else {
        assert(!seg_kept(v@.subrange(start as int, n as int))) by {
            if n - start == 1 {
                assert(v@.subrange(start as int, n as int) =~= dot());
            }
        }
    }
    assert(segs.drop_last() + seq![segs.last()] =~= segs);
    assert(comps_view(out@) =~= components(p@));
    out
}


impl PathComponent {
    pub fn copy(&self) -> (r: PathComponent)
        ensures
            r@ == self@,
    {
        match self {
            PathComponent::RootDir => PathComponent::RootDir,
            PathComponent::CurDir => PathComponent::CurDir,
            PathComponent::ParentDir => PathComponent::ParentDir,
            PathComponent::Normal(s) => PathComponent::Normal(s.clone()),
        }
    }

    pub fn same(&self, other: &PathComponent) -> (r: bool)
        ensures
            r == (self@ == other@),
    {
        match (self, other) {
            (PathComponent::RootDir, PathComponent::RootDir) => true,
            (PathComponent::CurDir, PathComponent::CurDir) => true,
            (PathComponent::ParentDir, PathComponent::ParentDir) => true,
            (PathComponent::Normal(a), PathComponent::Normal(b)) => {
                let e = a.eq(b);
                proof {
                    if e {
                        assert(self@ == Comp::Normal(a@));
                    } else {
                        assert(a@ != b@);
                    }
                }
                e
            },
            _ => false,
        }
    }

    pub fn text(&self) -> (r: String)
        ensures
            r@ == comp_text(self@),
    {
        match self {
            PathComponent::RootDir => {
                let r = String::from_str("/");
                proof {
                    reveal_strlit("/");
                }
                r
            },
            PathComponent::CurDir => {
                let r = String::from_str(".");
                proof {
                    reveal_strlit(".");
                }
                assert(r@ =~= dot());
                r
            },
            PathComponent::ParentDir => {
                let r = String::from_str("..");
                proof {
                    reveal_strlit("..");
                }
                assert(r@ =~= dot_dot());
                r
            },
            PathComponent::Normal(s) => s.clone(),
        }
    }
}

/// `is_prefix(a, b)`: `b` begins with `a`.
pub open spec fn is_prefix<A>(a: Seq<A>, b: Seq<A>) -> bool {
    a.len() <= b.len() && b.take(a.len() as int) == a
}

/// Whether the components `base` are a prefix of `cs` (`Path::starts_with`).
pub fn comps_start_with(cs: &Vec<PathComponent>, base: &Vec<PathComponent>) -> (r: bool)
    ensures
        r == is_prefix(comps_view(base@), comps_view(cs@)),
{
    if base.len() > cs.len() {
        return false;
    }
    let mut i: usize = 0;
    while i < base.len()
        invariant
            base@.len() <= cs@.len(),
            i <= base@.len(),
            forall|j: int| 0 <= j < i ==> (#[trigger] cs@[j])@ == base@[j]@,
        decreases base.len() - i,
    {
        if !cs[i].same(&base[i]) {
            assert(comps_view(cs@).take(base@.len() as int)[i as int] != comps_view(base@)[i as int]);
            return false;
        }
        i = i + 1;
    }
    assert(comps_view(cs@).take(base@.len() as int) =~= comps_view(base@));
    true
}

/// Whether two component lists are equal (`Path::eq`).
pub fn comps_equal(a: &Vec<PathComponent>, b: &Vec<PathComponent>) -> (r: bool)
    ensures
        r == (comps_view(a@) == comps_view(b@)),
{
    if a.len() != b.len() {
        assert(comps_view(a@).len() != comps_view(b@).len());
        return false;
    }
    let r = comps_start_with(a, b);
    proof {
        if r {
            assert(comps_view(a@).take(b@.len() as int) =~= comps_view(a@));
        } else {
            if comps_view(a@) == comps_view(b@) {
                assert(comps_view(a@).take(b@.len() as int) =~= comps_view(b@));
            }
        }
    }
    r
}

/// `Path::starts_with`: the components of `base` are a prefix of those of `p`.
pub open spec fn path_starts_with_spec(p: Seq<char>, base: Seq<char>) -> bool {
    is_prefix(components(base), components(p))
}

pub fn path_starts_with(p: &str, base: &str) -> (r: bool)
    ensures
        r == path_starts_with_spec(p@, base@),
{
    let a = path_components(p);
    let b = path_components(base);
    comps_start_with(&a, &b)
}

/// `Path::eq`: the two paths have the same components.
pub fn path_eq(p: &str, q: &str) -> (r: bool)
    ensures
        r == (components(p@) == components(q@)),
{
    let a = path_components(p);
    let b = path_components(q);
    comps_equal(&a, &b)
}

/// Whether the text built so far needs a `/` before the next component.
pub open spec fn needs_sep(r: Seq<char>) -> bool {
    r.len() > 0 && r.last() != '/'
}

fn last_char_is_slash(s: &String) -> (b: bool)
    requires
        s@.len() > 0,
    ensures
        b == (s@.last() == '/'),
{
    let n = s.as_str().unicode_len();
    s.as_str().get_char(n - 1) == '/'
}

/// The path built by pushing `cs` one after another onto an empty `PathBuf`.
pub fn path_render(cs: &Vec<PathComponent>) -> (r: String)
    ensures
        r@ == render(comps_view(cs@)),
{
    let mut r = String::new();
    let mut sep = false;
    let mut i: usize = 0;
    while i < cs.len()
        invariant
            i <= cs@.len(),
            r@ == render(comps_view(cs@).take(i as int)),
            sep == needs_sep(r@),
        decreases cs.len() - i,
    {
        let t = cs[i].text();
        let ghost prev = r@;
        assert(comps_view(cs@).take(i + 1).drop_last() =~= comps_view(cs@).take(i as int));
        if sep {
            r.append("/");
            proof {
                reveal_strlit("/");
            }
        }
        r.append(t.as_str());
        if t.as_str().unicode_len() > 0 {
            sep = !last_char_is_slash(&t);
            assert(r@.last() == t@.last());
        } else {
            assert(r@ =~= prev + (if needs_sep(prev) { seq!['/'] } else { Seq::empty() }));
            sep = false;
        }
        i = i + 1;
        assert(r@ =~= render(comps_view(cs@).take(i as int)));
    }
    assert(comps_view(cs@).take(cs@.len() as int) =~= comps_view(cs@));
    r
}

/// `PathBuf::push` for one component after another, resolving `.` and `..` the
/// way `path_normalize` does: `.` is dropped and `..` pops the last normal component.
pub open spec fn normalize_comps(cs: Seq<Comp>) -> Seq<Comp>
    decreases cs.len(),
{
    if cs.len() == 0 {
        Seq::empty()
    } else {
        let r = normalize_comps(cs.drop_last());
        match cs.last() {
            Comp::Root => seq![Comp::Root],
            Comp::Cur => r,
            Comp::Parent => if r.len() > 0 && r.last() is Normal {
                r.drop_last()
            } else {
                r
            },
            Comp::Normal(n) => r.push(Comp::Normal(n)),
        }
    }
}

pub fn normalize_components(cs: &Vec<PathComponent>) -> (out: Vec<PathComponent>)
    ensures
        comps_view(out@) == normalize_comps(comps_view(cs@)),
{
    let mut out: Vec<PathComponent> = Vec::new();
    let mut i: usize = 0;
    while i < cs.len()
        invariant
            i <= cs@.len(),
            comps_view(out@) == normalize_comps(comps_view(cs@).take(i as int)),
        decreases cs.len() - i,
    {
        assert(comps_view(cs@).take(i + 1).drop_last() =~= comps_view(cs@).take(i as int));
        let ghost prev = comps_view(out@);
        match &cs[i] {
            PathComponent::RootDir => {
                out = Vec::new();
                out.push(PathComponent::RootDir);
                assert(comps_view(out@) =~= seq![Comp::Root]);
            },
            PathComponent::CurDir => {},
            PathComponent::ParentDir => {
                let n = out.len();
                if n > 0 {
                    let is_normal = match &out[n - 1] {
                        PathComponent::Normal(_) => true,
                        _ => false,
                    };
                    if is_normal {
                        out.pop();
                        assert(comps_view(out@) =~= prev.drop_last());
                    }
                }
            },
            PathComponent::Normal(s) => {
                let c = PathComponent::Normal(s.clone());
                out.push(c);
                assert(comps_view(out@) =~= prev.push(cs@[i as int]@));
            },
        }
        i = i + 1;
    }
    assert(comps_view(cs@).take(cs@.len() as int) =~= comps_view(cs@));
    out
}

/// The text of `p` with `.` and `..` resolved.
pub open spec fn path_normalize_spec(p: Seq<char>) -> Seq<char> {
    render(normalize_comps(components(p)))
}

/// Clean a path: resolve `.` and `..`.
pub fn path_normalize(p: &str) -> (r: String)
    ensures
        r@ == path_normalize_spec(p@),
{
    let cs = path_components(p);
    let n = normalize_components(&cs);
    path_render(&n)
}

/// A component name as `Path::components` yields it: not empty, not `.` or `..`, no `/`.
pub open spec fn is_name(n: Seq<char>) -> bool {
    &&& n.len() > 0
    &&& n != dot()
    &&& n != dot_dot()
    &&& forall|i: int| 0 <= i < n.len() ==> #[trigger] n[i] != '/'
}

pub open spec fn names_ok(cs: Seq<Comp>) -> bool {
    forall|i: int| 0 <= i < cs.len() ==> (#[trigger] cs[i] matches Comp::Normal(n) ==> is_name(n))
}

/// What `path_normalize` yields: an optional leading root, then names only.
pub open spec fn is_normal_form(cs: Seq<Comp>) -> bool {
    &&& names_ok(cs)
    &&& forall|i: int| 0 <= i < cs.len() ==> (#[trigger] cs[i] is Root ==> i == 0)
    &&& forall|i: int| 0 <= i < cs.len() ==> !(#[trigger] cs[i] is Cur) && !(cs[i] is Parent)
}

proof fn lemma_split_slash_concat(a: Seq<char>, b: Seq<char>)
    ensures
        split_slash(a + seq!['/'] + b) == split_slash(a) + split_slash(b),
    decreases b.len(),
{
    let s = a + seq!['/'] + b;
    if b.len() == 0 {
        assert(s.drop_last() =~= a);
        assert(split_slash(a).push(Seq::empty()) =~= split_slash(a) + split_slash(b));
    } else {
        let b0 = b.drop_last();
        lemma_split_slash_concat(a, b0);
        assert(s.drop_last() =~= a + seq!['/'] + b0);
        lemma_split_slash_len(b0);
        let sa = split_slash(a);
        let sb = split_slash(b0);
        if b.last() == '/' {
            assert((sa + sb).push(Seq::empty()) =~= sa + sb.push(Seq::empty()));
        } else {
            let r = sa + sb;
            assert(r.update(r.len() - 1, r.last().push(b.last())) =~= sa + sb.update(
                sb.len() - 1,
                sb.last().push(b.last()),
            ));
        }
    }
}

proof fn lemma_split_slash_plain(t: Seq<char>)
    requires
        forall|i: int| 0 <= i < t.len() ==> #[trigger] t[i] != '/',
    ensures
        split_slash(t) == seq![t],
    decreases t.len(),
{
    if t.len() > 0 {
        let t0 = t.drop_last();
        lemma_split_slash_plain(t0);
        assert(t[t.len() - 1] != '/');
        assert(seq![t0].last() == t0);
        assert(t0.push(t.last()) =~= t);
        assert(split_slash(t) == split_slash(t0).update(0, t0.push(t.last())));
        assert(seq![t0].update(0, t0.push(t.last())) =~= seq![t]);
    } else {
        assert(t =~= Seq::<char>::empty());
    }
}

proof fn lemma_split_slash_no_sep(s: Seq<char>)
    ensures
        forall|i: int, j: int|
            0 <= i < split_slash(s).len() && 0 <= j < split_slash(s)[i].len()
                ==> #[trigger] split_slash(s)[i][j] != '/',
    decreases s.len(),
{
    if s.len() > 0 {
        lemma_split_slash_no_sep(s.drop_last());
        lemma_split_slash_len(s.drop_last());
        let r = split_slash(s.drop_last());
        if s.last() != '/' {
            let r2 = r.update(r.len() - 1, r.last().push(s.last()));
            assert forall|i: int, j: int| 0 <= i < r2.len() && 0 <= j < r2[i].len() implies #[trigger] r2[i][j] != '/' by {
                if i == r.len() - 1 && j < r.last().len() {
                    assert(r2[i][j] == r[i][j]);
                }
            }
        }
    }
}

proof fn lemma_seg_comps_concat(x: Seq<Seq<char>>, y: Seq<Seq<char>>)
    ensures
        seg_comps(x + y) == seg_comps(x) + seg_comps(y),
    decreases y.len(),
{
    if y.len() == 0 {
        assert(x + y =~= x);
        assert(seg_comps(x) + seg_comps(y) =~= seg_comps(x));
    } else {
        lemma_seg_comps_concat(x, y.drop_last());
        assert((x + y).drop_last() =~= x + y.drop_last());
        assert((x + y).last() == y.last());
        if seg_kept(y.last()) {
            assert((seg_comps(x) + seg_comps(y.drop_last())).push(seg_comp(y.last())) =~= seg_comps(
                x,
            ) + seg_comps(y.drop_last()).push(seg_comp(y.last())));
        }
    }
}

proof fn lemma_seg_comps_names(segs: Seq<Seq<char>>)
    requires
        forall|i: int, j: int|
            0 <= i < segs.len() && 0 <= j < segs[i].len() ==> #[trigger] segs[i][j] != '/',
    ensures
        names_ok(seg_comps(segs)),
        forall|i: int| 0 <= i < seg_comps(segs).len() ==> !(#[trigger] seg_comps(segs)[i] is Root),
        forall|i: int| 0 <= i < seg_comps(segs).len() ==> !(#[trigger] seg_comps(segs)[i] is Cur),
    decreases segs.len(),
{
    if segs.len() > 0 {
        let g = segs.last();
        assert forall|i: int, j: int|
            0 <= i < segs.drop_last().len() && 0 <= j < segs.drop_last()[i].len()
                implies #[trigger] segs.drop_last()[i][j] != '/' by {
            assert(segs.drop_last()[i] == segs[i]);
        }
        lemma_seg_comps_names(segs.drop_last());
        assert forall|j: int| 0 <= j < g.len() implies #[trigger] g[j] != '/' by {
            assert(segs[segs.len() - 1][j] != '/');
        }
    }
}

proof fn lemma_components_names(p: Seq<char>)
    ensures
        names_ok(components(p)),
        forall|i: int| 0 <= i < components(p).len() && #[trigger] components(p)[i] is Root ==> i == 0,
        forall|i: int| 0 <= i < components(p).len() && #[trigger] components(p)[i] is Cur ==> i == 0,
{
    lemma_split_slash_no_sep(p);
    lemma_seg_comps_names(split_slash(p));
    let head = (if has_root(p) {
        seq![Comp::Root]
    } else {
        Seq::empty()
    }) + (if has_lead_cur(p) {
        seq![Comp::Cur]
    } else {
        Seq::empty()
    });
    let tail = seg_comps(split_slash(p));
    assert forall|i: int| 0 <= i < components(p).len() implies (#[trigger] components(p)[i] matches Comp::Normal(n) ==> is_name(n)) by {
        if i >= head.len() {
            assert(components(p)[i] == tail[i - head.len()]);
        }
    }
    assert forall|i: int| 0 <= i < components(p).len() && #[trigger] components(p)[i] is Root implies i == 0 by {
        if i >= head.len() {
            assert(components(p)[i] == tail[i - head.len()]);
        }
    }
    assert forall|i: int| 0 <= i < components(p).len() && #[trigger] components(p)[i] is Cur implies i == 0 by {
        if i >= head.len() {
            assert(components(p)[i] == tail[i - head.len()]);
        }
    }
}

proof fn lemma_normalize_normal_form(cs: Seq<Comp>)
    requires
        names_ok(cs),
    ensures
        is_normal_form(normalize_comps(cs)),
    decreases cs.len(),
{
    if cs.len() > 0 {
        let c0 = cs.drop_last();
        assert forall|i: int| 0 <= i < c0.len() implies (#[trigger] c0[i] matches Comp::Normal(n) ==> is_name(n)) by {
            assert(c0[i] == cs[i]);
        }
        lemma_normalize_normal_form(c0);
        let r = normalize_comps(c0);
        let out = normalize_comps(cs);
        match cs.last() {
            Comp::Parent => {
                if r.len() > 0 && r.last() is Normal {
                    assert forall|i: int| 0 <= i < out.len() implies #[trigger] out[i] == r[i] by {}
                }
            },
            Comp::Normal(n) => {
                assert(cs[cs.len() - 1] == cs.last());
                assert forall|i: int| 0 <= i < r.len() implies #[trigger] out[i] == r[i] by {}
            },
            _ => {},
        }
    }
}

proof fn lemma_normal_form_fixed(cs: Seq<Comp>)
    requires
        is_normal_form(cs),
    ensures
        normalize_comps(cs) == cs,
    decreases cs.len(),
{
    if cs.len() > 0 {
        let c0 = cs.drop_last();
        assert forall|i: int| 0 <= i < c0.len() implies (#[trigger] c0[i] matches Comp::Normal(n) ==> is_name(n)) by {
            assert(c0[i] == cs[i]);
        }
        assert forall|i: int| 0 <= i < c0.len() && #[trigger] c0[i] is Root implies i == 0 by {
            assert(c0[i] == cs[i]);
        }
        assert forall|i: int| 0 <= i < c0.len() implies !(#[trigger] c0[i] is Cur) && !(c0[i] is Parent) by {
            assert(c0[i] == cs[i]);
        }
        lemma_normal_form_fixed(c0);
        assert(cs[cs.len() - 1] == cs.last());
        if cs.last() is Root {
            assert(cs =~= seq![Comp::Root]);
        } else {
            assert(c0.push(cs.last()) =~= cs);
        }
    }
}

/// Components that `components` gives back from their rendering: names and
/// `..`, after an optional leading root.
pub open spec fn renders_back(cs: Seq<Comp>) -> bool {
    &&& names_ok(cs)
    &&& forall|i: int| 0 <= i < cs.len() && #[trigger] cs[i] is Root ==> i == 0
    &&& forall|i: int| 0 <= i < cs.len() ==> !(#[trigger] cs[i] is Cur)
}

proof fn lemma_seg_text(c: Comp)
    requires
        c is Parent || (c matches Comp::Normal(n) && is_name(n)),
    ensures
        seg_kept(comp_text(c)),
        seg_comp(comp_text(c)) == c,
        forall|i: int| 0 <= i < comp_text(c).len() ==> #[trigger] comp_text(c)[i] != '/',
        seg_comps(seq![comp_text(c)]) == seq![c],
        !has_root(comp_text(c)),
        !has_lead_cur(comp_text(c)),
{
    let t = comp_text(c);
    if c is Parent {
        assert(t == dot_dot());
        assert(t[0] == '.' && t[1] == '.');
        assert(t != dot()) by {
            assert(dot().len() == 1);
        }
    } else {
        if t.len() == 1 && t[0] == '.' {
            assert(t =~= dot());
        }
    }
    assert(seg_comps(seq![t]) =~= seq![c]) by {
        reveal_with_fuel(seg_comps, 2);
        assert(seq![t].drop_last() =~= Seq::<Seq<char>>::empty());
        assert(seq![t].last() == t);
    }
}

proof fn lemma_render_components(cs: Seq<Comp>)
    requires
        renders_back(cs),
    ensures
        components(render(cs)) == cs,
        cs.len() > 0 && !(cs.last() is Root) ==> render(cs).len() > 0 && render(cs).last() != '/',
    decreases cs.len(),
{
    if cs.len() == 0 {
        assert(split_slash(Seq::<char>::empty()) == seq![Seq::<char>::empty()]);
        assert(seg_comps(seq![Seq::<char>::empty()]) =~= Seq::<Comp>::empty()) by {
            reveal_with_fuel(seg_comps, 2);
            assert(seq![Seq::<char>::empty()].drop_last() =~= Seq::<Seq<char>>::empty());
            assert(seq![Seq::<char>::empty()].last() == Seq::<char>::empty());
        }
        assert(components(Seq::empty()) =~= Seq::<Comp>::empty());
    } else {
        let c0 = cs.drop_last();
        assert(cs[cs.len() - 1] == cs.last());
        assert forall|i: int| 0 <= i < c0.len() implies (#[trigger] c0[i] matches Comp::Normal(n) ==> is_name(n)) by {
            assert(c0[i] == cs[i]);
        }
        assert forall|i: int| 0 <= i < c0.len() && #[trigger] c0[i] is Root implies i == 0 by {
            assert(c0[i] == cs[i]);
        }
        assert forall|i: int| 0 <= i < c0.len() implies !(#[trigger] c0[i] is Cur) by {
            assert(c0[i] == cs[i]);
        }
        lemma_render_components(c0);
        let r = render(c0);
        if cs.last() is Root {
            assert(cs.len() == 1);
            assert(r =~= Seq::<char>::empty());
            let t = seq!['/'];
            assert(render(cs) =~= t);
            assert(t =~= Seq::<char>::empty() + seq!['/'] + Seq::<char>::empty());
            lemma_split_slash_concat(Seq::<char>::empty(), Seq::<char>::empty());
            assert(split_slash(Seq::<char>::empty()) == seq![Seq::<char>::empty()]);
            assert(seg_comps(seq![Seq::<char>::empty(), Seq::<char>::empty()]) =~= Seq::<Comp>::empty()) by {
                reveal_with_fuel(seg_comps, 3);
                assert(seq![Seq::<char>::empty(), Seq::<char>::empty()].drop_last() =~= seq![Seq::<char>::empty()]);
                assert(seq![Seq::<char>::empty()].drop_last() =~= Seq::<Seq<char>>::empty());
            }
            assert(seq![Seq::<char>::empty()] + seq![Seq::<char>::empty()] =~= seq![Seq::<char>::empty(), Seq::<char>::empty()]);
            assert(components(t) =~= seq![Comp::Root]);
        } else {
            let c = cs.last();
            assert(c is Parent || (c matches Comp::Normal(n) && is_name(n)));
            let t = comp_text(c);
            lemma_seg_text(c);
            lemma_split_slash_plain(t);
            if c0.len() == 0 {
                assert(r =~= Seq::<char>::empty());
                assert(render(cs) =~= t);
                assert(components(t) =~= seq![c]);
            } else if c0.last() is Root {
                assert(c0[0] is Root);
                assert(c0 =~= seq![Comp::Root]);
                assert(r =~= seq!['/']) by {
                    assert(c0.drop_last() =~= Seq::<Comp>::empty());
                    assert(render(Seq::<Comp>::empty()) =~= Seq::<char>::empty());
                    assert(c0.last() == Comp::Root);
                    assert(comp_text(Comp::Root) =~= seq!['/']);
                    assert(Seq::<char>::empty() + seq!['/'] =~= seq!['/']);
                }
                let s = seq!['/'] + t;
                assert(render(cs) =~= s);
                assert(s =~= Seq::<char>::empty() + seq!['/'] + t);
                lemma_split_slash_concat(Seq::<char>::empty(), t);
                lemma_seg_comps_concat(seq![Seq::<char>::empty()], seq![t]);
                assert(seg_comps(seq![Seq::<char>::empty()]) =~= Seq::<Comp>::empty()) by {
                    reveal_with_fuel(seg_comps, 2);
                    assert(seq![Seq::<char>::empty()].drop_last() =~= Seq::<Seq<char>>::empty());
                    assert(seq![Seq::<char>::empty()].last() == Seq::<char>::empty());
                }
                assert(components(s) =~= cs);
            } else {
                let s = r + seq!['/'] + t;
                assert(render(cs) == s);
                lemma_split_slash_concat(r, t);
                lemma_seg_comps_concat(split_slash(r), seq![t]);
                assert(has_root(s) == has_root(r));
                assert(has_lead_cur(s) == has_lead_cur(r)) by {
                    if r.len() > 1 {
                        assert(s[1] == r[1]);
                    }
                    assert(s[0] == r[0]);
                }
                assert(components(s) =~= components(r) + seq![c]);
                assert(c0.push(c) =~= cs);
            }
            assert(render(cs).last() == t.last());
            assert(t[t.len() - 1] != '/');
        }
    }
}

proof fn lemma_normal_form_renders_back(cs: Seq<Comp>)
    requires
        is_normal_form(cs),
    ensures
        renders_back(cs),
{
}

/// A normalized path holds no `.` or `..` component, and a root only in front.
pub proof fn lemma_normalize_no_dots(p: Seq<char>)
    ensures
        forall|i: int|
            0 <= i < components(path_normalize_spec(p)).len() ==> !(#[trigger] components(
                path_normalize_spec(p),
            )[i] is Cur) && !(components(path_normalize_spec(p))[i] is Parent),
        forall|i: int|
            0 <= i < components(path_normalize_spec(p)).len() && #[trigger] components(
                path_normalize_spec(p),
            )[i] is Root ==> i == 0,
{
    lemma_components_names(p);
    let cs = normalize_comps(components(p));
    lemma_normalize_normal_form(components(p));
    lemma_normal_form_renders_back(cs);
    lemma_render_components(cs);
}

/// Normalizing a normalized path changes nothing.
pub proof fn lemma_normalize_idempotent(p: Seq<char>)
    ensures
        path_normalize_spec(path_normalize_spec(p)) == path_normalize_spec(p),
{
    lemma_components_names(p);
    let cs = normalize_comps(components(p));
    lemma_normalize_normal_form(components(p));
    lemma_normal_form_renders_back(cs);
    lemma_render_components(cs);
    lemma_normal_form_fixed(cs);
}


/// `Path::join` (`PathBuf::push`): an absolute `b` replaces `a`; otherwise `b`
/// is appended, with a `/` between them unless `a` is empty or already ends with one.
pub open spec fn join_spec(a: Seq<char>, b: Seq<char>) -> Seq<char> {
    if has_root(b) {
        b
    } else if needs_sep(a) {
        a + seq!['/'] + b
    } else {
        a + b
    }
}

pub fn path_join(a: &str, b: &str) -> (r: String)
    ensures
        r@ == join_spec(a@, b@),
{
    let nb = b.unicode_len();
    if nb > 0 && b.get_char(0) == '/' {
        return b.to_owned();
    }
    let na = a.unicode_len();
    let mut r = a.to_owned();
    if na > 0 && a.get_char(na - 1) != '/' {
        r.append("/");
        proof {
            reveal_strlit("/");
        }
    }
    r.append(b);
    r
}

proof fn lemma_join_components(a: Seq<char>, rest: Seq<Comp>)
    requires
        renders_back(rest),
        forall|i: int| 0 <= i < rest.len() ==> !(#[trigger] rest[i] is Root),
    ensures
        components(join_spec(a, render(rest))) == components(a) + rest,
{
    let r = render(rest);
    lemma_render_components(rest);
    lemma_split_slash_no_sep(r);
    assert(!has_root(r)) by {
        if has_root(r) {
            assert(components(r)[0] == Comp::Root);
            assert(!(rest[0] is Root));
        }
    }
    assert(!has_lead_cur(r)) by {
        if has_lead_cur(r) {
            assert(components(r)[0] == Comp::Cur);
            assert(!(rest[0] is Cur));
        }
    }
    assert(seg_comps(split_slash(r)) == rest) by {
        assert(components(r) =~= seg_comps(split_slash(r)));
    }
    let head = (if has_root(a) {
        seq![Comp::Root]
    } else {
        Seq::empty()
    }) + (if has_lead_cur(a) {
        seq![Comp::Cur]
    } else {
        Seq::empty()
    });
    if needs_sep(a) {
        let s = a + seq!['/'] + r;
        lemma_split_slash_concat(a, r);
        lemma_seg_comps_concat(split_slash(a), split_slash(r));
        assert(has_root(s) == has_root(a));
        assert(has_lead_cur(s) == has_lead_cur(a)) by {
            if a.len() > 1 {
                assert(s[1] == a[1]);
            }
            assert(s[0] == a[0]);
        }
        assert(components(s) =~= components(a) + rest);
    } else if a.len() == 0 {
        assert(a + r =~= r);
        assert(components(a) =~= Seq::<Comp>::empty()) by {
            assert(split_slash(a) == seq![Seq::<char>::empty()]);
            assert(seg_comps(seq![Seq::<char>::empty()]) =~= Seq::<Comp>::empty()) by {
                reveal_with_fuel(seg_comps, 2);
                assert(seq![Seq::<char>::empty()].drop_last() =~= Seq::<Seq<char>>::empty());
                assert(seq![Seq::<char>::empty()].last() == Seq::<char>::empty());
            }
        }
        assert(components(a + r) =~= components(a) + rest);
    } else {
        let a0 = a.drop_last();
        let s = a + r;
        assert(a =~= a0 + seq!['/'] + Seq::<char>::empty());
        assert(s =~= a0 + seq!['/'] + r);
        lemma_split_slash_concat(a0, r);
        lemma_split_slash_concat(a0, Seq::<char>::empty());
        assert(split_slash(Seq::<char>::empty()) == seq![Seq::<char>::empty()]);
        lemma_seg_comps_concat(split_slash(a0), split_slash(r));
        lemma_seg_comps_concat(split_slash(a0), seq![Seq::<char>::empty()]);
        assert(seg_comps(seq![Seq::<char>::empty()]) =~= Seq::<Comp>::empty()) by {
            reveal_with_fuel(seg_comps, 2);
            assert(seq![Seq::<char>::empty()].drop_last() =~= Seq::<Seq<char>>::empty());
            assert(seq![Seq::<char>::empty()].last() == Seq::<char>::empty());
        }
        assert(has_root(s) == has_root(a)) by {
            assert(s[0] == a[0]);
        }
        assert(has_lead_cur(s) == has_lead_cur(a)) by {
            if a.len() > 1 {
                assert(s[1] == a[1]);
            }
            assert(s[0] == a[0]);
        }
        assert(seg_comps(split_slash(a0)) + Seq::<Comp>::empty() =~= seg_comps(split_slash(a0)));
        assert(components(s) =~= components(a) + rest);
    }
}

/// The components of a path, without a leading `.` one.
pub open spec fn drop_cur(cs: Seq<Comp>) -> Seq<Comp> {
    if cs.len() > 0 && cs[0] is Cur {
        cs.drop_first()
    } else {
        cs
    }
}

proof fn lemma_drop_cur_concat(x: Seq<Comp>, y: Seq<Comp>)
    requires
        forall|i: int| 0 <= i < y.len() ==> !(#[trigger] y[i] is Cur),
    ensures
        drop_cur(x + y) == drop_cur(x) + y,
{
    if x.len() > 0 {
        assert((x + y)[0] == x[0]);
        if x[0] is Cur {
            assert((x + y).drop_first() =~= x.drop_first() + y);
        }
    } else {
        assert(x + y =~= y);
        assert(drop_cur(x) =~= x);
        if y.len() > 0 {
            assert(!(y[0] is Cur));
        }
        assert(Seq::<Comp>::empty() + y =~= y);
    }
}

proof fn lemma_seg_no_cur(r: Seq<char>)
    ensures
        forall|i: int| 0 <= i < seg_comps(split_slash(r)).len() ==> !(#[trigger] seg_comps(split_slash(r))[i] is Cur),
        forall|i: int| 0 <= i < seg_comps(split_slash(r)).len() ==> !(#[trigger] seg_comps(split_slash(r))[i] is Root),
        !has_root(r) ==> drop_cur(components(r)) == seg_comps(split_slash(r)),
{
    lemma_split_slash_no_sep(r);
    lemma_seg_comps_names(split_slash(r));
    let seg = seg_comps(split_slash(r));
    if !has_root(r) {
        if has_lead_cur(r) {
            assert(components(r) =~= seq![Comp::Cur] + seg);
            assert((seq![Comp::Cur] + seg).drop_first() =~= seg);
        } else {
            assert(components(r) =~= seg);
            if seg.len() > 0 {
                assert(!(seg[0] is Cur));
            }
        }
    }
}

/// Joining a relative path `r` onto `a` puts `r`'s components after `a`'s.
pub proof fn lemma_join_components_relative(a: Seq<char>, r: Seq<char>)
    requires
        !has_root(r),
    ensures
        drop_cur(components(join_spec(a, r))) == drop_cur(components(a)) + drop_cur(components(r)),
{
    let rest = seg_comps(split_slash(r));
    lemma_seg_no_cur(r);
    if needs_sep(a) {
        let s = a + seq!['/'] + r;
        lemma_split_slash_concat(a, r);
        lemma_seg_comps_concat(split_slash(a), split_slash(r));
        assert(has_root(s) == has_root(a));
        assert(has_lead_cur(s) == has_lead_cur(a)) by {
            if a.len() > 1 {
                assert(s[1] == a[1]);
            }
            assert(s[0] == a[0]);
        }
        assert(components(s) =~= components(a) + rest);
        lemma_drop_cur_concat(components(a), rest);
    } else if a.len() == 0 {
        assert(a + r =~= r);
        assert(components(a) =~= Seq::<Comp>::empty()) by {
            assert(split_slash(a) == seq![Seq::<char>::empty()]);
            assert(seg_comps(seq![Seq::<char>::empty()]) =~= Seq::<Comp>::empty()) by {
                reveal_with_fuel(seg_comps, 2);
                assert(seq![Seq::<char>::empty()].drop_last() =~= Seq::<Seq<char>>::empty());
                assert(seq![Seq::<char>::empty()].last() == Seq::<char>::empty());
            }
        }
        assert(join_spec(a, r) == r);
        assert(drop_cur(components(a)) =~= Seq::<Comp>::empty());
        assert(Seq::<Comp>::empty() + drop_cur(components(r)) =~= drop_cur(components(r)));
    } else {
        let a0 = a.drop_last();
        let s = a + r;
        assert(a =~= a0 + seq!['/'] + Seq::<char>::empty());
        assert(s =~= a0 + seq!['/'] + r);
        lemma_split_slash_concat(a0, r);
        lemma_split_slash_concat(a0, Seq::<char>::empty());
        assert(split_slash(Seq::<char>::empty()) == seq![Seq::<char>::empty()]);
        lemma_seg_comps_concat(split_slash(a0), split_slash(r));
        lemma_seg_comps_concat(split_slash(a0), seq![Seq::<char>::empty()]);
        assert(seg_comps(seq![Seq::<char>::empty()]) =~= Seq::<Comp>::empty()) by {
            reveal_with_fuel(seg_comps, 2);
            assert(seq![Seq::<char>::empty()].drop_last() =~= Seq::<Seq<char>>::empty());
            assert(seq![Seq::<char>::empty()].last() == Seq::<char>::empty());
        }
        assert(has_root(s) == has_root(a)) by {
            assert(s[0] == a[0]);
        }
        assert(has_lead_cur(s) == has_lead_cur(a)) by {
            if a.len() > 1 {
                assert(s[1] == a[1]);
            }
            assert(s[0] == a[0]);
        }
        assert(seg_comps(split_slash(a0)) + Seq::<Comp>::empty() =~= seg_comps(split_slash(a0)));
        assert(components(s) =~= components(a) + rest);
        lemma_drop_cur_concat(components(a), rest);
    }
}

/// What follows `base` in a path under it: names and `..` only, when `base`
/// has a component.
proof fn lemma_rest_renders_back(p: Seq<char>, base: Seq<char>)
    requires
        path_starts_with_spec(p, base),
        components(base).len() > 0,
    ensures
        renders_back(components(p).skip(components(base).len() as int)),
        forall|i: int|
            0 <= i < components(p).skip(components(base).len() as int).len()
                ==> !(#[trigger] components(p).skip(components(base).len() as int)[i] is Root),
{
    lemma_components_names(p);
    let k = components(base).len() as int;
    let rest = components(p).skip(k);
    assert forall|i: int| 0 <= i < rest.len() implies !(#[trigger] rest[i] is Root) && !(rest[i] is Cur) && (rest[i] matches Comp::Normal(n) ==> is_name(n)) by {
        assert(rest[i] == components(p)[i + k]);
    }
}

/// Moving a path from under `base` to under `dest`: joining what follows `base`
/// onto `dest` gives a path whose components are those of `dest` followed by
/// the rest, and stripping `dest` from it gives back what followed `base`.
pub proof fn lemma_rebase(p: Seq<char>, base: Seq<char>, dest: Seq<char>)
    requires
        path_starts_with_spec(p, base),
        components(base).len() > 0,
    ensures
        ({
            let rel = strip_prefix_spec(p, base).unwrap();
            let out = join_spec(dest, rel);
            &&& components(out) == components(dest) + components(p).skip(components(base).len() as int)
            &&& strip_prefix_spec(out, dest) == strip_prefix_spec(p, base)
        }),
{
    let rest = components(p).skip(components(base).len() as int);
    lemma_rest_renders_back(p, base);
    lemma_join_components(dest, rest);
    let out = join_spec(dest, render(rest));
    assert(components(out).take(components(dest).len() as int) =~= components(dest));
    assert(components(out).skip(components(dest).len() as int) =~= rest);
}

/// `Path::parent`: the path without its last component, if that component is not the root.
pub open spec fn parent_spec(p: Seq<char>) -> Option<Seq<char>> {
    let cs = components(p);
    if cs.len() > 0 && !(cs.last() is Root) {
        Some(render(cs.drop_last()))
    } else {
        None
    }
}

pub fn path_parent(p: &str) -> (r: Option<String>)
    ensures
        r matches Some(s) ==> parent_spec(p@) == Some(s@),
        r is None ==> parent_spec(p@) is None,
{
    let mut cs = path_components(p);
    let n = cs.len();
    if n == 0 {
        return None;
    }
    let is_root = match &cs[n - 1] {
        PathComponent::RootDir => true,
        _ => false,
    };
    if is_root {
        return None;
    }
    let ghost all = comps_view(cs@);
    cs.pop();
    assert(comps_view(cs@) =~= all.drop_last());
    Some(path_render(&cs))
}

/// `Path::file_name`: the last component, if it is a normal one.
pub open spec fn file_name_spec(p: Seq<char>) -> Option<Seq<char>> {
    let cs = components(p);
    if cs.len() > 0 && cs.last() is Normal {
        Some(cs.last()->Normal_0)
    } else {
        None
    }
}

pub fn path_file_name(p: &str) -> (r: Option<String>)
    ensures
        r matches Some(s) ==> file_name_spec(p@) == Some(s@),
        r is None ==> file_name_spec(p@) is None,
{
    let mut cs = path_components(p);
    let n = cs.len();
    if n == 0 {
        return None;
    }
    let ghost all = comps_view(cs@);
    match cs.pop() {
        Some(PathComponent::Normal(s)) => Some(s),
        _ => None,
    }
}

pub open spec fn dot_fn() -> spec_fn(char) -> bool {
    |c: char| c == '.'
}

/// Split of a file name at its last `.` (`rsplit_file_at_dot`): the stem and,
/// unless there is no `.` or the only one opens the name, the extension.
pub open spec fn stem_ext_spec(name: Seq<char>) -> (Seq<char>, Option<Seq<char>>) {
    let k = last_where(name, dot_fn());
    if k <= 0 {
        (name, None)
    } else {
        (name.take(k), Some(name.skip(k + 1)))
    }
}

/// `Path::file_stem`.
pub open spec fn file_stem_spec(p: Seq<char>) -> Option<Seq<char>> {
    match file_name_spec(p) {
        Some(n) => Some(stem_ext_spec(n).0),
        None => None,
    }
}

/// `Path::extension`.
pub open spec fn extension_spec(p: Seq<char>) -> Option<Seq<char>> {
    match file_name_spec(p) {
        Some(n) => stem_ext_spec(n).1,
        None => None,
    }
}

fn last_dot(v: &Vec<char>) -> (k: Option<usize>)
    ensures
        k matches Some(i) ==> last_where(v@, dot_fn()) == i,
        k is None ==> last_where(v@, dot_fn()) == -1,
{
    let mut i: usize = v.len();
    while i > 0
        invariant
            i <= v@.len(),
            forall|j: int| i <= j < v@.len() ==> #[trigger] v@[j] != '.',
        decreases i,
    {
        if v[i - 1] == '.' {
            proof {
                lemma_last_where(v@, dot_fn());
                assert(is_last(v@, dot_fn(), i - 1));
            }
            return Some(i - 1);
        }
        i = i - 1;
    }
    proof {
        lemma_last_where(v@, dot_fn());
        assert(is_last(v@, dot_fn(), -1));
    }
    None
}

/// The stem and extension of a file name.
pub fn stem_ext(name: &str) -> (r: (String, Option<String>))
    ensures
        r.0@ == stem_ext_spec(name@).0,
        r.1 matches Some(e) ==> stem_ext_spec(name@).1 == Some(e@),
        r.1 is None ==> stem_ext_spec(name@).1 is None,
{
    let v = chars_of(name);
    let k = match last_dot(&v) {
        Some(k) => k,
        None => 0,
    };
    proof {
        lemma_last_where(v@, dot_fn());
    }
    if k == 0 {
        (name.to_owned(), None)
    } else {
        let stem = string_from_chars(v.as_slice(), 0, k);
        let ext = string_from_chars(v.as_slice(), k + 1, v.len());
        assert(stem@ =~= name@.take(k as int));
        assert(ext@ =~= name@.skip(k + 1));
        (stem, Some(ext))
    }
}

/// `Path::file_stem`.
pub fn path_file_stem(p: &str) -> (r: Option<String>)
    ensures
        r matches Some(s) ==> file_stem_spec(p@) == Some(s@),
        r is None ==> file_stem_spec(p@) is None,
{
    match path_file_name(p) {
        Some(n) => Some(stem_ext(n.as_str()).0),
        None => None,
    }
}

/// `Path::extension`.
pub fn path_extension(p: &str) -> (r: Option<String>)
    ensures
        r matches Some(s) ==> extension_spec(p@) == Some(s@),
        r is None ==> extension_spec(p@) is None,
{
    match path_file_name(p) {
        Some(n) => stem_ext(n.as_str()).1,
        None => None,
    }
}

/// `Path::strip_prefix`: the rest of `p` after the components of `base`.
pub open spec fn strip_prefix_spec(p: Seq<char>, base: Seq<char>) -> Option<Seq<char>> {
    if path_starts_with_spec(p, base) {
        Some(render(components(p).skip(components(base).len() as int)))
    } else {
        None
    }
}

pub fn path_strip_prefix(p: &str, base: &str) -> (r: Option<String>)
    ensures
        r matches Some(s) ==> strip_prefix_spec(p@, base@) == Some(s@),
        r is None ==> strip_prefix_spec(p@, base@) is None,
{
    let cs = path_components(p);
    let bs = path_components(base);
    if !comps_start_with(&cs, &bs) {
        return None;
    }
    let mut rest: Vec<PathComponent> = Vec::new();
    let mut i: usize = bs.len();
    while i < cs.len()
        invariant
            bs@.len() <= i <= cs@.len(),
            comps_view(rest@) == comps_view(cs@).subrange(bs@.len() as int, i as int),
        decreases cs.len() - i,
    {
        let c = cs[i].copy();
        let ghost prev = comps_view(rest@);
        rest.push(c);
        assert(comps_view(rest@) =~= prev.push(cs@[i as int]@));
        i = i + 1;
        assert(comps_view(rest@) =~= comps_view(cs@).subrange(bs@.len() as int, i as int));
    }
    assert(comps_view(cs@).subrange(bs@.len() as int, cs@.len() as int) =~= comps_view(cs@).skip(
        bs@.len() as int,
    ));
    Some(path_render(&rest))
}


pub open spec fn is_ref_suffix_char(c: char) -> bool {
    c == '?' || c == '#'
}

pub open spec fn ref_suffix_fn() -> spec_fn(char) -> bool {
    |c: char| is_ref_suffix_char(c)
}

/// Where the `?query`/`#fragment` suffix of a url reference begins (its length if none).
pub open spec fn url_ref_split_at(s: Seq<char>) -> int {
    first_where(s, ref_suffix_fn())
}

fn first_ref_suffix(v: &Vec<char>) -> (k: usize)
    ensures
        k == url_ref_split_at(v@),
{
    let mut i: usize = 0;
    while i < v.len() && !(v[i] == '?' || v[i] == '#')
        invariant
            i <= v@.len(),
            forall|j: int| 0 <= j < i ==> !is_ref_suffix_char(#[trigger] v@[j]),
        decreases v.len() - i,
    {
        i = i + 1;
    }
    proof {
        lemma_first_where(v@, ref_suffix_fn());
        assert(is_first(v@, ref_suffix_fn(), i as int));
    }
    i
}

/// Split a url reference into its path and any `?query`/`#fragment` suffix.
pub fn url_ref_split(url_ref: &str) -> (res: (&str, &str))
    ensures
        res.0@ == url_ref@.take(url_ref_split_at(url_ref@)),
        res.1@ == url_ref@.skip(url_ref_split_at(url_ref@)),
        res.0@ + res.1@ == url_ref@,
        forall|i: int| 0 <= i < res.0@.len() ==> !is_ref_suffix_char(#[trigger] res.0@[i]),
        res.1@.len() == 0 || is_ref_suffix_char(res.1@[0]),
{
    let v = chars_of(url_ref);
    let k = first_ref_suffix(&v);
    proof {
        lemma_first_where(url_ref@, ref_suffix_fn());
    }
    let a = url_ref.substring_char(0, k);
    let b = url_ref.substring_char(k, v.len());
    assert(a@ + b@ =~= url_ref@);
    assert(a@ =~= url_ref@.take(k as int));
    assert(b@ =~= url_ref@.skip(k as int));
    (a, b)
}

pub open spec fn is_scheme_char(c: char) -> bool {
    is_ascii_alnum(c) || c == '+' || c == '-' || c == '.'
}

/// A url scheme: an ascii letter, then letters, digits, `+`, `-` or `.`.
pub open spec fn is_scheme(s: Seq<char>) -> bool {
    &&& s.len() > 0
    &&& is_ascii_alpha(s[0])
    &&& forall|i: int| 1 <= i < s.len() ==> is_scheme_char(#[trigger] s[i])
}

pub open spec fn colon_fn() -> spec_fn(char) -> bool {
    |c: char| c == ':'
}

/// `http:`, `//`, `data:`, `mailto:`, `/path`: starts with `/`, or what comes
/// before its first `:` is a url scheme.
pub open spec fn remote_or_absolute_spec(s: Seq<char>) -> bool {
    ||| has_root(s)
    ||| {
        let k = first_where(s, colon_fn());
        k < s.len() && is_scheme(s.take(k))
    }
}

/// Check if the value is a remote or absolute reference.
pub fn is_remote_or_absolute(value: &str) -> (r: bool)
    ensures
        r == remote_or_absolute_spec(value@),
{
    let v = chars_of(value);
    let n = v.len();
    if n > 0 && v[0] == '/' {
        return true;
    }
    let mut k: usize = 0;
    while k < n && v[k] != ':'
        invariant
            n == v@.len(),
            k <= n,
            forall|j: int| 0 <= j < k ==> #[trigger] v@[j] != ':',
        decreases n - k,
    {
        k = k + 1;
    }
    proof {
        lemma_first_where(value@, colon_fn());
        assert(is_first(value@, colon_fn(), k as int));
    }
    if k == n || k == 0 {
        return false;
    }
    let c0 = v[0];
    if !(('a' <= c0 && c0 <= 'z') || ('A' <= c0 && c0 <= 'Z')) {
        assert(!is_scheme(value@.take(k as int)));
        return false;
    }
    let mut i: usize = 1;
    while i < k
        invariant
            n == v@.len(),
            1 <= i <= k < n,
            v@ == value@,
            k == first_where(value@, colon_fn()),
            !has_root(value@),
            forall|j: int| 1 <= j < i ==> is_scheme_char(#[trigger] v@[j]),
        decreases k - i,
    {
        let c = v[i];
        if !(('a' <= c && c <= 'z') || ('A' <= c && c <= 'Z') || ('0' <= c && c <= '9') || c
            == '+' || c == '-' || c == '.') {
            assert(value@.take(k as int)[i as int] == c);
            return false;
        }
        i = i + 1;
    }
    assert(is_scheme(value@.take(k as int)));
    true
}

pub open spec fn slash_fn() -> spec_fn(char) -> bool {
    |c: char| c == '/'
}

/// The reference with its file name replaced by `file_name`, keeping the
/// directory prefix (unless it is empty) and the `?query`/`#fragment` suffix.
pub open spec fn asset_ref_rewrite_spec(asset_ref: Seq<char>, file_name: Seq<char>) -> Seq<char> {
    let k = url_ref_split_at(asset_ref);
    let prefix = asset_ref.take(k);
    let suffix = asset_ref.skip(k);
    let d = last_where(prefix, slash_fn());
    (if d > 0 {
        prefix.take(d) + seq!['/'] + file_name
    } else {
        file_name
    }) + suffix
}

/// Replace only the filename of a reference with the bundled output name,
/// keeping the relative directory prefix and any query/fragment
/// (`./scripts/main.js?v=2` → `./scripts/main-<hash>.js?v=2`).
pub fn asset_ref_rewrite(asset_ref: &str, file_name: &str) -> (r: String)
    ensures
        r@ == asset_ref_rewrite_spec(asset_ref@, file_name@),
{
    let (prefix, suffix) = url_ref_split(asset_ref);
    let v = chars_of(prefix);
    let mut d: usize = v.len();
    while d > 0 && v[d - 1] != '/'
        invariant
            d <= v@.len(),
            forall|j: int| d <= j < v@.len() ==> #[trigger] v@[j] != '/',
        decreases d,
    {
        d = d - 1;
    }
    proof {
        lemma_last_where(prefix@, slash_fn());
        assert(is_last(prefix@, slash_fn(), d - 1));
    }
    let mut r = if d > 1 {
        let mut head = string_from_chars(v.as_slice(), 0, d - 1);
        head.append("/");
        head.append(file_name);
        proof {
            reveal_strlit("/");
        }
        head
    } else {
        file_name.to_owned()
    };
    r.append(suffix);
    r
}

/// A bundled file name: no `/`, `?` or `#` in it.
pub open spec fn is_plain_file_name(f: Seq<char>) -> bool {
    forall|i: int| 0 <= i < f.len() ==> #[trigger] f[i] != '/' && !is_ref_suffix_char(f[i])
}

proof fn lemma_rewrite_split(asset_ref: Seq<char>, file_name: Seq<char>)
    requires
        is_plain_file_name(file_name),
    ensures
        ({
            let k = url_ref_split_at(asset_ref);
            let prefix = asset_ref.take(k);
            let d = last_where(prefix, slash_fn());
            let q = if d > 0 {
                prefix.take(d) + seq!['/'] + file_name
            } else {
                file_name
            };
            let r = asset_ref_rewrite_spec(asset_ref, file_name);
            &&& r == q + asset_ref.skip(k)
            &&& url_ref_split_at(r) == q.len()
            &&& last_where(q, slash_fn()) == (if d > 0 { d } else { -1 })
        }),
{
    let k = url_ref_split_at(asset_ref);
    lemma_first_where(asset_ref, ref_suffix_fn());
    let prefix = asset_ref.take(k);
    let suffix = asset_ref.skip(k);
    lemma_last_where(prefix, slash_fn());
    let d = last_where(prefix, slash_fn());
    let q = if d > 0 {
        prefix.take(d) + seq!['/'] + file_name
    } else {
        file_name
    };
    let r = q + suffix;
    assert(r == asset_ref_rewrite_spec(asset_ref, file_name));
    assert forall|j: int| 0 <= j < q.len() implies !is_ref_suffix_char(#[trigger] q[j]) by {
        if d > 0 {
            if j < d {
                assert(q[j] == asset_ref[j]);
            } else if j > d {
                assert(q[j] == file_name[j - d - 1]);
            }
        } else {
            assert(q[j] == file_name[j]);
        }
    }
    assert(is_first(r, ref_suffix_fn(), q.len() as int)) by {
        assert forall|j: int| 0 <= j < q.len() implies !(ref_suffix_fn())(#[trigger] r[j]) by {
            assert(r[j] == q[j]);
        }
        if q.len() < r.len() {
            assert(r[q.len() as int] == asset_ref[k]);
        }
    }
    lemma_first_where(r, ref_suffix_fn());
    lemma_last_where(q, slash_fn());
    if d > 0 {
        assert(is_last(q, slash_fn(), d)) by {
            assert(q[d] == '/');
            assert forall|j: int| d < j < q.len() implies !(slash_fn())(#[trigger] q[j]) by {
                assert(q[j] == file_name[j - d - 1]);
            }
        }
    } else {
        assert(is_last(q, slash_fn(), -1)) by {
            assert forall|j: int| -1 < j < q.len() implies !(slash_fn())(#[trigger] q[j]) by {
                assert(q[j] == file_name[j]);
            }
        }
    }
}

/// Rewriting a reference to a bundled file name keeps its `?query`/`#fragment`
/// suffix, and the path part of the result ends with that file name.
pub proof fn lemma_rewrite_keeps_suffix(asset_ref: Seq<char>, file_name: Seq<char>)
    requires
        is_plain_file_name(file_name),
    ensures
        ({
            let r = asset_ref_rewrite_spec(asset_ref, file_name);
            let k = url_ref_split_at(r);
            &&& r.skip(k) == asset_ref.skip(url_ref_split_at(asset_ref))
            &&& r.take(k).len() >= file_name.len()
            &&& r.take(k).skip(k - file_name.len()) == file_name
        }),
{
    lemma_rewrite_split(asset_ref, file_name);
    let k0 = url_ref_split_at(asset_ref);
    let r = asset_ref_rewrite_spec(asset_ref, file_name);
    let k = url_ref_split_at(r);
    let q = r.take(k);
    assert(r.skip(k) =~= asset_ref.skip(k0));
    assert(q.skip(k - file_name.len()) =~= file_name);
}

/// Rewriting a reference a second time with the same bundled file name
/// changes nothing.
pub proof fn lemma_rewrite_idempotent(asset_ref: Seq<char>, file_name: Seq<char>)
    requires
        is_plain_file_name(file_name),
    ensures
        asset_ref_rewrite_spec(asset_ref_rewrite_spec(asset_ref, file_name), file_name)
            == asset_ref_rewrite_spec(asset_ref, file_name),
{
    lemma_rewrite_split(asset_ref, file_name);
    let r = asset_ref_rewrite_spec(asset_ref, file_name);
    lemma_rewrite_split(r, file_name);
    let k0 = url_ref_split_at(asset_ref);
    let prefix = asset_ref.take(k0);
    let d = last_where(prefix, slash_fn());
    let q = if d > 0 {
        prefix.take(d) + seq!['/'] + file_name
    } else {
        file_name
    };
    let k = url_ref_split_at(r);
    assert(r.take(k) =~= q);
    assert(r.skip(k) =~= asset_ref.skip(k0));
    lemma_last_where(prefix, slash_fn());
    if d > 0 {
        assert(q.take(d) =~= prefix.take(d));
    }
}

pub open spec fn dist_equal_message(dist: Seq<char>) -> Seq<char> {
    "output directory must not be the source directory: "@ + dist
}

pub open spec fn dist_inside_message(dist: Seq<char>, src: Seq<char>) -> Seq<char> {
    "output directory must not be inside the source directory: "@ + dist + " is inside "@ + src
}

pub open spec fn dist_contains_message(dist: Seq<char>, src: Seq<char>) -> Seq<char> {
    "output directory must not contain the source directory: "@ + dist + " contains "@ + src
}

/// Reject the output directory if it is equal to, inside, or containing `src`.
/// `dist_resolved` is `dist` resolved against the file system (see `dist_path_assemble`).
pub open spec fn dist_guard_spec(src: Seq<char>, dist: Seq<char>, dist_resolved: Seq<char>) -> Result<(), Seq<char>> {
    if components(dist_resolved) == components(src) {
        Err(dist_equal_message(dist))
    } else if path_starts_with_spec(dist_resolved, src) {
        Err(dist_inside_message(dist, src))
    } else if path_starts_with_spec(src, dist_resolved) {
        Err(dist_contains_message(dist, src))
    } else {
        Ok(())
    }
}

/// The output directory is accepted exactly when neither it (as resolved) nor
/// `src` lies under the other, component by component; how `dist` was spelled
/// decides nothing but the wording of the error.
pub proof fn lemma_dist_guard_no_overlap(src: Seq<char>, dist: Seq<char>, dist_resolved: Seq<char>, other_spelling: Seq<char>)
    ensures
        dist_guard_spec(src, dist, dist_resolved) is Ok <==> !is_prefix(components(src), components(dist_resolved))
            && !is_prefix(components(dist_resolved), components(src)),
        dist_guard_spec(src, dist, dist_resolved) is Ok <==> dist_guard_spec(src, other_spelling, dist_resolved) is Ok,
{
    let a = components(src);
    let b = components(dist_resolved);
    if a == b {
        assert(b.take(a.len() as int) =~= a);
    }
}

/// Reject `dist` if equal to, inside, or containing `src`.
pub fn dist_guard(src: &str, dist: &str, dist_resolved: &str) -> (r: Result<(), String>)
    ensures
        r matches Ok(_) ==> dist_guard_spec(src@, dist@, dist_resolved@) == Ok::<(), Seq<char>>(()),
        r matches Err(e) ==> dist_guard_spec(src@, dist@, dist_resolved@) == Err::<(), Seq<char>>(e@),
{
    if path_eq(dist_resolved, src) {
        return Err(concat2("output directory must not be the source directory: ", dist));
    }
    if path_starts_with(dist_resolved, src) {
        let mut e = concat2("output directory must not be inside the source directory: ", dist);
        e.append(" is inside ");
        e.append(src);
        return Err(e);
    }
    if path_starts_with(src, dist_resolved) {
        let mut e = concat2("output directory must not contain the source directory: ", dist);
        e.append(" contains ");
        e.append(src);
        return Err(e);
    }
    Ok(())
}


pub open spec fn escape_message(asset_ref: Seq<char>, page: Seq<char>, src: Seq<char>) -> Seq<char> {
    asset_ref + " (referenced from "@ + page + ") escapes "@ + src
}

pub open spec fn not_found_message(asset_ref: Seq<char>, page: Seq<char>) -> Seq<char> {
    "asset not found: "@ + asset_ref + " (referenced from "@ + page + ")"@
}

/// The file a reference from `page` points at, before the file system is asked:
/// `Ok(None)` for an empty, remote or absolute reference, an error if the
/// reference leaves `src`, else the path to resolve.
pub open spec fn asset_ref_target_spec(src: Seq<char>, page: Seq<char>, asset_ref: Seq<char>) -> Result<
    Option<Seq<char>>,
    Seq<char>,
> {
    let t = trim_spec(asset_ref);
    if t.len() == 0 {
        Ok(None)
    } else {
        let cleaned = t.take(url_ref_split_at(t));
        if remote_or_absolute_spec(cleaned) {
            Ok(None)
        } else {
            let ref_path = match parent_spec(page) {
                Some(dir) => join_spec(dir, cleaned),
                None => src,
            };
            if !path_starts_with_spec(path_normalize_spec(ref_path), src) {
                Err(escape_message(asset_ref, page, src))
            } else {
                Ok(Some(ref_path))
            }
        }
    }
}

/// A page's reference is resolved against the page's own directory: a
/// non-empty local reference (not remote, not absolute) from a page that has a
/// parent is never dropped, and when it resolves, the target's components are
/// those of the page's directory followed by those of the reference without
/// its `?query`/`#fragment` (leading `.` components aside), whether or not the
/// reference starts with `.`.
pub proof fn lemma_asset_ref_target_relative(src: Seq<char>, page: Seq<char>, asset_ref: Seq<char>)
    requires
        parent_spec(page) is Some,
    ensures
        ({
            let t = trim_spec(asset_ref);
            let cleaned = t.take(url_ref_split_at(t));
            let dir = parent_spec(page).unwrap();
            &&& (t.len() > 0 && !remote_or_absolute_spec(cleaned)) ==> !(asset_ref_target_spec(src, page, asset_ref) matches Ok(None))
            &&& asset_ref_target_spec(src, page, asset_ref) matches Ok(Some(target)) ==> drop_cur(components(target))
                == drop_cur(components(dir)) + drop_cur(components(cleaned))
        }),
{
    let t = trim_spec(asset_ref);
    let cleaned = t.take(url_ref_split_at(t));
    if t.len() > 0 && !remote_or_absolute_spec(cleaned) {
        lemma_join_components_relative(parent_spec(page).unwrap(), cleaned);
    }
}

fn escape_error(asset_ref: &str, page: &str, src: &str) -> (e: String)
    ensures
        e@ == escape_message(asset_ref@, page@, src@),
{
    let mut e = concat2(asset_ref, " (referenced from ");
    e.append(page);
    e.append(") escapes ");
    e.append(src);
    e
}

/// The path that `asset_ref`, found in `page_path`, refers to, before it is resolved
/// on disk (see `asset_ref_target_spec`).
pub fn asset_ref_target(src: &str, page_path: &str, asset_ref: &str) -> (r: Result<Option<String>, String>)
    ensures
        r matches Ok(Some(p)) ==> asset_ref_target_spec(src@, page_path@, asset_ref@) == Ok::<Option<Seq<char>>, Seq<char>>(Some(p@)),
        r matches Ok(None) ==> asset_ref_target_spec(src@, page_path@, asset_ref@) == Ok::<Option<Seq<char>>, Seq<char>>(None),
        r matches Err(e) ==> asset_ref_target_spec(src@, page_path@, asset_ref@) == Err::<Option<Seq<char>>, Seq<char>>(e@),
{
    let trimmed = trim(asset_ref);
    if trimmed.unicode_len() == 0 {
        return Ok(None);
    }
    let (cleaned, _) = url_ref_split(trimmed);
    if is_remote_or_absolute(cleaned) {
        return Ok(None);
    }
    let ref_path = match path_parent(page_path) {
        Some(dir) => path_join(dir.as_str(), cleaned),
        None => src.to_owned(),
    };
    let normalized = path_normalize(ref_path.as_str());
    if !path_starts_with(normalized.as_str(), src) {
        return Err(escape_error(asset_ref, page_path, src));
    }
    Ok(Some(ref_path))
}

/// Resolve a raw reference to a file under `src`. `canonical` is what the file
/// system made of the path that `asset_ref_target` returned (`None` when it could
/// not be resolved); it is not looked at in the other cases.
pub open spec fn asset_ref_path_resolve_spec(
    src: Seq<char>,
    page: Seq<char>,
    asset_ref: Seq<char>,
    canonical: Option<Seq<char>>,
) -> Result<Option<Seq<char>>, Seq<char>> {
    match asset_ref_target_spec(src, page, asset_ref) {
        Ok(Some(_)) => match canonical {
            None => Err(not_found_message(asset_ref, page)),
            Some(c) => if path_starts_with_spec(c, src) {
                Ok(Some(c))
            } else {
                Err(escape_message(asset_ref, page, src))
            },
        },
        other => other,
    }
}

/// Resolve a raw reference to a file under `src`.
pub fn asset_ref_path_resolve(src: &str, page_path: &str, asset_ref: &str, canonical: Option<&str>) -> (r:
    Result<Option<String>, String>)
    ensures
        r matches Ok(Some(p)) ==> asset_ref_path_resolve_spec(src@, page_path@, asset_ref@, opt_view(canonical)) == Ok::<Option<Seq<char>>, Seq<char>>(Some(p@)),
        r matches Ok(None) ==> asset_ref_path_resolve_spec(src@, page_path@, asset_ref@, opt_view(canonical)) == Ok::<Option<Seq<char>>, Seq<char>>(None),
        r matches Err(e) ==> asset_ref_path_resolve_spec(src@, page_path@, asset_ref@, opt_view(canonical)) == Err::<Option<Seq<char>>, Seq<char>>(e@),
        r matches Ok(Some(p)) ==> path_starts_with_spec(p@, src@),
{
    match asset_ref_target(src, page_path, asset_ref) {
        Ok(Some(_)) => match canonical {
            None => {
                let mut e = concat2("asset not found: ", asset_ref);
                e.append(" (referenced from ");
                e.append(page_path);
                e.append(")");
                Err(e)
            },
            Some(c) => {
                if path_starts_with(c, src) {
                    Ok(Some(c.to_owned()))
                } else {
                    Err(escape_error(asset_ref, page_path, src))
                }
            },
        },
        Ok(None) => Ok(None),
        Err(e) => Err(e),
    }
}

pub open spec fn opt_view(o: Option<&str>) -> Option<Seq<char>> {
    match o {
        Some(s) => Some(s@),
        None => None,
    }
}

/// `names` pushed onto `base` from the last to the first.
pub open spec fn join_rev(base: Seq<char>, names: Seq<Seq<char>>) -> Seq<char>
    decreases names.len(),
{
    if names.len() == 0 {
        base
    } else {
        join_spec(join_rev(base, names.drop_first()), names[0])
    }
}

pub open spec fn strings_view(v: Seq<String>) -> Seq<Seq<char>> {
    v.map_values(|s: String| s@)
}

/// The resolved form of an output directory that does not exist yet: its deepest
/// existing ancestor, resolved on disk, with the names of the missing directories
/// below it pushed back (`missing` lists them from the deepest up, as
/// `Path::ancestors` meets them), then cleaned.
pub fn dist_path_assemble(existing: &str, missing: &Vec<String>) -> (r: String)
    ensures
        r@ == path_normalize_spec(join_rev(existing@, strings_view(missing@))),
{
    let mut acc = existing.to_owned();
    let mut i: usize = missing.len();
    while i > 0
        invariant
            i <= missing@.len(),
            acc@ == join_rev(existing@, strings_view(missing@).skip(i as int)),
        decreases i,
    {
        assert(strings_view(missing@).skip(i - 1).drop_first() =~= strings_view(missing@).skip(i as int));
        acc = path_join(acc.as_str(), missing[i - 1].as_str());
        i = i - 1;
    }
    assert(strings_view(missing@).skip(0) =~= strings_view(missing@));
    path_normalize(acc.as_str())
}

} // verus!
