//! The decisions of a build: which files are pages and where they go, the
//! temporary output directory, the per-page asset cache, and the order in which
//! the temporary build replaces the output directory.
use vstd::prelude::*;

use crate::assets::ext_lower_spec;
use crate::path::{
    asset_ref_rewrite, asset_ref_rewrite_spec, components, extension_spec, file_name_spec,
    join_spec, lemma_rebase, parent_spec, path_extension, path_file_name, path_join, path_parent, path_starts_with_spec,
    path_strip_prefix, strip_prefix_spec,
};
use crate::order::{paths_sort, paths_sorted};
use crate::path::strings_view;
use crate::strmap::StrMap;
use crate::text::{concat2, eq_ignore_case, str_eq, str_eq_ignore_case, string_push};

verus! {

/// Every `.html` file (any ascii case of the extension) is a page.
pub open spec fn is_page_path_spec(p: Seq<char>) -> bool {
    match extension_spec(p) {
        Some(e) => eq_ignore_case(e, "html"@),
        None => false,
    }
}

pub fn is_page_path(p: &str) -> (r: bool)
    ensures
        r == is_page_path_spec(p@),
{
    match path_extension(p) {
        Some(e) => str_eq_ignore_case(e.as_str(), "html"),
        None => false,
    }
}

/// A page is written under `dist` at the place it has under `src`.
pub open spec fn page_output_spec(src: Seq<char>, dist: Seq<char>, page: Seq<char>) -> Seq<char> {
    join_spec(dist, strip_prefix_spec(page, src).unwrap())
}

/// A page keeps its place: the components of its output path are those of
/// `dist` followed by those that follow `src` in the page's path, and stripping
/// `dist` from it gives what stripping `src` from the page gave.
pub proof fn lemma_page_output_mirrors(src: Seq<char>, dist: Seq<char>, page: Seq<char>)
    requires
        path_starts_with_spec(page, src),
        components(src).len() > 0,
    ensures
        components(page_output_spec(src, dist, page)) == components(dist) + components(page).skip(
            components(src).len() as int,
        ),
        strip_prefix_spec(page_output_spec(src, dist, page), dist) == strip_prefix_spec(page, src),
{
    lemma_rebase(page, src, dist);
}

pub fn page_output_path(src: &str, dist: &str, page: &str) -> (r: String)
    requires
        path_starts_with_spec(page@, src@),
    ensures
        r@ == page_output_spec(src@, dist@, page@),
{
    let rel = match path_strip_prefix(page, src) {
        Some(r) => r,
        None => {
            assert(false);
            String::new()
        },
    };
    path_join(dist, rel.as_str())
}

pub open spec fn digit_char(d: nat) -> char {
    (48 + d) as char
}

/// The decimal digits of `n`.
pub open spec fn decimal(n: nat) -> Seq<char>
    decreases n,
{
    if n < 10 {
        seq![digit_char(n)]
    } else {
        decimal(n / 10).push(digit_char(n % 10))
    }
}

/// `n.to_string()`.
pub fn decimal_string(n: u32) -> (r: String)
    ensures
        r@ == decimal(n as nat),
    decreases n,
{
    if n < 10 {
        let mut r = String::new();
        string_push(&mut r, ((n as u8) + 48) as char);
        assert(r@ =~= seq![digit_char(n as nat)]);
        r
    } else {
        let mut r = decimal_string(n / 10);
        string_push(&mut r, (((n % 10) as u8) + 48) as char);
        r
    }
}

/// The temporary sibling of `dist` the build renders into: `.<name>.tmp-<pid>`
/// next to `dist` (`out` when `dist` has no name, `.` when it has no parent).
pub open spec fn dist_tmp_spec(dist: Seq<char>, pid: u32) -> Seq<char> {
    let parent = match parent_spec(dist) {
        Some(p) => p,
        None => "."@,
    };
    let name = match file_name_spec(dist) {
        Some(n) => n,
        None => "out"@,
    };
    join_spec(parent, "."@ + name + ".tmp-"@ + decimal(pid as nat))
}

pub fn dist_tmp_path(dist: &str, pid: u32) -> (r: String)
    ensures
        r@ == dist_tmp_spec(dist@, pid),
{
    let parent = match path_parent(dist) {
        Some(p) => p,
        None => ".".to_owned(),
    };
    let name = match path_file_name(dist) {
        Some(n) => n,
        None => "out".to_owned(),
    };
    let mut tmp = concat2(".", name.as_str());
    tmp.append(".tmp-");
    let d = decimal_string(pid);
    tmp.append(d.as_str());
    path_join(parent.as_str(), tmp.as_str())
}

/// The temporary sibling that holds the previous `dist` while the new build is
/// moved in: `.<name>.old-<pid>` next to `dist`.
pub open spec fn dist_backup_spec(dist: Seq<char>, pid: u32) -> Seq<char> {
    let parent = match parent_spec(dist) {
        Some(p) => p,
        None => "."@,
    };
    let name = match file_name_spec(dist) {
        Some(n) => n,
        None => "out"@,
    };
    join_spec(parent, "."@ + name + ".old-"@ + decimal(pid as nat))
}

pub fn dist_backup_path(dist: &str, pid: u32) -> (r: String)
    ensures
        r@ == dist_backup_spec(dist@, pid),
{
    let parent = match path_parent(dist) {
        Some(p) => p,
        None => ".".to_owned(),
    };
    let name = match path_file_name(dist) {
        Some(n) => n,
        None => "out".to_owned(),
    };
    let mut b = concat2(".", name.as_str());
    b.append(".old-");
    let d = decimal_string(pid);
    b.append(d.as_str());
    path_join(parent.as_str(), b.as_str())
}

/// The stages of a build once the temporary directory is in use.
pub enum BuildStep {
    /// copy the static assets into the temporary directory
    CopyStatic,
    /// bundle every page into the temporary directory
    BundlePages,
    /// rename the current output directory, if any, to the backup path
    MoveAside,
    /// rename the temporary directory to the output directory
    Install,
    /// rename the backup back to the output directory, then fail with this error
    Restore(String),
    /// remove the backup
    Cleanup,
    /// remove the temporary directory and fail with this error
    Abort(String),
    /// the new build is in place
    Done,
}

pub enum StepView {
    CopyStatic,
    BundlePages,
    MoveAside,
    Install,
    Restore(Seq<char>),
    Cleanup,
    Abort(Seq<char>),
    Done,
}

pub open spec fn step_view(s: BuildStep) -> StepView {
    match s {
        BuildStep::CopyStatic => StepView::CopyStatic,
        BuildStep::BundlePages => StepView::BundlePages,
        BuildStep::MoveAside => StepView::MoveAside,
        BuildStep::Install => StepView::Install,
        BuildStep::Restore(e) => StepView::Restore(e@),
        BuildStep::Cleanup => StepView::Cleanup,
        BuildStep::Abort(e) => StepView::Abort(e@),
        BuildStep::Done => StepView::Done,
    }
}

/// What follows a stage that ended with `outcome`.
pub open spec fn build_next_spec(step: StepView, outcome: Result<(), Seq<char>>) -> StepView {
    match step {
        StepView::CopyStatic => match outcome {
            Ok(_) => StepView::BundlePages,
            Err(e) => StepView::Abort(e),
        },
        StepView::BundlePages => match outcome {
            Ok(_) => StepView::MoveAside,
            Err(e) => StepView::Abort(e),
        },
        StepView::MoveAside => match outcome {
            Ok(_) => StepView::Install,
            Err(e) => StepView::Abort(e),
        },
        StepView::Install => match outcome {
            Ok(_) => StepView::Cleanup,
            Err(e) => StepView::Restore(e),
        },
        StepView::Restore(e) => match outcome {
            Ok(_) => StepView::Abort(e),
            Err(e2) => StepView::Abort(e2),
        },
        StepView::Cleanup => StepView::Done,
        other => other,
    }
}

pub open spec fn outcome_view(o: &Result<(), String>) -> Result<(), Seq<char>> {
    match o {
        Ok(_) => Ok(()),
        Err(e) => Err(e@),
    }
}

/// The stage after `step`, which ended with `outcome`.
pub fn build_next(step: BuildStep, outcome: &Result<(), String>) -> (r: BuildStep)
    ensures
        step_view(r) == build_next_spec(step_view(step), outcome_view(outcome)),
{
    match step {
        BuildStep::CopyStatic => match outcome {
            Ok(_) => BuildStep::BundlePages,
            Err(e) => BuildStep::Abort(e.clone()),
        },
        BuildStep::BundlePages => match outcome {
            Ok(_) => BuildStep::MoveAside,
            Err(e) => BuildStep::Abort(e.clone()),
        },
        BuildStep::MoveAside => match outcome {
            Ok(_) => BuildStep::Install,
            Err(e) => BuildStep::Abort(e.clone()),
        },
        BuildStep::Install => match outcome {
            Ok(_) => BuildStep::Cleanup,
            Err(e) => BuildStep::Restore(e.clone()),
        },
        BuildStep::Restore(e) => match outcome {
            Ok(_) => BuildStep::Abort(e),
            Err(e2) => BuildStep::Abort(e2.clone()),
        },
        BuildStep::Cleanup => BuildStep::Done,
        other => other,
    }
}

/// What the output directory's path holds.
pub enum Place {
    /// what it held before the build (possibly nothing)
    Before,
    /// the new build
    Built,
    /// nothing: its previous content is at the backup path
    Gone,
}

/// The file system as far as the build's last stages touch it: what the output
/// path holds, and whether the backup path holds its previous content.
pub struct FsView {
    pub dist: Place,
    pub aside: bool,
}

/// What a stage that ended with `outcome` did: a rename either happens or
/// leaves both paths as they were; the other stages touch only the temporary
/// directory or the backup's removal.
pub open spec fn step_effect(step: StepView, outcome: Result<(), Seq<char>>, fs: FsView) -> FsView {
    match (step, outcome) {
        (StepView::MoveAside, Ok(_)) => FsView { dist: Place::Gone, aside: true },
        (StepView::Install, Ok(_)) => FsView { dist: Place::Built, aside: fs.aside },
        (StepView::Restore(_), Ok(_)) => FsView { dist: Place::Before, aside: false },
        (StepView::Cleanup, Ok(_)) => FsView { dist: fs.dist, aside: false },
        _ => fs,
    }
}

/// The stage reached from `CopyStatic` after the given outcomes, in order, and
/// what the output path holds then.
pub open spec fn build_run(outcomes: Seq<Result<(), Seq<char>>>) -> (StepView, FsView)
    decreases outcomes.len(),
{
    if outcomes.len() == 0 {
        (StepView::CopyStatic, FsView { dist: Place::Before, aside: false })
    } else {
        let (step, fs) = build_run(outcomes.drop_last());
        (build_next_spec(step, outcomes.last()), step_effect(step, outcomes.last(), fs))
    }
}

/// Whether a stage renames the output directory or comes after one that does.
pub open spec fn in_swap(s: StepView) -> bool {
    s is MoveAside || s is Install || s is Restore || s is Cleanup || s is Done
}

/// A failed build leaves the output as it was: the output directory is touched
/// only once both the static copy and the page bundling succeeded, the first
/// failure is the error the build stops with, and a build that stops with an
/// error leaves the output path with what it held before, unless moving the
/// previous output back failed, in which case that output is at the backup
/// path. A build that finishes has the new build in place.
pub proof fn lemma_swap_only_on_success(outcomes: Seq<Result<(), Seq<char>>>)
    ensures
        in_swap(build_run(outcomes).0) ==> outcomes.len() >= 2 && outcomes[0] is Ok && outcomes[1] is Ok,
        outcomes.len() >= 1 && outcomes[0] is Err ==> build_run(outcomes).0 == StepView::Abort(
            outcomes[0]->Err_0,
        ),
        outcomes.len() >= 2 && outcomes[0] is Ok && outcomes[1] is Err ==> build_run(outcomes).0
            == StepView::Abort(outcomes[1]->Err_0),
        outcomes.len() == 1 && outcomes[0] is Ok ==> build_run(outcomes).0 is BundlePages,
        build_run(outcomes).0 is Abort ==> (build_run(outcomes).1.dist is Before || (build_run(
            outcomes,
        ).1.dist is Gone && build_run(outcomes).1.aside)),
        build_run(outcomes).0 is Done ==> build_run(outcomes).1.dist is Built,
        !in_swap(build_run(outcomes).0) && !(build_run(outcomes).0 is Abort) ==> build_run(outcomes).1.dist is Before,
    decreases outcomes.len(),
{
    lemma_build_run_inv(outcomes);
    if outcomes.len() > 0 {
        let d = outcomes.drop_last();
        lemma_swap_only_on_success(d);
        if d.len() >= 1 {
            assert(d[0] == outcomes[0]);
        }
        if d.len() >= 2 {
            assert(d[1] == outcomes[1]);
        }
    }
}

/// What each stage finds at the output path.
pub open spec fn run_inv(step: StepView, fs: FsView) -> bool {
    match step {
        StepView::CopyStatic | StepView::BundlePages | StepView::MoveAside => fs.dist is Before && !fs.aside,
        StepView::Install | StepView::Restore(_) => fs.dist is Gone && fs.aside,
        StepView::Cleanup | StepView::Done => fs.dist is Built,
        StepView::Abort(_) => fs.dist is Before || (fs.dist is Gone && fs.aside),
    }
}

proof fn lemma_build_run_inv(outcomes: Seq<Result<(), Seq<char>>>)
    ensures
        run_inv(build_run(outcomes).0, build_run(outcomes).1),
    decreases outcomes.len(),
{
    if outcomes.len() > 0 {
        lemma_build_run_inv(outcomes.drop_last());
    }
}

/// What to do with one reference of a page.
pub enum RefAction {
    /// nothing to bundle (empty, remote or absolute), or the asset was bundled before
    Done,
    /// bundle the asset at this path, then report its output name with `asset_done`
    Process(String),
}

/// The state of a build across pages: the output name of every asset bundled so
/// far (by resolved path), and the rewrites of the current page.
pub struct PageRefs {
    pub cache: StrMap,
    pub rewrites: StrMap,
}

impl PageRefs {
    pub fn new() -> (r: PageRefs)
        ensures
            r.cache@ == Map::<Seq<char>, Seq<char>>::empty(),
            r.rewrites@ == Map::<Seq<char>, Seq<char>>::empty(),
    {
        PageRefs { cache: StrMap::new(), rewrites: StrMap::new() }
    }

    /// Start a new page: its rewrites start empty, the cache is kept.
    pub fn page_start(&mut self)
        ensures
            final(self).cache@ == old(self).cache@,
            final(self).rewrites@ == Map::<Seq<char>, Seq<char>>::empty(),
    {
        self.rewrites = StrMap::new();
    }

    /// Handle `asset_ref` of the page, which resolved to `resolved`: an asset
    /// bundled before is reused; a new one must be processed first.
    pub fn ref_step(&mut self, asset_ref: &str, resolved: Option<&str>) -> (a: RefAction)
        ensures
            final(self).cache@ == old(self).cache@,
            (match resolved {
                None => a is Done && final(self).rewrites@ == old(self).rewrites@,
                Some(p) => if old(self).cache@.dom().contains(p@) {
                    a is Done && final(self).rewrites@ == old(self).rewrites@.insert(
                        asset_ref@,
                        asset_ref_rewrite_spec(asset_ref@, old(self).cache@[p@]),
                    )
                } else {
                    (a matches RefAction::Process(q) && q@ == p@) && final(self).rewrites@ == old(
                        self,
                    ).rewrites@
                },
            }),
    {
        match resolved {
            None => RefAction::Done,
            Some(p) => match self.cache.get(p) {
                Some(name) => {
                    let rewritten = asset_ref_rewrite(asset_ref, name.as_str());
                    self.rewrites.insert(asset_ref, rewritten.as_str());
                    RefAction::Done
                },
                None => RefAction::Process(p.to_owned()),
            },
        }
    }

    /// The asset at `asset_path`, referenced as `asset_ref`, was bundled as
    /// `file_name`: it is cached under that name unless it already was, and the
    /// reference is rewritten to the name the cache holds.
    pub fn asset_done(&mut self, asset_ref: &str, asset_path: &str, file_name: &str)
        ensures
            final(self).cache@ == cache_step(old(self).cache@, Some(asset_path@), file_name@).0,
            final(self).rewrites@ == old(self).rewrites@.insert(
                asset_ref@,
                asset_ref_rewrite_spec(asset_ref@, cache_step(old(self).cache@, Some(asset_path@), file_name@).1.unwrap()),
            ),
    {
        let name = self.dep_done(asset_path, file_name);
        let rewritten = asset_ref_rewrite(asset_ref, name.as_str());
        self.rewrites.insert(asset_ref, rewritten.as_str());
    }

    /// The asset at `asset_path`, met as a dependency of another asset, was
    /// bundled as `file_name`: it is cached under that name unless it already
    /// was; the name the cache holds is returned.
    pub fn dep_done(&mut self, asset_path: &str, file_name: &str) -> (name: String)
        ensures
            final(self).cache@ == cache_step(old(self).cache@, Some(asset_path@), file_name@).0,
            Some(name@) == cache_step(old(self).cache@, Some(asset_path@), file_name@).1,
            final(self).rewrites@ == old(self).rewrites@,
    {
        match self.cache.get(asset_path) {
            Some(n) => n,
            None => {
                self.cache.insert(asset_path, file_name);
                file_name.to_owned()
            },
        }
    }
}

/// One event of the asset cache: a reference that resolved to `resolved`,
/// whose asset the bundler names `produced` when it has to bundle it (what
/// `ref_step` then `asset_done`, or `css_dep_step` then `dep_done`, do). It
/// gives the new cache, the name the reference is rewritten to, and whether
/// the asset was bundled.
pub open spec fn cache_step(cache: Map<Seq<char>, Seq<char>>, resolved: Option<Seq<char>>, produced: Seq<char>) -> (
    Map<Seq<char>, Seq<char>>,
    Option<Seq<char>>,
    bool,
) {
    match resolved {
        None => (cache, None, false),
        Some(p) => if cache.dom().contains(p) {
            (cache, Some(cache[p]), false)
        } else {
            (cache.insert(p, produced), Some(produced), true)
        },
    }
}

/// A build's cache events in order, across all its pages and their assets'
/// dependencies: the cache at the end, the name each reference is rewritten
/// to, and the assets bundled, in order.
pub open spec fn cache_run(cache: Map<Seq<char>, Seq<char>>, steps: Seq<(Option<Seq<char>>, Seq<char>)>) -> (
    Map<Seq<char>, Seq<char>>,
    Seq<Option<Seq<char>>>,
    Seq<Seq<char>>,
)
    decreases steps.len(),
{
    if steps.len() == 0 {
        (cache, Seq::empty(), Seq::empty())
    } else {
        let (c, used, bundled) = cache_run(cache, steps.drop_last());
        let (c2, u, b) = cache_step(c, steps.last().0, steps.last().1);
        (c2, used.push(u), if b {
            bundled.push(steps.last().0->Some_0)
        } else {
            bundled
        })
    }
}

/// One output per asset across pages: over a build's cache events, an asset
/// cached before keeps its name; every reference to an asset is rewritten to
/// the one name the cache ends with for it, so all references to a shared
/// asset, from any page, get the same output; and no asset is bundled twice,
/// nor one that was cached before.
pub proof fn lemma_asset_bundled_once(cache: Map<Seq<char>, Seq<char>>, steps: Seq<(Option<Seq<char>>, Seq<char>)>)
    ensures
        ({
            let (c, used, bundled) = cache_run(cache, steps);
            &&& used.len() == steps.len()
            &&& forall|p: Seq<char>| #[trigger] cache.dom().contains(p) ==> c.dom().contains(p) && c[p] == cache[p]
            &&& forall|i: int|
                0 <= i < steps.len() && (#[trigger] steps[i]).0 is Some ==> c.dom().contains(steps[i].0->Some_0)
                    && used[i] == Some(c[steps[i].0->Some_0])
            &&& forall|i: int| 0 <= i < steps.len() && (#[trigger] steps[i]).0 is None ==> used[i] is None
            &&& forall|i: int, j: int| 0 <= i < j < bundled.len() ==> #[trigger] bundled[i] != #[trigger] bundled[j]
            &&& forall|i: int| 0 <= i < bundled.len() ==> !cache.dom().contains(#[trigger] bundled[i])
            &&& forall|i: int| 0 <= i < bundled.len() ==> c.dom().contains(#[trigger] bundled[i])
        }),
    decreases steps.len(),
{
    if steps.len() > 0 {
        let d = steps.drop_last();
        lemma_asset_bundled_once(cache, d);
        let (c, used, bundled) = cache_run(cache, d);
        let (c2, u, b) = cache_step(c, steps.last().0, steps.last().1);
        let used2 = used.push(u);
        let bundled2 = if b {
            bundled.push(steps.last().0->Some_0)
        } else {
            bundled
        };
        assert(cache_run(cache, steps) == (c2, used2, bundled2));
        assert forall|p: Seq<char>| c.dom().contains(p) implies c2.dom().contains(p) && c2[p] == c[p] by {}
        assert forall|i: int|
            0 <= i < steps.len() && (#[trigger] steps[i]).0 is Some implies c2.dom().contains(steps[i].0->Some_0)
                && used2[i] == Some(c2[steps[i].0->Some_0]) by {
            if i < d.len() {
                assert(steps[i] == d[i]);
            }
        }
        assert forall|i: int| 0 <= i < steps.len() && (#[trigger] steps[i]).0 is None implies used2[i] is None by {
            if i < d.len() {
                assert(steps[i] == d[i]);
            }
        }
        assert forall|i: int| 0 <= i < bundled2.len() implies c2.dom().contains(#[trigger] bundled2[i]) by {
            if i < bundled.len() {
                assert(bundled2[i] == bundled[i]);
            }
        }
        assert forall|i: int| 0 <= i < bundled2.len() implies !cache.dom().contains(#[trigger] bundled2[i]) by {
            if i < bundled.len() {
                assert(bundled2[i] == bundled[i]);
            }
        }
        assert forall|i: int, j: int| 0 <= i < j < bundled2.len() implies #[trigger] bundled2[i] != #[trigger] bundled2[j] by {
            if j < bundled.len() {
                assert(bundled2[i] == bundled[i] && bundled2[j] == bundled[j]);
            } else {
                assert(bundled2[i] == bundled[i]);
                assert(c.dom().contains(bundled[i]));
            }
        }
    }
}

/// The pages among `entries`, in their order.
pub open spec fn pages_of(entries: Seq<Seq<char>>) -> Seq<Seq<char>>
    decreases entries.len(),
{
    if entries.len() == 0 {
        Seq::empty()
    } else {
        let r = pages_of(entries.drop_last());
        if is_page_path_spec(entries.last()) {
            r.push(entries.last())
        } else {
            r
        }
    }
}

/// The pages of a source tree, given every path the walk of the tree met: the
/// `.html` files, sorted in path order.
pub fn page_path_list_build(entries: &Vec<String>) -> (pages: Vec<String>)
    ensures
        paths_sorted(strings_view(pages@)),
        strings_view(pages@).to_multiset() == pages_of(strings_view(entries@)).to_multiset(),
{
    let mut found: Vec<String> = Vec::new();
    let mut i: usize = 0;
    while i < entries.len()
        invariant
            i <= entries@.len(),
            strings_view(found@) == pages_of(strings_view(entries@).take(i as int)),
        decreases entries.len() - i,
    {
        assert(strings_view(entries@).take(i + 1).drop_last() =~= strings_view(entries@).take(i as int));
        if is_page_path(entries[i].as_str()) {
            let ghost prev = strings_view(found@);
            found.push(entries[i].clone());
            assert(strings_view(found@) =~= prev.push(entries@[i as int]@));
        }
        i = i + 1;
    }
    assert(strings_view(entries@).take(entries@.len() as int) =~= strings_view(entries@));
    paths_sort(found)
}


pub open spec fn missing_src_message(src: Seq<char>) -> Seq<char> {
    "source directory not found: "@ + src
}

/// A build needs its source directory: an error naming `src` when it is not a directory.
pub fn source_dir_check(src: &str, is_dir: bool) -> (r: Result<(), String>)
    ensures
        r is Ok <==> is_dir,
        r matches Err(e) ==> e@ == missing_src_message(src@),
{
    if is_dir {
        Ok(())
    } else {
        Err(concat2("source directory not found: ", src))
    }
}

pub open spec fn no_pages_message(src: Seq<char>) -> Seq<char> {
    "no .html pages found in "@ + src
}

/// The pages of the tree under `src` that the walk met (`entries`), sorted; a
/// build with no page is an error naming `src`.
pub fn pages_required(src: &str, entries: &Vec<String>) -> (r: Result<Vec<String>, String>)
    ensures
        r is Ok <==> pages_of(strings_view(entries@)).len() > 0,
        r matches Ok(pages) ==> paths_sorted(strings_view(pages@)) && strings_view(pages@).to_multiset()
            == pages_of(strings_view(entries@)).to_multiset(),
        r matches Err(e) ==> e@ == no_pages_message(src@),
{
    let pages = page_path_list_build(entries);
    if pages.len() == 0 {
        proof {
            assert(strings_view(pages@) =~= Seq::<Seq<char>>::empty());
            pages_of(strings_view(entries@)).to_multiset_ensures();
            Seq::<Seq<char>>::empty().to_multiset_ensures();
        }
        Err(concat2("no .html pages found in ", src))
    } else {
        proof {
            strings_view(pages@).to_multiset_ensures();
            pages_of(strings_view(entries@)).to_multiset_ensures();
        }
        Ok(pages)
    }
}


/// What to do with a stylesheet dependency that resolved to an asset path.
pub enum CssDepAction {
    /// the asset was bundled before: use this name
    Use(String),
    /// the asset is one of the stylesheets being bundled above: fail with this error
    Cycle(String),
    /// bundle the asset, then report its name with `dep_done`
    Process,
}

pub open spec fn css_cycle_message(path: Seq<char>, source: Seq<char>) -> Seq<char> {
    "css import cycle: "@ + path + " (from "@ + source + ")"@
}

/// Decide a dependency of the stylesheet `source` on the asset at `path`:
/// reuse a cached name, fail on an import cycle (`path` is among the
/// stylesheets being bundled, `visiting`), or bundle it.
pub fn css_dep_step(cache: &StrMap, visiting: &Vec<String>, path: &str, source: &str) -> (a: CssDepAction)
    ensures
        cache@.dom().contains(path@) ==> (a matches CssDepAction::Use(n) && n@ == cache@[path@]),
        !cache@.dom().contains(path@) && strings_view(visiting@).contains(path@) ==> (a matches CssDepAction::Cycle(e)
            && e@ == css_cycle_message(path@, source@)),
        !cache@.dom().contains(path@) && !strings_view(visiting@).contains(path@) ==> a is Process,
{
    match cache.get(path) {
        Some(n) => CssDepAction::Use(n),
        None => {
            let mut i: usize = 0;
            while i < visiting.len()
                invariant
                    i <= visiting@.len(),
                    !cache@.dom().contains(path@),
                    forall|j: int| 0 <= j < i ==> (#[trigger] visiting@[j])@ != path@,
                decreases visiting.len() - i,
            {
                if str_eq(visiting[i].as_str(), path) {
                    assert(strings_view(visiting@)[i as int] == path@);
                    let mut e = concat2("css import cycle: ", path);
                    e.append(" (from ");
                    e.append(source);
                    e.append(")");
                    return CssDepAction::Cycle(e);
                }
                i = i + 1;
            }
            assert(!strings_view(visiting@).contains(path@)) by {
                if strings_view(visiting@).contains(path@) {
                    let j = choose|j: int| 0 <= j < visiting@.len() && strings_view(visiting@)[j] == path@;
                    assert(visiting@[j]@ == path@);
                }
            }
            CssDepAction::Process
        },
    }
}

} // verus!
