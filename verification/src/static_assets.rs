//! Static assets: every file under `src` that is neither a page nor a bundled
//! asset is copied as-is, mirroring its place under `src`.
use vstd::prelude::*;

use crate::assets::{css_extension_spec, ext_lower_spec, extension_lower, is_css_extension, is_js_extension, js_extension_spec};
use crate::path::{
    components, join_spec, lemma_rebase, path_components, path_join, path_starts_with_spec, path_strip_prefix,
    strip_prefix_spec, Comp, PathComponent,
};
use crate::text::{concat2, str_eq};

verus! {

/// A name that starts with `.` is hidden: hidden files and directories are not copied.
pub open spec fn is_hidden_name(name: Seq<char>) -> bool {
    name.len() > 0 && name[0] == '.'
}

/// Whether a directory entry named `name` is visited by the static copy.
pub fn static_entry_visible(name: &str) -> (r: bool)
    ensures
        r == !is_hidden_name(name@),
{
    !(name.unicode_len() > 0 && name.get_char(0) == '.')
}

/// The extensions that the bundler produces itself: pages, css and js.
pub open spec fn is_bundled_extension(ext: Seq<char>) -> bool {
    ext == "html"@ || css_extension_spec(ext) || js_extension_spec(ext)
}

pub open spec fn has_hidden_component(cs: Seq<Comp>) -> bool {
    exists|i: int| 0 <= i < cs.len() && (#[trigger] cs[i]) is Normal && is_hidden_name(cs[i]->Normal_0)
}

/// Where the file `path` under `src` is copied, if it is a static asset: under
/// `dist`, at the same place relative to it as `path` is relative to `src`.
pub open spec fn static_asset_target_spec(src: Seq<char>, dist: Seq<char>, path: Seq<char>) -> Option<Seq<char>> {
    let rel = strip_prefix_spec(path, src).unwrap();
    if has_hidden_component(components(rel)) || is_bundled_extension(ext_lower_spec(path)) {
        None
    } else {
        Some(join_spec(dist, rel))
    }
}

fn hidden_component(cs: &Vec<PathComponent>) -> (r: bool)
    ensures
        r == has_hidden_component(crate::path::comps_view(cs@)),
{
    let mut i: usize = 0;
    while i < cs.len()
        invariant
            i <= cs@.len(),
            forall|j: int| 0 <= j < i ==> !((#[trigger] crate::path::comps_view(cs@)[j]) is Normal && is_hidden_name(crate::path::comps_view(cs@)[j]->Normal_0)),
        decreases cs.len() - i,
    {
        match &cs[i] {
            PathComponent::Normal(n) => {
                if n.as_str().unicode_len() > 0 && n.as_str().get_char(0) == '.' {
                    assert((crate::path::comps_view(cs@)[i as int]) is Normal && is_hidden_name(crate::path::comps_view(cs@)[i as int]->Normal_0));
                    return true;
                }
            },
            _ => {},
        }
        i = i + 1;
    }
    false
}

/// Decide whether the file `path` under `src` is copied, and where.
pub fn static_asset_target(src: &str, dist: &str, path: &str) -> (r: Option<String>)
    requires
        path_starts_with_spec(path@, src@),
    ensures
        r matches Some(t) ==> static_asset_target_spec(src@, dist@, path@) == Some(t@),
        r is None ==> static_asset_target_spec(src@, dist@, path@) is None,
{
    let rel = match path_strip_prefix(path, src) {
        Some(r) => r,
        None => {
            assert(false);
            String::new()
        },
    };
    let cs = path_components(rel.as_str());
    if hidden_component(&cs) {
        return None;
    }
    let ext = extension_lower(path);
    if str_eq(ext.as_str(), "html") || is_css_extension(ext.as_str()) || is_js_extension(ext.as_str()) {
        return None;
    }
    Some(path_join(dist, rel.as_str()))
}

pub open spec fn unreadable_path_message(err: Seq<char>) -> Seq<char> {
    "skipping unreadable path during static copy: "@ + err
}

pub open spec fn unreadable_asset_message(path: Seq<char>, err: Seq<char>) -> Seq<char> {
    "skipping unreadable static asset "@ + path + ": "@ + err
}

pub open spec fn copy_failed_message(path: Seq<char>, out: Seq<char>, err: Seq<char>) -> Seq<char> {
    "failed to copy "@ + path + " into "@ + out + ": "@ + err
}

/// The warning for a directory entry the walk could not read.
pub fn unreadable_path_warning(err: &str) -> (w: String)
    ensures
        w@ == unreadable_path_message(err@),
{
    concat2("skipping unreadable path during static copy: ", err)
}

/// The warning for a static asset that cannot be read.
pub fn unreadable_asset_warning(path: &str, err: &str) -> (w: String)
    ensures
        w@ == unreadable_asset_message(path@, err@),
{
    let mut w = concat2("skipping unreadable static asset ", path);
    w.append(": ");
    w.append(err);
    w
}

/// A failed copy of `path` to `out` is only a warning when the source itself
/// cannot be read; otherwise writing into the output failed, which is an error.
pub fn static_copy_failure(path: &str, out: &str, err: &str, source_readable: bool) -> (r: Result<String, String>)
    ensures
        !source_readable ==> (r matches Ok(w) && w@ == unreadable_asset_message(path@, err@)),
        source_readable ==> (r matches Err(e) && e@ == copy_failed_message(path@, out@, err@)),
{
    if !source_readable {
        Ok(unreadable_asset_warning(path, err))
    } else {
        let mut e = concat2("failed to copy ", path);
        e.append(" into ");
        e.append(out);
        e.append(": ");
        e.append(err);
        Err(e)
    }
}

/// A static asset keeps its place: when `path` is copied, the components of
/// its target are those of `dist` followed by those that follow `src` in
/// `path`, and stripping `dist` from the target gives what stripping `src`
/// from `path` gave.
pub proof fn lemma_static_target_mirrors(src: Seq<char>, dist: Seq<char>, path: Seq<char>)
    requires
        path_starts_with_spec(path, src),
        components(src).len() > 0,
        static_asset_target_spec(src, dist, path) is Some,
    ensures
        components(static_asset_target_spec(src, dist, path).unwrap()) == components(dist)
            + components(path).skip(components(src).len() as int),
        strip_prefix_spec(static_asset_target_spec(src, dist, path).unwrap(), dist)
            == strip_prefix_spec(path, src),
{
    lemma_rebase(path, src, dist);
}


/// Everything under `src` that is not hidden and not bundled is copied: a file
/// with no hidden component is skipped by the static copy exactly when its
/// lowercased extension is `html`, `css`, `js`, `mjs`, `cjs`, `ts`, `mts` or
/// `cts`; any other file goes under `dist` at its place under `src`; a file
/// with a hidden component is never copied.
pub proof fn lemma_static_copy_by_extension(src: Seq<char>, dist: Seq<char>, path: Seq<char>)
    ensures
        ({
            let e = ext_lower_spec(path);
            let rel = strip_prefix_spec(path, src).unwrap();
            let bundled = e == "html"@ || e == "css"@ || e == "js"@ || e == "mjs"@ || e == "cjs"@ || e == "ts"@
                || e == "mts"@ || e == "cts"@;
            &&& has_hidden_component(components(rel)) ==> static_asset_target_spec(src, dist, path) is None
            &&& !has_hidden_component(components(rel)) ==> (static_asset_target_spec(src, dist, path) is None <==> bundled)
            &&& !has_hidden_component(components(rel)) && !bundled ==> static_asset_target_spec(src, dist, path)
                == Some(join_spec(dist, rel))
        }),
{
    reveal_strlit("html");
    reveal_strlit("css");
    reveal_strlit("js");
    reveal_strlit("mjs");
    reveal_strlit("cjs");
    reveal_strlit("ts");
    reveal_strlit("mts");
    reveal_strlit("cts");
}


proof fn lemma_html_ext(e: Seq<char>)
    ensures
        crate::text::eq_ignore_case(e, "html"@) <==> crate::text::lower_seq(e) == "html"@,
{
    reveal_strlit("html");
    let h = "html"@;
    assert forall|i: int| 0 <= i < h.len() implies crate::text::ascii_lower(#[trigger] h[i]) == h[i] by {}
    if crate::text::eq_ignore_case(e, h) {
        assert(crate::text::lower_seq(e) =~= h);
    }
    if crate::text::lower_seq(e) == h {
        assert forall|i: int| 0 <= i < e.len() implies crate::text::ascii_lower(e[i]) == crate::text::ascii_lower(h[i]) by {
            assert(crate::text::lower_seq(e)[i] == crate::text::ascii_lower(e[i]));
        }
    }
}

/// Every file under `src` with no hidden component is handled exactly one way:
/// it is a page, or an asset that bundling accepts, or a static asset copied
/// as-is.
pub proof fn lemma_files_handled_once(src: Seq<char>, dist: Seq<char>, path: Seq<char>)
    requires
        !has_hidden_component(components(strip_prefix_spec(path, src).unwrap())),
    ensures
        ({
            let page = crate::bundle::is_page_path_spec(path);
            let asset = crate::assets::asset_plan_spec(path, src) is Ok;
            let copied = static_asset_target_spec(src, dist, path) is Some;
            &&& page || asset || copied
            &&& !(page && asset) && !(page && copied) && !(asset && copied)
        }),
{
    lemma_static_copy_by_extension(src, dist, path);
    crate::assets::lemma_asset_plan_by_extension(path, src);
    match crate::path::extension_spec(path) {
        Some(e) => lemma_html_ext(e),
        None => {},
    }
    reveal_strlit("html");
    reveal_strlit("css");
    reveal_strlit("js");
    reveal_strlit("mjs");
    reveal_strlit("cjs");
    reveal_strlit("ts");
    reveal_strlit("mts");
    reveal_strlit("cts");
}

} // verus!
