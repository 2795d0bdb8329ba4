//! The html side of bundling: which elements reference bundled assets, how a
//! page's references are rewritten, and html minification.
use vstd::prelude::*;

use crate::strmap::StrMap;
use lol_html::html_content::Element;
use lol_html::{rewrite_str, ElementContentHandlers, HandlerResult, RewriteStrSettings, Selector};
use std::borrow::Cow;
use std::cell::RefCell;
use crate::text::{
    chars_of, char_is_ws, concat2, eq_ignore_case, is_ws, str_eq_ignore_case, trim, trim_spec,
};

verus! {

pub open spec fn opt_str(o: Option<String>) -> Option<Seq<char>> {
    match o {
        Some(s) => Some(s@),
        None => None,
    }
}

/// `s[a..b]` is one of the words `str::split_whitespace` yields.
pub open spec fn is_token(s: Seq<char>, a: int, b: int) -> bool {
    &&& 0 <= a < b <= s.len()
    &&& (a == 0 || is_ws(s[a - 1]))
    &&& (b == s.len() || is_ws(s[b]))
    &&& forall|k: int| a <= k < b ==> !is_ws(#[trigger] s[k])
}

/// One whitespace-separated word of `s` equals `w`, ignoring ascii case.
pub open spec fn has_word_ignore_case(s: Seq<char>, w: Seq<char>) -> bool {
    exists|a: int, b: int| is_token(s, a, b) && eq_ignore_case(#[trigger] s.subrange(a, b), w)
}

/// Whether one of the whitespace-separated words of `s` is `w`, ignoring ascii case.
pub fn contains_word_ignore_case(s: &str, w: &str) -> (r: bool)
    ensures
        r == has_word_ignore_case(s@, w@),
{
    let v = chars_of(s);
    let n = v.len();
    let mut i: usize = 0;
    while i < n
        invariant
            v@ == s@,
            n == v@.len(),
            i <= n,
            i == 0 || i == n || is_ws(v@[i - 1]) || (i < n && is_ws(v@[i as int])),
            forall|a: int, b: int|
                is_token(s@, a, b) && a < i ==> !eq_ignore_case(#[trigger] s@.subrange(a, b), w@),
        decreases n - i,
    {
        let skip_from = i;
        while i < n && char_is_ws(v[i])
            invariant
                v@ == s@,
                n == v@.len(),
                skip_from <= i <= n,
                forall|k: int| skip_from <= k < i ==> is_ws(#[trigger] v@[k]),
                i == 0 || is_ws(v@[i - 1]) || (i < n && is_ws(v@[i as int])),
            decreases n - i,
        {
            i = i + 1;
        }
        if i == n {
            assert forall|a: int, b: int| is_token(s@, a, b) implies !eq_ignore_case(
                #[trigger] s@.subrange(a, b),
                w@,
            ) by {
                if a >= skip_from {
                    assert(is_ws(v@[a]));
                }
            }
            return false;
        }
        assert(i == 0 || is_ws(v@[i - 1])) by {
            if i > skip_from {
                assert(is_ws(v@[i - 1]));
            }
        }
        let start = i;
        while i < n && !char_is_ws(v[i])
            invariant
                v@ == s@,
                n == v@.len(),
                start <= i <= n,
                forall|k: int| start <= k < i ==> !is_ws(#[trigger] v@[k]),
            decreases n - i,
        {
            i = i + 1;
        }
        assert(is_token(s@, start as int, i as int));
        if str_eq_ignore_case(s.substring_char(start, i), w) {
            return true;
        }
        assert forall|a: int, b: int| is_token(s@, a, b) && a < i implies !eq_ignore_case(
            #[trigger] s@.subrange(a, b),
            w@,
        ) by {
            if a >= skip_from {
                if a < start {
                    assert(is_ws(v@[a]));
                } else {
                    if a > start {
                        assert(!is_ws(v@[a - 1]));
                    }
                    if b < i {
                        assert(!is_ws(v@[b]));
                    }
                    if b > i {
                        assert(!is_ws(s@[i as int]));
                    }
                }
            }
        }
    }
    assert forall|a: int, b: int| is_token(s@, a, b) implies !eq_ignore_case(
        #[trigger] s@.subrange(a, b),
        w@,
    ) by {}
    false
}

/// `<script type="module">`: the type, trimmed, is `module` in any ascii case.
pub open spec fn is_module_script_spec(type_attr: Option<Seq<char>>) -> bool {
    match type_attr {
        Some(t) => eq_ignore_case(trim_spec(t), "module"@),
        None => false,
    }
}

pub fn is_module_script(type_attr: Option<&str>) -> (r: bool)
    ensures
        r == is_module_script_spec(match type_attr {
            Some(t) => Some(t@),
            None => None,
        }),
{
    match type_attr {
        Some(t) => str_eq_ignore_case(trim(t), "module"),
        None => false,
    }
}

/// `<link rel="stylesheet">`: one word of `rel` is `stylesheet` in any ascii case.
pub open spec fn is_stylesheet_link_spec(rel: Option<Seq<char>>) -> bool {
    match rel {
        Some(r) => has_word_ignore_case(r, "stylesheet"@),
        None => false,
    }
}

pub fn is_stylesheet_link(rel: Option<&str>) -> (r: bool)
    ensures
        r == is_stylesheet_link_spec(match rel {
            Some(t) => Some(t@),
            None => None,
        }),
{
    match rel {
        Some(t) => contains_word_ignore_case(t, "stylesheet"),
        None => false,
    }
}

/// The attributes of a `<script>` or `<link>` element that decide whether it
/// references an asset to bundle.
pub enum RefElement {
    Script { src: Option<String>, type_attr: Option<String> },
    Link { rel: Option<String>, href: Option<String> },
}

/// What the library reads of a `<script>` or `<link>` element: whether it is a
/// script, then `src` and `type` of a script, or `rel` and `href` of a link.
pub open spec fn ref_element_view(e: RefElement) -> (bool, Option<Seq<char>>, Option<Seq<char>>) {
    match e {
        RefElement::Script { src, type_attr } => (true, opt_str(src), opt_str(type_attr)),
        RefElement::Link { rel, href } => (false, opt_str(rel), opt_str(href)),
    }
}

pub open spec fn ref_elements_view(es: Seq<RefElement>) -> Seq<(bool, Option<Seq<char>>, Option<Seq<char>>)> {
    es.map_values(|e: RefElement| ref_element_view(e))
}

/// The reference an element contributes to the bundle, if any: the `src` of a
/// module script, or the `href` of a stylesheet link, when not blank.
pub open spec fn element_ref_spec(e: (bool, Option<Seq<char>>, Option<Seq<char>>)) -> Option<Seq<char>> {
    if e.0 {
        match e.1 {
            Some(s) => if trim_spec(s).len() > 0 && is_module_script_spec(e.2) {
                Some(s)
            } else {
                None
            },
            None => None,
        }
    } else {
        match e.2 {
            Some(h) => if is_stylesheet_link_spec(e.1) && trim_spec(h).len() > 0 {
                Some(h)
            } else {
                None
            },
            None => None,
        }
    }
}

/// The trimmed `src` of a classic (non-module) script that is skipped, if `e` is one.
pub open spec fn element_skipped_spec(e: (bool, Option<Seq<char>>, Option<Seq<char>>)) -> Option<Seq<char>> {
    if e.0 {
        match e.1 {
            Some(s) => if trim_spec(s).len() > 0 && !is_module_script_spec(e.2) {
                Some(trim_spec(s))
            } else {
                None
            },
            None => None,
        }
    } else {
        None
    }
}

pub open spec fn skip_script_message(src: Seq<char>, page: Seq<char>) -> Seq<char> {
    "skipping classic <script> (type=\"module\" required): "@ + src + " in "@ + page
}

/// The references of `es`, in document order.
pub open spec fn refs_spec(es: Seq<(bool, Option<Seq<char>>, Option<Seq<char>>)>) -> Seq<Seq<char>>
    decreases es.len(),
{
    if es.len() == 0 {
        Seq::empty()
    } else {
        let r = refs_spec(es.drop_last());
        match element_ref_spec(es.last()) {
            Some(x) => r.push(x),
            None => r,
        }
    }
}

/// The warnings for the classic scripts of `es` found in `page`, in document order.
pub open spec fn skip_warnings_spec(es: Seq<(bool, Option<Seq<char>>, Option<Seq<char>>)>, page: Seq<char>) -> Seq<Seq<char>>
    decreases es.len(),
{
    if es.len() == 0 {
        Seq::empty()
    } else {
        let r = skip_warnings_spec(es.drop_last(), page);
        match element_skipped_spec(es.last()) {
            Some(x) => r.push(skip_script_message(x, page)),
            None => r,
        }
    }
}

pub open spec fn strings_view(v: Seq<String>) -> Seq<Seq<char>> {
    v.map_values(|s: String| s@)
}

fn as_opt_str(o: &Option<String>) -> (r: Option<&str>)
    ensures
        (match r {
            Some(t) => Some(t@),
            None => None,
        }) == opt_str(*o),
{
    match o {
        Some(s) => Some(s.as_str()),
        None => None,
    }
}

/// Collect the `<link rel="stylesheet">` hrefs and `<script type="module">` srcs
/// of a page, in document order, and a warning for each classic script skipped.
/// `elements` are the page's `<script>` and `<link>` elements, in document order.
pub fn html_asset_refs_select(elements: &Vec<RefElement>, page: &str) -> (r: (Vec<String>, Vec<String>))
    ensures
        strings_view(r.0@) == refs_spec(ref_elements_view(elements@)),
        strings_view(r.1@) == skip_warnings_spec(ref_elements_view(elements@), page@),
{
    let ghost views = ref_elements_view(elements@);
    let mut refs: Vec<String> = Vec::new();
    let mut warnings: Vec<String> = Vec::new();
    let mut i: usize = 0;
    while i < elements.len()
        invariant
            i <= elements@.len(),
            views == ref_elements_view(elements@),
            strings_view(refs@) == refs_spec(views.take(i as int)),
            strings_view(warnings@) == skip_warnings_spec(views.take(i as int), page@),
        decreases elements.len() - i,
    {
        assert(views.take(i + 1).drop_last() =~= views.take(i as int));
        assert(views.take(i + 1).last() == ref_element_view(elements@[i as int]));
        let ghost prev_refs = strings_view(refs@);
        let ghost prev_warnings = strings_view(warnings@);
        match &elements[i] {
            RefElement::Script { src, type_attr } => {
                if let Some(s) = src {
                    if trim(s.as_str()).unicode_len() > 0 {
                        if is_module_script(as_opt_str(type_attr)) {
                            refs.push(s.clone());
                            assert(strings_view(refs@) =~= prev_refs.push(s@));
                        } else {
                            let t = trim(s.as_str());
                            let mut w = concat2(
                                "skipping classic <script> (type=\"module\" required): ",
                                t,
                            );
                            w.append(" in ");
                            w.append(page);
                            warnings.push(w);
                            assert(strings_view(warnings@) =~= prev_warnings.push(
                                skip_script_message(trim_spec(s@), page@),
                            ));
                        }
                    }
                }
            },
            RefElement::Link { rel, href } => {
                if let Some(h) = href {
                    if is_stylesheet_link(as_opt_str(rel)) && trim(h.as_str()).unicode_len() > 0 {
                        refs.push(h.clone());
                        assert(strings_view(refs@) =~= prev_refs.push(h@));
                    }
                }
            },
        }
        i = i + 1;
    }
    assert(views.take(elements@.len() as int) =~= views);
    (refs, warnings)
}

/// What `lol_html::rewrite_str` meets in `html` with a handler on `script, link`:
/// for each such element, in document order, its tag name and its `src`,
/// `type`, `rel` and `href` attributes; `None` when `rewrite_str` fails.
pub uninterp spec fn html_ref_elements(html: Seq<char>) -> Option<
    Seq<(Seq<char>, Option<Seq<char>>, Option<Seq<char>>, Option<Seq<char>>, Option<Seq<char>>)>,
>;

pub open spec fn attrs_view(
    v: Seq<(String, Option<String>, Option<String>, Option<String>, Option<String>)>,
) -> Seq<(Seq<char>, Option<Seq<char>>, Option<Seq<char>>, Option<Seq<char>>, Option<Seq<char>>)> {
    v.map_values(
        |t: (String, Option<String>, Option<String>, Option<String>, Option<String>)|
            (t.0@, opt_str(t.1), opt_str(t.2), opt_str(t.3), opt_str(t.4)),
    )
}

/// The element a record of `html_ref_elements` stands for: a script with its
/// `src` and `type`, else a link with its `rel` and `href`.
pub open spec fn element_of_attrs(
    t: (Seq<char>, Option<Seq<char>>, Option<Seq<char>>, Option<Seq<char>>, Option<Seq<char>>),
) -> (bool, Option<Seq<char>>, Option<Seq<char>>) {
    if t.0 == "script"@ {
        (true, t.1, t.2)
    } else {
        (false, t.3, t.4)
    }
}

pub open spec fn elements_of_attrs(
    ts: Seq<(Seq<char>, Option<Seq<char>>, Option<Seq<char>>, Option<Seq<char>>, Option<Seq<char>>)>,
) -> Seq<(bool, Option<Seq<char>>, Option<Seq<char>>)> {
    ts.map_values(
        |t: (Seq<char>, Option<Seq<char>>, Option<Seq<char>>, Option<Seq<char>>, Option<Seq<char>>)|
            element_of_attrs(t),
    )
}

/// Runs `lol_html::rewrite_str` on `html` with an element handler on the
/// selector `script, link` that records each element's `tag_name` and its
/// `src`, `type`, `rel` and `href` attributes. The result is a function of
/// `html` alone; the error's wording is not stated.
#[verifier::external_body]
fn html_ref_elements_call(html: &str) -> (r: Result<Vec<(String, Option<String>, Option<String>, Option<String>, Option<String>)>, String>)
    ensures
        r is Ok <==> html_ref_elements(html@) is Some,
        r matches Ok(v) ==> html_ref_elements(html@) == Some(attrs_view(v@)),
{
    let found = RefCell::new(Vec::new());
    let handler = ElementContentHandlers::default().element(|el: &mut Element<'_, '_>| -> HandlerResult {
        let a = |n: &str| el.get_attribute(n);
        found.borrow_mut().push((el.tag_name(), a("src"), a("type"), a("rel"), a("href")));
        Ok(())
    });
    let sel = Cow::Owned("script, link".parse::<Selector>().unwrap());
    rewrite_str(html, RewriteStrSettings::new().append_element_content_handler((sel, handler))).map_err(|e| format!("html parse error: {e}"))?;
    Ok(found.into_inner())
}

/// The element a record stands for.
pub fn ref_element_of(
    tag: &str,
    src: Option<String>,
    type_attr: Option<String>,
    rel: Option<String>,
    href: Option<String>,
) -> (e: RefElement)
    ensures
        ref_element_view(e) == element_of_attrs((tag@, opt_str(src), opt_str(type_attr), opt_str(rel), opt_str(href))),
{
    proof {
        reveal_strlit("script");
    }
    if crate::text::str_eq(tag, "script") {
        RefElement::Script { src, type_attr }
    } else {
        RefElement::Link { rel, href }
    }
}

/// Collect the `<link rel="stylesheet">` hrefs and `<script type="module">` srcs
/// of the page `html` (found at `page`), in document order, and a warning for
/// each classic script skipped; fails exactly when the html cannot be parsed.
pub fn html_asset_refs_extract(html: &str, page: &str) -> (r: Result<(Vec<String>, Vec<String>), String>)
    ensures
        r is Ok <==> html_ref_elements(html@) is Some,
        r matches Ok((refs, warnings)) ==> strings_view(refs@) == refs_spec(
            elements_of_attrs(html_ref_elements(html@).unwrap()),
        ) && strings_view(warnings@) == skip_warnings_spec(
            elements_of_attrs(html_ref_elements(html@).unwrap()),
            page@,
        ),
{
    let records = match html_ref_elements_call(html) {
        Ok(v) => v,
        Err(e) => return Err(e),
    };
    let mut elements: Vec<RefElement> = Vec::new();
    let mut i: usize = 0;
    while i < records.len()
        invariant
            i <= records@.len(),
            ref_elements_view(elements@) == elements_of_attrs(attrs_view(records@)).take(i as int),
        decreases records.len() - i,
    {
        let t = &records[i];
        let e = ref_element_of(t.0.as_str(), t.1.clone(), t.2.clone(), t.3.clone(), t.4.clone());
        let ghost prev = ref_elements_view(elements@);
        elements.push(e);
        assert(ref_elements_view(elements@) =~= prev.push(ref_element_view(e)));
        i = i + 1;
    }
    assert(elements_of_attrs(attrs_view(records@)).take(records@.len() as int) =~= elements_of_attrs(
        attrs_view(records@),
    ));
    Ok(html_asset_refs_select(&elements, page))
}

/// What to do with an element whose reference attribute was looked up.
pub enum RewriteAction {
    /// leave the element as it is
    Keep,
    /// set the attribute to the bundled reference
    SetAttribute(String),
    /// drop the element: the same bundled reference was already set earlier in the page
    Remove,
}

/// The meaning of a `RewriteAction`.
pub enum ActionView {
    Keep,
    SetTo(Seq<char>),
    Remove,
}

pub open spec fn action_view(a: RewriteAction) -> ActionView {
    match a {
        RewriteAction::Keep => ActionView::Keep,
        RewriteAction::SetAttribute(x) => ActionView::SetTo(x@),
        RewriteAction::Remove => ActionView::Remove,
    }
}

/// One rewrite step: the action for an element whose attribute is `value`, and
/// the rewrites set so far in the page afterwards.
pub open spec fn rewrite_step_spec(
    map: Map<Seq<char>, Seq<char>>,
    seen: Seq<Seq<char>>,
    value: Option<Seq<char>>,
) -> (ActionView, Seq<Seq<char>>) {
    match value {
        None => (ActionView::Keep, seen),
        Some(v) => if !map.dom().contains(v) {
            (ActionView::Keep, seen)
        } else if seen.contains(map[v]) {
            (ActionView::Remove, seen)
        } else {
            (ActionView::SetTo(map[v]), seen.push(map[v]))
        },
    }
}

/// The actions for a page whose elements carry `values`, in document order,
/// and the rewrites set by the end.
pub open spec fn rewrite_run(map: Map<Seq<char>, Seq<char>>, values: Seq<Option<Seq<char>>>) -> (
    Seq<ActionView>,
    Seq<Seq<char>>,
)
    decreases values.len(),
{
    if values.len() == 0 {
        (Seq::empty(), Seq::empty())
    } else {
        let (acts, seen) = rewrite_run(map, values.drop_last());
        let (a, seen2) = rewrite_step_spec(map, seen, values.last());
        (acts.push(a), seen2)
    }
}

/// Deduping of a page's references: no bundled reference is set on two elements;
/// an element is removed only when its bundled reference was set on an earlier one;
/// and an element whose reference is mapped is never kept as it was.
pub proof fn lemma_rewrite_dedupes(map: Map<Seq<char>, Seq<char>>, values: Seq<Option<Seq<char>>>)
    ensures
        rewrite_run(map, values).0.len() == values.len(),
        forall|i: int, j: int|
            0 <= i < j < values.len() && #[trigger] rewrite_run(map, values).0[i] is SetTo
                && #[trigger] rewrite_run(map, values).0[j] is SetTo ==> rewrite_run(map, values).0[i]->SetTo_0
                != rewrite_run(map, values).0[j]->SetTo_0,
        forall|j: int|
            0 <= j < values.len() && #[trigger] rewrite_run(map, values).0[j] is Remove ==> exists|i: int|
                0 <= i < j && #[trigger] rewrite_run(map, values).0[i] == ActionView::SetTo(map[values[j]->Some_0]),
        forall|j: int|
            0 <= j < values.len() && (values[j] matches Some(v) && map.dom().contains(v)) ==> !(
            #[trigger] rewrite_run(map, values).0[j] is Keep),
    decreases values.len(),
{
    lemma_rewrite_seen(map, values);
    if values.len() > 0 {
        let d = values.drop_last();
        lemma_rewrite_dedupes(map, d);
        lemma_rewrite_seen(map, d);
        let (acts, seen) = rewrite_run(map, d);
        let all = rewrite_run(map, values).0;
        assert(all == acts.push(rewrite_step_spec(map, seen, values.last()).0));
        assert forall|i: int, j: int|
            0 <= i < j < values.len() && #[trigger] all[i] is SetTo && #[trigger] all[j] is SetTo implies all[i]->SetTo_0
                != all[j]->SetTo_0 by {
            if j == values.len() - 1 {
                assert(all[i] == acts[i]);
                assert(seen.contains(acts[i]->SetTo_0));
            } else {
                assert(all[i] == acts[i] && all[j] == acts[j]);
                assert(d[j] == values[j]);
            }
        }
        assert forall|j: int|
            0 <= j < values.len() && #[trigger] all[j] is Remove implies exists|i: int|
                0 <= i < j && #[trigger] all[i] == ActionView::SetTo(map[values[j]->Some_0]) by {
            if j == values.len() - 1 {
                let v = values.last()->Some_0;
                assert(seen.contains(map[v]));
                let k = choose|k: int| 0 <= k < seen.len() && seen[k] == map[v];
                let i = choose|i: int| 0 <= i < acts.len() && acts[i] == ActionView::SetTo(seen[k]);
                assert(all[i] == acts[i]);
            } else {
                assert(all[j] == acts[j]);
                assert(d[j] == values[j]);
                let i = choose|i: int| 0 <= i < j && #[trigger] acts[i] == ActionView::SetTo(map[d[j]->Some_0]);
                assert(all[i] == acts[i]);
            }
        }
        assert forall|j: int|
            0 <= j < values.len() && (values[j] matches Some(v) && map.dom().contains(v)) implies !(
            #[trigger] all[j] is Keep) by {
            if j < values.len() - 1 {
                assert(all[j] == acts[j]);
                assert(d[j] == values[j]);
            }
        }
    }
}

/// The rewrites set so far are exactly the targets of the `SetTo` actions, without repeats.
pub proof fn lemma_rewrite_seen(map: Map<Seq<char>, Seq<char>>, values: Seq<Option<Seq<char>>>)
    ensures
        rewrite_run(map, values).0.len() == values.len(),
        forall|x: Seq<char>| rewrite_run(map, values).1.contains(x) <==> exists|i: int|
            0 <= i < values.len() && #[trigger] rewrite_run(map, values).0[i] == ActionView::SetTo(x),
    decreases values.len(),
{
    if values.len() > 0 {
        let d = values.drop_last();
        lemma_rewrite_seen(map, d);
        let (acts, seen) = rewrite_run(map, d);
        let (a, seen2) = rewrite_step_spec(map, seen, values.last());
        let all = acts.push(a);
        assert forall|x: Seq<char>| seen2.contains(x) <==> exists|i: int|
            0 <= i < values.len() && #[trigger] all[i] == ActionView::SetTo(x) by {
            if seen2.contains(x) {
                if seen.contains(x) {
                    let i = choose|i: int| 0 <= i < d.len() && #[trigger] acts[i] == ActionView::SetTo(x);
                    assert(all[i] == acts[i]);
                } else {
                    assert(seen2 != seen);
                    assert(all[values.len() - 1] == a);
                    let k = choose|k: int| 0 <= k < seen2.len() && seen2[k] == x;
                    assert(k == seen.len());
                }
            }
            if exists|i: int| 0 <= i < values.len() && #[trigger] all[i] == ActionView::SetTo(x) {
                let i = choose|i: int| 0 <= i < values.len() && #[trigger] all[i] == ActionView::SetTo(x);
                if i < d.len() {
                    assert(all[i] == acts[i]);
                    assert(seen.contains(x));
                    if seen2 != seen {
                        assert(seen2 == seen.push(seen2.last()));
                        let k = choose|k: int| 0 <= k < seen.len() && seen[k] == x;
                        assert(seen2[k] == x);
                    }
                } else {
                    assert(seen2 == seen.push(x));
                    assert(seen2[seen.len() as int] == x);
                }
            }
        }
    }
}

/// Rewrites the discovered references of a page to their bundled output,
/// deduping duplicate references within the page to one.
pub struct RewriteState {
    pub map: StrMap,
    pub seen: Vec<String>,
}

impl RewriteState {
    pub open spec fn seen_view(&self) -> Seq<Seq<char>> {
        strings_view(self.seen@)
    }

    /// A fresh state for one page, with `map` from references to their rewrite.
    pub fn new(map: StrMap) -> (s: RewriteState)
        ensures
            s.map@ == map@,
            s.seen_view() == Seq::<Seq<char>>::empty(),
    {
        let s = RewriteState { map, seen: Vec::new() };
        assert(s.seen_view() =~= Seq::<Seq<char>>::empty());
        s
    }

    fn seen_contains(&self, v: &str) -> (r: bool)
        ensures
            r == self.seen_view().contains(v@),
    {
        let mut i: usize = 0;
        while i < self.seen.len()
            invariant
                i <= self.seen@.len(),
                forall|j: int| 0 <= j < i ==> (#[trigger] self.seen@[j])@ != v@,
            decreases self.seen.len() - i,
        {
            if crate::text::str_eq(self.seen[i].as_str(), v) {
                assert(self.seen_view()[i as int] == v@);
                return true;
            }
            i = i + 1;
        }
        assert(!self.seen_view().contains(v@)) by {
            if self.seen_view().contains(v@) {
                let j = choose|j: int| 0 <= j < self.seen_view().len() && self.seen_view()[j] == v@;
                assert(self.seen@[j]@ == v@);
            }
        }
        false
    }

    /// Handle one `<script src>` / `<link href>` element whose attribute is `value`:
    /// a mapped reference is set the first time its rewrite is met in the page, and
    /// the element is removed when that rewrite was already set.
    pub fn step(&mut self, value: Option<&str>) -> (a: RewriteAction)
        ensures
            final(self).map@ == old(self).map@,
            (action_view(a), final(self).seen_view()) == rewrite_step_spec(
                old(self).map@,
                old(self).seen_view(),
                match value {
                    Some(v) => Some(v@),
                    None => None,
                },
            ),
    {
        match value {
            None => RewriteAction::Keep,
            Some(v) => match self.map.get(v) {
                None => RewriteAction::Keep,
                Some(new) => {
                    if self.seen_contains(new.as_str()) {
                        RewriteAction::Remove
                    } else {
                        let ghost prev = self.seen_view();
                        self.seen.push(new.clone());
                        assert(self.seen_view() =~= prev.push(new@));
                        RewriteAction::SetAttribute(new)
                    }
                },
            },
        }
    }
}


/// What `lol_html::rewrite_str` returns for `html`, when it succeeds, if the
/// n-th element it meets with a handler on `script, link` gets `actions[n]`:
/// kept, its `src` (a script) or `href` (otherwise) set, or removed.
pub uninterp spec fn html_with_actions(html: Seq<char>, actions: Seq<ActionView>) -> Seq<char>;

/// The attribute that holds an element's reference: `src` on a script, else `href`.
pub open spec fn ref_attr(tag: Seq<char>) -> Seq<char> {
    if tag == "script"@ {
        "src"@
    } else {
        "href"@
    }
}

/// The reference value of each element record: the `src` of a script, else the `href`.
pub open spec fn ref_values(
    ts: Seq<(Seq<char>, Option<Seq<char>>, Option<Seq<char>>, Option<Seq<char>>, Option<Seq<char>>)>,
) -> Seq<Option<Seq<char>>> {
    ts.map_values(
        |t: (Seq<char>, Option<Seq<char>>, Option<Seq<char>>, Option<Seq<char>>, Option<Seq<char>>)|
            if t.0 == "script"@ {
                t.1
            } else {
                t.4
            },
    )
}

/// The references a page yields are the reference values of the very elements
/// its rewrite acts on: wherever an element contributes a reference, that is
/// the value the rewrite steps on at the same position.
pub proof fn lemma_extracted_refs_are_rewritten(
    ts: Seq<(Seq<char>, Option<Seq<char>>, Option<Seq<char>>, Option<Seq<char>>, Option<Seq<char>>)>,
)
    ensures
        elements_of_attrs(ts).len() == ref_values(ts).len(),
        forall|j: int|
            0 <= j < ts.len() && #[trigger] element_ref_spec(elements_of_attrs(ts)[j]) is Some
                ==> ref_values(ts)[j] == element_ref_spec(elements_of_attrs(ts)[j]),
{
}

impl RewriteState {
    /// `step` on the reference of an element with tag `tag`: its `src` when it
    /// is a script, else its `href`; also says which attribute that is.
    pub fn step_element(&mut self, tag: &str, src: Option<&str>, href: Option<&str>) -> (r: (RewriteAction, String))
        ensures
            final(self).map@ == old(self).map@,
            r.1@ == ref_attr(tag@),
            (action_view(r.0), final(self).seen_view()) == rewrite_step_spec(
                old(self).map@,
                old(self).seen_view(),
                if tag@ == "script"@ {
                    match src {
                        Some(v) => Some(v@),
                        None => None,
                    }
                } else {
                    match href {
                        Some(v) => Some(v@),
                        None => None,
                    }
                },
            ),
    {
        proof {
            reveal_strlit("script");
            reveal_strlit("src");
            reveal_strlit("href");
        }
        if crate::text::str_eq(tag, "script") {
            (self.step(src), "src".to_owned())
        } else {
            (self.step(href), "href".to_owned())
        }
    }
}

/// Runs `lol_html::rewrite_str` on `html` with an element handler on the
/// selector `script, link`; it hands the element's `tag_name`, `src` and `href`
/// to `RewriteState::step_element` and applies the action it returns with
/// `Element::set_attribute` on the attribute it names, or `Element::remove`.
/// It meets the elements that `html_ref_elements_call` records, in the same
/// order: same selector, and `script` and `link` have no child elements for a
/// removal to hide. It fails exactly when that call fails: both handlers
/// never fail (the attribute names set are valid). The error's wording is not
/// stated.
#[verifier::external_body]
fn html_rewrite_call(html: &str, state: &mut RewriteState) -> (r: Result<String, String>)
    requires
        old(state).seen_view() == Seq::<Seq<char>>::empty(),
    ensures
        final(state).map@ == old(state).map@,
        r is Ok <==> html_ref_elements(html@) is Some,
        r matches Ok(out) ==> out@ == html_with_actions(
            html@,
            rewrite_run(old(state).map@, ref_values(html_ref_elements(html@).unwrap())).0,
        ),
{
    let cell = RefCell::new(state);
    let handler = ElementContentHandlers::default().element(|el: &mut Element<'_, '_>| -> HandlerResult {
        let (action, attr) = cell.borrow_mut().step_element(&el.tag_name(), el.get_attribute("src").as_deref(), el.get_attribute("href").as_deref());
        match action {
            RewriteAction::Keep => Ok(()),
            RewriteAction::SetAttribute(new) => Ok(el.set_attribute(&attr, &new)?),
            RewriteAction::Remove => Ok(el.remove()),
        }
    });
    let sel = Cow::Owned("script, link".parse::<Selector>().unwrap());
    rewrite_str(html, RewriteStrSettings::new().append_element_content_handler((sel, handler))).map_err(|e| format!("html rewrite error: {e}"))
}

/// Rewrite the references of the page `html` to their bundled output with
/// `map`, deduping duplicate references within the page to one: an empty map
/// leaves the page as it is; otherwise the n-th `script`/`link` element gets
/// the n-th action of `rewrite_run` over the elements' reference values.
pub fn html_rewrite(html: &str, map: StrMap) -> (r: Result<String, String>)
    ensures
        map@.dom().len() == 0 ==> (r matches Ok(out) && out@ == html@),
        map@.dom().len() != 0 ==> (r is Ok <==> html_ref_elements(html@) is Some),
        map@.dom().len() != 0 ==> (r matches Ok(out) ==> out@ == html_with_actions(
            html@,
            rewrite_run(map@, ref_values(html_ref_elements(html@).unwrap())).0,
        )),
{
    if map.len() == 0 {
        return Ok(html.to_owned());
    }
    let mut state = RewriteState::new(map);
    html_rewrite_call(html, &mut state)
}

/// What `minify_html::minify` returns for the html bytes `src` under a `Cfg` with
/// these four flags set as given and every other flag at its default.
pub uninterp spec fn html_minified(
    src: Seq<u8>,
    keep_closing_tags: bool,
    keep_html_and_head_opening_tags: bool,
    minify_css: bool,
    minify_js: bool,
) -> Seq<u8>;

/// Calls `minify_html::minify` with a `Cfg::new()` whose `keep_closing_tags`,
/// `keep_html_and_head_opening_tags`, `minify_css` and `minify_js` are set from the
/// arguments. The input must be UTF-8: the minifier decodes `<style>` contents and
/// attribute values with a panicking `expect`. The output is a function of the
/// input bytes and the configuration alone; what it is, is not stated.
#[verifier::external_body]
fn minify_html_call(
    src: &[u8],
    keep_closing_tags: bool,
    keep_html_and_head_opening_tags: bool,
    minify_css: bool,
    minify_js: bool,
) -> (out: Vec<u8>)
    requires
        vstd::utf8::valid_utf8(src@),
    ensures
        out@ == html_minified(src@, keep_closing_tags, keep_html_and_head_opening_tags, minify_css, minify_js),
{
    let mut cfg = minify_html::Cfg::new();
    cfg.keep_closing_tags = keep_closing_tags;
    cfg.keep_html_and_head_opening_tags = keep_html_and_head_opening_tags;
    cfg.minify_css = minify_css;
    cfg.minify_js = minify_js;
    minify_html::minify(src, &cfg)
}

/// `String::from_utf8`: succeeds exactly on valid UTF-8, with the decoded text;
/// on failure, the error's `Display` text (its wording is not stated).
#[verifier::external_body]
fn string_from_utf8(bytes: Vec<u8>) -> (r: Result<String, String>)
    ensures
        r is Ok <==> vstd::utf8::valid_utf8(bytes@),
        r matches Ok(s) ==> s@ == vstd::utf8::decode_utf8(bytes@),
{
    String::from_utf8(bytes).map_err(|err| format!("{err}"))
}

pub open spec fn html_minify_prefix() -> Seq<char> {
    "html minify error: "@
}

/// The text of minified html bytes: the decoded bytes, or an error when they are not UTF-8.
pub fn html_minified_text(minified: Vec<u8>) -> (r: Result<String, String>)
    ensures
        r is Ok <==> vstd::utf8::valid_utf8(minified@),
        r matches Ok(s) ==> s@ == vstd::utf8::decode_utf8(minified@),
        r matches Err(e) ==> html_minify_prefix().len() <= e@.len() && e@.take(html_minify_prefix().len() as int) == html_minify_prefix(),
{
    match string_from_utf8(minified) {
        Ok(s) => Ok(s),
        Err(err) => {
            let e = concat2("html minify error: ", err.as_str());
            assert(e@.take(html_minify_prefix().len() as int) =~= html_minify_prefix());
            Err(e)
        },
    }
}

/// Minify an html document, keeping closing tags and the structural
/// (`<html>`, `<head>`) opening tags so the output stays readable; inline css
/// and js are minified too.
pub fn html_minify(html: &str) -> (r: Result<String, String>)
    ensures
        ({
            let out = html_minified(vstd::utf8::encode_utf8(html@), true, true, true, true);
            &&& r is Ok <==> vstd::utf8::valid_utf8(out)
            &&& r matches Ok(s) ==> s@ == vstd::utf8::decode_utf8(out)
        }),
        r matches Err(e) ==> html_minify_prefix().len() <= e@.len() && e@.take(html_minify_prefix().len() as int) == html_minify_prefix(),
{
    proof {
        vstd::utf8::encode_utf8_valid_utf8(html@);
    }
    let minified = minify_html_call(html.as_bytes(), true, true, true, true);
    html_minified_text(minified)
}

} // verus!
