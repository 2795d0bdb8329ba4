//! Naming and dispatch of bundled assets (css and js).
use vstd::prelude::*;

use crate::hash::{fnv1a, hash_create, hex16};
use crate::options::Options;
use crate::path::{
    asset_ref_target, asset_ref_target_spec, extension_spec, file_name_spec, file_stem_spec, join_spec, parent_spec, path_extension,
    path_file_name, path_file_stem, path_join, path_parent, path_starts_with_spec,
    path_strip_prefix, strip_prefix_spec,
};
use crate::text::{chars_of, string_push, concat2, lower_seq, str_ends_with, str_eq, to_ascii_lower, ends_with};
use lightningcss::dependencies::{Dependency, DependencyOptions};
use lightningcss::stylesheet::{MinifyOptions, ParserOptions, PrinterOptions, StyleSheet};
use parcel_sourcemap::SourceMap;

verus! {

/// Bundled css extensions, lowercased.
pub open spec fn css_extension_spec(e: Seq<char>) -> bool {
    e == "css"@
}

/// Bundled js extensions, lowercased.
pub open spec fn js_extension_spec(e: Seq<char>) -> bool {
    ||| e == "js"@
    ||| e == "mjs"@
    ||| e == "cjs"@
    ||| e == "ts"@
    ||| e == "mts"@
    ||| e == "cts"@
}

pub fn is_css_extension(e: &str) -> (r: bool)
    ensures
        r == css_extension_spec(e@),
{
    str_eq(e, "css")
}

pub fn is_js_extension(e: &str) -> (r: bool)
    ensures
        r == js_extension_spec(e@),
{
    str_eq(e, "js") || str_eq(e, "mjs") || str_eq(e, "cjs") || str_eq(e, "ts") || str_eq(e, "mts")
        || str_eq(e, "cts")
}

/// The file stem of `source`, or `fallback` when it has none.
pub open spec fn file_stem_extract_spec(source: Seq<char>, fallback: Seq<char>) -> Seq<char> {
    match file_stem_spec(source) {
        Some(s) => s,
        None => fallback,
    }
}

/// The source file stem, falling back to a fixed name for unusual names.
pub fn file_stem_extract(source: &str, fallback: &str) -> (r: String)
    ensures
        r@ == file_stem_extract_spec(source@, fallback@),
{
    match path_file_stem(source) {
        Some(s) => s,
        None => fallback.to_owned(),
    }
}

/// `stem.ext`, or `stem-<hash>.ext` with the hash of `bytes` when `hash` is set.
pub open spec fn file_name_output_spec(stem: Seq<char>, ext: Seq<char>, bytes: Seq<u8>, hash: bool) -> Seq<
    char,
> {
    if hash {
        stem + "-"@ + hex16(fnv1a(bytes)) + "."@ + ext
    } else {
        stem + "."@ + ext
    }
}

/// The output file name of an asset, with an optional content hash.
pub fn file_name_output_format(stem: &str, ext: &str, bytes: &[u8], options: Options) -> (r: String)
    ensures
        r@ == file_name_output_spec(stem@, ext@, bytes@, options.hash),
{
    let mut r = stem.to_owned();
    if options.hash {
        let h = hash_create(bytes);
        r.append("-");
        r.append(h.as_str());
    }
    r.append(".");
    r.append(ext);
    r
}

/// Output directory for a relative `dir` under `dist`.
pub open spec fn dist_dir_spec(dist: Seq<char>, dir: Seq<char>) -> Seq<char> {
    if dir.len() == 0 {
        dist
    } else {
        join_spec(dist, dir)
    }
}

/// The output directory for a relative `dir` under `dist` (`dist` itself for an empty `dir`).
pub fn dist_dir(dist: &str, dir: &str) -> (r: String)
    ensures
        r@ == dist_dir_spec(dist@, dir@),
{
    if dir.unicode_len() == 0 {
        dist.to_owned()
    } else {
        path_join(dist, dir)
    }
}

/// How an asset is bundled.
#[derive(PartialEq, Eq, Structural)]
pub enum AssetKind {
    Css,
    Js,
}

/// What `asset_process` does with an asset: which bundler, the path relative to
/// `src` and the relative directory its output goes to.
pub struct AssetPlan {
    pub kind: AssetKind,
    pub rel: String,
    pub dir: String,
}

/// The lowercased extension of `p` (empty if none).
pub open spec fn ext_lower_spec(p: Seq<char>) -> Seq<char> {
    match extension_spec(p) {
        Some(e) => lower_seq(e),
        None => Seq::empty(),
    }
}

pub fn extension_lower(p: &str) -> (r: String)
    ensures
        r@ == ext_lower_spec(p@),
{
    match path_extension(p) {
        Some(e) => to_ascii_lower(e.as_str()),
        None => String::new(),
    }
}

pub open spec fn unsupported_message(ext: Seq<char>, asset: Seq<char>) -> Seq<char> {
    "unsupported asset type: ."@ + ext + " ("@ + asset + ")"@
}

/// The relative directory of `rel` (its parent, or empty).
pub open spec fn rel_dir_spec(rel: Seq<char>) -> Seq<char> {
    match parent_spec(rel) {
        Some(d) => d,
        None => Seq::empty(),
    }
}

/// Dispatch an asset under `src` on its (case-insensitive) extension.
pub open spec fn asset_plan_spec(asset: Seq<char>, src: Seq<char>) -> Result<(AssetKind, Seq<char>, Seq<char>), Seq<char>> {
    let rel = strip_prefix_spec(asset, src).unwrap();
    let ext = ext_lower_spec(asset);
    if css_extension_spec(ext) {
        Ok((AssetKind::Css, rel, rel_dir_spec(rel)))
    } else if js_extension_spec(ext) {
        Ok((AssetKind::Js, rel, rel_dir_spec(rel)))
    } else {
        Err(unsupported_message(ext, asset))
    }
}

/// Decide how `asset_path`, a file under `src`, is bundled.
pub fn asset_process_plan(asset_path: &str, src: &str) -> (r: Result<AssetPlan, String>)
    requires
        path_starts_with_spec(asset_path@, src@),
    ensures
        r matches Ok(p) ==> asset_plan_spec(asset_path@, src@) == Ok::<(AssetKind, Seq<char>, Seq<char>), Seq<char>>((p.kind, p.rel@, p.dir@)),
        r matches Err(e) ==> asset_plan_spec(asset_path@, src@) == Err::<(AssetKind, Seq<char>, Seq<char>), Seq<char>>(e@),
{
    let rel = match path_strip_prefix(asset_path, src) {
        Some(r) => r,
        None => {
            assert(false);
            String::new()
        },
    };
    let ext = extension_lower(asset_path);
    let dir = match path_parent(rel.as_str()) {
        Some(d) => d,
        None => String::new(),
    };
    if is_css_extension(ext.as_str()) {
        Ok(AssetPlan { kind: AssetKind::Css, rel, dir })
    } else if is_js_extension(ext.as_str()) {
        Ok(AssetPlan { kind: AssetKind::Js, rel, dir })
    } else {
        let mut e = concat2("unsupported asset type: .", ext.as_str());
        e.append(" (");
        e.append(asset_path);
        e.append(")");
        Err(e)
    }
}


/// One output file of the js bundler: its name and its bytes.
pub struct JsChunk {
    pub file_name: String,
    pub content: Vec<u8>,
}

/// What a written js file is.
#[derive(PartialEq, Eq, Structural, Clone, Copy, Debug)]
pub enum JsWriteKind {
    SourceMap,
    Entry,
    Chunk,
}

/// Write the bytes of chunk `chunk` to `name` in the output directory.
pub struct JsWrite {
    pub name: String,
    pub chunk: usize,
    pub kind: JsWriteKind,
}

pub open spec fn js_write_kind_spec(chunks: Seq<JsChunk>, i: int) -> JsWriteKind {
    if is_map_name(chunks[i].file_name@) {
        JsWriteKind::SourceMap
    } else if is_js_entry(chunks, i) {
        JsWriteKind::Entry
    } else {
        JsWriteKind::Chunk
    }
}

pub open spec fn is_map_name(n: Seq<char>) -> bool {
    ends_with(n, ".map"@)
}

/// The bare file name of a sourcemap (the whole name if it has none).
pub open spec fn map_file_name_spec(n: Seq<char>) -> Seq<char> {
    match file_name_spec(n) {
        Some(f) => f,
        None => n,
    }
}

/// The entry chunk is the first chunk that is not a sourcemap: the bundler
/// lists entry chunks first, then secondary chunks, then sourcemaps.
pub open spec fn is_js_entry(chunks: Seq<JsChunk>, i: int) -> bool {
    &&& 0 <= i < chunks.len()
    &&& !is_map_name(chunks[i].file_name@)
    &&& forall|j: int| 0 <= j < i ==> is_map_name(#[trigger] chunks[j].file_name@)
}

/// Where chunk `i` is written: sourcemaps under their bare file name, the entry
/// chunk under `stem.js` (hashed in release), other chunks under the bundler's name.
pub open spec fn js_write_name_spec(chunks: Seq<JsChunk>, i: int, stem: Seq<char>, hash: bool) -> Seq<char> {
    let n = chunks[i].file_name@;
    if is_map_name(n) {
        map_file_name_spec(n)
    } else if is_js_entry(chunks, i) {
        file_name_output_spec(stem, "js"@, chunks[i].content@, hash)
    } else {
        n
    }
}

pub open spec fn js_missing_message(source: Seq<char>) -> Seq<char> {
    "no js output for "@ + source
}

/// The writes `js_bundle` makes, in order, and the entry file name it returns.
pub struct JsOutputPlan {
    pub writes: Vec<JsWrite>,
    pub entry: Result<String, String>,
}

/// Decide the output file of every chunk of a js bundle of `source`.
pub fn js_output_plan(source: &str, stem: &str, chunks: &Vec<JsChunk>, options: Options) -> (r: JsOutputPlan)
    ensures
        r.writes@.len() == chunks@.len(),
        forall|i: int| 0 <= i < chunks@.len() ==> (#[trigger] r.writes@[i]).chunk == i
            && r.writes@[i].name@ == js_write_name_spec(chunks@, i, stem@, options.hash)
            && r.writes@[i].kind == js_write_kind_spec(chunks@, i),
        r.entry matches Ok(n) ==> exists|i: int| is_js_entry(chunks@, i) && n@ == file_name_output_spec(stem@, "js"@, chunks@[i].content@, options.hash),
        r.entry matches Err(e) ==> e@ == js_missing_message(source@) && forall|i: int| 0 <= i < chunks@.len() ==> is_map_name(#[trigger] chunks@[i].file_name@),
{
    let mut writes: Vec<JsWrite> = Vec::new();
    let mut entry: Option<String> = None;
    let mut i: usize = 0;
    while i < chunks.len()
        invariant
            i <= chunks@.len(),
            writes@.len() == i,
            forall|k: int| 0 <= k < i ==> (#[trigger] writes@[k]).chunk == k
                && writes@[k].name@ == js_write_name_spec(chunks@, k, stem@, options.hash)
                && writes@[k].kind == js_write_kind_spec(chunks@, k),
            entry is None ==> forall|k: int| 0 <= k < i ==> is_map_name(#[trigger] chunks@[k].file_name@),
            entry matches Some(n) ==> exists|k: int| 0 <= k < i && is_js_entry(chunks@, k) && n@ == file_name_output_spec(stem@, "js"@, chunks@[k].content@, options.hash),
        decreases chunks.len() - i,
    {
        let chunk = &chunks[i];
        let name = chunk.file_name.as_str();
        if str_ends_with(name, ".map") {
            let map_name = match path_file_name(name) {
                Some(f) => f,
                None => name.to_owned(),
            };
            writes.push(JsWrite { name: map_name, chunk: i, kind: JsWriteKind::SourceMap });
        } else {
            let final_name = file_name_output_format(stem, "js", chunk.content.as_slice(), options);
            if entry.is_none() {
                assert(is_js_entry(chunks@, i as int));
                let kept = final_name.clone();
                entry = Some(final_name);
                writes.push(JsWrite { name: kept, chunk: i, kind: JsWriteKind::Entry });
            } else {
                assert(!is_js_entry(chunks@, i as int));
                writes.push(JsWrite { name: name.to_owned(), chunk: i, kind: JsWriteKind::Chunk });
            }
        }
        i = i + 1;
    }
    let entry = match entry {
        Some(n) => Ok(n),
        None => Err(concat2("no js output for ", source)),
    };
    JsOutputPlan { writes, entry }
}

/// The css file as written: with a trailing sourcemap link when there is a map.
pub open spec fn css_code_spec(code: Seq<char>, stem: Seq<char>, sourcemap: bool) -> Seq<char> {
    if sourcemap {
        code + "\n/*# sourceMappingURL="@ + stem + ".map"@ + " */"@
    } else {
        code
    }
}

/// What `css_bundle` writes: the code under `name`, and the sourcemap json under
/// `map_name` when sourcemaps are on.
pub struct CssOutput {
    pub code: String,
    pub name: String,
    pub map_name: Option<String>,
}

/// Decide the written code and file names of a compiled stylesheet.
pub fn css_output_plan(stem: &str, code: &str, options: Options) -> (r: CssOutput)
    ensures
        r.code@ == css_code_spec(code@, stem@, options.sourcemap),
        r.name@ == file_name_output_spec(stem@, "css"@, vstd::utf8::encode_utf8(r.code@), options.hash),
        options.sourcemap ==> (r.map_name matches Some(m) && m@ == stem@ + ".map"@),
        !options.sourcemap ==> r.map_name is None,
{
    let mut out = code.to_owned();
    let map_name = if options.sourcemap {
        let m = concat2(stem, ".map");
        out.append("\n/*# sourceMappingURL=");
        out.append(m.as_str());
        out.append(" */");
        Some(m)
    } else {
        None
    };
    let name = file_name_output_format(stem, "css", out.as_str().as_bytes(), options);
    CssOutput { code: out, name, map_name }
}


/// What lightningcss makes of the stylesheet `code`, printed with dependency
/// analysis: the css, in which the target of every `@import` and `url()` is
/// replaced by a placeholder string, and each dependency as (its url, its
/// placeholder), in printing order. `None` when parsing, minifying or printing
/// fails.
pub uninterp spec fn css_compiled(code: Seq<char>, minify: bool) -> Option<
    (Seq<char>, Seq<(Seq<char>, Seq<char>)>),
>;

/// The json of the sourcemap lightningcss records while printing `code` as
/// `css_compiled` does, after `SourceMap::offset_columns` was applied with each
/// of `edits` (line, column, shift) in turn; `None` when parsing, minifying,
/// printing, shifting or serializing fails.
pub uninterp spec fn css_sourcemap(code: Seq<char>, minify: bool, edits: Seq<(u32, u32, i64)>) -> Option<Seq<char>>;

pub open spec fn opt_string_view(o: Option<String>) -> Option<Seq<char>> {
    match o {
        Some(s) => Some(s@),
        None => None,
    }
}

pub open spec fn pairs_view(v: Seq<(String, String)>) -> Seq<(Seq<char>, Seq<char>)> {
    v.map_values(|p: (String, String)| (p.0@, p.1@))
}

/// Parses `code` with `StyleSheet::parse` (default parser options), runs
/// `StyleSheet::minify` when `minify` is set, prints it with `StyleSheet::to_css`
/// (minified when `minify`, with dependency analysis that keeps `@import`
/// rules) and lists the printed dependencies. The result is a function of the
/// two arguments alone; what the css and placeholders are, and the wording of an
/// error, are not stated.
#[verifier::external_body]
fn css_compile_call(code: &str, minify: bool) -> (r: Result<(String, Vec<(String, String)>), String>)
    ensures
        r is Ok <==> css_compiled(code@, minify) is Some,
        r matches Ok((c, d)) ==> css_compiled(code@, minify) == Some((c@, pairs_view(d@))),
{
    let mut sheet = StyleSheet::parse(code, ParserOptions::default()).map_err(|e| format!("css parse error: {e}"))?;
    if minify {
        sheet.minify(MinifyOptions::default()).map_err(|e| format!("css minify error: {e}"))?;
    }
    let deps = Some(DependencyOptions::default());
    let out = sheet.to_css(PrinterOptions { minify, analyze_dependencies: deps, ..Default::default() }).map_err(|e| format!("css print error: {e}"))?;
    let found = out.dependencies.unwrap_or_default().into_iter().map(|d| match d { Dependency::Import(i) => (i.url, i.placeholder), Dependency::Url(u) => (u.url, u.placeholder) });
    Ok((out.code, found.collect()))
}

/// Prints `code` as `css_compile_call` does, recording into a
/// `parcel_sourcemap::SourceMap` (project root `/`), applies
/// `SourceMap::offset_columns` with each of `edits` in turn, and serializes the
/// map with `SourceMap::to_json`. The result is a function of the three
/// arguments alone; what the json is, and the wording of an error, are not
/// stated.
#[verifier::external_body]
fn css_sourcemap_call(code: &str, minify: bool, edits: &Vec<(u32, u32, i64)>) -> (r: Result<String, String>)
    ensures
        r is Ok <==> css_sourcemap(code@, minify, edits@) is Some,
        r matches Ok(j) ==> css_sourcemap(code@, minify, edits@) == Some(j@),
{
    let mut sheet = StyleSheet::parse(code, ParserOptions::default()).map_err(|e| format!("css parse error: {e}"))?;
    if minify {
        sheet.minify(MinifyOptions::default()).map_err(|e| format!("css minify error: {e}"))?;
    }
    let mut map = SourceMap::new("/");
    let deps = Some(DependencyOptions::default());
    sheet.to_css(PrinterOptions { minify, source_map: Some(&mut map), analyze_dependencies: deps, ..Default::default() }).map_err(|e| format!("css print error: {e}"))?;
    for &(line, col, shift) in edits {
        map.offset_columns(line, col, shift).map_err(|e| format!("css sourcemap error: {e}"))?;
    }
    map.to_json(None).map_err(|e| format!("css sourcemap serialization error: {e}"))
}

/// A compiled stylesheet whose dependencies are still placeholders.
pub struct CssCompiled {
    pub code: String,
    /// (url, placeholder) of each `@import` and `url()`, in printing order
    pub deps: Vec<(String, String)>,
}

/// Compile the stylesheet `code`: fails exactly when lightningcss fails.
pub fn css_compile(code: &str, options: Options) -> (r: Result<CssCompiled, String>)
    ensures
        r is Ok <==> css_compiled(code@, options.minify) is Some,
        r matches Ok(c) ==> css_compiled(code@, options.minify) == Some((c.code@, pairs_view(c.deps@))),
{
    match css_compile_call(code, options.minify) {
        Ok((c, d)) => Ok(CssCompiled { code: c, deps: d }),
        Err(e) => Err(e),
    }
}

/// What a css dependency `url` of the stylesheet `css_path` under `src` asks to
/// bundle: a relative reference to a `.css` file under `src` is bundled; any
/// other local target is left to the static copy, which keeps it at the same
/// relative place; remote, absolute and empty urls are left alone; a reference
/// that leaves `src` is an error.
pub open spec fn css_dep_target_spec(src: Seq<char>, css_path: Seq<char>, url: Seq<char>) -> Result<Option<Seq<char>>, Seq<char>> {
    match asset_ref_target_spec(src, css_path, url) {
        Ok(Some(t)) => if css_extension_spec(ext_lower_spec(t)) {
            Ok(Some(t))
        } else {
            Ok(None)
        },
        other => other,
    }
}

pub fn css_dep_target(src: &str, css_path: &str, url: &str) -> (r: Result<Option<String>, String>)
    ensures
        r matches Ok(Some(t)) ==> css_dep_target_spec(src@, css_path@, url@) == Ok::<Option<Seq<char>>, Seq<char>>(Some(t@)),
        r matches Ok(None) ==> css_dep_target_spec(src@, css_path@, url@) == Ok::<Option<Seq<char>>, Seq<char>>(None),
        r matches Err(e) ==> css_dep_target_spec(src@, css_path@, url@) == Err::<Option<Seq<char>>, Seq<char>>(e@),
{
    match asset_ref_target(src, css_path, url) {
        Ok(Some(t)) => {
            let ext = extension_lower(t.as_str());
            if is_css_extension(ext.as_str()) {
                Ok(Some(t))
            } else {
                Ok(None)
            }
        },
        Ok(None) => Ok(None),
        Err(e) => Err(e),
    }
}

/// The text a css string holds for `s`: `"` and `\` escaped with a `\`.
pub open spec fn css_escape(s: Seq<char>) -> Seq<char>
    decreases s.len(),
{
    if s.len() == 0 {
        Seq::empty()
    } else {
        let c = s.last();
        css_escape(s.drop_last()) + (if c == '"' || c == '\\' {
            seq!['\\', c]
        } else {
            seq![c]
        })
    }
}

fn css_escape_string(s: &str) -> (r: String)
    ensures
        r@ == css_escape(s@),
{
    let v = chars_of(s);
    let mut r = String::new();
    let mut i: usize = 0;
    while i < v.len()
        invariant
            v@ == s@,
            i <= v@.len(),
            r@ == css_escape(s@.take(i as int)),
        decreases v.len() - i,
    {
        let c = v[i];
        assert(s@.take(i + 1).drop_last() =~= s@.take(i as int));
        if c == '"' || c == '\\' {
            string_push(&mut r, '\\');
        }
        string_push(&mut r, c);
        i = i + 1;
        assert(r@ =~= css_escape(s@.take(i as int)));
    }
    assert(s@.take(v@.len() as int) =~= s@);
    r
}

/// `s` with every occurrence of `from` (scanning left to right) replaced by `to`.
pub open spec fn replace_all(s: Seq<char>, from: Seq<char>, to: Seq<char>) -> Seq<char>
    decreases s.len(),
{
    if from.len() == 0 || s.len() < from.len() {
        s
    } else if s.take(from.len() as int) == from {
        to + replace_all(s.skip(from.len() as int), from, to)
    } else {
        seq![s[0]] + replace_all(s.drop_first(), from, to)
    }
}

fn matches_at(v: &Vec<char>, i: usize, w: &Vec<char>) -> (r: bool)
    requires
        i + w@.len() <= v@.len(),
    ensures
        r == (v@.skip(i as int).take(w@.len() as int) == w@),
{
    let n = v.len();
    let mut j: usize = 0;
    while j < w.len()
        invariant
            n == v@.len(),
            i + w@.len() <= v@.len(),
            j <= w@.len(),
            forall|k: int| 0 <= k < j ==> v@[i + k] == #[trigger] w@[k],
        decreases w.len() - j,
    {
        if v[i + j] != w[j] {
            assert(v@.skip(i as int).take(w@.len() as int)[j as int] != w@[j as int]);
            return false;
        }
        j = j + 1;
    }
    assert(v@.skip(i as int).take(w@.len() as int) =~= w@);
    true
}

fn str_replace_all(s: &str, from: &str, to: &str) -> (r: String)
    ensures
        r@ == replace_all(s@, from@, to@),
{
    let v = chars_of(s);
    let w = chars_of(from);
    if w.len() == 0 {
        return s.to_owned();
    }
    let mut r = String::new();
    let mut i: usize = 0;
    assert(s@.skip(0) =~= s@);
    assert(r@ + replace_all(s@, from@, to@) =~= replace_all(s@, from@, to@));
    while i < v.len()
        invariant
            v@ == s@,
            w@ == from@,
            w@.len() > 0,
            i <= v@.len(),
            r@ + replace_all(s@.skip(i as int), from@, to@) == replace_all(s@, from@, to@),
        decreases v.len() - i,
    {
        let ghost rest = s@.skip(i as int);
        if w.len() <= v.len() - i && matches_at(&v, i, &w) {
            assert(rest.take(from@.len() as int) == from@);
            assert(rest.skip(from@.len() as int) =~= s@.skip(i + w@.len()));
            r.append(to);
            i = i + w.len();
            assert(r@ + replace_all(s@.skip(i as int), from@, to@) =~= replace_all(s@, from@, to@));
        } else {
            proof {
                if rest.len() >= from@.len() {
                    assert(rest.take(from@.len() as int) != from@);
                }
            }
            assert(rest.drop_first() =~= s@.skip(i + 1));
            string_push(&mut r, v[i]);
            i = i + 1;
            proof {
                if rest.len() < from@.len() {
                    assert(replace_all(rest, from@, to@) == rest);
                    assert(replace_all(s@.skip(i as int), from@, to@) =~= s@.skip(i as int)) by {
                        assert(s@.skip(i as int).len() < from@.len());
                    }
                    assert(rest =~= seq![rest[0]] + s@.skip(i as int));
                }
            }
            assert(r@ + replace_all(s@.skip(i as int), from@, to@) =~= replace_all(s@, from@, to@));
        }
    }
    assert(s@.skip(v@.len() as int) =~= Seq::<char>::empty());
    assert(r@ + Seq::<char>::empty() =~= r@);
    r
}

/// The css `code` with the placeholder of each fill replaced by its text, escaped
/// as a css string, one fill after the other.
pub open spec fn fill_placeholders(code: Seq<char>, fills: Seq<(Seq<char>, Seq<char>)>) -> Seq<char>
    decreases fills.len(),
{
    if fills.len() == 0 {
        code
    } else {
        fill_placeholders(replace_all(code, fills[0].0, css_escape(fills[0].1)), fills.drop_first())
    }
}

/// What a dependency's placeholder becomes: its url rewritten to the bundled
/// file name when it was bundled, else the url as written.
pub open spec fn css_dep_text_spec(url: Seq<char>, bundled: Option<Seq<char>>) -> Seq<char> {
    match bundled {
        Some(name) => crate::path::asset_ref_rewrite_spec(url, name),
        None => url,
    }
}

pub fn css_dep_text(url: &str, bundled: Option<&str>) -> (r: String)
    ensures
        r@ == css_dep_text_spec(url@, match bundled {
            Some(n) => Some(n@),
            None => None,
        }),
{
    match bundled {
        Some(name) => crate::path::asset_ref_rewrite(url, name),
        None => url.to_owned(),
    }
}

/// Put the final text of every dependency in place of its placeholder, then
/// decide what is written, as `css_output_plan` does. `fills` pairs each
/// placeholder with its text.
pub fn css_fill(code: &str, fills: &Vec<(String, String)>, stem: &str, options: Options) -> (r: CssOutput)
    ensures
        r.code@ == css_code_spec(fill_placeholders(code@, pairs_view(fills@)), stem@, options.sourcemap),
        r.name@ == file_name_output_spec(stem@, "css"@, vstd::utf8::encode_utf8(r.code@), options.hash),
        options.sourcemap ==> (r.map_name matches Some(m) && m@ == stem@ + ".map"@),
        !options.sourcemap ==> r.map_name is None,
{
    let mut acc = code.to_owned();
    let mut i: usize = 0;
    assert(pairs_view(fills@).skip(0) =~= pairs_view(fills@));
    while i < fills.len()
        invariant
            i <= fills@.len(),
            fill_placeholders(acc@, pairs_view(fills@).skip(i as int)) == fill_placeholders(code@, pairs_view(fills@)),
        decreases fills.len() - i,
    {
        let ghost rest = pairs_view(fills@).skip(i as int);
        let text = css_escape_string(fills[i].1.as_str());
        acc = str_replace_all(acc.as_str(), fills[i].0.as_str(), text.as_str());
        assert(rest.drop_first() =~= pairs_view(fills@).skip(i + 1));
        i = i + 1;
    }
    assert(pairs_view(fills@).skip(fills@.len() as int) =~= Seq::<(Seq<char>, Seq<char>)>::empty());
    css_output_plan(stem, acc.as_str(), options)
}

/// A stylesheet ready to write: its output, and the sourcemap json to write
/// under `output.map_name`.
pub struct CssBundle {
    pub output: CssOutput,
    pub map_json: Option<String>,
}

pub open spec fn edits_u32(es: Seq<(nat, nat, int)>) -> Seq<(u32, u32, i64)> {
    es.map_values(|e: (nat, nat, int)| (e.0 as u32, e.1 as u32, e.2 as i64))
}

pub open spec fn sourcemap_error_message() -> Seq<char> {
    "css sourcemap error: a position does not fit the sourcemap"@
}

/// Finish the stylesheet `source`, compiled to `code`: fill its placeholders
/// (`css_fill`) and, when sourcemaps are on, make its sourcemap match the
/// filled code: the map of the compiled code with the columns after every
/// filled placeholder shifted by the change of length (`fill_edits`). Fails
/// exactly when sourcemaps are on and a position does not fit the map's `u32`
/// lines and columns, or lightningcss fails.
pub fn css_finish(source: &str, code: &str, fills: &Vec<(String, String)>, stem: &str, options: Options) -> (r:
    Result<CssBundle, String>)
    ensures
        ({
            let edits = fill_edits(code@, pairs_view(fills@));
            let fit = fills_fit(pairs_view(fills@)) && edits_fit(edits);
            &&& r is Ok <==> (!options.sourcemap || (fit && css_sourcemap(source@, options.minify, edits_u32(edits)) is Some))
            &&& (options.sourcemap && !fit) ==> (r matches Err(e) && e@ == sourcemap_error_message())
            &&& r matches Ok(b) ==> {
                &&& b.output.code@ == css_code_spec(fill_placeholders(code@, pairs_view(fills@)), stem@, options.sourcemap)
                &&& b.output.name@ == file_name_output_spec(stem@, "css"@, vstd::utf8::encode_utf8(b.output.code@), options.hash)
                &&& (options.sourcemap ==> (b.output.map_name matches Some(m) && m@ == stem@ + ".map"@))
                &&& (!options.sourcemap ==> b.output.map_name is None)
                &&& opt_string_view(b.map_json) == (if options.sourcemap {
                    css_sourcemap(source@, options.minify, edits_u32(edits))
                } else {
                    None
                })
            }
        }),
{
    let output = css_fill(code, fills, stem, options);
    if !options.sourcemap {
        return Ok(CssBundle { output, map_json: None });
    }
    match css_map_edits(code, fills) {
        None => Err("css sourcemap error: a position does not fit the sourcemap".to_owned()),
        Some(edits) => {
            proof {
                let es = fill_edits(code@, pairs_view(fills@));
                assert(edits@ =~= edits_u32(es)) by {
                    assert forall|k: int| 0 <= k < edits@.len() implies #[trigger] edits@[k] == edits_u32(es)[k] by {
                        assert(edits_view(edits@)[k] == es[k]);
                    }
                }
            }
            match css_sourcemap_call(source, options.minify, &edits) {
                Ok(j) => Ok(CssBundle { output, map_json: Some(j) }),
                Err(e) => Err(e),
            }
        },
    }
}

/// The number of UTF-8 bytes of `c`.
pub open spec fn char_width(c: char) -> nat {
    if (c as u32) < 0x80 {
        1
    } else if (c as u32) < 0x800 {
        2
    } else if (c as u32) < 0x10000 {
        3
    } else {
        4
    }
}

/// The number of UTF-8 bytes of `s`.
pub open spec fn utf8_len(s: Seq<char>) -> nat
    decreases s.len(),
{
    if s.len() == 0 {
        0
    } else {
        utf8_len(s.drop_last()) + char_width(s.last())
    }
}

/// The position at the end of `s`, as lightningcss's printer counts it: the
/// line (the number of `\n` in `s`) and the column (the UTF-8 bytes since the
/// last `\n`).
pub open spec fn line_col(s: Seq<char>) -> (nat, nat)
    decreases s.len(),
{
    if s.len() == 0 {
        (0, 0)
    } else {
        let p = line_col(s.drop_last());
        if s.last() == '\n' {
            ((p.0 + 1) as nat, 0)
        } else {
            (p.0, p.1 + char_width(s.last()))
        }
    }
}

/// The column shifts that replacing every `from` in `s` by `to` (as
/// `replace_all` does) makes, where `pre` is the text already written before
/// `s`: for each occurrence, its line and the column just after it in the text
/// written so far, and the change of its length in bytes.
pub open spec fn replace_edits(s: Seq<char>, from: Seq<char>, to: Seq<char>, pre: Seq<char>) -> Seq<(nat, nat, int)>
    decreases s.len(),
{
    if from.len() == 0 || s.len() < from.len() {
        Seq::empty()
    } else if s.take(from.len() as int) == from {
        seq![(line_col(pre).0, line_col(pre).1 + utf8_len(from), utf8_len(to) - utf8_len(from))]
            + replace_edits(s.skip(from.len() as int), from, to, pre + to)
    } else {
        replace_edits(s.drop_first(), from, to, pre.push(s[0]))
    }
}

/// The column shifts that `fill_placeholders` makes, fill after fill.
pub open spec fn fill_edits(code: Seq<char>, fills: Seq<(Seq<char>, Seq<char>)>) -> Seq<(nat, nat, int)>
    decreases fills.len(),
{
    if fills.len() == 0 {
        Seq::empty()
    } else {
        replace_edits(code, fills[0].0, css_escape(fills[0].1), Seq::empty()) + fill_edits(
            replace_all(code, fills[0].0, css_escape(fills[0].1)),
            fills.drop_first(),
        )
    }
}

/// Positions fit the sourcemap's `u32` lines and columns.
pub open spec fn edits_fit(edits: Seq<(nat, nat, int)>) -> bool {
    forall|k: int| 0 <= k < edits.len() ==> (#[trigger] edits[k]).0 <= u32::MAX && edits[k].1 <= u32::MAX
}

/// Every placeholder and its text are at most `u32::MAX` bytes long.
pub open spec fn fills_fit(fills: Seq<(Seq<char>, Seq<char>)>) -> bool {
    forall|k: int| 0 <= k < fills.len() ==> utf8_len((#[trigger] fills[k]).0) <= u32::MAX && utf8_len(
        css_escape(fills[k].1),
    ) <= u32::MAX
}

pub open spec fn edits_view(v: Seq<(u32, u32, i64)>) -> Seq<(nat, nat, int)> {
    v.map_values(|e: (u32, u32, i64)| (e.0 as nat, e.1 as nat, e.2 as int))
}

pub open spec fn cap() -> nat {
    0x1_0000_0000
}

pub open spec fn capped(x: nat) -> nat {
    if x < cap() {
        x
    } else {
        cap()
    }
}

fn char_width_exec(c: char) -> (w: u64)
    ensures
        w == char_width(c),
{
    if (c as u32) < 0x80 {
        1
    } else if (c as u32) < 0x800 {
        2
    } else if (c as u32) < 0x10000 {
        3
    } else {
        4
    }
}

/// The UTF-8 length of `s`, or `cap()` when it is at least that.
fn utf8_len_capped(s: &str) -> (n: u64)
    ensures
        n == capped(utf8_len(s@)),
{
    let v = chars_of(s);
    let mut n: u64 = 0;
    let mut i: usize = 0;
    while i < v.len()
        invariant
            v@ == s@,
            i <= v@.len(),
            n == capped(utf8_len(s@.take(i as int))),
        decreases v.len() - i,
    {
        assert(s@.take(i + 1).drop_last() =~= s@.take(i as int));
        let w = char_width_exec(v[i]);
        n = if n + w < 0x1_0000_0000 { n + w } else { 0x1_0000_0000 };
        i = i + 1;
    }
    assert(s@.take(v@.len() as int) =~= s@);
    n
}

/// Advance a capped position over the character `c`.
fn advance_char(line: u64, col: u64, c: char, Ghost(pre): Ghost<Seq<char>>) -> (r: (u64, u64))
    requires
        line == capped(line_col(pre).0),
        col == capped(line_col(pre).1),
    ensures
        r.0 == capped(line_col(pre.push(c)).0),
        r.1 == capped(line_col(pre.push(c)).1),
{
    assert(pre.push(c).drop_last() =~= pre);
    if c == '\n' {
        (if line + 1 < 0x1_0000_0000 { line + 1 } else { 0x1_0000_0000 }, 0)
    } else {
        let w = char_width_exec(c);
        (line, if col + w < 0x1_0000_0000 { col + w } else { 0x1_0000_0000 })
    }
}

proof fn lemma_edits_fit_part(a: Seq<(nat, nat, int)>, b: Seq<(nat, nat, int)>, c: Seq<(nat, nat, int)>)
    requires
        edits_fit(a + b + c),
    ensures
        edits_fit(b),
{
    assert forall|k: int| 0 <= k < b.len() implies (#[trigger] b[k]).0 <= u32::MAX && b[k].1 <= u32::MAX by {
        assert((a + b + c)[a.len() + k] == b[k]);
    }
}

/// Append the column shifts of replacing every `from` in `s` by `to` to `edits`;
/// false, with `edits` left in any state, when one does not fit a `u32`.
fn replace_edits_exec(s: &str, from: &str, to: &str, lf: u64, lt: u64, edits: &mut Vec<(u32, u32, i64)>) -> (ok: bool)
    requires
        lf == utf8_len(from@),
        lt == utf8_len(to@),
        lf <= u32::MAX,
        lt <= u32::MAX,
        from@.len() > 0,
    ensures
        ok <==> edits_fit(replace_edits(s@, from@, to@, Seq::empty())),
        ok ==> edits_view(final(edits)@) == edits_view(old(edits)@) + replace_edits(s@, from@, to@, Seq::empty()),
{
    let v = chars_of(s);
    let w = chars_of(from);
    let t = chars_of(to);
    let ghost total = replace_edits(s@, from@, to@, Seq::empty());
    let ghost start = edits_view(edits@);
    let ghost mut pre: Seq<char> = Seq::empty();
    let mut line: u64 = 0;
    let mut col: u64 = 0;
    let mut i: usize = 0;
    assert(s@.skip(0) =~= s@);
    assert(edits_view(edits@) =~= start + Seq::<(nat, nat, int)>::empty());
    while i < v.len()
        invariant
            v@ == s@,
            w@ == from@,
            t@ == to@,
            w@.len() > 0,
            lf == utf8_len(from@),
            lt == utf8_len(to@),
            lf <= u32::MAX,
            lt <= u32::MAX,
            i <= v@.len(),
            line == capped(line_col(pre).0),
            col == capped(line_col(pre).1),
            total == replace_edits(s@, from@, to@, Seq::empty()),
            edits_view(edits@).len() >= start.len(),
            edits_view(edits@).take(start.len() as int) == start,
            edits_fit(edits_view(edits@).skip(start.len() as int)),
            edits_view(edits@).skip(start.len() as int) + replace_edits(s@.skip(i as int), from@, to@, pre) == total,
        decreases v.len() - i,
    {
        let ghost rest = s@.skip(i as int);
        let ghost done = edits_view(edits@).skip(start.len() as int);
        if w.len() <= v.len() - i && matches_at(&v, i, &w) {
            assert(rest.take(from@.len() as int) == from@);
            let ghost e = (line_col(pre).0, line_col(pre).1 + utf8_len(from@), utf8_len(to@) - utf8_len(from@));
            assert(replace_edits(rest, from@, to@, pre) == seq![e] + replace_edits(rest.skip(from@.len() as int), from@, to@, pre + to@));
            if line > 0xffff_ffff || col + lf > 0xffff_ffff {
                proof {
                    assert(total == done + seq![e] + replace_edits(rest.skip(from@.len() as int), from@, to@, pre + to@));
                    assert(total[done.len() as int] == e);
                }
                return false;
            }
            let ghost prev = edits_view(edits@);
            edits.push((line as u32, (col + lf) as u32, (lt as i64) - (lf as i64)));
            assert(edits_view(edits@) =~= prev.push(e));
            assert(edits_view(edits@).take(start.len() as int) =~= prev.take(start.len() as int));
            assert(edits_view(edits@).skip(start.len() as int) =~= done.push(e));
            let mut k: usize = 0;
            let ghost base = pre;
            while k < t.len()
                invariant
                    t@ == to@,
                    k <= t@.len(),
                    pre == base + to@.take(k as int),
                    line == capped(line_col(pre).0),
                    col == capped(line_col(pre).1),
                decreases t.len() - k,
            {
                let r = advance_char(line, col, t[k], Ghost(pre));
                line = r.0;
                col = r.1;
                proof {
                    assert(base + to@.take(k + 1) =~= (base + to@.take(k as int)).push(to@[k as int]));
                    pre = pre.push(t@[k as int]);
                }
                k = k + 1;
            }
            assert(to@.take(t@.len() as int) =~= to@);
            assert(rest.skip(from@.len() as int) =~= s@.skip(i + w@.len()));
            i = i + w.len();
            assert(done.push(e) + replace_edits(s@.skip(i as int), from@, to@, pre) =~= total);
            assert forall|k2: int| 0 <= k2 < done.push(e).len() implies (#[trigger] done.push(e)[k2]).0 <= u32::MAX
                && done.push(e)[k2].1 <= u32::MAX by {
                if k2 < done.len() {
                    assert(done.push(e)[k2] == done[k2]);
                }
            }
        } else {
            proof {
                if rest.len() >= from@.len() {
                    assert(rest.take(from@.len() as int) != from@);
                    assert(replace_edits(rest, from@, to@, pre) == replace_edits(rest.drop_first(), from@, to@, pre.push(rest[0])));
                } else {
                    assert(replace_edits(rest, from@, to@, pre) =~= Seq::<(nat, nat, int)>::empty());
                    assert(rest.drop_first().len() < from@.len());
                    assert(replace_edits(rest.drop_first(), from@, to@, pre.push(rest[0])) =~= Seq::<(nat, nat, int)>::empty());
                }
            }
            assert(rest.drop_first() =~= s@.skip(i + 1));
            let r = advance_char(line, col, v[i], Ghost(pre));
            line = r.0;
            col = r.1;
            proof {
                pre = pre.push(v@[i as int]);
            }
            i = i + 1;
        }
    }
    assert(s@.skip(v@.len() as int) =~= Seq::<char>::empty());
    assert(replace_edits(Seq::<char>::empty(), from@, to@, pre) =~= Seq::<(nat, nat, int)>::empty());
    assert(edits_view(edits@).skip(start.len() as int) + Seq::<(nat, nat, int)>::empty() =~= edits_view(edits@).skip(start.len() as int));
    assert(edits_view(edits@) =~= start + total);
    true
}


/// The column shifts of filling the placeholders of `code` with `fills`, when
/// every position fits a `u32`.
pub fn css_map_edits(code: &str, fills: &Vec<(String, String)>) -> (r: Option<Vec<(u32, u32, i64)>>)
    ensures
        r is Some <==> fills_fit(pairs_view(fills@)) && edits_fit(fill_edits(code@, pairs_view(fills@))),
        r matches Some(v) ==> edits_view(v@) == fill_edits(code@, pairs_view(fills@)),
{
    let ghost all = fill_edits(code@, pairs_view(fills@));
    let mut edits: Vec<(u32, u32, i64)> = Vec::new();
    let mut acc = code.to_owned();
    let mut i: usize = 0;
    assert(pairs_view(fills@).skip(0) =~= pairs_view(fills@));
    assert(edits_view(edits@) + all =~= all);
    while i < fills.len()
        invariant
            i <= fills@.len(),
            all == fill_edits(code@, pairs_view(fills@)),
            edits_view(edits@) + fill_edits(acc@, pairs_view(fills@).skip(i as int)) == all,
            edits_fit(edits_view(edits@)),
            fills_fit(pairs_view(fills@).take(i as int)),
        decreases fills.len() - i,
    {
        let ghost rest = pairs_view(fills@).skip(i as int);
        let ghost f = pairs_view(fills@)[i as int];
        assert(rest[0] == f);
        assert(rest.drop_first() =~= pairs_view(fills@).skip(i + 1));
        let text = css_escape_string(fills[i].1.as_str());
        let lf = utf8_len_capped(fills[i].0.as_str());
        let lt = utf8_len_capped(text.as_str());
        if lf > 0xffff_ffff || lt > 0xffff_ffff {
            assert(!fills_fit(pairs_view(fills@))) by {
                assert(pairs_view(fills@)[i as int] == f);
            }
            return None;
        }
        let ghost piece = replace_edits(acc@, f.0, css_escape(f.1), Seq::empty());
        assert(fill_edits(acc@, rest) == piece + fill_edits(replace_all(acc@, f.0, css_escape(f.1)), rest.drop_first()));
        if fills[i].0.unicode_len() == 0 {
            assert(piece =~= Seq::<(nat, nat, int)>::empty());
        } else {
            let ghost before = edits_view(edits@);
            if !replace_edits_exec(acc.as_str(), fills[i].0.as_str(), text.as_str(), lf, lt, &mut edits) {
                proof {
                    assert(all == before + piece + fill_edits(replace_all(acc@, f.0, css_escape(f.1)), rest.drop_first()));
                    if edits_fit(all) {
                        lemma_edits_fit_part(before, piece, fill_edits(replace_all(acc@, f.0, css_escape(f.1)), rest.drop_first()));
                    }
                }
                return None;
            }
            assert forall|k: int| 0 <= k < edits_view(edits@).len() implies (#[trigger] edits_view(edits@)[k]).0 <= u32::MAX
                && edits_view(edits@)[k].1 <= u32::MAX by {
                if k < before.len() {
                    assert(edits_view(edits@)[k] == before[k]);
                } else {
                    assert(edits_view(edits@)[k] == piece[k - before.len()]);
                }
            }
        }
        assert(fills_fit(pairs_view(fills@).take(i + 1))) by {
            assert forall|k: int| 0 <= k < i + 1 implies utf8_len((#[trigger] pairs_view(fills@).take(i + 1)[k]).0) <= u32::MAX
                && utf8_len(css_escape(pairs_view(fills@).take(i + 1)[k].1)) <= u32::MAX by {
                if k < i {
                    assert(pairs_view(fills@).take(i + 1)[k] == pairs_view(fills@).take(i as int)[k]);
                }
            }
        }
        acc = str_replace_all(acc.as_str(), fills[i].0.as_str(), text.as_str());
        i = i + 1;
        assert(edits_view(edits@) + fill_edits(acc@, pairs_view(fills@).skip(i as int)) =~= all);
    }
    assert(pairs_view(fills@).skip(fills@.len() as int) =~= Seq::<(Seq<char>, Seq<char>)>::empty());
    assert(pairs_view(fills@).take(fills@.len() as int) =~= pairs_view(fills@));
    assert(edits_view(edits@) + Seq::<(nat, nat, int)>::empty() =~= edits_view(edits@));
    Some(edits)
}


/// Assets are dispatched on their lowercased extension alone: `css` is
/// bundled as a stylesheet; `js`, `mjs`, `cjs`, `ts`, `mts` and `cts` as
/// scripts; the plan's path is the asset's path relative to `src` and its
/// directory that path's parent (empty at the top); and an asset is refused
/// exactly when its extension is none of these seven.
pub proof fn lemma_asset_plan_by_extension(asset: Seq<char>, src: Seq<char>)
    ensures
        ({
            let e = ext_lower_spec(asset);
            let rel = strip_prefix_spec(asset, src).unwrap();
            let script = e == "js"@ || e == "mjs"@ || e == "cjs"@ || e == "ts"@ || e == "mts"@ || e == "cts"@;
            &&& e == "css"@ ==> (asset_plan_spec(asset, src) matches Ok((k, r, _)) && k == AssetKind::Css && r == rel)
            &&& script ==> (asset_plan_spec(asset, src) matches Ok((k, r, _)) && k == AssetKind::Js && r == rel)
            &&& asset_plan_spec(asset, src) is Err <==> !(e == "css"@ || script)
            &&& asset_plan_spec(asset, src) matches Ok((_, r, d)) ==> (match parent_spec(r) {
                Some(p) => d == p,
                None => d.len() == 0,
            })
        }),
{
    reveal_strlit("css");
    reveal_strlit("js");
    reveal_strlit("mjs");
    reveal_strlit("cjs");
    reveal_strlit("ts");
    reveal_strlit("mts");
    reveal_strlit("cts");
    assert("mjs"@[0] != "css"@[0]);
    assert("cjs"@[1] != "css"@[1]);
    assert("mts"@[0] != "css"@[0]);
    assert("cts"@[1] != "css"@[1]);
}

/// A stylesheet's dependency resolves as a page's reference does, and is
/// bundled exactly when it resolves to a `.css` file under `src`, whatever the
/// relative spelling of its url; resolution errors pass through.
pub proof fn lemma_css_dep_target_bundles_stylesheets(src: Seq<char>, css_path: Seq<char>, url: Seq<char>)
    ensures
        asset_ref_target_spec(src, css_path, url) matches Ok(Some(t)) ==> (ext_lower_spec(t) == "css"@
            ==> css_dep_target_spec(src, css_path, url) == Ok::<Option<Seq<char>>, Seq<char>>(Some(t))),
        css_dep_target_spec(src, css_path, url) matches Ok(Some(t)) ==> asset_ref_target_spec(src, css_path, url)
            == Ok::<Option<Seq<char>>, Seq<char>>(Some(t)) && ext_lower_spec(t) == "css"@,
        asset_ref_target_spec(src, css_path, url) is Err <==> css_dep_target_spec(src, css_path, url) is Err,
        asset_ref_target_spec(src, css_path, url) is Err ==> css_dep_target_spec(src, css_path, url)
            == asset_ref_target_spec(src, css_path, url),
{
}


/// An output name is `stem.ext`, or, with hashing, the same name with `-` and
/// 16 lowercase hex digits between the stem and the `.`; the hash depends on
/// the content alone, so equal contents give equal names.
pub proof fn lemma_output_name_shape(stem: Seq<char>, ext: Seq<char>, bytes: Seq<u8>, other: Seq<u8>)
    ensures
        file_name_output_spec(stem, ext, bytes, false) == stem + "."@ + ext,
        ({
            let n = file_name_output_spec(stem, ext, bytes, true);
            let k = stem.len() as int;
            &&& n.len() == stem.len() + 18 + ext.len()
            &&& n.take(k) == stem
            &&& n[k] == '-'
            &&& forall|j: int| k + 1 <= j < k + 17 ==> crate::hash::is_lower_hex(#[trigger] n[j])
            &&& n[k + 17] == '.'
            &&& n.skip(k + 18) == ext
            &&& n.take(k) + n.skip(k + 17) == file_name_output_spec(stem, ext, bytes, false)
        }),
        bytes == other ==> file_name_output_spec(stem, ext, bytes, true) == file_name_output_spec(stem, ext, other, true),
{
    reveal_strlit("-");
    reveal_strlit(".");
    let h = fnv1a(bytes);
    let n = file_name_output_spec(stem, ext, bytes, true);
    let k = stem.len() as int;
    assert(n == stem + "-"@ + hex16(h) + "."@ + ext);
    assert forall|j: int| k + 1 <= j < k + 17 implies crate::hash::is_lower_hex(#[trigger] n[j]) by {
        let i = j - k - 1;
        assert(n[j] == hex16(h)[i]);
        let sh = (60 - 4 * i) as u64;
        let d = (h >> sh) & 0xf;
        assert(d < 16) by (bit_vector)
            requires
                d == (h >> sh) & 0xf,
        ;
    }
    assert(n.take(k) =~= stem);
    assert(n.skip(k + 18) =~= ext);
    assert(n.take(k) + n.skip(k + 17) =~= stem + "."@ + ext);
}

/// A js bundle writes one entry at most: the first chunk that is not a
/// sourcemap; there is one exactly when some chunk is not a sourcemap; a
/// chunk is written as a sourcemap exactly when its name ends with `.map`.
pub proof fn lemma_js_single_entry(chunks: Seq<JsChunk>)
    ensures
        forall|i: int, j: int|
            0 <= i < chunks.len() && 0 <= j < chunks.len() && js_write_kind_spec(chunks, i) == JsWriteKind::Entry
                && js_write_kind_spec(chunks, j) == JsWriteKind::Entry ==> i == j,
        (exists|i: int| 0 <= i < chunks.len() && !ends_with(#[trigger] chunks[i].file_name@, ".map"@)) ==> exists|i: int|
            0 <= i < chunks.len() && js_write_kind_spec(chunks, i) == JsWriteKind::Entry,
        forall|i: int|
            0 <= i < chunks.len() ==> (js_write_kind_spec(chunks, i) == JsWriteKind::SourceMap <==> ends_with(
                #[trigger] chunks[i].file_name@,
                ".map"@,
            )),
{
    assert forall|i: int, j: int|
        0 <= i < chunks.len() && 0 <= j < chunks.len() && js_write_kind_spec(chunks, i) == JsWriteKind::Entry
            && js_write_kind_spec(chunks, j) == JsWriteKind::Entry implies i == j by {
        assert(is_js_entry(chunks, i) && is_js_entry(chunks, j));
        if i < j {
            assert(is_map_name(chunks[i].file_name@));
        } else if j < i {
            assert(is_map_name(chunks[j].file_name@));
        }
    }
    if exists|i: int| 0 <= i < chunks.len() && !ends_with(#[trigger] chunks[i].file_name@, ".map"@) {
        let w = choose|i: int| 0 <= i < chunks.len() && !ends_with(#[trigger] chunks[i].file_name@, ".map"@);
        lemma_first_non_map(chunks, w);
    }
}

proof fn lemma_first_non_map(chunks: Seq<JsChunk>, w: int)
    requires
        0 <= w < chunks.len(),
        !is_map_name(chunks[w].file_name@),
    ensures
        exists|i: int| 0 <= i < chunks.len() && js_write_kind_spec(chunks, i) == JsWriteKind::Entry,
    decreases w,
{
    if forall|j: int| 0 <= j < w ==> is_map_name(#[trigger] chunks[j].file_name@) {
        assert(is_js_entry(chunks, w));
        assert(js_write_kind_spec(chunks, w) == JsWriteKind::Entry);
    } else {
        let j = choose|j: int| 0 <= j < w && !is_map_name(#[trigger] chunks[j].file_name@);
        lemma_first_non_map(chunks, j);
    }
}

/// Filling a placeholder with itself changes nothing, and every column shift
/// a fill makes is the change of length, in bytes, of what it puts in place.
pub proof fn lemma_replace_laws(s: Seq<char>, from: Seq<char>, to: Seq<char>, pre: Seq<char>)
    ensures
        replace_all(s, from, from) == s,
        forall|k: int| 0 <= k < replace_edits(s, from, to, pre).len() ==> (#[trigger] replace_edits(s, from, to, pre)[k]).2
            == utf8_len(to) - utf8_len(from),
    decreases s.len(),
{
    if from.len() == 0 || s.len() < from.len() {
    } else if s.take(from.len() as int) == from {
        lemma_replace_laws(s.skip(from.len() as int), from, to, pre + to);
        assert(from + s.skip(from.len() as int) =~= s);
        let rest = replace_edits(s.skip(from.len() as int), from, to, pre + to);
        let e = (line_col(pre).0, line_col(pre).1 + utf8_len(from), utf8_len(to) - utf8_len(from));
        assert(replace_edits(s, from, to, pre) == seq![e] + rest);
        assert forall|k: int| 0 <= k < (seq![e] + rest).len() implies (#[trigger] (seq![e] + rest)[k]).2 == utf8_len(to)
            - utf8_len(from) by {
            if k > 0 {
                assert((seq![e] + rest)[k] == rest[k - 1]);
            }
        }
    } else {
        lemma_replace_laws(s.drop_first(), from, to, pre.push(s[0]));
        assert(seq![s[0]] + s.drop_first() =~= s);
        assert(replace_edits(s, from, to, pre) == replace_edits(s.drop_first(), from, to, pre.push(s[0])));
    }
}

} // verus!
