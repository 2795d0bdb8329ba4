use bundla::bundle::{
    build_next, css_dep_step, CssDepAction, dist_backup_path, pages_required, source_dir_check, decimal_string, dist_tmp_path, is_page_path, page_output_path,
    page_path_list_build, BuildStep, PageRefs, RefAction,
};
use bundla::order::{path_less, paths_sort};
use bundla::path::path_strip_prefix;
use bundla::static_assets::{static_asset_target, static_copy_failure, static_entry_visible};
use bundla::strmap::StrMap;

#[test]
fn page_path_list_build_finds_and_sorts_html() {
    let root = "/tmp/site";
    let entries: Vec<String> = [
        "",
        "index.html",
        "ABOUT.HTML",
        "a",
        "a/b.html",
        "a/c.html",
        "styles.css",
        "noext",
        "a/b.txt",
    ]
    .iter()
    .map(|rel| if rel.is_empty() { root.to_string() } else { format!("{root}/{rel}") })
    .collect();

    let pages = page_path_list_build(&entries);
    let names: Vec<&str> = pages.iter().map(|p| &p[root.len() + 1..]).collect();
    assert_eq!(names, ["ABOUT.HTML", "a/b.html", "a/c.html", "index.html"]);
}

#[test]
fn page_path_list_build_empty_returns_empty() {
    assert!(page_path_list_build(&vec!["/tmp/site".to_string()]).is_empty());
}

#[test]
fn paths_sort_orders_by_components() {
    let v: Vec<String> = ["b", "a/b", "a.b", "/z", "a", "./a", "../a", "a/b/c"]
        .iter()
        .map(|s| s.to_string())
        .collect();
    let mut expected: Vec<std::path::PathBuf> = v.iter().map(std::path::PathBuf::from).collect();
    expected.sort();
    let sorted = paths_sort(v);
    let got: Vec<std::path::PathBuf> = sorted.iter().map(std::path::PathBuf::from).collect();
    assert_eq!(got, expected);
    assert!(path_less("a/b", "a.b"));
    assert!(!path_less("a/b", "a/b"));
}

#[test]
fn page_output_mirrors_layout() {
    assert_eq!(page_output_path("/s/src", "/s/dist", "/s/src/a/b.html"), "/s/dist/a/b.html");
    assert!(is_page_path("x/INDEX.Html"));
    assert!(!is_page_path("x/.html"));
    assert!(!is_page_path("x/html"));
}

#[test]
fn dist_tmp_path_is_a_hidden_sibling() {
    assert_eq!(dist_tmp_path("/work/dist", 42), "/work/.dist.tmp-42");
    assert_eq!(dist_tmp_path("dev", 7), ".dev.tmp-7");
    assert_eq!(dist_tmp_path("/", 1), "./.out.tmp-1");
    assert_eq!(decimal_string(0), "0");
    assert_eq!(decimal_string(4294967295), "4294967295");
}

#[test]
fn build_swaps_only_after_both_stages_succeed() {
    let s = build_next(BuildStep::CopyStatic, &Ok(()));
    assert!(matches!(s, BuildStep::BundlePages));
    let s = build_next(s, &Ok(()));
    assert!(matches!(s, BuildStep::MoveAside));
    let s = build_next(BuildStep::CopyStatic, &Err("copy".to_string()));
    assert!(matches!(s, BuildStep::Abort(ref e) if e == "copy"));
    let s = build_next(BuildStep::BundlePages, &Err("page".to_string()));
    assert!(matches!(s, BuildStep::Abort(ref e) if e == "page"));
}

#[test]
fn shared_asset_processed_once_across_pages() {
    let mut refs = PageRefs::new();
    // first page: the stylesheet is new
    match refs.ref_step("./styles/main.css", Some("/src/styles/main.css")) {
        RefAction::Process(p) => {
            assert_eq!(p, "/src/styles/main.css");
            refs.asset_done("./styles/main.css", &p, "main-1.css");
        }
        RefAction::Done => panic!("expected a new asset"),
    }
    assert_eq!(
        refs.rewrites.get("./styles/main.css"),
        Some("./styles/main-1.css".to_string())
    );
    assert!(matches!(refs.ref_step("https://x/y.css", None), RefAction::Done));
    // second page: the same stylesheet, referenced differently, is reused
    refs.page_start();
    assert_eq!(refs.rewrites.len(), 0);
    assert!(matches!(
        refs.ref_step("styles/main.css?v=2", Some("/src/styles/main.css")),
        RefAction::Done
    ));
    assert_eq!(
        refs.rewrites.get("styles/main.css?v=2"),
        Some("styles/main-1.css?v=2".to_string())
    );
}

#[test]
fn strmap_insert_replaces() {
    let mut m = StrMap::new();
    m.insert("a", "1");
    m.insert("b", "2");
    m.insert("a", "3");
    assert_eq!(m.len(), 2);
    assert_eq!(m.get("a"), Some("3".to_string()));
    assert_eq!(m.get("c"), None);
}

#[test]
fn static_asset_copy_mirrors_static_files_only() {
    let src = "/s";
    let dist = "/s/out";
    let cases = [
        ("/s/index.html", None),
        ("/s/img/logo.png", Some("/s/out/img/logo.png")),
        ("/s/fonts/x.woff", Some("/s/out/fonts/x.woff")),
        ("/s/noext", Some("/s/out/noext")),
        ("/s/scripts/app.js", None),
        ("/s/scripts/nested/main.CSS", None),
        ("/s/styles/theme.css", None),
        ("/s/styles/nested/more.mjs", None),
        ("/s/.gitignore", None),
        ("/s/.git/HEAD", None),
    ];
    for (path, expected) in cases {
        assert_eq!(
            static_asset_target(src, dist, path),
            expected.map(|s| s.to_string()),
            "{path}"
        );
    }
    assert!(static_entry_visible("img"));
    assert!(!static_entry_visible(".git"));
}

#[test]
fn static_asset_copy_skips_unreadable_source_without_error() {
    let w = static_copy_failure("/s/secret.txt", "/o/secret.txt", "denied", false).unwrap();
    assert!(w.contains("secret.txt"));
    let e = static_copy_failure("/s/a.txt", "/o/a.txt", "disk full", true).unwrap_err();
    assert_eq!(e, "failed to copy /s/a.txt into /o/a.txt: disk full");
}

#[test]
fn output_paths_keep_their_place_under_dist() {
    let out = page_output_path("src", "dist/", "src/blog/../posts/p.html");
    assert_eq!(out, "dist/blog/../posts/p.html");
    assert_eq!(
        path_strip_prefix(&out, "dist/"),
        path_strip_prefix("src/blog/../posts/p.html", "src")
    );
    let target = static_asset_target("src", "out", "src/img/logo.png").unwrap();
    assert_eq!(path_strip_prefix(&target, "out"), Some("img/logo.png".to_string()));
}

#[test]
fn failed_install_restores_the_previous_output() {
    let s = build_next(BuildStep::MoveAside, &Ok(()));
    assert!(matches!(s, BuildStep::Install));
    let s = build_next(s, &Err("rename".to_string()));
    assert!(matches!(s, BuildStep::Restore(ref e) if e == "rename"));
    let s = build_next(s, &Ok(()));
    assert!(matches!(s, BuildStep::Abort(ref e) if e == "rename"));
    let s = build_next(BuildStep::MoveAside, &Err("busy".to_string()));
    assert!(matches!(s, BuildStep::Abort(ref e) if e == "busy"));
    let s = build_next(BuildStep::Install, &Ok(()));
    assert!(matches!(s, BuildStep::Cleanup));
    let s = build_next(s, &Err("left".to_string()));
    assert!(matches!(s, BuildStep::Done));
    assert_eq!(dist_backup_path("/site/dist", 42), "/site/.dist.old-42");
}

#[test]
fn bundle_errors_no_html_pages() {
    let entries = vec!["/s/a.css".to_string(), "/s/b/c.js".to_string()];
    assert_eq!(pages_required("/s", &entries), Err("no .html pages found in /s".to_string()));
    let entries = vec!["/s/b.html".to_string(), "/s/a.HTML".to_string()];
    assert_eq!(
        pages_required("/s", &entries),
        Ok(vec!["/s/a.HTML".to_string(), "/s/b.html".to_string()])
    );
}

#[test]
fn bundle_errors_missing_src() {
    assert_eq!(source_dir_check("nope", false), Err("source directory not found: nope".to_string()));
    assert_eq!(source_dir_check("src", true), Ok(()));
}

#[test]
fn cached_asset_keeps_its_first_name() {
    let mut refs = PageRefs::new();
    assert_eq!(refs.dep_done("/src/a.css", "a-1.css"), "a-1.css");
    // a later report for the same path keeps the cached name
    assert_eq!(refs.dep_done("/src/a.css", "a-2.css"), "a-1.css");
    refs.asset_done("./a.css", "/src/a.css", "a-3.css");
    assert_eq!(refs.cache.get("/src/a.css"), Some("a-1.css".to_string()));
    assert_eq!(refs.rewrites.get("./a.css"), Some("./a-1.css".to_string()));
}

#[test]
fn css_dep_step_reuses_detects_cycles_and_processes() {
    let mut refs = PageRefs::new();
    refs.dep_done("/src/b.css", "b-1.css");
    let visiting = vec!["/src/main.css".to_string()];
    assert!(matches!(css_dep_step(&refs.cache, &visiting, "/src/b.css", "/src/main.css"), CssDepAction::Use(ref n) if n == "b-1.css"));
    assert!(matches!(
        css_dep_step(&refs.cache, &visiting, "/src/main.css", "/src/c.css"),
        CssDepAction::Cycle(ref e) if e == "css import cycle: /src/main.css (from /src/c.css)"
    ));
    assert!(matches!(css_dep_step(&refs.cache, &visiting, "/src/d.css", "/src/main.css"), CssDepAction::Process));
}
