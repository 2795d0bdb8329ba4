use bundla::path::{
    asset_ref_path_resolve, asset_ref_rewrite, asset_ref_target, dist_guard, dist_path_assemble,
    is_remote_or_absolute, path_components, path_eq, path_extension, path_file_name,
    path_file_stem, path_join, path_normalize, path_parent, path_render, path_starts_with,
    path_strip_prefix, url_ref_split, PathComponent,
};
use std::path::Path;

#[test]
fn url_ref_split_handles_query() {
    assert_eq!(url_ref_split("./scripts.js?v=2"), ("./scripts.js", "?v=2"));
}

#[test]
fn url_ref_split_handles_fragment() {
    assert_eq!(url_ref_split("main.css#top"), ("main.css", "#top"));
}

#[test]
fn url_ref_split_query_then_fragment() {
    assert_eq!(url_ref_split("a.js?x=1#f"), ("a.js", "?x=1#f"));
}

#[test]
fn url_ref_split_no_suffix() {
    assert_eq!(url_ref_split("plain.css"), ("plain.css", ""));
}

#[test]
fn url_ref_split_empty() {
    assert_eq!(url_ref_split(""), ("", ""));
}

#[test]
fn url_ref_split_fragment_then_query() {
    assert_eq!(url_ref_split("x.css#a?b"), ("x.css", "#a?b"));
}

#[test]
fn is_remote_or_absolute_detects_remotes() {
    for remote in [
        "//cdn.example.com/x.js",
        "http://example.com/x.js",
        "https://x",
        "data:text/css,...",
        "mailto:a@b",
        "/assets/main.css",
    ] {
        assert!(is_remote_or_absolute(remote), "expected remote: {remote}");
    }
}

#[test]
fn is_remote_or_absolute_allows_local() {
    for local in ["./styles.css", "styles.css", "a/b.css", "#anchor", "http"] {
        assert!(!is_remote_or_absolute(local), "expected local: {local}");
    }
}

#[test]
fn is_remote_or_absolute_scheme_rules() {
    assert!(is_remote_or_absolute("git+ssh://host/repo"));
    assert!(is_remote_or_absolute("a.b-c:x"));
    assert!(!is_remote_or_absolute(":nothing"));
    assert!(!is_remote_or_absolute("1http://x"));
    assert!(!is_remote_or_absolute("dir/a:b"));
}

#[test]
fn path_normalize_resolves_dotdot() {
    assert_eq!(path_normalize("/a/./b/../c"), "/a/c");
}

#[test]
fn path_normalize_keeps_dot_dirs() {
    assert_eq!(path_normalize("a/./b/./c"), "a/b/c");
}

#[test]
fn path_normalize_trailing_parent() {
    assert_eq!(path_normalize("a/b/.."), "a");
}

#[test]
fn path_normalize_root_parent_stays_root() {
    assert_eq!(path_normalize("/.."), "/");
    assert_eq!(path_normalize("../a"), "a");
    assert_eq!(path_normalize(""), "");
    assert_eq!(path_normalize("a//b/"), "a/b");
}

#[test]
fn asset_ref_rewrite_keeps_dir_and_query() {
    assert_eq!(
        asset_ref_rewrite("./scripts/main.js?v=2", "main-abc.js"),
        "./scripts/main-abc.js?v=2"
    );
}

#[test]
fn asset_ref_rewrite_keeps_dir() {
    assert_eq!(
        asset_ref_rewrite("./scripts/main.js", "main-abc.js"),
        "./scripts/main-abc.js"
    );
}

#[test]
fn asset_ref_rewrite_no_dir() {
    assert_eq!(
        asset_ref_rewrite("main.js?v=2", "main-abc.js"),
        "main-abc.js?v=2"
    );
}

#[test]
fn asset_ref_rewrite_absolute_ref() {
    assert_eq!(
        asset_ref_rewrite("/absolute/main.js#seg", "x.js"),
        "/absolute/x.js#seg"
    );
}

#[test]
fn asset_ref_rewrite_root_file_drops_empty_dir() {
    assert_eq!(asset_ref_rewrite("/main.js", "x.js"), "x.js");
}

#[test]
fn components_follow_std_path() {
    let view = |p: &str| -> Vec<String> {
        path_components(p)
            .iter()
            .map(|c| match c {
                PathComponent::RootDir => "/".to_string(),
                PathComponent::CurDir => ".".to_string(),
                PathComponent::ParentDir => "..".to_string(),
                PathComponent::Normal(n) => format!("n:{n}"),
            })
            .collect()
    };
    for p in ["", "/", "./a", "a/./b", "../a/..", "/a//b/", ".", "./", "a/.", "/./x", ".hidden/.x"] {
        let std_view: Vec<String> = std::path::Path::new(p)
            .components()
            .map(|c| match c {
                std::path::Component::RootDir => "/".to_string(),
                std::path::Component::CurDir => ".".to_string(),
                std::path::Component::ParentDir => "..".to_string(),
                std::path::Component::Normal(n) => format!("n:{}", n.to_str().unwrap()),
                std::path::Component::Prefix(_) => unreachable!(),
            })
            .collect();
        assert_eq!(view(p), std_view, "components of {p:?}");
    }
}

#[test]
fn path_helpers_follow_std_path() {
    for p in ["a/b.css", "/x/y/.bashrc", "dir/", "/", "", "a.", "a.b.c", "..", "./x.tar.gz"] {
        let sp = Path::new(p);
        assert_eq!(
            path_file_name(p),
            sp.file_name().map(|s| s.to_str().unwrap().to_string()),
            "file_name {p:?}"
        );
        assert_eq!(
            path_file_stem(p),
            sp.file_stem().map(|s| s.to_str().unwrap().to_string()),
            "file_stem {p:?}"
        );
        assert_eq!(
            path_extension(p),
            sp.extension().map(|s| s.to_str().unwrap().to_string()),
            "extension {p:?}"
        );
        let parent = path_parent(p);
        let std_parent = sp.parent();
        assert_eq!(parent.is_some(), std_parent.is_some(), "parent {p:?}");
        if let (Some(a), Some(b)) = (parent, std_parent) {
            assert_eq!(Path::new(&a), b, "parent {p:?}");
        }
    }
    assert_eq!(path_join("a", "b"), "a/b");
    assert_eq!(path_join("a/", "b"), "a/b");
    assert_eq!(path_join("", "b"), "b");
    assert_eq!(path_join("a", "/b"), "/b");
    assert!(path_starts_with("/src/a/b.js", "/src"));
    assert!(path_starts_with("/src/a", "/src/"));
    assert!(!path_starts_with("/srcx/a", "/src"));
    assert!(path_eq("/a/./b/", "/a/b"));
    assert!(!path_eq("a/b", "/a/b"));
    assert_eq!(path_strip_prefix("/src/a/b.html", "/src"), Some("a/b.html".to_string()));
    assert_eq!(path_strip_prefix("/other/a", "/src"), None);
    assert_eq!(path_render(&path_components("/a//b/./c")), "/a/b/c");
}

#[test]
fn dist_guard_rejects_equal() {
    let err = dist_guard("/root/src", "/root/src", "/root/src").unwrap_err();
    assert!(err.contains("must not be the source"), "got: {err}");
}

#[test]
fn dist_guard_rejects_inside() {
    let err = dist_guard("/root/src", "/root/src/out", "/root/src/out").unwrap_err();
    assert!(err.contains("inside"), "got: {err}");
}

#[test]
fn dist_guard_rejects_containing() {
    let err = dist_guard("/root/src", "/root", "/root").unwrap_err();
    assert!(err.contains("must not contain"), "got: {err}");
}

#[test]
fn dist_guard_accepts_sibling() {
    assert!(dist_guard("/root/src", "/root/dist", "/root/dist").is_ok());
    assert!(dist_guard("/root/src", "/root/srcdist", "/root/srcdist").is_ok());
}

#[test]
fn dist_guard_messages() {
    assert_eq!(
        dist_guard("/r/src", "out", "/r/src/out").unwrap_err(),
        "output directory must not be inside the source directory: out is inside /r/src"
    );
}

#[test]
fn dist_path_assemble_pushes_missing_and_cleans() {
    let missing = vec!["c".to_string(), "b".to_string(), "a".to_string()];
    assert_eq!(dist_path_assemble("/root", &missing), "/root/a/b/c");
    assert_eq!(dist_path_assemble("/root/x", &vec![]), "/root/x");
}

#[test]
fn asset_ref_target_local_remote_empty_escape() {
    let src = "/site/src";
    let page = "/site/src/index.html";
    assert_eq!(
        asset_ref_target(src, page, "./scripts/main.js?v=2"),
        Ok(Some("/site/src/./scripts/main.js".to_string()))
    );
    for remote in [
        "https://example.com/app.js",
        "//cdn/app.js",
        "/assets/app.js",
        "data:text/javascript,x",
    ] {
        assert_eq!(asset_ref_target(src, page, remote), Ok(None), "remote: {remote}");
    }
    assert_eq!(asset_ref_target(src, page, "  "), Ok(None));
    let err = asset_ref_target(src, "/site/src/sub/index.html", "../../outside.js").unwrap_err();
    assert!(err.contains("escapes"), "got: {err}");
}

#[test]
fn asset_ref_path_resolve_uses_canonical_path() {
    let src = "/site/src";
    let page = "/site/src/index.html";
    assert_eq!(
        asset_ref_path_resolve(src, page, "./a.js", Some("/site/src/a.js")),
        Ok(Some("/site/src/a.js".to_string()))
    );
    let err = asset_ref_path_resolve(src, page, "./missing.js", None).unwrap_err();
    assert!(err.contains("asset not found"), "got: {err}");
    let err = asset_ref_path_resolve(src, page, "./link.js", Some("/elsewhere/out.js")).unwrap_err();
    assert!(err.contains("escapes"), "got: {err}");
    assert_eq!(asset_ref_path_resolve(src, page, "http://x/y.js", None), Ok(None));
}

#[test]
fn asset_ref_rewrite_twice_is_rewrite_once() {
    for r in ["./scripts/main.js?v=2#x", "main.js", "/main.js", "a/b/c.css#f", "?q"] {
        let once = asset_ref_rewrite(r, "main-abc.js");
        assert_eq!(asset_ref_rewrite(&once, "main-abc.js"), once);
    }
    let once = asset_ref_rewrite("./scripts/main.js?v=2#x", "main-abc.js");
    assert!(once.ends_with("main-abc.js?v=2#x"));
}

#[test]
fn path_normalize_twice_is_normalize_once() {
    for p in ["/a/./b/../c", "a/./b/./c", "../../x/..", "./a//b/", "/..", "", "a/.."] {
        let once = path_normalize(p);
        assert_eq!(path_normalize(&once), once);
    }
}

#[test]
fn asset_ref_path_resolve_local() {
    let src = "/tmp/t";
    let page = "/tmp/t/index.html";
    let resolved = asset_ref_path_resolve(src, page, "./scripts/main.js?v=2", Some("/tmp/t/scripts/main.js"))
        .unwrap()
        .unwrap();
    assert_eq!(resolved, "/tmp/t/scripts/main.js");
}

#[test]
fn asset_ref_path_resolve_remote_returns_none() {
    let src = "/tmp/t";
    let page = "/tmp/t/index.html";
    for remote in [
        "https://example.com/app.js",
        "//cdn/app.js",
        "/assets/app.js",
        "data:text/javascript,x",
    ] {
        assert_eq!(asset_ref_path_resolve(src, page, remote, None).unwrap(), None, "remote: {remote}");
    }
}

#[test]
fn asset_ref_path_resolve_empty_returns_none() {
    assert_eq!(asset_ref_path_resolve("/tmp/t", "/tmp/t/index.html", "  ", None).unwrap(), None);
}

#[test]
fn asset_ref_path_resolve_missing_file_errs() {
    let err = asset_ref_path_resolve("/tmp/t", "/tmp/t/index.html", "./missing.js", None).unwrap_err();
    assert!(err.contains("asset not found"), "got: {err}");
}

#[test]
fn asset_ref_path_resolve_escape_errs() {
    let err = asset_ref_path_resolve("/tmp/t", "/tmp/t/sub/index.html", "../../outside.js", None)
        .unwrap_err();
    assert!(err.contains("escapes"), "got: {err}");
}

#[test]
fn asset_ref_path_resolve_symlink_escape_errs() {
    let err = asset_ref_path_resolve(
        "/tmp/t",
        "/tmp/t/sub/index.html",
        "./src-link.js",
        Some("/tmp/elsewhere/out.js"),
    )
    .unwrap_err();
    assert!(err.contains("escapes"), "got: {err}");
}

#[test]
fn dist_path_resolve_existing() {
    let out = "/tmp/root/out";
    assert_eq!(dist_path_assemble(out, &vec![]), out);
}

#[test]
fn dist_path_resolve_missing_nested() {
    let missing = vec!["c".to_string(), "b".to_string(), "a".to_string()];
    assert_eq!(dist_path_assemble("/tmp/root", &missing), "/tmp/root/a/b/c");
}
