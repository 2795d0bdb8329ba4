use bundla::assets::{
    css_compile, css_dep_target, css_dep_text, css_fill, css_finish, css_map_edits,
    asset_process_plan, css_output_plan, dist_dir, file_name_output_format, file_stem_extract,
    js_output_plan, AssetKind, JsChunk,
};
use bundla::hash::hash_create;
use bundla::options::Options;

#[test]
fn hash_create_matches_fnv1a_vectors() {
    assert_eq!(hash_create(b""), "cbf29ce484222325");
    assert_eq!(hash_create(b"a"), "af63dc4c8601ec8c");
}

#[test]
fn hash_create_is_stable_and_distinct() {
    assert_eq!(hash_create(b"css"), hash_create(b"css"));
    assert_ne!(hash_create(b"css"), hash_create(b"js"));
}

#[test]
fn hash_create_more_vectors() {
    assert_eq!(hash_create(b"foobar"), "85944171f73967e8");
}

#[test]
fn file_name_output_format_with_hash() {
    let options = Options {
        minify: false,
        sourcemap: false,
        hash: true,
    };

    let name = file_name_output_format("main", "js", b"body", options);
    assert_eq!(name, format!("main-{}.js", hash_create(b"body")));
}

#[test]
fn file_name_output_format_without_hash() {
    let options = Options {
        minify: false,
        sourcemap: false,
        hash: false,
    };

    assert_eq!(
        file_name_output_format("main", "css", b"body", options),
        "main.css"
    );
}

#[test]
fn file_stem_extract_normal() {
    assert_eq!(file_stem_extract("styles/main.css", "styles"), "main");
}

#[test]
fn file_stem_extract_no_name_falls_back() {
    assert_eq!(file_stem_extract("/", "styles"), "styles");
    assert_eq!(file_stem_extract("a/..", "scripts"), "scripts");
}

#[test]
fn options_profiles() {
    assert_eq!(
        Options::dev(),
        Options {
            minify: false,
            sourcemap: true,
            hash: false
        }
    );
    assert_eq!(
        Options::release(),
        Options {
            minify: true,
            sourcemap: false,
            hash: true
        }
    );
}

#[test]
fn dist_mkdir_root_dir_resolves_to_dist() {
    let dist = "/tmp/x/out";
    assert_eq!(dist_dir(dist, ""), dist);
}

#[test]
fn dist_mkdir_nested_dir_creates_subtree() {
    let dist = "/tmp/x/out";
    assert_eq!(dist_dir(dist, "a/b"), "/tmp/x/out/a/b");
}

#[test]
fn asset_process_plan_dispatch() {
    let p = asset_process_plan("/src/THEME.CSS", "/src").unwrap();
    assert!(p.kind == AssetKind::Css);
    assert_eq!(p.rel, "THEME.CSS");
    assert_eq!(p.dir, "");

    let p = asset_process_plan("/src/scripts/app.ts", "/src").unwrap();
    assert!(p.kind == AssetKind::Js);
    assert_eq!(p.rel, "scripts/app.ts");
    assert_eq!(p.dir, "scripts");

    let err = asset_process_plan("/src/image.png", "/src").err().unwrap();
    assert_eq!(err, "unsupported asset type: .png (/src/image.png)");
}

#[test]
fn js_output_plan_names_entry_maps_and_chunks() {
    let chunks = vec![
        JsChunk {
            file_name: "app.js".to_string(),
            content: b"entry".to_vec(),
        },
        JsChunk {
            file_name: "shared-x1.js".to_string(),
            content: b"chunk".to_vec(),
        },
        JsChunk {
            file_name: "maps/app.js.map".to_string(),
            content: b"{}".to_vec(),
        },
    ];
    let plan = js_output_plan("/src/scripts/app.js", "app", &chunks, Options::release());
    let names: Vec<(String, usize)> = plan.writes.iter().map(|w| (w.name.clone(), w.chunk)).collect();
    let entry = format!("app-{}.js", hash_create(b"entry"));
    assert_eq!(
        names,
        vec![
            (entry.clone(), 0),
            ("shared-x1.js".to_string(), 1),
            ("app.js.map".to_string(), 2)
        ]
    );
    assert_eq!(plan.entry, Ok(entry));

    let plan = js_output_plan("/src/a.js", "a", &chunks, Options::dev());
    assert_eq!(plan.entry, Ok("a.js".to_string()));

    let only_maps = vec![JsChunk {
        file_name: "x.map".to_string(),
        content: vec![],
    }];
    let plan = js_output_plan("/src/a.js", "a", &only_maps, Options::dev());
    assert_eq!(plan.entry, Err("no js output for /src/a.js".to_string()));
}

#[test]
fn css_output_plan_links_sourcemap() {
    let out = css_output_plan("theme", "body{}", Options::dev());
    assert_eq!(out.code, "body{}\n/*# sourceMappingURL=theme.map */");
    assert_eq!(out.name, "theme.css");
    assert_eq!(out.map_name, Some("theme.map".to_string()));

    let out = css_output_plan("main", "body{}", Options::release());
    assert_eq!(out.code, "body{}");
    assert_eq!(out.name, format!("main-{}.css", hash_create(b"body{}")));
    assert_eq!(out.map_name, None);
}

#[test]
fn css_import_and_url_targets_are_rewritten() {
    let code = "@import url(\"./sub/reset.css\");\nbody { background: url(img/bg.png); color: black; }\n";
    let compiled = css_compile(code, Options::release()).unwrap();
    let urls: Vec<&str> = compiled.deps.iter().map(|(u, _)| u.as_str()).collect();
    assert_eq!(urls, ["./sub/reset.css", "img/bg.png"]);
    let fills: Vec<(String, String)> = compiled
        .deps
        .iter()
        .map(|(u, p)| {
            let bundled = if u.ends_with(".css") { Some("reset-abc.css") } else { None };
            (p.clone(), css_dep_text(u, bundled))
        })
        .collect();
    let out = css_fill(&compiled.code, &fills, "main", Options::release());
    assert!(out.code.contains("./sub/reset-abc.css"), "got: {}", out.code);
    assert!(out.code.contains("img/bg.png"), "got: {}", out.code);
    assert!(out.name.starts_with("main-") && out.name.ends_with(".css"));
}

#[test]
fn css_dep_targets_are_stylesheets_under_src() {
    assert_eq!(
        css_dep_target("/s", "/s/styles/main.css", "./sub/reset.css"),
        Ok(Some("/s/styles/./sub/reset.css".to_string()))
    );
    assert_eq!(css_dep_target("/s", "/s/styles/main.css", "img/bg.png"), Ok(None));
    assert_eq!(css_dep_target("/s", "/s/styles/main.css", "https://x/y.css"), Ok(None));
    assert!(css_dep_target("/s", "/s/styles/main.css", "../../out.css").unwrap_err().contains("escapes"));
}

#[test]
fn css_fill_escapes_quotes() {
    let out = css_fill("a{b:url(\"PH\")}", &vec![("PH".to_string(), "x\"y.png".to_string())], "m", Options::dev());
    assert!(out.code.starts_with("a{b:url(\"x\\\"y.png\")}"), "got: {}", out.code);
}

#[test]
fn css_map_edits_shift_columns_after_each_fill() {
    let fills = vec![("PH".to_string(), "ab\u{e9}".to_string())];
    let edits = css_map_edits("x PH y\nz PH", &fills).unwrap();
    // "abé" is 4 bytes, "PH" 2: the columns after each placeholder move by 2
    assert_eq!(edits, vec![(0, 4, 2), (1, 4, 2)]);
    let two = vec![("P".to_string(), "".to_string()), ("Q".to_string(), "qq".to_string())];
    assert_eq!(css_map_edits("PQ", &two).unwrap(), vec![(0, 1, -1), (0, 1, 1)]);
}

#[test]
fn css_finish_maps_the_filled_code() {
    let source = "@import \"./sub/reset.css\";\nbody { color: black; }\n";
    let compiled = css_compile(source, Options::dev()).unwrap();
    let fills: Vec<(String, String)> = compiled
        .deps
        .iter()
        .map(|(u, p)| (p.clone(), css_dep_text(u, Some("reset.css"))))
        .collect();
    let b = css_finish(source, &compiled.code, &fills, "main", Options::dev()).unwrap();
    assert!(b.output.code.contains("./sub/reset.css"), "got: {}", b.output.code);
    assert_eq!(b.output.map_name, Some("main.map".to_string()));
    assert!(b.map_json.unwrap().contains("mappings"));
    let r = css_finish(source, &compiled.code, &fills, "main", Options::release()).unwrap();
    assert!(r.map_json.is_none());
}
