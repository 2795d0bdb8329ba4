use bundla::html::{
    html_asset_refs_extract, html_minify, html_rewrite, is_module_script, is_stylesheet_link,
    RewriteAction, RewriteState,
};
use bundla::strmap::StrMap;

fn extract(html: &str) -> Vec<String> {
    html_asset_refs_extract(html, "index.html").unwrap().0
}

fn map_of(pairs: &[(&str, &str)]) -> StrMap {
    let mut map = StrMap::new();
    for (k, v) in pairs {
        map.insert(k, v);
    }
    map
}

fn rewrite(html: &str, map: StrMap) -> String {
    html_rewrite(html, map).unwrap()
}

#[test]
fn extract_collects_module_script_then_stylesheet() {
    let html = r#"
        <html><head>
            <script type="module" src="./scripts/main.js"></script>
            <link rel="stylesheet" href="./styles/main.css" />
        </head></html>
    "#;

    let refs = extract(html);
    assert_eq!(refs, ["./scripts/main.js", "./styles/main.css"]);
}

#[test]
fn extract_skips_classic_scripts() {
    let html = r#"<script src="./legacy.js"></script>"#;

    let (refs, warnings) = html_asset_refs_extract(html, "index.html").unwrap();
    assert!(refs.is_empty());
    assert_eq!(
        warnings,
        ["skipping classic <script> (type=\"module\" required): ./legacy.js in index.html"]
    );
}

#[test]
fn extract_skips_empty_refs() {
    let html = r#"
        <script type="module" src=""></script>
        <script type="module" src="   "></script>
        <link rel="stylesheet" href="" />
    "#;

    let refs = extract(html);
    assert!(refs.is_empty());
}

#[test]
fn extract_ignores_non_stylesheet_links() {
    let html = r#"
        <link rel="icon" href="/favicon.ico" />
        <link rel="preload" href="/app.css" />
        <a href="./styles/main.css">css</a>
    "#;

    let refs = extract(html);
    assert!(refs.is_empty());
}

#[test]
fn extract_keeps_remote_refs() {
    let html = r#"
        <link rel="stylesheet" href="https://cdn.example.com/x.css" />
        <script type="module" src="//cdn.example.com/app.js"></script>
    "#;

    let refs = extract(html);
    assert_eq!(
        refs,
        ["https://cdn.example.com/x.css", "//cdn.example.com/app.js"]
    );
}

#[test]
fn module_and_stylesheet_attribute_rules() {
    assert!(is_module_script(Some(" MODULE ")));
    assert!(!is_module_script(Some("text/javascript")));
    assert!(!is_module_script(None));
    assert!(is_stylesheet_link(Some("preload  StyleSheet")));
    assert!(is_stylesheet_link(Some("\tstylesheet\n")));
    assert!(!is_stylesheet_link(Some("stylesheets")));
    assert!(!is_stylesheet_link(Some("")));
    assert!(!is_stylesheet_link(None));
}

#[test]
fn rewrite_replaces_mapped_refs() {
    let html = r#"<script type="module" src="./scripts/main.js"></script>
<link rel="stylesheet" href="./styles/main.css" />"#;
    let map = map_of(&[
        ("./scripts/main.js", "./scripts/main-abc.js"),
        ("./styles/main.css", "./styles/main-abc.css"),
    ]);

    let out = rewrite(html, map);
    assert!(out.contains("./scripts/main-abc.js"));
    assert!(out.contains("./styles/main-abc.css"));
    assert!(!out.contains("./scripts/main.js"));
    assert!(!out.contains("./styles/main.css"));
}

#[test]
fn rewrite_dedupes_duplicate_refs() {
    let html = r#"<script type="module" src="./a.js"></script>
<script type="module" src="./a.js"></script>"#;
    let map = map_of(&[("./a.js", "./a-hash.js")]);

    let out = rewrite(html, map);
    assert_eq!(out.matches("./a-hash.js").count(), 1);
}

#[test]
fn rewrite_empty_map_is_unchanged() {
    let html = "<html><body>hi</body></html>";

    let out = rewrite(html, StrMap::new());
    assert_eq!(out, html);
}

#[test]
fn rewrite_leaves_unmapped_content() {
    let html = r#"<script type="module" src="./a.js"></script><p>keep</p>"#;
    let map = map_of(&[("./b.js", "./b-hash.js")]);

    let out = rewrite(html, map);
    assert!(out.contains("<p>keep</p>"));
    assert!(out.contains("./a.js"));
}

#[test]
fn rewrite_state_steps() {
    let mut state = RewriteState::new(map_of(&[("./a.js", "./a-1.js"), ("./b.js", "./a-1.js")]));
    assert!(matches!(state.step(None), RewriteAction::Keep));
    assert!(matches!(state.step(Some("./c.js")), RewriteAction::Keep));
    assert!(matches!(state.step(Some("./a.js")), RewriteAction::SetAttribute(ref n) if n == "./a-1.js"));
    assert!(matches!(state.step(Some("./b.js")), RewriteAction::Remove));
    assert!(matches!(state.step(Some("./a.js")), RewriteAction::Remove));
}

#[test]
fn minify_compresses_and_keeps_structure() {
    let html = "<html>\n  <head>\n    <title>t</title>\n  </head>\n  <body>\n    <p>hello world</p>\n  </body>\n</html>";

    let out = html_minify(html).unwrap();
    assert!(out.contains("<html>"));
    assert!(out.contains("<head>"));
    assert!(out.contains("hello world"));
    assert!(out.len() < html.len());
}

#[test]
fn rewrite_removes_second_element_with_same_output() {
    let html = r#"<link rel="stylesheet" href="./a.css"><link rel="stylesheet" href="./b.css"><p>x</p>"#;
    let map = map_of(&[("./a.css", "./s-1.css"), ("./b.css", "./s-1.css")]);
    let out = rewrite(html, map);
    assert_eq!(out, r#"<link rel="stylesheet" href="./s-1.css"><p>x</p>"#);
}
