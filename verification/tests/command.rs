use bundla::command::{mode_select, output_dir, rebundle_report, run_mode, Mode};

#[test]
fn mode_select_maps_combos() {
    assert!(matches!(mode_select(false, false), Mode::Dev));
    assert!(matches!(mode_select(true, false), Mode::Release));
    assert!(matches!(mode_select(false, true), Mode::Serve));
    assert!(matches!(mode_select(true, true), Mode::ReleaseThenServe));
}

#[test]
fn output_dir_explicit_overrides() {
    assert_eq!(output_dir(Some("custom"), false, false), "custom");
    assert_eq!(output_dir(Some("custom"), true, false), "custom");
}

#[test]
fn output_dir_defaults_dev() {
    assert_eq!(output_dir(None, false, false), "dev");
}

#[test]
fn output_dir_defaults_release_or_serve() {
    assert_eq!(output_dir(None, true, false), "dist");
    assert_eq!(output_dir(None, false, true), "dist");
    assert_eq!(output_dir(None, true, true), "dist");
}

#[test]
fn run_rejects_open_without_server() {
    let err = run_mode(true, false, true, 0).unwrap_err();
    assert!(err.contains("--open requires a running server"), "got: {err}");
}

#[test]
fn run_rejects_headers_without_server() {
    let err = run_mode(true, false, false, 1).unwrap_err();
    assert!(err.contains("--header requires a running server"), "got: {err}");
}

#[test]
fn run_accepts_open_and_headers_with_server() {
    assert_eq!(run_mode(true, true, true, 2), Ok(Mode::ReleaseThenServe));
    assert_eq!(run_mode(false, false, true, 2), Ok(Mode::Dev));
}

#[test]
fn rebundle_report_keeps_previous_bundle_on_error() {
    let ok = rebundle_report(Ok(vec!["w".to_string()]));
    assert_eq!(ok.warnings, vec!["w".to_string()]);
    assert!(ok.error.is_none() && ok.reload);

    let failed = rebundle_report(Err("boom".to_string()));
    assert!(failed.warnings.is_empty());
    assert_eq!(failed.error, Some("bundle error: boom".to_string()));
    assert!(!failed.reload);
}

#[test]
fn release_open_without_serve_fails() {
    let err = run_mode(true, false, true, 0).unwrap_err();
    assert!(err.contains("--open requires a running server"), "got: {err}");
}

#[test]
fn release_header_without_serve_fails() {
    let err = run_mode(true, false, false, 1).unwrap_err();
    assert!(err.contains("--header requires a running server"), "got: {err}");
}
