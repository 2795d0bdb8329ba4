//! The command line's decisions: what to run, where the output goes, and what
//! the dev server reports after each rebuild.
use vstd::prelude::*;

use crate::text::concat2;

verus! {

/// What the command does.
#[derive(PartialEq, Eq, Structural, Clone, Copy, Debug)]
pub enum Mode {
    /// watch, bundle and serve with live reload
    Dev,
    /// release build, then exit
    Release,
    /// serve the output directory without bundling
    Serve,
    /// release build, then serve it
    ReleaseThenServe,
}

pub open spec fn mode_select_spec(release: bool, serve: bool) -> Mode {
    if !release && !serve {
        Mode::Dev
    } else if release && !serve {
        Mode::Release
    } else if !release && serve {
        Mode::Serve
    } else {
        Mode::ReleaseThenServe
    }
}

/// The mode for the `--release` and `--serve` flags.
pub fn mode_select(release: bool, serve: bool) -> (m: Mode)
    ensures
        m == mode_select_spec(release, serve),
{
    match (release, serve) {
        (false, false) => Mode::Dev,
        (true, false) => Mode::Release,
        (false, true) => Mode::Serve,
        (true, true) => Mode::ReleaseThenServe,
    }
}

/// The output (or served) directory: `--dist` when given, else `dist` for a
/// release or a plain serve, `dev` for the dev server.
pub open spec fn output_dir_spec(dist: Option<Seq<char>>, release: bool, serve: bool) -> Seq<char> {
    match dist {
        Some(d) => d,
        None => if release || serve {
            "dist"@
        } else {
            "dev"@
        },
    }
}

pub fn output_dir(dist: Option<&str>, release: bool, serve: bool) -> (r: String)
    ensures
        r@ == output_dir_spec(
            match dist {
                Some(d) => Some(d@),
                None => None,
            },
            release,
            serve,
        ),
{
    match dist {
        Some(d) => d.to_owned(),
        None => if release || serve {
            "dist".to_owned()
        } else {
            "dev".to_owned()
        },
    }
}

pub open spec fn open_without_server_message() -> Seq<char> {
    "error: --open requires a running server (--serve)"@
}

pub open spec fn header_without_server_message() -> Seq<char> {
    "error: --header requires a running server (--serve)"@
}

/// A release build that does not serve has no server: `--open` and `--header`
/// are refused for it; otherwise the mode to run.
pub open spec fn run_mode_spec(release: bool, serve: bool, open: bool, header_count: nat) -> Result<Mode, Seq<char>> {
    if open && release && !serve {
        Err(open_without_server_message())
    } else if release && !serve && header_count != 0 {
        Err(header_without_server_message())
    } else {
        Ok(mode_select_spec(release, serve))
    }
}

/// Check the flags and choose the mode.
pub fn run_mode(release: bool, serve: bool, open: bool, header_count: usize) -> (r: Result<Mode, String>)
    ensures
        r matches Ok(m) ==> run_mode_spec(release, serve, open, header_count as nat) == Ok::<Mode, Seq<char>>(m),
        r matches Err(e) ==> run_mode_spec(release, serve, open, header_count as nat) == Err::<Mode, Seq<char>>(e@),
{
    if open && release && !serve {
        return Err("error: --open requires a running server (--serve)".to_owned());
    }
    if release && !serve && header_count != 0 {
        return Err("error: --header requires a running server (--serve)".to_owned());
    }
    Ok(mode_select(release, serve))
}

/// What the dev server reports after a rebuild triggered by a source change.
pub struct RebundleReport {
    /// warnings to report, in order
    pub warnings: Vec<String>,
    /// the error to report, if the rebuild failed
    pub error: Option<String>,
    /// whether the browser reloads
    pub reload: bool,
}

pub open spec fn bundle_error_message(e: Seq<char>) -> Seq<char> {
    "bundle error: "@ + e
}

/// After a successful rebuild, its warnings are reported and the browser reloads;
/// after a failed one, the error is reported and the browser keeps the previous bundle.
pub fn rebundle_report(result: Result<Vec<String>, String>) -> (r: RebundleReport)
    ensures
        (match result {
            Ok(ws) => r.warnings@ == ws@ && r.error is None && r.reload,
            Err(e) => r.warnings@.len() == 0 && (r.error matches Some(m) && m@ == bundle_error_message(e@))
                && !r.reload,
        }),
{
    match result {
        Ok(warnings) => RebundleReport { warnings, error: None, reload: true },
        Err(e) => RebundleReport {
            warnings: Vec::new(),
            error: Some(concat2("bundle error: ", e.as_str())),
            reload: false,
        },
    }
}

} // verus!
