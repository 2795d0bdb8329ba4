use vstd::prelude::*;

verus! {

/// Bundle options for css/js/html output.
#[derive(Clone, Copy, PartialEq, Eq, Debug, Structural)]
pub struct Options {
    pub minify: bool,
    /// emit `.map` sourcemap files next to the output
    pub sourcemap: bool,
    /// add a hash to output filenames (`main-<hash>.css`, `main-<hash>.js`)
    pub hash: bool,
}

impl Options {
    /// unminified, sourcemapped, no-hash filenames
    pub fn dev() -> (o: Options)
        ensures
            !o.minify && o.sourcemap && !o.hash,
    {
        Options { minify: false, sourcemap: true, hash: false }
    }

    /// minified, hashed filenames, no sourcemaps
    pub fn release() -> (o: Options)
        ensures
            o.minify && !o.sourcemap && o.hash,
    {
        Options { minify: true, sourcemap: false, hash: true }
    }
}

} // verus!
