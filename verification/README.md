# bundla

An html/css/js bundler whose decisions are verified with Verus.

- `src/` is the library: path semantics (components, join, strip, normalize),
  reference rewriting, asset naming and hashing, the selection and rewriting of
  a page's `<script type="module">` and `<link rel="stylesheet">` references,
  the stylesheets' `@import` and `url()` dependencies, the static-asset copy
  rules, the build's step order (including how the new output replaces the old
  one) and the per-build asset cache, and the command-line mode rules. Each function carries a contract over
  a mathematical model (`Seq<char>` for text, `Seq<Comp>` for paths), and the
  properties that span functions are proof functions (`lemma_*`).
- The calls into minify-html, lol_html and lightningcss are made from `src/`
  through small trusted wrappers whose results are named by spec functions.
- `app/` is the program around it: the file system, the js bundler, the dev
  server and the command line.
- `tests/` runs the library on concrete inputs.

`app/` bundles js with `rolldown`, which is not among this crate's
dependencies, so `app/` does not type-check as it stands (`app/bundler.rs`,
unresolved import `rolldown`). The library and its tests are unaffected, and
the js output decisions (`js_output_plan`) are verified.
