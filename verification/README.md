# cjs_analysis

Static analyses of CommonJS modules, proved with Verus.

- `cjs_exports` recognizes the named exports that a module writes as `exports.foo = …` at its top
  level, and blanks the writes of exports that no consumer uses and whose values have no side
  effects. Any other mention of `exports`, `module` or top-level `this`, be it in a statement or in
  a module declaration, makes a module opaque, and nothing is removed from it.
- `require_usage` reports, for each `require("…")` call, which members of the required module are
  used. Any use that is not a static member read counts as a use of the whole module: a bare
  reference, a dynamic key, a member that is written, updated or deleted, an exported declaration.

## Layout

- `src/`: the library.
  - `syntax.rs`: the syntax tree.
  - `analyzer.rs`, `names.rs`: questions to single nodes; ordered sets of names.
  - `cjs_exports/`, `require_usage.rs`: the two analyses.
  - `cjs_exports/properties.rs`, `require_properties.rs`: what holds of each analysis as a whole.
  - `outside.rs`: the calls into `swc_core` and `rustc-hash`, whose contracts are believed.
- `tests/`: tests on concrete programs.
- `app/`: builds the library's tree from swc's, edits swc's tree, and stores the code-gen.
