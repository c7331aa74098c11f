# seer

Control-and-call outlines of Rust, Java and TypeScript sources, unified
diffs of those outlines, and call graphs. The library in `src/` is written
in Verus: its functions state their results in `requires` / `ensures`
contracts, and Verus proves the code against them.

- `src/syntax.rs` holds the one call into tree-sitter; everything after the
  parse works on a flat, pre-order list of node records.
- `src/lang/`, `src/extract.rs`: raw outlines of function bodies per language.
- `src/omit.rs`, `src/resolve.rs`, `src/entry.rs`, `src/expand.rs`: `use`
  bindings, call resolution, entry points and expansion into outlines.
- `src/ir.rs`, `src/print.rs`, `src/diff.rs`, `src/graph.rs`: printing, the
  unified diff, and the call graph in Mermaid, JSON and HTML.
- `src/cli.rs`, `src/collect.rs`, `src/git.rs`, `src/view.rs`,
  `src/browse.rs`: argument handling, source collection, git plumbing and
  the `seer-view` browser, as decisions on plain values.
- `app/main.rs`: the programs `seer` and `seer-view`: files, processes, the
  terminal.

Laws of the library are public proof functions whose names start with
`law_`.
