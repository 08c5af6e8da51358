# qtcloud-code-cli

Static analysis of source code with machine-checked contracts: rule-based
detectors over syntax trees, backward and forward program slices, data-flow
traces, module dependency graphs, patch bookkeeping, and the reports of a
scan. The library is written in Verus: its functions carry `requires`/`ensures`
contracts that Verus proves, and the properties that span several
functions are stated as proof functions. The calls into tree-sitter,
serde_json and parts of std stand in small unverified functions whose
contracts are trusted. A tree-sitter tree is read through a name for its
nodes in pre-order (kind, field, depth, positions), a parse through a name
for the nodes of the tree it builds from a grammar and a text, and a JSON
value through a name for its contents; the analyses state their results
over the plain tree or contents those names give.

## Layout

- `src/text.rs`, `src/order.rs`, `src/paths.rs` — text, ordering and path
  primitives with their mathematical models.
- `src/syntax.rs` — the plain syntax tree (`SyntaxTree`) that every analysis
  reads; `src/lang/` turns tree-sitter trees into it and holds the parsers.
- `src/detect/` — the detectors (long functions, wide `unsafe` blocks, long
  parameter lists, dead code, missing tests, unused variables reported by
  the compiler) and the module dependency graph.
- `src/reflect/` — program slices within and across functions, data-flow
  traces, call graphs, impact analysis and type annotations.
- `src/refactor/` — extraction boundaries, renaming, patches and rollback.
- `src/report.rs`, `src/scan.rs` — the terminal listing, the status page and
  one step of a directory scan.
- `src/llm.rs`, `src/lab.rs`, `src/json.rs` — the framing of prompts and
  replies of a language model and the helpers of the experiments.
- `app/` — the `qtcloud-code` command: argument handling, file and network
  I/O, and the serde copies of the library's records.
- `tests/` — unit and scenario tests of the library.
