# codegraph_kit

A verified library for looking at and editing a codebase: indexing the
definitions, imports, references and re-exports of Rust, TypeScript/TSX,
JavaScript and Python sources; resolving references to definitions; answering
cross-reference queries (definitions and references of a name, callers,
callees, impact); surveying a project (source files, directory tree,
statistics); and planning AST-validated edits (cross-file rename,
structural rewrite with ast-grep patterns).

The library's own functions are verified by Verus against their
`requires`/`ensures` contracts. The calls into outside crates (tree-sitter,
ast-grep, SHA-256, hex) go through small trusted functions whose doc
comments say what their contracts assume of them. Input and output
(walking directories, reading and writing files, printing JSON) live in
`app/`.

## Layout

- `src/text.rs` — strings as character sequences: trimming, lines, paths,
  the order of strings.
- `src/order.rs` — a stable sort and what it guarantees.
- `src/lang.rs` — languages and file extensions.
- `src/index.rs`, `src/extract.rs` — the index, and filling it from the
  matches of the definition, import and reference queries, re-export
  sites included.
- `src/query.rs` — the query programs of each language, running them with
  tree-sitter, and indexing a file from its text.
- `src/resolve.rs` — how a reference resolves to a definition, and with
  what confidence.
- `src/graph/` — `find-refs`, `callers`, `callees`, `impact`; the
  breadth-first walks and what every walk keeps.
- `src/map/` — choosing source files, the directory tree, statistics.
- `src/astedit/` — rename and rewrite: what is edited, what is skipped and
  why, splicing edits, drift and race checks before writing.
- `src/hash.rs`, `src/error.rs` — file digests and I/O errors.
- `tests/` — tests of the library on concrete values.
- `app/` — the command-line front end.
