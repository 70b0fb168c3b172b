# bazel_language_server

A language server for Bazel workspaces: Starlark BUILD and `.bzl` files and
`.bazelrc` files. The logic is a Verus library whose functions carry
contracts that Verus proves; the program around it speaks the protocol,
reads the disk and runs Bazel.

## Layout

- `src/` — the verified library.
  - `text`, `paths`, `line_index`: strings, paths as `std::path` reads
    them, and LSP positions (UTF-16 columns) against UTF-8 offsets.
  - `label`: Bazel labels and the make-variable forms that hold them.
  - `bazel`: releases and their capabilities, the workspace search, the
    client configuration and the reading of `bazel --version`.
  - `bazelrc/`: the rc language — tokens, statements, imports, configs,
    the flag catalog, diagnostics, hover, completion and navigation.
  - `source_kind`, `document`, `syntax_tree`: which kind of Starlark file
    a path is, open buffers with the client's edits applied to them, and
    what the handlers read off a parsed file (its calls, strings, marks,
    regions, rules and functions).
  - `index`, `static_index`, `collect`, `table`, `repos`, `watch`: the
    target index in its tiers (open buffers, disk, Bazel's graph), what a
    BUILD file's calls declare and mention, repository names, and which
    file events call for a reindex.
  - `handlers/`: the Starlark requests — definition, hover, references,
    rename, symbols, folding, links, inlay hints, code lenses, semantic
    tokens, implementation.
  - `actor`: the Bazel tier's queue and the step function that decides what
    it does with each message and each finished operation.
- `tests/` — tests of the library, run against the real outside crates.
- `app/` — the program: command line, the LSP loop over stdio, the disk
  walks, and running Bazel and buildifier.
