# codeconnect

The analysis core of CodeConnect, a multi-language code analysis tool, written
in Verus. Verus proves the executable functions under `src/` against their
`requires`/`ensures` contracts; the few marked `#[verifier::external_body]`
are small trusted wrappers over outside crates (petgraph, blake3, hex, uuid)
and std, whose contracts state what those libraries document.

## Layout

- `src/graph/` — call graph, dependency graph, type hierarchy, cycle detection,
  call-chain tracing and graph metrics (complexity, fan-in/out, dead code).
- `src/diff/` — unified-diff hunk parsing, mapping changed lines to symbols,
  and the summary of a branch comparison.
- `src/symbol_id.rs`, `src/symbol_record.rs`, `src/types.rs` — symbol
  identities, storage keys and the symbol data model.
- `src/config.rs` — configuration layering (defaults, global file, project
  file) and its validation.
- `src/text_scan.rs` — the literal text scan over indexed files and its report.
- `src/reindex.rs`, `src/index_stats.rs`, `src/index_status.rs`,
  `src/call_sites.rs` — incremental reindex decisions, per-file counts, the
  status report's language distribution, and call-site resolution.
- `src/mcp_setup.rs` — the server entry written into an MCP client's
  configuration, and the `PATH` line added to the shell startup file.
- `src/embed.rs`, `src/embed/` — model location, configuration and download
  decisions for the optional semantic search.
- `src/path_util.rs`, `src/walk_roots.rs` — lexical path handling and the
  choice of directories to index.
- `tests/` — tests run against the compiled library.
- `app/` — the command-line program: argument parsing, files, git, the index
  store and the network, handing plain values to the library.
