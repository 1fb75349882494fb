# ZeroClaw coordinator MCP

An MCP server that lets AI agents manage a ZeroClaw workspace: list, read,
write, append to and edit files, set values in `config.toml`, and roll back
the last changes. The decisions it takes are verified with Verus.

## Layout

- `src/` — the verified library.
  - `path.rs`: Unix paths as character sequences (components, joining,
    file names, component-wise prefixes), specified as `std::path` behaves.
  - `server.rs`: the access policy (workspace, whitelist, substring
    blacklist; a path must lie within an allowed directory, with no `..`
    leading back out), and which roots and files a listing covers.
  - `history.rs`: the bounded change history and the plans for recording a
    change and for rolling one back, with the law that rollback restores
    the file.
  - `rpc.rs`: what a JSON-RPC request leads to, and its error codes; a tool
    never runs on a refused path.
  - `text.rs`: trimming, substring search, `str::replace`, appending lines,
    decimal notation, splitting.
  - `config.rs`: the start-up configuration from arguments and environment.
  - `toml.rs`: reading and writing values by dotted key paths in
    `toml_edit` documents, and registering the coordinator in ZeroClaw's
    configuration, over a model of a document as the items reachable from
    its root.
- `tests/` — tests of the library, run against the real `toml_edit`.
- `app/` — the program: stdio and SSE transports, the file system, the
  history manifest and the JSON messages.
