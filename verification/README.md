# context_cutter

Caches large JSON API responses behind short, deterministic handles
(`hdl_<12 hex>`), answers with a compact structural summary (a *teaser*), and
lets an agent pull out only the fields it needs with JSONPath queries. It runs as
an MCP stdio server, either with its own `fetch_json_cutted` / `query_handle`
tools or as a proxy in front of an HTTP MCP server that replaces large tool
results with a handle and a preview.

## Layout

- `src/` — the library, verified with Verus:
  - `json.rs` — the JSON model and its compact text;
  - `canonical.rs` — key-order canonical form and handle ids;
  - `parser.rs` — teasers and path queries;
  - `store.rs` — the bounded handle store (idle expiry, LRU eviction) and a plain
    keyed store;
  - `engine.rs` — store / teaser / query on the handle store;
  - `base64url.rs`, `oauth.rs` — PKCE, bearer tokens and the OAuth login's URLs,
    bodies and answers;
  - `checks.rs`, `settings.rs` — input checks and environment settings;
  - `proxy.rs` — previews, interception, JSON-RPC framing and the tools' handling;
  - `text.rs`, `error.rs` — character helpers and the error type.
- `app/` — the executable around it: stdio, HTTP, files, the environment, the
  clock, the MCP server types and the Python bindings.
- `tests/` — tests of the library on concrete values.
