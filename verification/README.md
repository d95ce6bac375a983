# mcpgw

The verified core of an MCP gateway, one that aggregates the tools of several upstream MCP
servers behind three meta-tools (`search_tools`, `get_tool_details`, `call_tool`) and observes
every call. This crate holds the gateway's decisions and bookkeeping, written in Verus: the
configuration and its validation, the meta-tool requests and their replies, the call records and
what the sinks keep of them, the rebuild and reconcile bookkeeping, and the retrieval text
handling. Serving MCP, the dashboard's HTTP side and the network clients are not part of it.

Apart from reading the clock, the public functions of `src/` carry `requires`/`ensures` contracts
that the verifier proves, and
the laws the gateway relies on (what a ring keeps, what a lookup finds after a store, how ids
stay stable across replays, ...) are stated as proof functions next to the code they are about.
Calls into `serde_json`, `subtle` and the standard library that the proofs rely on go through
small trusted wrappers whose contracts say what those crates document.

## Layout

- `src/` — the verified library.
  - `text`, `json`, `strset` — strings, the JSON model, ordered string sets.
  - `config`, `startup`, `about` — the configuration, its validation, and start-up decisions.
  - `observe`, `calls`, `metrics`, `activity`, `history`, `discovery` — call records and the
    sinks that aggregate, keep, and replay them.
  - `gateway`, `disable`, `downstream` — snapshot rebuilds, upstream reconciliation, the
    disable set, and the meta-tool request handling.
  - `retrieval`, `caching` — the tokenizer, the catalog lookups, the reranker's prompt and
    reply, the provider checks, and the bounded embedding cache.
  - `auth`, `api` — credentials and the dashboard API's decisions.
- `tests/` — tests of the library.
- `app/` — the `mcpgw` command line: reading configuration and catalog files, BM25 ranking
  (floating point), and the checks that read the environment or parse addresses.
