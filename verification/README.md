# railspan

Self-hosted, Rails-first APM server: trace ingest, SQLite storage, a query API
and N+1 detection. The decisions of the server are a Verus-verified library;
the HTTP, database and command-line plumbing around it is ordinary Rust.

## Layout

- `src/` — the verified library
  - `protocol.rs` — batches, spans and attribute values as plain data, with their views
  - `sanitize.rs` — cardinality caps applied before storage
  - `sampling.rs` — whole-trace sampling (errors and slow roots always kept) and health-check filtering
  - `ingest.rs` — what storing a batch writes: trace rows, span rows, N+1 events
  - `rows.rs` — how those writes merge into the stored rows (the upsert statements and their model)
  - `endpoints.rs` — per-endpoint counts and p50/p95/p99
  - `source.rs` — which source paths may be read, and the lines of a snippet
  - `auth.rs`, `server.rs` — bearer tokens, request screening, ingest answers
  - `query.rs` — time ranges, the trace-list statement, retention and deploy markers
  - `metrics.rs` — counters and the load tier behind sampling advice
  - `text.rs` — character truncation, FNV-1a, decimal and hex formatting
  - `clock.rs` — the system clock, read through `std::time`
- `app/` — the `railspan serve` binary: axum routes, the sqlx store, JSON shapes
- `tests/` — tests of the library on concrete values
