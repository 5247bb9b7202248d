# mac_autocomplete_engine

The engine of a local autocomplete service, written in Verus.

- `src/` is the verified library: text helpers (`text`), sanitising and
  truncation (`util`), the instant suggestion engine, the stub refinement
  model, ranking, the LRU result cache and the context history (`engine`),
  metrics with percentiles (`metrics`), command-line option parsing
  (`options`), and the protocol types with the per-line connection decision
  (`ipc`). The cache keeps an `lru::LruCache`; the few calls into it, and
  into std functions that vstd does not specify, are trusted wrappers whose
  contracts are stated in their doc comments.
- `app/` is the daemon around it: the tokio runtime, the Unix socket server,
  JSON encoding with serde, logging, locks for sharing, and the
  floating-point parts (metric rates, candidate scores).
- `tests/` exercises the library on concrete values.
