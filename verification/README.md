# fbf_wasm_api

A verified core for the Shopify Function Wasm API provider: it reads function
input in FBF (Functions Binary Format), writes function output in FBF, and keeps
the log and the interned strings a function uses. The library is written in
Verus; every function in `src/` is proved against its contract.

## Layout

- `src/nanbox.rs` — NaN-boxed values: layout constants, tags, error codes,
  encoding and decoding, and the classification of scope values.
- `src/encoding.rs` — FBF tag constants, the tag classification, varints and
  little-endian helpers.
- `src/nav.rs` — reading input: the prelude (string and shape tables), value
  extents and skips, decoding, container metadata, element and key access,
  property lookup in maps and shaped objects, and the navigation caches.
- `src/write_state.rs` — the state machine that checks the shape of the value
  being written.
- `src/output.rs` — writing output: value encodings, the output string and shape
  tables, and the assembled payload.
- `src/interner.rs`, `src/log.rs` — interned strings and the log ring buffer.
- `src/provider.rs` — the context that ties input, output, log and interner
  together, with the operations a function calls.
- `src/api.rs`, `src/api_read.rs`, `src/api_write.rs` — client-side errors, shape
  ids, write-result mapping and the cache of interned string ids.
- `src/roundtrip.rs` — laws relating the writer to the reader: what the reader
  gives back of what the writer wrote.
- `app/` — host glue: a per-thread context with the exported entry points,
  `f64` conversions, error types with `std::error::Error`, and JSON bridging.
- `tests/` — tests of the library on concrete values.
