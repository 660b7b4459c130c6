# kx_gateway

The decision logic of the kx gateway — the serve configuration, bearer and App-token auth,
the embedded console router, control-form decoding, App authoring (capability bindings,
knowledge rails, the capability manifest), context assembly, the journal-derived alert and
capture folds, dataset ingest and query guards, the branch/bundle/App catalogs and memory
consolidation — written in Verus, with every function's contract proved.

Layout:

- `src/` — the verified library, one module per concern (`lib.rs` lists them). Calls into
  `serde_json`, `sha2`, `base64`, `getrandom` and std's clock go through small trusted
  wrappers whose contracts say what those crates document.
- `app/` — ordinary Rust around the library: argument and token-file reading, the HTTP
  console server (`hyper`), the gRPC auth interceptor (`tonic`), the cron loop and the
  active-model lock.
- `tests/` — the test suite, run against the compiled library.

Laws of the library are public proof functions named `law_*`.
