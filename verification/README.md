# zed_typescript

The logic of a Zed extension that runs the TypeScript 7 language server,
written in Verus and verified against its contracts.

- `src/lib.rs` — the server command: configured binary, `tsgo` on `PATH`, or
  Node running the managed package, always with `--lsp --stdio`.
- `src/settings.rs` — the extension's own settings under
  `lsp.typescript.settings` (nested or dotted form, typed reads with their
  error messages, `GOMEMLIMIT` validation) and the `workspace/configuration`
  served to the server: extension keys stripped, dotted keys expanded,
  user values deep-merged over the defaults. Laws on merging, stripping,
  dotted expansion, well-formedness and serving a configuration back as
  settings are proof functions here.
- `src/typescript_package.rs` — which TypeScript to install (version,
  update channel, registry fallback), version checks, npm alias names,
  `tsdk.path` normalization, launcher locations and the search for a
  project-local TypeScript 7+ package.
- `src/json.rs` — the JSON model, object lookup/insertion, compact JSON
  text, and parsing through serde_json. A `serde_json::Map` can hold only
  `serde_json::Value`s, so the library keeps an object as a vector of
  entries, in key order as the host's map keeps them; every public function
  says what it returns for any vector, in order or not.
- `src/text.rs` — character-level string operations with their specifications.
- `app/` — the extension itself: host calls, npm, file reads and conversions
  between the host's JSON values and the library's.
- `tests/` — tests of the library.
