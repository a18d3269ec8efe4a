# einmo

Directory-based, cryptographically signed snapshot testing with a staged
promotion pipeline: `output` → `checked` → `verified`, with a flagged sink
nested in every stage and signed notes graduated from flags. Every artifact
is an envelope (`.einmo`) whose stamp chain is verified on every read; a
whole stage can additionally carry a post-quantum section signature.

## Layout

- `src/` — the verified library. Each operation states what it returns and
  changes over a mathematical model: storage as a map from `(id, location)`
  to bytes, envelopes through their rendering, stamp chains through the
  records they sign, review sessions through their decisions and journal.
  - `stage`, `storage`, `collation`, `directory` — ids, locations, the
    in-memory store and filesystem layout, manifest order, the directory tree.
  - `format`, `codec`, `signature`, `verify`, `hex`, `numtext`, `text` — the
    envelope format, its stamp chain, verify-on-inspect, and text helpers.
  - `case`, `suite`, `transitions`, `compare` — promotion, flagging,
    retraction, agreement between stages, notes.
  - `review`, `journal`, `review_cli`, `review_server` — review sessions,
    their journal and replay, and the decisions of the command line and the
    HTTP server.
  - `corpus_signer`, `suite_lock`, `cli`, `config`, `error` — section
    signatures, the advisory suite lock, argument reading, keys, errors.
  - `crypto` — the calls into `sha2`, `ed25519-dalek`, `fips205`, `base64`
    and `zstd`, each behind a contract that names what it returns.
- `tests/` — the library's tests, run against the compiled crate.
- `app/` — the `einmo` program: argument parsing, files, the HTTP server,
  the journal on disk, and the `.section.sig` record.
