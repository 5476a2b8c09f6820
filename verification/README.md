# ferrumdb

An embedded key-value store over an append-only log, with JSON documents,
secondary indexes, atomic transactions, TTLs, log compaction and AES-256-GCM
encryption at rest.

## Layout

- `src/` is the verified library (Verus). It holds the logic with its
  contracts: record framing and log scanning (`record`), log operations and
  transactions (`oplog`), the offset index and its replay (`engine`),
  secondary indexes (`secondary`), compaction (`compaction`), the sealed block
  format (`crypto`), command parsing (`cli`), configuration (`config`),
  metrics (`metrics`) and byte-size formatting (`units`). The laws of the
  store (a read gives back what was written, recovery replays what was
  committed, compaction keeps every live key) are proof functions there.
- `app/` is the unverified shell around it: async file I/O, the encrypted
  file system, the async engine that drives the verified core, the web
  dashboard, the interactive shell and the command-line tool.
- `tests/` runs the library on concrete values.
