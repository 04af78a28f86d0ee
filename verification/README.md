# sqlrustgo storage core

A verified library for three pieces of a small SQL engine's storage layer:

- `storage::page` — fixed-size pages of 4096 bytes, created zeroed.
- `storage::buffer_pool` — a cache of pages keyed by page id; when it is
  full, inserting first evicts page 0. Its contracts are stated over
  `BufferPoolView` (pages by id, capacity).
- `transaction::wal` — the records of the write-ahead log and the byte layout
  of the log file (length-prefixed, newline-terminated frames), with the
  proof that reading a log back returns the payloads that were written.

`app/` holds what touches files, locks and JSON: the file-backed
`WriteAheadLog` and a thread-safe handle to the buffer pool.
