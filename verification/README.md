# batpak

The core of an append-only event store: the index and its queries, what is
visible when, idempotency keys, crypto-shredding keys, projections, and the
life of a store on disk. Written in Verus: every function of the library is
verified against its contract.

- `src/` is the library. `index/` holds the index, its layouts, visibility,
  restore and the idempotency keys; `keyscope/` the payload keys and their
  file; `projection/` the runs of projections, their caches and reports;
  `lifecycle/` opening, closing, copying and compaction; `platform/` clocks,
  jobs and what is observed of the machine.
- `tests/` runs the library.
- `app/` is the edge: threads, locks, files and encodings. It hands the library
  plain values and does what the library asks for.

Contracts of functions of other crates (`dashmap`, `crc32fast`, `getrandom`,
`zeroize`, `chacha20poly1305`) are believed, not proved. Each stands beside the
function that makes the call, with what it claims.
