# netbadb_storage

The storage core of a small relational engine, verified with Verus.

| Module | What it holds |
| --- | --- |
| `bytes`, `text`, `checksum`, `ids`, `value` | Little-endian integers, decimal text, CRC-32C, identities, typed values |
| `change_stream` | The durable log of committed row changes: format, preparation, group durability, publication, recovery, retention and reclamation |
| `columnar` | Immutable column-oriented projections: encodings, statistics, manifests, base and delta segments, scans, advances, compaction |
| `page`, `allocation_transition` | Page images, and moving a retired page back into use through the log |
| `buffer` | The page buffer: pins, eviction, write-ahead order, undo |
| `btree` | A B-tree of index entries over pages: lookup, insertion, deletion, and the order in which changes are published |

Files whose name ends in `laws` hold proof functions that relate several
operations: what is read back of what was written, what an operation keeps, and
what one undoes.

The library does no input or output. Where an operation needs some, it comes in
two parts: one that plans (`plan_..`), and one that takes note of what was done
(`complete_..`). `app/` performs what was planned, on files.

Two functions are trusted: the check value of the `crc32c` crate, which has a
name and no definition here, and the decoding of UTF-8 by the standard library.
