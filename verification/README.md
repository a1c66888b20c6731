# tsdb_engine

A time-series storage engine with alerting, verified with Verus.

- `src/` is the verified library: the column encodings (zigzag, varint,
  delta-of-delta timestamps, XOR-compressed float bit patterns), the WAL and
  block file formats, the in-memory active block, the inverted, time and
  dictionary indexes, the engine state (admission, writes, deletes, tag
  listing, WAL replay), query planning and time grouping, the line protocol
  up to raw field values, compaction and TTL planning, and the alerting side:
  rules and their requests, the evaluation state machine, the aggregate
  cache, the rule store, the event log queries and the notification queue.
  Floats are held as IEEE-754 bit patterns.
- `app/` is the server around it: HTTP routes, file I/O, background tasks,
  JSON forms of the library's types, and the floating-point arithmetic
  (number parsing, aggregates, threshold comparison).
- `tests/` runs the library on concrete values.

The engine state and its indexes (the series registry, the series count of
each metric, the inverted index and the tag dictionary) are association
lists, `Vec`s of key-value pairs in insertion order, and ordered data (event
queues, block lists) are sorted `Vec`s; every listing then has an order the
contracts fix. The server keeps the whole state behind one mutex.
