# lyrad

The storage unit of an event log: a write-ahead log in segment files, sealed
segments with an index, and the rules by which a unit answers its clients.
What the library does is stated in contracts and proved with Verus.

- `src/vfs` — paths, what a filesystem owes the library, a filesystem in
  memory, and the arithmetic of positioned and direct I/O.
- `src/framing.rs`, `src/crc.rs` — records cut into checksummed fragments that
  do not cross blocks.
- `src/wal` — the stream log: segments without envelopes, recovery, the writer,
  the syncer, the delivery of completions between them, and what a run of the
  writer leaves in the log and tells its callers.
- `src/segment` — sealed segments: file header, aligned records, index and
  footer, and a scanner that stops at a torn tail.
- `src/unit` — the unit: its timelines, its answers to clients, and its own
  sequenced log with retention and replay.
- `tests` — examples on the in-memory filesystem.
- `app` — threads, tasks, streams and the host's files around the library.

Checksums come from the `crc32c` crate. `src/crc.rs` holds the declarations
that stand for it: that a checksum depends on the bytes alone, and nothing of
which bytes share one. `src/unit/buffer.rs` holds the declaration for a vector's
address; from the address that it gives, the page boundary of a buffer is
proved. So is all else that the contracts in `src` state. What the host's files,
threads and locks do stands in `app`, and is not.
