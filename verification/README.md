# accretion_db

An embeddable key-value store built as a log-structured merge tree, verified with Verus.
What it promises is that no acknowledged write is lost: whenever the power is cut, opening
what is left finds a prefix of the writes, in full, and every write that returned in a
durable mode is in it (`db::history::lemma_no_acked_write_lost`). This holds under four
premises: the log was durable to begin with, as it is in a new directory, after a power loss
and after a flush; the checksums give away a flipped bit in the records that were being
written; the backend has room left for another file; and opening succeeds, as it does on a
backend that works.

## Layout

- `src/storage`: the seam the store is written against, and a simulated file system that
  loses power as a seeded generator decides.
- `src/wal`: the write-ahead log: frames, segments, recovery, group commit, and what many
  writers may rely on (`commit.rs`).
- `src/memtable`, `src/iter`: sorted memory, and the merge of sorted sources.
- `src/sstable`: tables on disk with their sparse index and filter.
- `src/manifest`, `src/compaction.rs`, `src/tables.rs`: which tables there are, how they
  are merged, and what they hold together.
- `src/db`: the store: opening, reading, writing, flushing, what these make of the tables
  (`layout.rs`), and what a run of them leaves (`history.rs`).
- `src/testkit`: crash sweeps over a workload.
- `src/bench`, `src/crashtest.rs`: what the benchmark and the crash test write and read.
- `src/model.rs`, `src/order.rs`, `src/codec.rs`, `src/names.rs`, `src/range.rs`: records
  and layers of records, byte order, numbers as bytes, file names, ranges of keys.
- `app`: the program: the real file system, threads, clocks and the sled store.
- `tests`: the library in use.

## What is trusted

`checksum.rs` (crc32fast), `sstable/bloom.rs` (xxhash), `random.rs` (rand), and of the
standard library the count of handles of an `Arc` in `manifest`, a sort in `bench/hist.rs`
and the clock in `bench/clock.rs`. Each of these says in its documentation what it takes
for granted.
