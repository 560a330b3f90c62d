# quanty

A single-file database with copy-on-write trees, commits, branches and
time travel, and a small query layer on top of it. The library under `src/`
is verified: every function states what it does in `requires` and `ensures`
clauses over mathematical models, and Verus proves them.

## Layout

Storage
: `page`, `meta`, `node`, `freelist`, `cache`, `pager`, `storage`, `crash`:
  bytes on a medium, pages with checksums, the two meta slots that make a
  commit atomic, and what a crash in the middle of one leaves.

Trees
: `tree`, `btree`, `scan`, `mark`, `prefix`: what a tree of pages holds, and
  reading, writing, scanning and marking it.

History
: `commit`, `refs`, `store`, `db`: commits, branches, snapshots, merging and
  garbage collection.

Keys and values
: `encoding`, `order`, `bytes`, `strings`, `words`, `sha256`, `blob`, `text`:
  tuples as byte strings in logical order, chunks addressed by hash, and
  full text postings.

Queries
: `ast`, `catalog`, `rows`, `value_ops`, `pretty`, `plan`, `join`, `query`,
  `joining`, `sorting`, `source`, `effects`, `cost`, `txn`, `run`,
  `statement`, `session`, `verify`, `text_index`: what statements mean, how
  much they write, and running them.

Laws across modules
: `consistency`, `healthy`, `join_laws`: statements keep every index of a
  database in step with its rows, and a join through the planned probe
  finds the rows that testing every pair finds, each as often.

Tools
: `tokens`, `cli`, `client`, `serving`, `importing`, `setup`, `derive`,
  `bench`: the rules behind the command line tool, its token file, its
  server and importer, its installer, the row derive and the timing harness.

`app/` is ordinary Rust around the library: files, sockets, terminals,
clocks and floating point. Floats stay bits in the library; arithmetic on
them and their printed form are handed in as two functions.

## What is trusted

Proofs rest on the contracts of a few outside functions, each marked where
it stands: the CRC-32C checksum, the system clock, UTF-8 decoding, and
adding a character to a string.
