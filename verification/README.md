# rek0n-db

A lightweight local store for fixed-width code embeddings, written in Verus. The functions under
`src/` are proved against their contracts. What is not proved there is named where it stands: two
calls into std (`String::push`, `sort_unstable`) and one into `fs4` (`lock_contended_error`).

## How it works

1. A store holds an append-only vector file, a manifest and, where a bucketed index was built, a
   centroid file. `src/` works on their contents in memory and queues every change to them in the
   order in which it has to be made; `app/` reads and writes the files and takes the lock. It also
   says in which byte order the host keeps its words. What opening a directory writes first
   (`opening_ops`) is decided from the manifest alone.
2. Stable chunks go to the persistent tier (`insert_persistent`, `replace_file`). A deletion gives
   rows a tombstone and takes them out of the posting lists by path and by kind.
3. Ephemeral rows go to the staging tier (`insert_staging`) and stay in memory until
   `flush_to_disk` moves them.
4. Search spans both tiers: an exact scan, an exact search over the rows that a scope admits, or a
   search within the buckets nearest to the query. Filters hold for staged rows as for others.
5. When the share of dead rows reaches the threshold, the vector file is rewritten without them.
   The manifest is written before the bucketed index is built again.

Components, scores and ratios are single-precision bit patterns. Comparing them is verified
(`bits`); multiplying and adding them is left to an implementation of `VectorMath`, of which
nothing is assumed.

## Layout

- `state`: the abstract state of a store and what each operation does to it.
- `storage`: the store itself; `open`, `insert`, `delete`, `compaction` and `search` below it.
- `laws`: what holds over sequences of operations: coherence, rows, durability, search, and runs
  of calls (`history`).
- `manifest`, `postings`, `ivf`, `compact`, `ranking`, `lock`: the parts.
- `bits`, `words`, `text`, `ids`, `types`: numbers, bytes, numerals, ids and plain data.
- `app/`: files, lock, JSON and `f32` around the library.
