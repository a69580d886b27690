# scry_index

A sorted key-value map backed by learned index structures, and a log-structured
storage engine that can use it as its memtable. The library is verified with
Verus.

## The map

`LearnedMap` is a tree of nodes. Each node holds a linear model and an array of
slots; the model predicts the slot of a key, and keys that fall into one slot
share a child node. Models are fitted with the FMCD heuristic (fewest conflicts
among slopes taken from the widest gap). All arithmetic is exact: keys are
mapped to 128-bit integers that follow the key order, and slopes are fractions.

| module     | what it holds                                               |
|------------|-------------------------------------------------------------|
| `key`      | the key trait and its implementations                       |
| `model`    | linear models and their fitting                             |
| `node`     | nodes, slots, and what a tree means as a map                |
| `build`    | bulk loading                                                |
| `lookup`, `insert`, `remove`, `rebuild` | the operations on a tree       |
| `iter`     | iteration in key order and ranges                           |
| `map`, `set` | the public types                                          |
| `protocol` | the decisions of threads that share a tree without locks    |

The contracts speak of a map by its contents (`m@`, a mathematical map) and by
its entries in key order (`m.entries()`).

## The storage engine

`lsm` is a write-ahead log, a memtable with three backends, sorted tables in
levels, and a compaction that merges levels block by block. It touches no file:
the formats are functions on bytes, and `LsmEngine` says what has to be read and
written. `lsm::store` states what readers can rely on: a put is read back, a
flush, a compaction and a restart do not change what is read, and the log replays
to the memtable that was lost. As long as the files hold what was written, tables
above level 0 never overlap.

## Around the library

`app/` holds what needs shared memory, files or floating point: a map that
threads share without locks (driven by `protocol`), the engine on a directory,
settings in floating point, and serialization.

## What is trusted

- `crossbeam_epoch::pin` and its guard, of which nothing is claimed.
- `crossbeam_skiplist::SkipMap`, whose methods are described by what they do to
  the contents of the map (`lsm::memtable::skiplist`).
- `std::io::Error`, which is carried and turned into text.
