# zipped_tables

A parquet table can be split vertically: some of its columns in one file, the rest
in others, all with the same rows in the same row groups. This library plans how
such files are read side by side and stitched back together, column by column, and
drives the benchmarks that compare split tables with whole ones. It is written in
Verus; every function states what it does, and Verus proves it.

| module | what it holds |
| --- | --- |
| `split` | dividing a list into runs of even length |
| `partition` | dividing the row groups of a file among partitions, by byte range |
| `access` | which row groups are read, and how many rows that yields |
| `schema`, `types` | merging arrow schemas, and types that can be filled with nulls |
| `statistics` | whether the statistics of a footer can be held against a predicate |
| `zip` | the files of a table, pruning row groups, counting rows |
| `scan` | which files a query reads, what of each, and how the scans are combined |
| `metrics` | adding to the metrics of an operator |
| `exec`, `stream` | the operator that puts two inputs side by side, and its stream |
| `counting_store` | counting object-store requests and bytes |
| `order`, `columns`, `counts` | ordered sets and tables of columns and numbers |
| `config`, `storage`, `cli` | suites, stores, variants and the command line |
| `bench`, `workload` | what is run, what is said of it, what is logged |
| `text` | numbers, statements, lines and padding |

Calls into arrow, parquet, DataFusion, object_store, bytes, chrono and rand stand
behind small functions whose contracts are stated next to them and believed.

`app/` is the program around the library: it reads the environment, opens object
stores, runs queries and prints. `tests/` runs the library against the real crates.
