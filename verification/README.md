# Repartitioner

Adaptive partitioning of datasets to prevent skew in distributed processing: the
keys of a dataset are counted, keys that are too frequent are spread over several
partitions by salt, the others are placed by load or by hash, and a rewrite is
planned only where it pays.

The library under `src/` is verified with Verus: each function states what it
returns, and the proof functions beside them state what holds of the method as a
whole.

| Modules | What they hold |
| --- | --- |
| `config`, `cli`, `execution`, `error`, `nonzero` | configurations, their checks and defaults |
| `key_encoding`, `dataset`, `keymap`, `text` | rows, keys and their encoding |
| `hashing`, `sorting`, `arith`, `binary64` | hashing, sorting and exact arithmetic |
| `heavy_hitters`, `skew`, `targeting`, `statistics`, `join` | statistics of a dataset |
| `placement`, `planner` | where keys go, and whether a rewrite is planned |
| `partitioner`, `routing`, `balance` | where rows go, and what the partitions receive |
| `record_batch`, `reader`, `csv_input`, `writer`, `rolling` | columns, input and output |

Arrow's record batches and the reader of comma-separated values are used through
the wrappers in `record_batch` and `csv_input`; their doc comments say what is
taken for granted of them.

Numbers of double precision are held by their bit patterns (`binary64`), so that
thresholds and skew measures are computed to the last bit and can be reasoned
about.

`app/` is the command line around the library: configuration files in YAML, Parquet
and CSV files, and metadata in JSON. `tests/` holds the tests.
