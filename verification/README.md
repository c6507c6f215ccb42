# crackeddb

An LSM storage engine and the simulation that tests it, verified with Verus.

`src/` is the library.

- Storage: `engine` (reads, writes, flushes, compactions, scans, recovery) over `memtable`,
  `wal`, `payload`, `recovery`, `group_commit`, `sstable`, `block`, `merge`, `compaction`,
  `manifest` and `scan`, with the files of a database in `disk`. Bytes, text, checksums and
  errors are in `codec`, `text`, `checksum` and `error`. `levels` proves that the levels give the
  newest version of a key and that compaction keeps it, `durability` that a crash loses no
  acknowledged write, `agreement` that scans and reads agree, and `upkeep` that writes, flushes,
  compactions and opening a database again keep what they need.
- Simulation: `driver` runs workloads (`workload`), drawn from a seed or from numbers that are
  handed in (`rng`), against the engine and compares it with a model (`model`, `invariants`).
  Faults strike the run (`fault`) and the machine (`sim_env`): the machine cuts, refuses or
  delays writes as the numbers drawn for it say, and lists what it did. `fault_scenarios` sets
  how often. `serialization` looks for cycles between transactions, `txn_stress` and `txn_run`
  say what stress tests of transactions do. `reproduction` proves that a seed gives one result.
  `failure`, `shrink` and `delta_debug` report failures and make them smaller.

Every function states its contract over mathematical models: sequences of bytes, maps from
versions to values, and the states of the engine before and after a call. What holds across
calls stands in public proof functions whose names begin with `law_`.

The engine works on an image of its files and lists the changes it makes to them. `app/` carries
them out in a directory, shares the engine and its log between threads, and runs the transaction
tests against a database.

`tests/` holds the tests.
