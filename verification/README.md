# risingwave_core

The rules of a streaming database, written in Verus: every function in `src/` states what it returns or
changes, and is proved to do so.

- `src/scale`: moving the actors of streaming jobs between parallel units: plans, their checks, the new
  distribution of virtual nodes, and the ring that distributes units over workers.
- `src/barrier`: the order of barriers, their completion and recovery.
- `src/manager`: the workers of the cluster and the objects of the catalog.
- `src/stream`: the creation and cancellation of streaming jobs.
- `src/batch`: aggregation by groups, and merging ordered sources.
- `src/frontend`: binding names, planning relations, cursors and sources.
- `src/expr`, `src/vector_op`, `src/common`, `src/connector`, `src/standalone.rs`: aggregate functions,
  comparisons, virtual nodes, connectors, and several services in one process.

What outside crates compute is reached through a few items whose contracts are believed: each names the
function that it calls. `app/` holds clocks, channels, options and messages; `tests/` runs the library.
