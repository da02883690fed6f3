# causal

An event-sourcing runtime. An engine appends facts to a log, folds them into
aggregate state, and drives projectors and reactors over it. The library holds
what the engine decides; every function of it is verified with Verus.

- `src/` is the verified library. It does no I/O. Where a decision needs the
  log, a store or a clock, the library asks for a read and takes the answer as
  a value (`FoldSession`, `BoundedFold`, `EmitStart`, `AppendStart`,
  `SettleStep`, `ChildScan`).
- `app/` is the asynchronous shell: stores, tasks, `serde` and `anyhow`.
- `tests/` run the library over a log in memory.

## Where to start

| Module | What it states |
| --- | --- |
| `registry`, `fold`, `fold_session` | how an event is folded, gaps are found and repaired, states are restored |
| `fold_laws`, `restore_laws`, `fold_on_read_laws` | that folds are idempotent, that repair equals folding in order, that a restored or cached state equals the folded one |
| `emit`, `decider` | what an emit or a decision appends, and when it is refused |
| `settle` | when a workflow has drained |
| `decision_store`, `effect_store`, `event_id_registry` | first write wins, and what retention may reclaim |
| `rollback`, `folding_runner` | that the fold of a refused event is undone, and those before it stay |
| `job_executor`, `supervise`, `engine` | intents, attempts, retries, registration and start positions |

Functions of outside crates stand behind a few trusted wrappers: ids (`ids`,
over `uuid`), instants (`instants` and `clock`, over `chrono`), the state table
(`state_table`, over `dashmap`) and string comparison and replacement (`text`,
`json`, over `std`).
