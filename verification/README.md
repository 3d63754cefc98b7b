# sonic

The verified core of an execution framework and of its connector helpers.

`src/` is the library, verified with Verus:

- `task_id`, `error`: task identifiers and executor errors.
- `graph`: graph building and validation (vertices, edges, root; empty,
  rootless, cyclic and partly unreachable graphs are refused with a message).
- `graph_run`: the bookkeeping of one graph run: which vertices become ready
  as their predecessors finish, and what is cancelled after a stop or failure.
- `executor`, `run_loop`, `trigger`, `context`, `pool`: the task table and its
  identifiers, registration with each item's trigger declarations, the
  run-loop decisions and the observer and monitor callbacks they make, the
  stop flag and the pool's sizing and job counting.
- `ethercat`, `zenoh_registry`, `zenoh_session`, `zenoh_mock`, `health`,
  `connector_error`: channel registries, the programmable bus driver, the
  in-process Zenoh session, query identifiers and reply frames, and connector
  health.

`app/` holds what runs around it: the drivers that run tasks and graphs on
threads, worker threads, the Ctrl-C bridge, `tracing` output, the process-wide query-id counter, callback delivery for the
in-process session and the gateway's dispatch loop.
