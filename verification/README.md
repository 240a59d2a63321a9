# elevator

The verified core of a networked elevator system: up to four elevators
share their hall and cab requests over UDP and agree on which elevator
serves which hall call.

- `src/fsm.rs`: the single-elevator state machine. Handlers update the
  state and return the hardware and network actions to perform.
- `src/manager.rs`: the world view every node keeps, how views are merged,
  the acknowledgement barrier that confirms requests, and the laws of
  merging. `src/manager_loop.rs` holds the manager's event decisions.
- `src/models/`: a self-contained variant of the world view in which
  requests only grow until cleared.
- `src/cost.rs`: the input to, and the reading of the output of, the
  external hall request assigner. `src/json.rs` reads JSON through
  `serde_json`.
- `src/cost_matrix.rs`: a table-based front end to the same assigner.
- `src/timer.rs`, `src/process_pair.rs`: a one-shot timer and the decisions
  of a process pair that keeps a counter alive.
- `app/`: threads, hardware, sockets, the assigner process and the serde
  copies of the message types.

Everything in `src/` is proved by Verus; `tests/` runs the library on
concrete values.
