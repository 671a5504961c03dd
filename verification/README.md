# rrc

The core of a small service supervisor, verified with Verus.

- `src/state.rs` – the lifecycle of a service (`State`, `transition`), the
  `Flags` that qualify a state, and `Status`.
- `src/service.rs` – validated service names and the declarative half of a unit.
- `src/execspec.rs` – how a service is run: `Kind`, and `Argv`, a non-empty
  command whose program is an absolute path.
- `src/unit.rs`, `src/config.rs` – a parsed unit file, and `UnitSet`, which
  gathers units and refuses two files that declare the same name.
- `src/sup.rs` – the supervisor's bookkeeping: statuses, live pids, the start
  order, and the decisions taken when a start begins, when it completes, and
  when a process exits.

`app/` is the program around the library: it walks the unit directory, parses
TOML, spawns and watches processes with tokio, and reports each outcome back to
the library.
