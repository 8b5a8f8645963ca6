# guinea

The logic of a small application framework - roots and their registry,
scopes and their cells, the turn-and-drain notifier, a seeded executor's
choices, timers, plugins and features, the event bus, devtools panels,
localisation, actor shapes and traces - written in Verus, with contracts
that say what each operation returns and changes, and laws proved over
them.

- `src/` is the verified library. Each module states its model as spec
  functions and views, and its laws as public proof functions named
  `law_*`.
- `tests/` runs the library on concrete values.
- `app/` is what the library leaves to the process: thread-local and
  process-wide registries, the loops that run what the library decides,
  file and `tokio`/`tracing`/`serde` plumbing, and code generation from
  Fluent files.
