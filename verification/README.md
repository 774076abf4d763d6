# workflowd

The core of a self-hosted workflow daemon, written in Verus: every rule the
daemon decides by is a function with a contract that Verus proves.

## Layout

- `src/` — the verified library.
  - `compiler`, `schema`, `policy`, `catalog`, `topology`, `plan`,
    `diagnostic`: the deterministic revision compiler, from a Workflow
    document, a contract catalog and a policy to an Execution Plan or
    diagnostics.
  - `model`, `draft`, `diff`, `publication`: Draft documents and commands,
    the Draft-versus-revision diff, and the publication rules.
  - `run`, `ledger`, `scheduler`, `budget`, `invocation`, `trace`: Run
    identities and limits, the admission, cancellation and completion
    decisions, the scheduler's state machine, queue byte budgets, and the
    Causal Trace integrity check.
  - `live`, `hub`, `ident`: the bounded ring of live stream frames, the hub
    of hot Runs, replay on reconnect, and random identifiers.
  - `json`, `text`, `clock`, `config`: the JSON model, text helpers, the
    wall clock, and configuration defaults.
- `tests/` — tests of the library.
- `app/` — the daemon around the library: SQLite stores, the Run threads,
  serde copies of the library's types, and the HTTP handlers.
