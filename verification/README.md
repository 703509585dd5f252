# ledger-sim

Deterministic simulation with verified contracts: virtual time and seeded
draws, a simulated network and storage, cooperative tasks, fault injection,
bounded schedule exploration, and a lint against ambient effects.

- `src/` is the library, proved with Verus. The executor and the backends ask a
  `Host` for everything that is not theirs (the journal, time, seed streams,
  storage, the scheduler). Every operation is proved to be a function of its
  state and of the answers it got, so equal answers give equal runs, and a run
  replays by its recorded decisions.
- `tests/` runs the library against a small in-memory host.
- `app/` connects it to the outside: the lint's command line, ambient time and
  entropy, WebAssembly guests, and futures as tasks.

The laws are the public proof functions named `law_*`. What is believed without
proof is marked `Trusted:` in `src/backoff.rs`, `src/bench.rs`, `src/digest.rs`,
`src/host.rs`, `src/stream.rs` and `src/text.rs`. In `src/host.rs` and
`src/bench.rs` that is the link from a log to the world that it is the log of: a
world that implements `Host` has been asked what the calls asked it, and has
answered what the calls returned.
