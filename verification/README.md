# cordis

A reversible-effect component runtime, verified with Verus.

Components declare the keys they depend on and the keys they provide; a
fiber runs a component's effects as a sequence of reversible steps and
activates, deactivates and recovers as its dependencies come and go. On
top of the runtime sit a declarative loader (a desired tree of entries
reconciled incrementally) and hot module replacement (classification,
stale-entry detection and transactional reload with rollback).

Layout:

- `src/` — the verified library: the key store and environment (`store`,
  `env`), effects and their inverses (`effect`), the lifecycle engine
  (`runtime`, `context`, `component`), the abstract calculus and its
  interpreter (`interp_model`, `interp`), the loader (`loader/`), hot
  reload (`hmr/`), the event bus service (`events`) and the decisions of
  the asynchronous layer (`async_core`: the generation guard of
  activations, the session taken once by the registration's inverse, and
  the FIFO tail queue of the two-phase unload).
- `tests/` — executable tests of the library.
- `app/` — host plumbing that Verus does not check: spawning and awaiting
  asynchronous drives and settling the tail queue, the tokio remote
  bridge, and `anyhow` adapters for reloads.
