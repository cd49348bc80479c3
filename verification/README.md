# rblib

A library for building block payloads out of pipelines of steps, verified
with Verus.

- `src/` is the verified library: pipelines and step paths, navigation and
  iteration over steps, scopes and their limits, the checkpoint history of a
  payload (lookups, spans, conveniences, display), the decisions of the
  executor and of the built-in steps (pool gathering, ordering, revert
  protection, atomic mode, the Optimism prologue), and the platform limits.
  Each public function states its result in its `ensures`; the laws that
  relate several functions are public `lemma_*` proof functions.
- `tests/` holds the tests, run against the compiled library.
- `app/` is the unverified shell around the library: the node services
  (execution, the transaction pool, the clock, publishing) behind a trait,
  the drivers that hand their results to the library, and error types with
  `std::error::Error`.
