# foundation

A library for deterministic execution, verified with Verus: overflow-checked
integers, Lamport clocks, an execution context with a seeded generator and a
trace, domain-tagged SHA-256 identifiers, audit logs, message routing and
queues, graph algorithms over an adjacency list with compact (CSR) storage,
agent and blueprint domain types, validation combinators and deterministic
sorting, shuffling and selection.

Layout:

- `src/` — the verified library. Every function it implements carries a
  contract, proved by Verus (the traits it declares for users to implement
  leave what their methods return to the implementation); the calls into
  `sha2`, `chrono`, `serde_json` and the system clock sit behind small
  trusted wrappers whose contracts are documented where they stand.
- `tests/` — tests run against the compiled library.
- `app/` — code around the library that cannot be verified: floating-point
  numerics (checked floats, statistics, vectors and matrices, Dijkstra's
  shortest paths), JSON serialization of arbitrary values and hash-based
  determinism checks, an in-memory transport client, and serde-enabled copies
  of the library's value types, graphs, audit logs, messages and blueprints.

Floating-point values that the library only carries (edge weights,
percentages, float properties) are held as their IEEE-754 bit patterns
(`FloatBits`).
