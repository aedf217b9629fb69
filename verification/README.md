# ruma_zk

Verified core of a zero-knowledge proving pipeline for Matrix room joins:
state resolution is compiled into an execution trace on the star graph
`S_n`, checked against a carry-over constraint, and committed to with a
Keccak Merkle tree whose openings a light client can check.

## Layout

- `src/` — the library, verified with Verus.
  - `permutation.rs`: numbering of the `n!` vertices of `S_n` (factorial
    number system) and the star-graph neighbor relation.
  - `field.rs`: BabyBear field elements as canonical `u32` values.
  - `merkle.rs`: the Merkle tree model, authentication paths and their
    folding.
  - `star_graph.rs`: the graph, the trace walk, local and global constraint
    checks, commitment and opening verification.
  - `prover.rs`: the carry-over constraint and the end-to-end resolution
    proof.
  - `lean.rs`: the topological ordering of events by `ruma_lean`.
  - `state.rs`: last-writer-wins state maps and their SHA-256 fingerprint.
  - `hybrid.rs`, `full_spec.rs`, `guest.rs`, `wasm_client.rs`,
    `execution.rs`: the guest programs' resolution logic, the light-client
    join check and event preparation.
- `tests/` — tests of the library, run against the real outside crates.
- `app/` — the command-line front end and the byte-level entry points
  (JSON and CBOR decoding, file I/O, timing).
