# mpz

Verified building blocks for secure multi-party computation, in Rust and Verus.

- `block`, `bits`, `fields`, `ggm`: 128-bit blocks, arithmetic in the field with
  2^128 elements, and puncturable trees of seeds.
- `circuits`: boolean circuits, their construction, and the compression function
  of BLAKE3 as a circuit.
- `garble`: evaluation of garbled circuits by half gates.
- `memory`, `zk`: authenticated memory, the views of two parties, and the prover
  of a zero-knowledge protocol over circuits.
- `ot`: oblivious transfer: ideal functionalities, a base protocol over a prime
  order group, and an extension from correlated noise.
- `vm`, `hash`: a machine that calls circuits, and hashing on it.

What other crates compute is declared, with what is believed of it, in
`memory/ranges.rs`, `digest.rs`, `ot/ideal/rot.rs`, `ot/chou_orlandi/curve.rs`
and `vm.rs`. Primitives such as block ciphers are passed in as functions.

`tests/` runs the library. `app/` is the code around it that is not verified:
randomness, messages, asynchronous loops and benchmarks.
