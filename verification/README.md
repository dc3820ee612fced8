# pauli_tracker

A library to track Pauli gates through a Clifford circuit, with its behaviour stated
in `requires` / `ensures` contracts and proved by Verus.

## Layout

- `src/pauli*`: single Paulis (dense, tuple and enum encodings), stacks of Paulis and
  the conjugation rules of the Clifford gates on them.
- `src/pauli_frame*`: frames of Pauli stacks over many qubits and their storages.
- `src/boolean_vector*`, `src/bool_vector*`: vectors of booleans backed by `Vec<bool>`,
  `bit-vec` and `bitvec_simd`.
- `src/collection*`: collections keyed by qubit indices (a plain vector, and a vector
  found through a `hashbrown` map).
- `src/circuit*`: circuits that drive a tracker.
- `src/scheduler*`, `src/analyse*`: the time ordering of measurements given by a
  dependency graph, the quantum memory of a graph state, and the depth-first search
  over all measurement paths.
- `tests/`: the tests of the library.
- `app/`: file and string serialization of the library's values and the check of the
  CPU's SIMD support, which need I/O or outside traits.

Calls into outside crates go through small trusted functions whose contracts state what
the crate's documentation and source promise; everything else is verified.
