# sum_check_simulation

A simulation of the sum-check protocol and of the GKR protocol over layered
arithmetic circuits, on the scalar field of BLS12-381, verified with Verus.

- `src/` is the verified library: field elements (arithmetic by arkworks),
  multilinear extensions and sparse polynomials, the naive and the
  linear-time sum-check provers, the standard verifier, circuits and their
  wiring predicates, the GKR prover, verifier and driver, and the benchmark
  runs. The contracts state the mathematics of each operation; an honest
  prover is proved to pass every round check and the final check of a
  standalone sum-check, and the GKR driver to complete on it, with every
  layer's predicates restricted to a label of the layer.
- `tests/` checks the library on concrete instances, against arkworks.
- `app/` is the benchmark program: it runs the simulations, prints progress
  and writes the timings to `sum-check.xlsx` or `gkr_circuit.xlsx`.

Usage of the program: `sum-check-simulation [sumcheck | gkr [--small]]`.
