# gsim

A simulator of parametrised quantum circuits in the adjoint representation of the
dynamical Lie algebra (DLA) that the circuit's gates generate.

- `src/` (Verus, verified): the search for the DLA as a state machine over
  numbered elements (`gsim::DlaBuilder`), which decides which generators and
  commutators are reduced, in which order, which are kept, and when the search
  stops; the enumeration of the
  commutator pairs of a round; and the simulator object `GSim` with its
  preparation protocol.
- `app/` (plain Rust): the complex-matrix arithmetic on `nalgebra` matrices
  (commutators, Gram-Schmidt, matrix exponentials, traces), which drives the
  verified search and simulator (behind a checked `GSim` wrapper), and the public entry points `make_gsim` and
  `run_simulation`.
- `tests/`: tests of the library, including a numerical driver of the search.
