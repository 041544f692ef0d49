# or-solver-core

A linear and mixed-integer programming solver, split in two.

- `src/` is the verified library. It is generic over the coefficient type and
  holds what does not depend on floating point: building a model, its standard
  form (columns, slacks, artificial columns, starting basis), the bookkeeping of
  a simplex basis (pivots, basic values), the explicit bound constraints, the
  minimization-to-maximization rewrite and the control of the branch-and-bound
  search.
- `app/` instantiates the library with `f64` and adds what is floating point:
  nalgebra matrices, pricing, the ratio test, the basis inverse, the two-phase
  simplex loop, and the integrality and branching tests of branch and bound.
- `tests/` exercises the library on `f64` models.
