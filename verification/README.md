# tropical_graph

Max-plus (tropical) algebra for graph operations, verified with Verus.

In the max-plus semiring a ⊕ b = max(a, b) and a ⊗ b = a + b, with -∞ as the
additive identity and 0 as the multiplicative one. Weights are exact `i64`
integers; the mathematical model of a value is `Option<int>` (`None` is -∞), and
a matrix is modelled as a sequence of rows.

- `semiring` — `TropicalSemiring` and the semiring laws.
- `matrix` — `TropicalMatrix` (row-major), products, powers, Kleene star,
  element-wise sums; identity, associativity and distributivity laws, powers
  adding exponents.
- `paths` — `TropicalShortestPath`: all-pairs longest walks, min-plus
  Floyd-Warshall shortest paths, min-plus single-source relaxation.
- `eigen` — `TropicalEigenvalue`: Karp's maximum cycle mean from a source joined
  to every node by a 0-weight edge, returned as an exact fraction (`CycleMean`).
- `polyhedron` — tropical halfspaces and polyhedra (intersection, downward
  closure).
- `walks` — what the computations mean in terms of walks: matrix powers give
  the heaviest walks of a given length, the Kleene star and the all-pairs longest
  walk computation the heaviest walks of bounded length (and, without positive
  cycles, of any length: the two then agree, the star is idempotent and is its
  own star); the
  shortest path distances and the single-source distances are weights of real
  walks and, without negative cycles, the least such weights (0 from a node to
  itself), and the shortest path computation is idempotent.
- `karp` — Karp's theorem: the maximum cycle mean computed is the greatest mean
  weight of a cycle of the graph; adding a constant to every edge adds it to
  the mean.
- `bounds` — from a bound on the absolute value of every edge weight, the
  overflow conditions of the matrix powers, Kleene star, all-pairs longest walks,
  single-source relaxation and Karp's method.

Arithmetic never overflows: each operation that adds weights states, in its
`requires`, that the sums it forms fit in an `i64`.
