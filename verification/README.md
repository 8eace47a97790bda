# lau_geometric_measure

The discrete core of a geometric measure theory toolkit for measuring agent
state spaces, written in Verus and proved correct against its contracts.

Geometric measure theory measures sets that classical measure theory cannot
tell apart: fractals of non-integer dimension, oriented surfaces (currents)
with a boundary operator, minimal surfaces. Its numerical side is floating
point; what this library holds and proves is the combinatorial side that the
numerics rest on:

- `currents` — oriented simplices by vertex labels, their boundary faces and
  signs, the grouping of equal simplices, the 1- and 2-dimensional
  triangulations, minors of the cofactor expansion, `n!`; proved: ∂∘∂ = 0,
  the boundary of a path is its end minus its start, the boundary of a fan is
  the polygon it spans, a closed polygon is a cycle, consolidation keeps
  every coefficient.
- `hausdorff` — the greedy ε-ball covering (each new ball at the first point
  not covered yet) and the ε-clusters of a point set
  given by its proximity relation, and the self-similarity data of the known
  fractals; proved: the covering covers, its centers are pairwise apart, the
  clusters partition the points into chained classes listed in depth-first
  order, exactly the integer
  dimensions come out integer.
- `compactness` — the extracted subsequence, the flat limit and the Cauchy
  test of a sequence of currents.
- `isoperimetric` — cuts of a point cloud along coordinate orders; proved:
  the Cheeger search finds the sparsest cut.
- `plateau` — which vertices a relaxation step moves and toward which
  neighbours; proved: adjacency is symmetric.
- `monotonicity` — the classification of singular points.
- `agent`, `rectifiability` — windows of a trajectory, sample positions and
  the exploration count.

`app/` is ordinary Rust around the library: the floating-point geometry
(distances, volumes, regressions, eigenvalues, flows) on `nalgebra` vectors,
with `serde` on its result types. `tests/` runs the library on concrete
values.
