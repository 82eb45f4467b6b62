# tpt_physics

A granular (DEM) and continuum (FEA) physics toolkit whose combinatorial core
is verified with Verus.

* `src/` — the verified library: structured-grid indexing and the 5-point
  Laplacian stencil, two-level multigrid transfer stencils, CPU/GPU routing,
  broad-phase neighbour search over integer cells, cohesive-bond pairing and
  counting, boundary-plane and material resolution of problem descriptions,
  solver shape checks and iteration budgets, episode bookkeeping and
  element-scatter plans. Every function carries a contract, and the laws of
  the library (Laplacian symmetry, symmetric neighbour lists, unique bonds,
  exact Dirichlet selection, monotone routing, …) are proof functions.
* `app/` — the floating-point physics (contact laws, obstacles, the DEM
  world, element formulations, plasticity, iterative solvers, time
  integration, multigrid smoothing), serialisation, the GPU kernel, the
  WebAssembly and Python bindings and the example-gallery program, all calling
  into the verified library for their integer logic.
* `tests/` — executable tests of the library.
