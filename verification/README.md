# fj_contracting

Tools for experiments on contract design in opinion formation games (the
Friedkin-Johnson contracting problem), with a library verified by Verus.

- `src/` is the verified library: parsing edge-list files, adjacency matrices,
  Barabási-Albert and Gilbert random graph construction, influencer selection,
  integer histograms, the shape checks and edge counts of Friedkin-Johnson
  networks, and the integer bookkeeping of solutions.
- `app/` is the command-line program (`hrg`, `fixed-graph`, `bench`) and the
  parts that compute with `f32` values: the opinion dynamics (nalgebra), the
  breakpoint computation, the solvers, box plots and the parallel simulations.
- `tests/` runs the library on concrete inputs.
