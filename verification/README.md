# mandel_maze

A library for two small graphics programs, a random maze generator and
solver and a family of Mandelbrot renderers, with every function of `src/`
carrying a machine-checked contract.

`src/` holds the proved logic:

- `wall`, `grid`, `maze`: maze cells, grids, and what a perfect maze is
  (walls agree between neighbours, closed border with an entrance and an exit,
  every cell reachable, passages forming a spanning tree).
- `backtracker`, `prims`: the recursive-backtracker and randomised Prim's
  generators, each proved to return a perfect maze whatever the random
  choices; the backtracker's maze is also proved to be laid out depth first
  (of two cells that share a side, one lies on the way from the entrance to
  the other).
- `solve`, `bfs`: depth-first and breadth-first search for a path from the
  entrance to the exit, each proved to find one exactly when one exists; the
  depth-first path visits no cell twice and the breadth-first path is a
  shortest one.
- `algorithms`: the choice of generator and solver, by name or at random.
- `geometry`: the wall segments drawn for a maze.
- `colormap`, `frame`, `pixel`, `viewer`, `threads`: colour-map selection,
  mirroring of frames symmetric about the real axis, pixel packing, the
  interactive viewer's settings, and the worker-thread count.
- `rng`: the calls into `rand`.

`app/` runs the programs (windows, files, command lines) and holds the
floating-point rendering, which stays outside the proofs.
