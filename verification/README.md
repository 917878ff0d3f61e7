# maze_tui

Maze building, solving and measuring on grids of packed 32-bit squares,
written in Verus: each function carries a contract that Verus proves.

A square holds its four wall bits, a path bit, a builder bit, backtracking
markers, solver thread paint and start/finish bits. Builders carve a maze
into such a grid and may record every change in a build history; solvers
race threads from starts to finishes and record their changes in a solve
history; a history replays frame by frame, forwards and backwards.

## Layout

- `src/maze.rs`: the grid, its squares, points and wall styles, and the
  recorded histories (`Tape`) with their replay.
- `src/builders/`: the maze builders (recursive backtracker, hunt and kill,
  grid, Prim, Kruskal, Eller, Wilson's path adder, recursive subdivision,
  arena) and the carving operations they share (`build_ops.rs`, `cells.rs`),
  the wall modifications (`modify.rs`) and how a square under construction
  is drawn (`draw.rs`).
- `src/solvers/`: the breadth-first, depth-first and flood solvers, the
  start, finish and corner placement they share, and how a solved square is
  drawn.
- `src/run.rs`, `src/tables.rs`: the command line flags and the tables that
  name builders, modifications, solvers and wall styles.
- `src/measure.rs`, `src/painters.rs`, `src/playback.rs`, `src/frames.rs`:
  distances and run lengths through a maze, and stepping through histories.
- `src/rng.rs`: the calls into `rand`, each with the contract that the
  crate's source supports.
- `app/`: the terminal program around the library: argument reading,
  threads, printing with `crossterm`, and the colour blending that works in
  floating point.
- `tests/`: tests of the library on concrete mazes.
