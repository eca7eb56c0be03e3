# drone_path_planner

Plans the walk of a drone over a square grid of values: each move goes to one
of the eight neighbouring cells, a visited cell is emptied and grows back at a
configured rate, and a planner (greedy with lookahead, or a limited beam
search) picks each move by the value it expects to collect.

* `src/` is the library, verified with Verus: the configuration types and the
  choice of algorithm (`algorithms::PathPlanningAlgorithm::from_config`), the
  move geometry (`utils::directions`, `utils::neighbors`), the walk a planner
  builds (`algorithms::PathWalk`), the cell store and the set of visited cells
  (`grid::Grid`, `grid::VisitedCells`), and the splitting of a grid file into
  rows of values (`grid_text::grid_rows`).
* `app/` is the program: command line, configuration and grid files, logging,
  PNG output, and everything that computes with the `f32` cell values (the
  scoring of moves, growing cells back, path scores).
* `tests/` exercises the library.
