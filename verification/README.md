# traveler

A step-by-step visualizer for the travelling-salesman problem, built around a
library verified with Verus.

## Layout

- `src/` — the verified library.
  - `tour` — tours as sequences of node indices and the moves applied to
    them (2-opt reversals, or-opt segment moves, reinsertion, triangle
    rotations, circular reversals), each stated exactly and shown to keep the
    tour's nodes.
  - `strategies` — the state machine of every construction strategy: what a
    step does to the tour and the strategy's state, and which geometric choice
    it leaves to the caller.  Christofides' graph phases are verified here:
    the odd-degree nodes, Hierholzer's walk (stated step by step) and its
    shortcut into a tour.  So are the branch-and-bound search tree and the
    double-bridge perturbation of iterated local search.
  - `text`, `settings`, `tsplib` — the text formats read by the program: LKH
    tour files, `key: value` parameter files and TSPLIB instances.
  - `scenario`, `ui` — the test scenarios, the run state of the visualizer
    and the point-count dialog.
- `tests/` — tests of the library on concrete values.
- `app/` — the program: drawing and input with macroquad, file and process
  I/O, and every choice that depends on floating-point distances and angles.
