# showcase

Verified cores of five small algorithm visualizers, written in Verus.  The
library in `src/` holds the algorithms with their contracts and laws; the
program in `app/` draws them with `eframe`/`egui` and feeds them input.

## Library (`src/`)

- `astar` — grid A* with walls: step-by-step search state, path
  reconstruction, maze generation and the editing operations of the board.
  A path the board's search reports is a shortest walk from start to goal,
  and a search that ends without a path leaves no walk.
- `mapf` — conflict-based search for several agents: a time-expanded A*
  that respects vertex and edge constraints (its paths are legal and
  shortest, and it misses none within its time horizon), conflict detection
  and counting, and the high-level search whose answers are conflict-free
  and cost no more than any other solution within its time horizon, and
  which gives up when an agent cannot reach its goal on its own.
- `wfc` — wave function collapse for road tiles: propagation, closed
  boundaries, seeding, entropy-driven collapse and a driving session.
  Propagation removes only tiles that no consistent tiling (and no
  narrowing in which neighbours agree) can use; a session keeps every cell
  in agreement with its neighbours, so a run that finishes has laid a road
  network whose tiles fit and whose roads stay inside the grid.  Propagation, a
  collapse step and a reset are each determined by what they start from,
  failures included.
- `raft` — the decision logic of a Raft cluster: every handler takes the
  state and a message or timeout and returns the new state and the actions
  for the driver (messages, timers, notes).
- `election` — election safety of the Raft cluster: an invariant over the
  cluster, the messages sent and records of votes and elections, kept by
  every operation; under it a term has one leader, ever.
- `replication` — log matching of the Raft cluster, built on the election
  records: logs that share an entry of a term at a position agree up to it.
- `search` — the text analyzer of a small search index (lower-cased ASCII
  words, CJK n-grams), term counting and document frequencies.
- `text` — small string helpers shared by the modules.

## Program (`app/`)

`main.rs` picks a visualizer by its first argument (`raft`, `astar`, `cbs`,
`wfc`, `search`); each `*_app.rs` holds the drawing, the timers, the
simulated network and the scoring with floating point.

## Tests (`tests/`)

One file per module, with the scenarios of the visualizers and a concrete
case for each law.
