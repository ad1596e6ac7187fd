# lifter

A lambda-lifting robot for the mine game: a robot in a walled mine collects
lambdas, dodging falling rocks, and leaves by the lift once it opens.

The library (`src/`) is verified with Verus:

- `state`: squares, moves, the grid, one step of the simulation (robot move,
  then the map update), reading and printing boards, and the soundness of a
  mine (walled in, robot inside) that every step keeps.
- `board`: the older top-row-first grid reader and its safety rules.
- `text`: lines and characters of board and pattern files.
- `dlist`: a doubly linked list over an arena, with O(1) push, pop and
  insertion next to a node.
- `path`: the brushfire (breadth-first search from the robot) that finds a
  shortest path to the nearest target and can be resumed for the next one,
  and playing a path.
- `brushfire`, `astar`, `precise`, `path_find`: path finders that hand out
  walked paths one at a time.
- `play`, `pathlist`, `evaluate`, `heuristics`: the greedy driver, the
  depth-limited search and the evaluation of a state.
- `game_tree`: the engines (`simple`, `tobruos`, `bblum`, `cargomax`, and the
  choice among several in `octopus`).
- `pattern`, `targets`: pattern files and the things a path is routed to.
- `driver`, `fuzzer`: the interactive game, known maps, random figures and
  random board texts.

The program (`app/`) reads a board from a file (or standard input in
competition mode), installs the stop signal, and prints the plan of the
engine chosen with `ENGINE` (or plays with a human under `ICFP_HUMAN`).
