# pacman

The logic of a Pac-Man style game, verified with Verus.

- `src/laberinto`: the maze grid (`Casilla`), the four directions, the corridor
  nodes and their links (`Nodo`), the depth-first linking of the maze
  (`maze_init`) and the drawing of a maze from a map (`maze_maker`).
- `src/objects`: the ghosts (`Fantasma`: route, state, route planning and the
  channel a planned route arrives on; `planning`: the route search and the
  targets of each ghost), the coins (`Moneda`) and the player (`Player`: keys,
  direction buffer, score).
- `src/game_logic.rs`: the state of a game; the score always counts the coins taken.
- `app/`: the window, drawing and the floating-point bodies of the objects
  (eframe/egui). It reads the map from the file named on the command line
  (`laberinto.txt` by default): one row per line, `#` a wall, `.` a corridor
  node, `S` the ghosts' spawn, anything else empty; at most 19 rows of at most
  31 symbols.
