# hyperspace_nav

A maze game in a space of one to four axes (the library allows up to nine),
each axis eight cells wide. The player starts in cell 0, walks the maze one
cell at a time along any axis, leaves notes in cells, and moves on to a maze
with one more axis on reaching the far corner; the game ends in the far corner
of the four-axis maze.

- `src/` is the verified library:
  - `grid.rs`: cells, coordinates, and the numbering of walls (`cell_pair`);
  - `flood.rs`: the label flood fill that merges two regions (`cell_match`);
  - `maze.rs`: Kruskal's algorithm over a drawn wall order (`carve_walls`,
    `maze_from_picks`, `make_maze`, seeded from the system's random source);
    every carved maze is a spanning tree;
  - `game.rs`: the game state and its moves (`check_move`, `hall_dist`,
    `store_note`, `turn_cell`, `move_cell`, `get_loc`);
  - `labels.rs`: the text of the state line and the corridor labels, and
    the order of the corridor labels in the pane;
  - `lock.rs`: the retry rule for the lock file that guards the saved game.
- `app/` is the GTK window and the save file around the library.
- `tests/` runs the library on concrete mazes.
