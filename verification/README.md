# hyperzen

The game logic of HyperZen Training, a maze shooter, as a library verified
with Verus.

- `src/maze`: grid mazes in two and three dimensions: generation by a
  partial reversed Kruskal algorithm, border, shrinking, zones of free
  cells, filling of small zones, dead rooms and dead-end corridors, free
  cells near a point and path search.
- `src/entity`: the wall pieces a maze is built from (runs of wall faces in
  two dimensions, faces with colors and draw groups in three), and the
  entities a level asks for.
- `src/graphics`: the font's glyph table and text sizes, the primitives and
  their draw groups, the palette's slots.
- `src/resource`, `src/component`, `src/audio`, `src/system`: input
  bindings, scores, level actions and menu states; life and physics
  handles of entities; sound buffers and sources; how the menu reads the
  mouse and keyboard.
- `app/`: a small program around the library: it generates and prints a
  maze, builds the font's vertices and the generated colors, and saves a
  score.

The contracts speak of mathematical models of the data (`Seq`, `Set`,
`Map`); the laws the library keeps stand as public proof functions next to
the functions they relate.
