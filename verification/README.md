# gloom-rs

A lunar scene with flying helicopters, drawn with OpenGL. The library under `src/`
holds the parts of the program that decide things, each with a contract proved by
Verus:

- `scene_graph`: the scene graph, nodes side by side with children named by position.
  It never holds a cycle (a child may be hung below a parent only when it does not
  reach the parent), so a walk always ends; children can be taken out again.
- `draw`: the order in which a scene is drawn (a depth-first walk), which step each
  node's transform builds on, and which nodes are drawn.
- `world`: the scene of the lunar surface and its helicopters, the nodes that each
  frame moves, the release of the player's door, and the end of door animations, which
  deletes the fallen door's node.
- `keys`: the keys held down, each at most once, in the order they were pressed, and
  what each camera key does.
- `mesh`: per-vertex colours, mesh counts, and the choice of models from OBJ files.
- `util`: buffer sizes for the graphics API.
- `nodes`: the kinds of node and the player's helicopter.

`app/` is the program around it: the window and event loop (glutin), OpenGL calls
(gl), OBJ loading (tobj), and the floating-point camera and animation arithmetic
(nalgebra-glm).
