# verlet_solver

A ball-physics simulation whose broad phase is a binary space-partitioning tree.

- `src/` is the verified library: the tree (`quadtree.rs` for nodes, `tree.rs` for the
  whole tree), the pairing of objects that share a node (`pairs.rs`) and facts about
  filtered sequences (`subseq.rs`). The tree is generic over its region type and object
  payload; the caller supplies the region test and the region split as closures, and the
  contracts hold for every such test that answers each question one way.
- `app/` is the nannou program: balls, their floating-point integration and collision
  response, drawing and input. It instantiates the tree with nannou rectangles and
  (position, radius) footprints.
- `tests/` runs the library on a floating-point geometry like the program's.
