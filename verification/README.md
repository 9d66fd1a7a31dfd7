# rtin_terrain

Terrain meshing with a right-triangulated irregular network (RTIN), written in
Verus.

The library (`src/`) is verified:

- `bits` — significant-bit length, leading zeros, population count.
- `rtin` — binary triangle ids: levels, indices in level order, children.
- `geometry` — partition steps encoded by a bin id, triangle corners on the
  height grid, hypotenuse midpoints and their error-grid index; proofs that a
  child is the parent split at its hypotenuse midpoint.
- `selection` — error-driven selection of triangles from the two roots, with
  proofs that every selected triangle meets the threshold or cannot be refined,
  and that the selected triangles tile the grid (none inside another, every
  triangle covered), and that raising the threshold only coarsens the
  selection.
- `tiling` — on a grid of `2^k + 1` points, every triangle of a level is right
  isosceles with the expected leg, and the triangles of a level cover the
  square with pairwise disjoint interiors.
- `error_plan` — the bottom-up order in which triangle errors are gathered,
  children before parents.
- `mesh` — vertex deduplication and triangle indices for a selected set, and
  the index list of a regular quad grid.
- `opposite` — a bit formula over a bin id and a leaf level.
- `terrain` — grid size of a tile.

The selection and the error plan also come in checked forms that test the grid
size and the input lengths first and report failure instead of requiring them.

`app/` is the Bevy viewer around it: Perlin-noise heights, floating-point
errors, normals, texture coordinates, camera and sliders.
