# asset_creator

The integer core of a text-first 3D shape authoring tool, written in Verus.
Shapes are trees of `SpecNode`s with integer bounds; everything here is
integer-exact and proved against its specification.

## Layout

- `src/` — the verified library
  - `placement`, `bounds` — signed axis permutations and integer boxes
  - `spec` — the shape tree, primitive inference and symmetry expansion
  - `csg` — sample signatures of oriented primitives and per-cell carving
  - `registry`, `checks` — loaded shapes and surface files, import
    resolution, and the checks that decide the walks' preconditions
    (no import cycle and no coordinate at `i32::MIN` in what a walk
    reaches)
  - `occupancy`, `collect`, `extent` — cell occupancy with collisions,
    bounding boxes, and remapping of imported shapes
  - `compile`, `resolve`, `fuse`, `faces`, `production` — compiling a
    shape into the tree of its named parts and their meshes, and
    production statistics: subtract resolution, box fusion,
    face-culled triangle counts
  - `merge`, `cover` — merging unit cells into the fewest boxes that
    cover them exactly: a greedy pass, then a search for a smaller cover
  - `edits` — deleting and re-inserting parts by path, undo/redo, and
    the editor's working copy of the active shape
  - `validate` — naming checks on a shape tree
  - `watch` — which files of the data directory changed or vanished
    between two scans
  - `animator` — which animation state of a shape plays
  - `cli` — which shape or tool the command line asks for
  - `tables`, `table_laws` — padding Markdown tables, and why padding twice
    changes nothing
  - `color`, `palette`, `surface`, `orient`, `fusion`, `text` — smaller
    helpers
- `tests/` — tests of the library
- `app/` — the command-line front end: loading `.shape.ron` files, the
  shape report, the stress test, the table padding tool and the polling
  loop that reloads changed shape files

## Not here

The interactive editor, the 3D preview, procedural surface textures and
PNG export run inside a game engine's ECS on the GPU and work in
floating point; they are not part of this crate. The library hands them
integer results: the compiled part tree with its integer boxes, the
fused primitives, and the statistics.
