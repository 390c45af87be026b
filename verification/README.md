# venx_core

The core of the venx voxel engine: a sparse voxel graph split into layers,
with the operations that build, query, walk and compact it, and the chunks that
are cut out of it for meshing. The functions of the library are verified with
Verus against their contracts; the one call into std whose contract is taken on
trust, the end of an inclusive range, is marked as such in `src/traverse.rs`.

## Layout

- `src/layer.rs` – a layer: its node pools, the model of what it holds, and its
  lists of free nodes.
- `src/set.rs`, `src/get.rs` – writing a voxel and looking nodes up.
- `src/traverse.rs` – the depth-first walk; `src/traverse_laws.rs` – that it
  reports exactly the voxels of the region it walks.
- `src/load.rs`, `src/chunk.rs` – chunks and loading them from a layer.
- `src/resize.rs` – compacting the level-2 nodes.
- `src/mesh.rs` – growing the faces of a greedy mesh.
- `src/node.rs`, `src/node_l2.rs`, `src/stack.rs`, `src/utils.rs`,
  `src/vec3.rs`, `src/opts.rs`, `src/raw_plat.rs`, `src/mca_converter.rs` – the
  smaller pieces.
- `src/laws.rs` – properties that relate several operations.
- `app/` – GPU-facing copies of the data, glam conversions, the float side of
  meshing, and reading region files.
