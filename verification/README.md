# shocovox_rs

A sparse voxel octree library whose behaviour is stated in Verus contracts and proved.

- `src/object_pool.rs`: a pool of reusable slots addressed by keys; keys of freed slots are
  handed out again. Pools are written to bencode and read back.
- `src/spatial.rs`: integer vectors, cubes, octant geometry and index projection.
- `src/octree.rs`: the octree of voxels. Its view is a map from positions to data; `insert`,
  `insert_at_lod`, `clear`, `clear_at_lod`, `get` and `get_mut` are specified over that map.
- `src/types.rs`, `src/node.rs`: node contents, voxel bricks, palette index packing and the
  emptiness and uniformity queries over them.
- `src/meta.rs`, `src/cache.rs`: the bit layout of node metadata, the description of a node
  to the renderer, and the GPU cache: the pointer that walks the cached nodes when choosing
  one to overwrite, and the second chance choice of a brick to overwrite.
- `src/palette.rs`: color and data palettes without duplicates.
- `src/bytecode.rs`: bencode values, written and read through `bendy`, and the encoding of
  bricks, node contents and node children, with round-trip laws.
- `src/bricktree.rs`: the brick tree, an octree over brick positions whose leaves refer to
  bricks of packed palette values. A region of at least a brick takes one solid brick for all
  the bricks it covers; a smaller region is written into a parted copy of the brick holding it,
  so detail and large uniform regions are stored side by side. Its view maps positions to
  packed values.
- `src/brick_octree.rs`: the voxel octree with palettes on top of the brick tree. Its view maps
  positions to the color and the user data stored there; `insert`, `insert_at_lod`, `update`,
  `clear`, `clear_at_lod`, `simplify` and `get` are specified over that map.
- `src/magicavoxel.rs`: rotation matrices and the traversal of a MagicaVoxel scene graph into
  model placements.
- `src/vox_octree.rs`: building a brick octree from placed MagicaVoxel models: the bounds of
  the scene, the size of the tree, and where each voxel lands.
- `app/`: file I/O, and the conversion of `dot_vox` scenes into the library's plain types.
- `tests/`: tests run against the compiled library.

Verify with Verus; the crate's proofs need no trusted assumptions beyond the contracts of the
few wrappers around `bendy` in `src/bytecode.rs`.
