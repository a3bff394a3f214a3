# voxel_world

The logic of a small voxel renderer, verified with Verus.

`src/` is the library. Its functions carry `requires` / `ensures` contracts
that Verus proves; the few that call `std::time` or the `image` crate rest on
small trusted wrappers, each documented with what it assumes of the outside
call:

- `block`, `block_model`, `block_registry`: block kinds, their cube models and
  the registry that names a texture for each face.
- `chunk`, `world`: 16×16×16 chunks, the world as a map from chunk positions
  to chunks, and the split of world coordinates into chunk and local parts.
- `world_generator`: the block columns of a chunk from terrain heights.
- `chunk_mesh`: greedy meshing of a chunk into quads, with laws on exact
  cover, index ranges, winding and texture repetition.
- `texture`: the layout of the texture atlas and its index map.
- `main_loop`, `chunk_worker`, `camera_input`: the fixed-step clock, chunk
  requests around the player, remesh bookkeeping, the worker's job and the
  movement keys.

`app/` is the unverified shell around it: the window, GPU resources,
threads, file loading and the floating-point camera and terrain noise.

`tests/` runs the library on concrete values.
