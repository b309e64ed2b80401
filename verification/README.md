# strolle (verified CPU-side bookkeeping)

The CPU side of the Strolle renderer that decides where things go in the
buffers the GPU reads, written in Verus with its behaviour stated in
contracts and proved.

- `src/free_list.rs`, `src/allocator.rs`: the free-range allocator
  (`give`, `take`), its model (sorting, coalescing, first fit) and its laws:
  a request hands out free slots only, gives back what it took, finds the
  lowest free run when the free list is tidy, and never needs compaction
  while the list is clean.
- `src/tlas.rs`, `src/triangles.rs`: top-level primitives and the
  instances' triangles, each handle owning a range of slots taken from the
  allocator; `src/materials.rs`, `src/lights.rs`,
  `src/meshes.rs`, `src/instances.rs`: the scene's tables by handle, with
  what a flush or a refresh of them has to do on the GPU side.
- `src/images.rs`, `src/atlas_data.rs`: images placed in the texture atlas
  (through `guillotiere`) and the byte layout of their upload.
- `src/asset_events.rs`: which assets to extract again or drop, and which
  images are dynamic; `src/tick.rs`: what a frame's tick does.
- `src/primitive.rs`, `src/viewport.rs`, `src/axis.rs`, `src/noise.rs`,
  `src/material.rs`, `src/state.rs`, `src/utils.rs`: small value types.

`app/` holds what works on floats or on the environment: bounding boxes,
mesh triangles, texture coordinates, the warning for an image the atlas
has no room for, the GPU packing of lights and materials, noise sampling on the hemisphere, and
metrics reported through `log`.
