# voxel_engine

Voxel world logic with machine-checked contracts (Verus).

## Layout

- `src/` — the verified library.
  - `voxel/` — the dense voxel grid, 6-connected components and fragment
    splitting, the coarse cluster graph and its components, box removal,
    mip generation, the sparse voxel DAG, articulation points, the
    breadth-first support order and per-cluster voxel scans used by the
    stress analysis, the palette, and `.vox` import (parsing through
    `dot_vox`).
  - `ai/` — the tile navmesh with shortest-path A*, walkability with
    headroom, and the numbered adjacency of a cluster graph.
  - `physics/` — greedy graph colouring, body culling rules, sleep
    bookkeeping, cloth constraint pairs and long-range attachments.
  - `fluid/` — column surface queries used by terrain and erosion.
  - `scene/` — generational entity slots and handles.
  - `terrain_compute.rs` — the chunk slot pool (LRU eviction, request ids,
    generation counter) and the checks on region-plan and river uploads.
  - `render/`, `compute/` — configuration and handle types.
- `app/` — plain Rust around the library: floating-point simulation
  (rigid bodies, cloth dynamics, SPH, shallow water), ray casting, material
  tables and colours, structural stress, spatial AI queries, the orbit
  camera, the scene's entity storage and configuration, GPU layouts of
  terrain inputs, and reading `.vox` files from disk.
- `tests/` — tests of the library's public functions.
