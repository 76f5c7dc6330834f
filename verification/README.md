# oxideav_mesh3d

A typed 3D scene and mesh model whose discrete logic is verified with
Verus.

- `src/` is the verified library: primitive assembly (strips, fans,
  triangle lists), edge-manifold classification, boundary edges and
  boundary loops, face adjacency, orientation propagation, topology
  summaries (V, E, F, χ, components, genus), vertex welding, vertex-cache
  and vertex-fetch optimisation, primitive concatenation, material
  texture slots, the scene consistency rules, scene composition with id
  remapping, scene-graph walks (parents, ancestors, subtrees, the world
  walk), morph-weight table layout, and the scene counters. Each public
  function states its result in `requires` / `ensures`; cross-function
  properties are public `law_*` proof functions.
- `tests/` exercises the library on concrete inputs.
- `app/` is the ordinary Rust crate around it: the floating-point
  attribute buffers, transforms and geometry (areas, volumes, inertia,
  curvature, tangents, ray casting, BVHs, triangulation and extrusion),
  animation sampling, the codec registry, and the conversions between the
  float-bearing model and the library's plain-value shapes.
