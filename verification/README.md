# axia_geo_ops

Topological operations over a half-edge mesh, verified with Verus.

- `src/` is the verified library. The mesh (`mesh.rs`) holds vertices,
  half-edges, edges and faces by handle, with an invariant that every
  operation keeps: every stored handle names a slot (it bounds handles
  only; loop and link consistency are stated per operation, not kept as
  an invariant). Each operation states in its contract what it
  returns and how the mesh changes: primitive solids (`primitives.rs`),
  planar extrusion and its routing (`create_solid.rs`), face and edge
  offsets (`offset.rs`), smooth surface groups (`smooth_group.rs`),
  orientation (`orient.rs`), booleans (`boolean.rs`, `boolean_split.rs`, `boolean_merge.rs`,
  `boolean_nurbs_dcel.rs`), merging faces along shared edges
  (`shared_merge.rs`) or along a collinear overlap (`geometric_merge.rs`),
  edge and face splits (`face_split.rs`, `split_trace.rs`), cleaving a face
  from its coplanar siblings (`cleave.rs`), the coplanar auto-intersect
  (`auto_intersect.rs`), polygon difference walks (`difference_walk.rs`),
  annulus editing (`annulus.rs`), edge erasure with face re-synthesis
  (`erase_resynth.rs`), dangling-wire cleanup (`cleanup.rs`) and the P7
  canonical resolver (`p7.rs`).
- The mesh holds no coordinates. Decisions taken on coordinates (which
  vertices lie inside a polygon, whether two planes coincide, which faces
  share a surface) are made by the caller and handed in as plain values.
- `app/` places vertices and computes those decisions with floating-point
  geometry (`glam`), around the library's calls.
- `tests/` runs the library on concrete meshes.
