# libslic3r_rs

Slicing and resin (SLA) printing tools for 3D printing, written in Verus:
every function of the library carries a contract that Verus proves.

All lengths are scaled integers (`Coord`, 1 000 000 units per millimetre), so
geometric predicates are exact. Vertices must lie within `COORD_LIMIT` of the
origin.

## Layout

- `src/` — the verified library:
  - `geometry` — points, polygons, expolygons, bounding boxes, containment and
    segment intersection tests;
  - `slicing` — slicing parameters and equal layering;
  - `triangle_mesh`, `triangle_mesh_slicer`, `slicer`, `layer` — cutting a
    mesh into a layer stack;
  - `slices_to_mesh`, `slices_to_triangle_mesh` — building meshes back from
    slices, and indexed triangle set bookkeeping (merging sets, merging
    coincident vertices, dropping degenerate faces and unused vertices);
  - `sla` — random sampling for support points, spatial box index, raster
    encodings (PGM/PNG, CRC-32), pad blueprint splitting, restoring traced
    raster polygons, and small helpers of hollowing and the support tree.
- `tests/` — tests run against the compiled library.
- `app/` — plain Rust around the library: serialization of the slicing
  parameters, writing rasters to streams, progress callbacks, and the
  floating-point layer height profiles and texture.

Two calls are trusted rather than proved: the zlib compression of the PNG
encoder, done by `flate2`, and the element swap of `std` slices used by the
shuffle.
