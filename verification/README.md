# jaali

Deterministic point-in-cell location on unstructured triangular and
tetrahedral meshes.

- `src/` is the verified core: the per-query hit buffers that
  `locate_all` fills, the ownership rule that `locate` applies (the least
  candidate cell index owns a point, `-1` when no cell contains it), backend
  selection (with the fallback from the GPU to the serial backend in a
  build without CUDA), the GPU backend of such a build, the reader of the VTK
  triangle-mesh text layout, and the integer state of the sample generator.
- `app/` holds what works on floating-point coordinates (meshes,
  point-in-cell predicates, the candidate search on the serial and rayon
  backends, the harness helpers) and the Python bindings.
- `tests/` exercises the core.
