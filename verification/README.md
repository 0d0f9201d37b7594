# plaque3mf

Turns a rendered artwork raster into a two-part printable plaque and writes
it as a 3MF package. The library in `src/` is written in Verus and every
function in it carries a contract that Verus proves.

Layout:

- `src/job.rs` – job settings in integer micrometres and the printability
  rules they must meet.
- `src/document.rs`, `src/rgba.rs`, `src/sizing.rs`, `src/pdfium.rs` – the
  raster model, grayscale conversion, physical sizing and the checks around
  page rendering.
- `src/planar/` – cleaning the foreground mask, building the substrate and
  fill boundaries on one grid, tracing them into rings, optional contour
  simplification and grouping rings into polygons.
- `src/mesh/` – exact cap triangulation and the watertight substrate and
  fill meshes.
- `src/export/` – the 3MF model XML and the stored ZIP package, with its
  CRC-32.
- `src/message.rs` – the human-readable text of every error.
- `app/` – the parts that need I/O or floating point: reading job files,
  rendering PDF pages and writing packages to a stream.
- `tests/` – tests run against the compiled library.
