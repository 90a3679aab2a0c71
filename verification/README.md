# digraph

Byte-pair (digraph) histograms for binary visualization: every pair of
consecutive bytes `(first, second)` of a stream is counted in a 256×256 grid,
so that structure in unknown binary data shows up as patterns in a heatmap.

- `src/` is the library, verified with Verus: pairing in overlapping and
  non-overlapping mode, saturating counting with the largest count kept, a
  streaming builder whose result equals counting the whole stream at once, and
  the layout of the ASCII and RGBA heatmaps. The tone of a tile and the color
  of a cell are computed in floating point and are passed in as functions.
- `app/` holds what the library cannot: the floating-point scales and
  palettes, PNG output through the `image` crate, SVG output, reading from a
  stream, and serde forms of the library's types.
- `tests/` exercises the library on concrete inputs.
