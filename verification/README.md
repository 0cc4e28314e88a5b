# emir

A small software-rendering toolkit: colours packed as `0x00RRGGBB`, a flat 2D buffer type,
pixel buffers with range, mask and blit operations, and raster drawing (Bresenham lines,
midpoint circles, filled circles, rectangles) on the frame buffer of a window.

- `src/` is the library, written and proved with Verus. Every drawing routine states exactly
  which pixels it paints; the shapes are described in `src/raster.rs` (Bresenham's walk, the
  midpoint circle algorithm, integer square roots), together with proofs of their geometric
  properties. Fonts are parsed with fontdue and images decoded with image from within the
  library, behind small trusted wrappers.
- `app/` is a demo program around the library: the window itself (minifb), reading files, and
  the text rendering and colour blending that work in floating point.
- `tests/` runs the library on concrete inputs.
