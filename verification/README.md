# tte

The verified core of a text-encoded 3D rendering engine: OBJ models and scene
trees in, ASCII / ANSI-colored text frames (and flat per-cell arrays for a
browser canvas) out.

- `src/` — the library, verified with Verus: cell and color grids with a
  z-buffer, Bresenham lines, integer edge-function triangle coverage with the
  top-left rule, the three presenters (luminance ramp, truecolor, half-block),
  browser-frame export, the OBJ reader, mesh edges and primitive topology,
  scene flattening, and the command-line decisions. Depths are held as `f32`
  bit patterns and compared by IEEE `<`; everything else is integers and text.
- `tests/` — tests of the library on concrete values.
- `app/` — the executable around it: floating-point math, camera, shading and
  projection, the terminal viewer (crossterm) and the browser renderer
  (wasm-bindgen).
