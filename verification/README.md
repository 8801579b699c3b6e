# nano9

Verified core of a Pico-8 style runtime.

- `src/raster.rs` – an RGBA pixel buffer with a pen colour; `plot`, `hline`,
  `vline`, and the `painted` relation every drawing contract is stated in.
- `src/circle.rs` – the midpoint circle outline and the filled disc, their
  traces as spec functions, and laws (symmetry, bounding square, closeness
  to the true circle, gap-free outline, solid rows; the disc is exactly the
  pixels with `w² + b² - max(w, b) < r²`, and the outline is its rim).
- `src/ellipse.rs` – the two-arc midpoint ellipse, outline and fill, with
  termination, in-bounds and containment proofs.
- `src/pico8.rs` – the images behind `circ`/`circfill`/`oval`/`ovalfill`,
  `exit`, and the `extcmd` state machine with its laws (shutdown waits for a
  screenshot, one screenshot at a time, the stem names the next file).
- `src/canvas.rs` – canvas background, pixel-canvas reuse, and the window
  and camera decisions, with the resize latch's laws (a resize is applied exactly at the first
  ready run, and the latch is then clear).
- `src/screenshot.rs` – crop and nearest-neighbour scaling of a captured
  frame into the canvas-sized RGB picture.
- `src/palette.rs` – palette colours, the palette remapping, the indexed
  canvas that `pset` writes, and the colour choices of `pset` and `cls`.
- `src/lua_values.rs` – how several Lua return values become one script
  value and how a Lua table becomes a map or a key-ordered list.

`app/` holds the Bevy and PNG glue: raster to `Image`, screenshot files,
environment lookups and the floating-point conversions.
