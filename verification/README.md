# termiplay

The frame logic of a terminal video player, verified with Verus.

- `src/render/` — the renderers. `ansi` (full blocks), `unicode` (upper
  half blocks, two pixels per cell) and `ascii` (a luminance ramp) keep a
  canvas of what they last drew and return only the cells to repaint; each
  `render_frame` is proved to return exactly the changed cells of the shown
  rectangle, in row-major order, and to leave the canvas holding the frame
  there. `kitty` builds the Kitty graphics escape sequence. `mod.rs` holds
  the frame type, the canvas model (`blit`) and mode selection.
- `src/decode/` — packing a scaler's padded rows into a frame.
- `src/audio/` — when the audio feeder resets the clock or waits.
- `src/player.rs` — sizing, centring and key handling of the playback loop.
- `app/` — the program: command line, FFmpeg decoding, rodio output,
  crossterm drawing, and the floating-point timing and luminance.
