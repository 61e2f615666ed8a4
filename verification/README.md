# maimai_player

A terminal player for maimai charts written in simai notation: it reads a
song directory (`maidata.txt`, `track.mp3`, optional `bg.*` art), plays the
audio and draws the notes travelling out to the ring of eight buttons.

## Layout

- `src/` — the verified library (Verus).
  - `text.rs`, `number.rs`: character ranges, trimming, splitting, lines,
    unsigned integers, and the exact grammar and sign of `f32` literals.
  - `maidata.rs`: the `&key=value` container and its `&inote_N` chart blocks.
  - `simai.rs`, `chart.rs`: the note grammar and the timing walk. Times are
    ticks (tempo steps) and numbers are spans into the chart text, so the
    resolved chart is exact; seconds are `240 / (bpm * divisor)` per step.
  - `render.rs`: colors and their escapes, note glyph and color rules, ring
    steps of arc slides, the canvas and its text.
  - `bg.rs`: backdrop style, ramp, cell spans and when a layer is due.
  - `player.rs`, `cli.rs`: key handling, the pause-aware chart clock,
    canvas size, and choosing the difficulty.
- `app/` — the program around it: arguments, files, the terminal, audio,
  image and video decoding, and the floating-point drawing of the ring.
- `tests/` — tests of the library.
