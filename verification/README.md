# manim_rs

A manim-style animation renderer whose decision logic is verified with Verus.

A scene is a timeline of add/remove events plus animation tracks. Rendering
evaluates the scene at each frame time, tessellates every alive object into
fill meshes and stroke ribbons, rasterizes them on the GPU and encodes the
frames to an mp4.

## Layout

- `src/` — the verified library, proved by Verus. Its functions carry
  contracts over mathematical models, except where a result is only what an
  outside crate hands back (the bundled-font lookups `katex_font` and
  `default_text_font`):
  - `timeline` — which objects are alive after replaying the due events, in
    first-add order;
  - `tracks` — grouping tracks by object and property, and which segment
    drives a track at a given time;
  - `path` — the segments a verb stream or polyline draws, fill-path builder
    calls, glyph-outline point offsets;
  - `stroke` — stroke-ribbon topology: vertex slots, triangle indices,
    joints, per-endpoint widths;
  - `passes` — which draw pass clears the target;
  - `frames` — frame-range validation, chunked-render planning, chunk file
    names and the concat list;
  - `buffers` — readback row layout, geometry caps, row-padding removal;
  - `encode` — frame-size checks and copying rows into a strided plane;
  - `cache` — BLAKE3 frame and compile-cache keys, cache entry names;
  - `tex`, `text` — Tex validation and its error, bundled font lookup;
  - `format`, `ir` — decimal/hex formatting and coordinate-free scene types.

  Outside crates (`blake3`, `ratex-parser`, `ratex-katex-fonts`) are called
  through three trusted wrappers; what each claims of its outside call, and
  what it leaves unsaid, is in its doc comment.
- `tests/` — tests of the library on concrete values.
- `app/` — everything with coordinates, times, colors or I/O: the serde scene
  format, easing and interpolation, text and Tex shaping, tessellation
  geometry, wgpu pipelines, the ffmpeg encoder, render orchestration, the
  on-disk frame cache and the Python binding. It calls the library for every
  decision listed above.
