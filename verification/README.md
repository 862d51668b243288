# arc

A chunked CPU-side pixel canvas, a Langton's-ant turmite that draws on it, and
the small decisions of the camera, FPS overlay and seeded random generator of a
Bevy application, written in Verus.

- `src/` is the verified library.
  - `types`, `layout`, `config`: vectors and keys, how the canvas is cut into
    chunks, and the canvas settings.
  - `chunks`, `dirty`: the per-chunk pixel store and the per-chunk dirty
    rectangles.
  - `torus`, `paint`, `blit`: splitting a wrapped rectangle into pieces, the
    model of what a drawing paints, and the pixel, rectangle, sub-rectangle and
    span writers with exact contracts on the chunks and the dirty rectangles.
  - `upload`: turning dirty rectangles into upload operations padded to
    64-pixel rows.
  - `systems`: one round of drawing (pixels, rects, spans, then uploads), and
    the law that every drawn pixel reaches an upload.
  - `langton`, `fps`, `camera`, `random`: the turmite, the overlay toggle, the
    camera key decisions and the seeded generator.
- `tests/` runs the library on concrete values.
- `app/` is the Bevy application: plugins, ECS systems, rendering and the
  floating-point parts, all of it calling into the library.
