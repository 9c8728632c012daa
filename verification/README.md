# mandelbrot-rs

An interactive viewer for escape-time fractals (Mandelbrot and Julia sets),
L-system curves, Conway's Game of Life and SmoothLife.

The crate is a Verus project:

- `src/` is the verified library:
  - `color` — the escape-time palette, computed exactly in integers;
  - `progressive` — the progressive-refinement renderer state, its pixel
    buffer, the sampling passes and the proof that the passes refine to full
    resolution;
  - `lsystem` — grammar rewriting and the turtle interpretation of the
    rewritten string;
  - `life` — the Game of Life board and its step;
  - `smooth_life` — the cells touched by painting and by the seeded noise of
    the SmoothLife grid.
- `tests/` holds the tests of the library.
- `app/` is the program: the window, the worker threads, floating-point
  geometry and the drawing with Skia.
