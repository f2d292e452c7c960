# tnt_comput

Screen reading for an artillery game, with its decision logic verified by
Verus: the minimap's camera frame and player/enemy dots, the angle digits,
the power bar and the wind arrow, and the helpers around screen capture.

## Layout

- `src/` — the verified library:
  - `geom.rs` — rectangles, points, BGR planes and the dark ring around a box.
  - `detect.rs` — the camera-frame search on the minimap (edge map, line
    features, pairing and scoring), the longest-run scan, the breathing test
    and the multi-frame value vote.
  - `snap.rs` — the integer steps of snapping a hand-drawn box to the
    camera frame (row window, edge rows, hue histograms, the final box).
  - `dbl.rs` — the binary64 arithmetic the frame search decides with
    (rounded quotients, products, a difference test and comparisons), held
    as integer mantissas and scales.
  - `cvfull.rs` — the one-shot screenshot analyses: clustering of template
    matches, dots with a dark outline, the camera frame among outline boxes,
    the green outline's width, the minimap bounds.
  - `ui.rs` — interface regions, digit segmentation (fragment merging, row
    clustering, valley splitting), angle assembly, hole counting, the power
    bar and the wind arrow, template centring.
  - `live.rs` — the edge-profile camera-frame search and the dot test of
    the live screen readers.
  - `glyph.rs` — glyph height, median stroke width and the area of enclosed
    counters (a flood fill from the image's edge).
  - `pics.rs` — digit boxes of the batch screenshot cleaner and the
    character boxes handed to the OCR engine.
  - `mnist.rs` — polarity (in single precision), dilation and the foreground box.
  - `screen.rs` — parsing of `slurp` and Finder output, and the drag state of
    the region selector.
- `tests/` — tests on concrete values, and randomised comparisons with the
  same procedures written in floating point or with the standard library.
- `app/` — the program around the library: OpenCV and `image` I/O, template
  matching, dot scoring and tracking, the ballistics solver, screen capture,
  the small screenshot tools (glyph measures, batch digit cleaning, OCR of
  single characters) and the trajectory-model fitting studies, which are
  floating-point throughout.
