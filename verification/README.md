# geodesic_wallpaper

Procedural wallpaper imagery — mazes, quilts, fractal trees, noise — with its
integer core verified in Verus.

## Layout

- `src/` — the verified library.
  - `pathfinding_art/` — mazes: the grid and its walls (`maze`), reachability
    lemmas (`reach`), the three generators with exact carving specifications
    (`generator`), breadth-first and A* search returning shortest walks
    (`solver`, `astar`), and the pixel and ASCII renderers (`render`).
  - `quilts` — patchwork blocks and their assembly into quilts.
  - `export` — PPM, BMP, PNG and SVG encoders, each specified byte for byte;
    `png` holds the PNG container (CRC-32, Adler-32, stored deflate blocks)
    and `binary`/`text` the integer and text encodings they share.
  - `recorder` — the recording state machine; the caller performs the file
    work it asks for.
  - `noise` — the seeded permutation table of Perlin noise.
  - `fractal_tree` — Bresenham line drawing and disc filling.
  - `lod` — the level-of-detail controller's geodesic count, cooldown and
    tallies; the caller judges frame times against the thresholds.
  - `scene_presets` — wrap-around navigation through the preset library.
  - `multi_monitor` — which surface and colour scheme each monitor shows.
  - `config` — reading `#RRGGBB` colour strings, the validation rules of
    the settings, overlaying a profile on them, and the effective frame rate.
  - `generative_art` — the lattice hash behind the artwork's gradient noise.
  - `raster`, `color_theory`, `origami`, `error` — small shared pieces.
- `tests/` — tests of the library from outside.
- `app/` — the command-line program and the floating-point parts of the
  project (colour theory, fractals, tilings, noise sampling, configuration,
  frame-time smoothing), which Verus cannot check.
