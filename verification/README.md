# x-planets-core

Core of a tiled map renderer, written and verified in Verus. It decides which
tiles to load and in which order, which texture stands in for a tile that has
not arrived, how tile and terrain meshes are wired and where they read their
elevation, how tiles fade, and what touches, clicks and animation frames do to
the camera's state.

## Layout

- `src/` is the library. Every function has a contract that Verus proves, and
  public proof functions named `law_..` state what holds across functions.
  - `tile`, `collections`, `named`, `ordering`, `sequences`, `scalar`, `text`:
    tile addresses, tile maps and sets, stable ordering, exact numbers.
  - `engine`, `layer_state`, `map_controller`: layers, the camera's state and
    the events of a frame.
  - `interaction`: animation timing, crossfades, touch gestures.
  - `pipeline`, `render`: fallback textures, tile uniforms, meshes, skirts,
    elevation stencils, rasterizing and resampling heightmaps.
  - `tile_load_planner`: what to load for a layer.
  - `render_data`, `tile_renderer`, `terrain_renderer`, `terrain_data`,
    `tiles3d_state`, `shared_render_resources`: the passes of a frame and what
    is reused between frames.
  - `verify_chain`: a chain of checks that stops at the first failure.
- `app/` is ordinary Rust around the library: the GPU, real arithmetic and
  printing.
- `tests/` runs the library.

## Numbers

The library computes with integers. Texture areas, fades and sampling offsets
are exact fractions; times are microseconds; screen positions are in 1/1024
pixel; places on the Mercator plane are in units of 2^-32, places in a tile of
2^-24, angles of 2^-32 degree. Real numbers that are only compared or handed
through are carried as their bit patterns. What needs trigonometry or
exponentials is computed by the platform and handed in.
