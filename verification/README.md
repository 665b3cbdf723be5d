# unison2d

The integer, text and bookkeeping logic of the Unison 2D engine, verified
with Verus, and the floating-point engine code around it.

- `src/` — the verified library: log filter parsing and level checks, the
  xorshift random generator, collision groups and the physics handle table,
  the spatial hash cell grid, mesh topology (wireframes, triangle lists,
  boundary edges, constraint edges, boundary loops), the bounded frame
  history, light handles and occluder segments, texture and font handles,
  sprite sheet cells, colors from hex, and image decoding through the
  `image` crate.
- `tests/` — tests of the library.
- `app/` — ordinary Rust that builds on the library: 2D math types, log
  sinks, the profiler, mesh generation, the soft and rigid body simulation
  and the physics world, mesh forensics, the simulation tracer, occluders
  and lighting configuration.
