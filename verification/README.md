# raytracing

Textures for a small ray tracer, with machine-checked contracts.

- `src/` is the verified library:
  - `color`: RGB colors and their packed `0xRRGGBB` form;
  - `noise`: the integer hash behind the surface noise, and fixed-point shading;
  - `texture`: row-major textures, the procedural checkerboard, grass and
    stone brick textures, and clamped pixel lookup;
  - `ppm`: the reader of binary PPM (P6) images, with the proof that reading
    a written image gives it back.
- `app/` is the interactive ray tracer around it: cameras, shapes, shading,
  the sky, the textures whose shading needs trigonometry, file reading and
  the window. It works in floating point and is not verified.
- `tests/` runs the library on concrete inputs, and checks the fixed-point
  shading against the floating-point formulas it stands for.
