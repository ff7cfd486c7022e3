# geometrise

Approximates a picture with coloured, scaled and rotated sprites.

- `src/` is the verified library (Verus): RGBA rasters (`myimage`, `raster`,
  `trim`), the cells a placed sprite covers and the score of a blend (`stamp`),
  the colour clustering that picks a background (`palette`), the sprite atlas
  and sprite ids read from file names (`atlas`), objects and their mutation
  (`object`), and the ranking and selection of scored candidates (`evolution`).
  Random draws go through `rand`.
- `app/` is the program: image files through `image`, the `f32` geometry
  (scaling, rotation, sampling), the `f32` colour blending, and the search loop
  on threads and `rayon`.
- `tests/` exercises the library.
