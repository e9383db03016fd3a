# boimp

Octahedral imposters: flat stand-ins for models, baked from a grid of directions and
shown in place of the models. The library is written and verified in Verus.

- `src/bake*` decides what a bake draws and when, how large its textures are, and how
  the image is read back from padded rows.
- `src/raster.rs` trims the unused edges of the tiles.
- `src/quantize*` reduces the texels to a palette: by median cut, or by merging groups
  of pixels that share a colour and take one slot per depth.
- `src/asset_loader*` writes imposters as archives of images and settings, and reads
  them back. `archive.rs`, `png.rs`, `settings.rs`, `planes.rs` and `texel.rs` are its
  parts.
- `src/grid.rs` and `src/render.rs` hold the flags that tell the shaders how to read an
  imposter.
- `src/bits.rs`, `src/heap.rs` and `src/sort.rs` are general.

Each module states its contracts over spec functions. Properties that span functions
are proof functions whose names begin with `law_`. What the library takes from other
crates (zip archives, PNG images, bevy's hash maps and pipeline keys, the row alignment
of wgpu) stands behind functions marked `external_body`, each with a comment on what is
taken for granted.

`app/` is the bevy side: components, systems, the asset loader, file access, and the
floating-point parts of the quantisers, which the library takes as traits and closures.
