//! Octahedral imposters: flat stand-ins for models, baked from a grid of directions.
//!
//! A bake renders a grid of tiles, one for each direction (`bake`, `grid`). The
//! texels of the tiles, eight bytes each (`texel`, `raster`), are trimmed, reduced
//! to a palette (`quantize`) and packed into planes (`planes`), and the planes go
//! into an archive of images and settings (`asset_loader`, `archive`, `png`,
//! `settings`). Loading the archive gives the planes back, with the flags that tell
//! the shaders how to read them (`render`).

pub mod archive;
pub mod asset_loader;
pub mod bake;
pub mod bits;
pub mod grid;
pub mod heap;
pub mod planes;
pub mod png;
pub mod quantize;
pub mod raster;
pub mod render;
pub mod settings;
pub mod sort;
pub mod texel;
