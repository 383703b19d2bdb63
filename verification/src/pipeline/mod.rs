//! Pure pipeline stages: values in, values out.

pub mod tile_uniforms;
pub mod resample;
pub mod sampling;
pub mod gaps;
pub mod rasterize;
pub mod terrain_mesh;
pub mod tile_mesh;
pub mod visible_tiles;
