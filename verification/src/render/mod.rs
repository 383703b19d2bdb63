//! Mesh wiring and layer stacks for rendering.

pub mod grid;
pub mod layer;
pub mod skirt;
pub mod tile;
