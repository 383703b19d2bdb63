//! Core logic of a tiled web-map renderer: which tiles to load, which texture
//! stands in for a tile that has not arrived yet, how meshes are wired, and the
//! state machines behind layers, gestures, fades and GPU caches.
//!
//! Everything here works on plain values. Real-valued quantities are carried as
//! integers: dyadic fractions where an exact value exists, ticks for time, and
//! raw bit patterns where a number is only handed through.

pub mod collections;
pub mod engine;
pub mod interaction;
pub mod layer_state;
pub mod map_controller;
pub mod mercator;
pub mod named;
pub mod ordering;
pub mod pipeline;
pub mod render;
pub mod render_data;
pub mod scalar;
pub mod sequences;
pub mod shared_render_resources;
pub mod terrain_data;
pub mod terrain_renderer;
pub mod text;
pub mod tile;
pub mod tile_load_planner;
pub mod tile_renderer;
pub mod tiles3d_state;
pub mod verify_chain;

pub use engine::{LayerConfig, LayerKind, MapEngine, TileLayer, Viewport};
pub use map_controller::{LayerInfo, MapController, MapEvent};
pub use render_data::{LayerStateView, RenderLayerData, RenderOutput, TerrainLayerData};
pub use shared_render_resources::SharedRenderResources;
pub use terrain_data::TerrainTileData;
pub use terrain_renderer::TerrainRenderer;
pub use tile_renderer::TileRenderer;
pub use tiles3d_state::{GpuTileContent, Tiles3dGpuState};
