//! Elevation data of a tile, and which part of it a mesh is built from.

use crate::pipeline::terrain_mesh::ElevationGrid;
use crate::pipeline::tile_uniforms::UvRect;
use crate::scalar::Real32;
use crate::tile::TileCoord;
use vstd::prelude::*;

verus! {

/// Elevation data of a tile.
pub enum TerrainTileData {
    /// A regular grid of heights.
    Heightmap { elevation: Vec<Real32>, width: u32, height: u32 },
    /// A finished triangle mesh with heights in metres, and a square grid of heights made from
    /// it for finer tiles.
    PrebuiltMesh {
        vertex_count: usize,
        indices: Vec<u32>,
        fallback_heightmap: Vec<Real32>,
        fallback_grid_size: u32,
    },
}

/// What a terrain mesh is built from.
#[derive(Debug, Clone, Copy, PartialEq, Eq, Structural)]
pub enum MeshSource {
    /// A part of a grid of heights.
    Grid { grid: ElevationGrid },
    /// The finished mesh, its heights scaled.
    Prebuilt,
}

/// What the mesh of `coord` is built from when its elevation comes from `source`: a finished
/// mesh serves its own tile on the flat map; every other projection needs the positions anew,
/// and a finer tile needs a part of the grid.
pub open spec fn mesh_source_of(
    data: TerrainTileData,
    flat: bool,
    coord: TileCoord,
    source: TileCoord,
    rect: UvRect,
) -> MeshSource {
    match data {
        TerrainTileData::Heightmap { elevation, width, height } => MeshSource::Grid {
            grid: ElevationGrid { len: elevation@.len() as usize, width, height, rect },
        },
        TerrainTileData::PrebuiltMesh { fallback_heightmap, fallback_grid_size, .. } => if flat
            && source == coord {
            MeshSource::Prebuilt
        } else {
            MeshSource::Grid {
                grid: ElevationGrid {
                    len: fallback_heightmap@.len() as usize,
                    width: fallback_grid_size,
                    height: fallback_grid_size,
                    rect,
                },
            }
        },
    }
}

impl TerrainTileData {
    /// What the mesh of `coord` is built from.
    pub fn mesh_source(&self, flat: bool, coord: TileCoord, source: TileCoord, rect: UvRect) -> (r:
        MeshSource)
        ensures
            r == mesh_source_of(*self, flat, coord, source, rect),
    {
        match self {
            TerrainTileData::Heightmap { elevation, width, height } => MeshSource::Grid {
                grid: ElevationGrid { len: elevation.len(), width: *width, height: *height, rect },
            },
            TerrainTileData::PrebuiltMesh { fallback_heightmap, fallback_grid_size, .. } => if flat
                && source == coord {
                MeshSource::Prebuilt
            } else {
                MeshSource::Grid {
                    grid: ElevationGrid {
                        len: fallback_heightmap.len(),
                        width: *fallback_grid_size,
                        height: *fallback_grid_size,
                        rect,
                    },
                }
            },
        }
    }
}

/// A finished mesh is used exactly for its own tile on the flat map. Everything else is read
/// from a grid, through the given part of it: the grid of heights itself, or the square grid
/// that goes with the mesh.
pub proof fn law_mesh_source(
    data: TerrainTileData,
    flat: bool,
    coord: TileCoord,
    source: TileCoord,
    rect: UvRect,
)
    ensures
        mesh_source_of(data, flat, coord, source, rect) is Prebuilt <==> data is PrebuiltMesh && flat
            && source == coord,
        mesh_source_of(data, flat, coord, source, rect) matches MeshSource::Grid { grid } ==> {
            &&& grid.rect == rect
            &&& data matches TerrainTileData::Heightmap { elevation, width, height } ==> grid.len
                == elevation@.len() as usize && grid.width == width && grid.height == height
            &&& data matches TerrainTileData::PrebuiltMesh {
                fallback_heightmap,
                fallback_grid_size,
                ..
            } ==> grid.len == fallback_heightmap@.len() as usize && grid.width == fallback_grid_size
                && grid.height == fallback_grid_size
        },
{
}

} // verus!
