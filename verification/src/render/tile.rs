//! Flat tile quads and the density of curved tile meshes.

use crate::tile::{level_extent, TileCoord};
use vstd::arithmetic::power2::pow2;
use vstd::prelude::*;

verus! {

/// A corner of a flat tile. Its position relative to the tile center is `(dx, dy)` divided by
/// twice `extent`, the number of tiles along its level; `u` and `v` address the texture.
#[derive(Debug, Clone, Copy, PartialEq, Eq, Structural)]
pub struct TileVertex {
    pub dx: i32,
    pub dy: i32,
    pub u: u32,
    pub v: u32,
    pub extent: u32,
}

/// Corner `k` of a tile: top left, top right, bottom left, bottom right.
pub open spec fn quad_vertex(t: TileCoord, k: int) -> TileVertex {
    TileVertex {
        dx: if k % 2 == 0 {
            -1i32
        } else {
            1
        },
        dy: if k < 2 {
            -1i32
        } else {
            1
        },
        u: if k % 2 == 0 {
            0
        } else {
            1
        },
        v: if k < 2 {
            0
        } else {
            1
        },
        extent: pow2(t.z as nat) as u32,
    }
}

/// The order in which the corners of a quad form two triangles.
pub open spec fn quad_index(k: int) -> int {
    if k == 0 {
        0
    } else if k == 1 || k == 4 {
        1
    } else if k == 2 || k == 3 {
        2
    } else {
        3
    }
}

/// The corners of a tile, placed relative to its center.
pub fn tile_quad_vertices(coord: &TileCoord) -> (q: [TileVertex; 4])
    requires
        coord.z < 32,
    ensures
        forall|k: int| 0 <= k < 4 ==> #[trigger] q[k] == quad_vertex(*coord, k),
{
    let extent: u32 = level_extent(coord.z);
    [
        TileVertex { dx: -1, dy: -1, u: 0, v: 0, extent },
        TileVertex { dx: 1, dy: -1, u: 1, v: 0, extent },
        TileVertex { dx: -1, dy: 1, u: 0, v: 1, extent },
        TileVertex { dx: 1, dy: 1, u: 1, v: 1, extent },
    ]
}

/// Cells per side of a tile on the globe, by zoom level.
pub open spec fn globe_steps(zoom: u8) -> u32 {
    if zoom <= 2 {
        32
    } else if zoom <= 5 {
        16
    } else if zoom <= 9 {
        8
    } else if zoom <= 13 {
        4
    } else {
        2
    }
}

/// Cells per side of a tile under a viewport-centered projection, by zoom level.
pub open spec fn centered_steps(zoom: u8) -> u32 {
    if zoom <= 2 {
        16
    } else if zoom <= 5 {
        8
    } else if zoom <= 9 {
        4
    } else {
        2
    }
}

/// Subdivisions of a globe tile: coarser levels cover more curvature and need more.
pub fn globe_subdivisions(zoom: u8) -> (n: u32)
    ensures
        n == globe_steps(zoom),
{
    match zoom {
        0..=2 => 32,
        3..=5 => 16,
        6..=9 => 8,
        10..=13 => 4,
        _ => 2,
    }
}

/// Subdivisions of a tile under a viewport-centered projection.
pub fn centered_subdivisions(zoom: u8) -> (n: u32)
    ensures
        n == centered_steps(zoom),
{
    match zoom {
        0..=2 => 16,
        3..=5 => 8,
        6..=9 => 4,
        _ => 2,
    }
}

/// A deeper tile is never divided more finely than a shallower one, and every tile is
/// divided at least once and at most 32 times.
pub proof fn law_subdivisions(a: u8, b: u8)
    requires
        a <= b,
    ensures
        2 <= globe_steps(b) <= globe_steps(a) <= 32,
        2 <= centered_steps(b) <= centered_steps(a) <= 16,
        centered_steps(a) <= globe_steps(a),
{
}

/// Opposite corners of a quad are mirror images, so it is centered on the origin, and its
/// sides are two half-extents long.
pub proof fn law_quad_centered(t: TileCoord)
    ensures
        quad_vertex(t, 0).dx == -quad_vertex(t, 3).dx,
        quad_vertex(t, 0).dy == -quad_vertex(t, 3).dy,
        quad_vertex(t, 1).dx == -quad_vertex(t, 2).dx,
        quad_vertex(t, 1).dy == -quad_vertex(t, 2).dy,
        quad_vertex(t, 1).dx - quad_vertex(t, 0).dx == 2,
        quad_vertex(t, 2).dy - quad_vertex(t, 0).dy == 2,
{
}

/// The corners of a tile go row by row, left before right, and bear the texture coordinates of
/// where they lie; a tile is as wide as its level has tiles to the world.
pub proof fn law_quad_corners(t: TileCoord, k: int)
    requires
        0 <= k < 4,
        t.z < 32,
    ensures
        ({
            let v = quad_vertex(t, k);
            &&& v.dx == (if k == 0 || k == 2 {
                -1int
            } else {
                1int
            })
            &&& v.dy == (if k == 0 || k == 1 {
                -1int
            } else {
                1int
            })
            &&& 2 * v.u == v.dx + 1
            &&& 2 * v.v == v.dy + 1
            &&& v.extent == pow2(t.z as nat)
        }),
{
    crate::tile::lemma_pow2_below_32(t.z as nat);
}

/// A quad consists of two triangles that share the edge between its upper right and its lower
/// left corner: the upper left corner lies in the first, the lower right one in the second.
pub proof fn law_quad_triangles()
    ensures
        quad_index(0) == 0 && quad_index(1) == 1 && quad_index(2) == 2,
        quad_index(3) == 2 && quad_index(4) == 1 && quad_index(5) == 3,
{
}

/// Coarse tiles are divided finely: on the globe into 32 cells a side up to level 2, 16 up to
/// level 5, 8 up to level 9, 4 up to level 13 and 2 beyond; around the center of the view into
/// half as many, and no fewer than two.
pub proof fn law_subdivision_levels(z: u8)
    ensures
        z <= 2 ==> globe_steps(z) == 32,
        2 < z <= 5 ==> globe_steps(z) == 16,
        5 < z <= 9 ==> globe_steps(z) == 8,
        9 < z <= 13 ==> globe_steps(z) == 4,
        13 < z ==> globe_steps(z) == 2,
        globe_steps(z) > 2 ==> 2 * centered_steps(z) == globe_steps(z),
        globe_steps(z) == 2 ==> centered_steps(z) == 2,
{
}

} // verus!
