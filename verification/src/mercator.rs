//! Distances on the unit Mercator square, in exact integer arithmetic.

use crate::tile::{lemma_pow2_below_32, level_extent, TileCoord, VisibleTile};
use vstd::arithmetic::power2::pow2;
use vstd::prelude::*;

verus! {

/// A point of the Mercator plane; the world spans `2^32` units along each axis.
#[derive(Debug, Clone, Copy, PartialEq, Eq, Structural)]
pub struct MercatorPoint {
    pub x: i64,
    pub y: i64,
}

/// Center of cell `i` of level `z`, in units.
pub open spec fn cell_center(i: int, z: u8) -> int {
    (2 * i + 1) * pow2((31 - z) as nat)
}

/// Square of the distance from `p` to the center of the cell in column `col` and row `row`
/// of level `z`.
pub open spec fn squared_distance(col: int, row: int, z: u8, p: MercatorPoint) -> int {
    let dx = cell_center(col, z) - p.x;
    let dy = cell_center(row, z) - p.y;
    dx * dx + dy * dy
}

/// Order key of a request: `weight` times the squared distance, capped at the largest key.
pub open spec fn weighted(weight: u8, d2: int) -> u128 {
    if weight * d2 >= u128::MAX {
        u128::MAX
    } else {
        (weight * d2) as u128
    }
}

/// Order key of tile `t` as seen from `p`.
pub open spec fn tile_key(weight: u8, t: TileCoord, p: MercatorPoint) -> u128 {
    weighted(weight, squared_distance(t.x as int, t.y as int, t.z, p))
}

/// Order key of a visible tile at its displayed column.
pub open spec fn display_key(weight: u8, v: VisibleTile, p: MercatorPoint) -> u128 {
    weighted(weight, squared_distance(v.display_x as int, v.coord.y as int, v.coord.z, p))
}

fn saturating_mul(a: u128, b: u128) -> (c: u128)
    ensures
        c == (if a * b >= u128::MAX {
            u128::MAX as int
        } else {
            a * b
        }),
{
    match a.checked_mul(b) {
        Some(c) => c,
        None => u128::MAX,
    }
}

/// Offset of a cell center from a coordinate, without its sign.
fn offset(i: i64, z: u8, at: i64) -> (d: u128)
    requires
        z < 32,
    ensures
        d == cell_center(i as int, z) - at || d == at - cell_center(i as int, z),
{
    let unit: u32 = level_extent(31 - z);
    proof {
        lemma_pow2_below_32((31 - z) as nat);
    }
    let twice: i128 = 2 * (i as i128) + 1;
    assert(-0x1_0000_0000_0000_0000_0000_0000 <= twice * unit
        <= 0x1_0000_0000_0000_0000_0000_0000) by (nonlinear_arith)
        requires
            -0x1_0000_0000_0000_0001 <= twice <= 0x1_0000_0000_0000_0001,
            1 <= unit <= 0x8000_0000,
    ;
    let center: i128 = twice * (unit as i128);
    let diff: i128 = center - at as i128;
    if diff < 0 {
        (-diff) as u128
    } else {
        diff as u128
    }
}

/// Order key of the cell in column `col` and row `row`.
fn cell_key(weight: u8, col: i64, row: i64, z: u8, p: MercatorPoint) -> (k: u128)
    requires
        z < 32,
    ensures
        k == weighted(weight, squared_distance(col as int, row as int, z, p)),
{
    if weight == 0 {
        return 0;
    }
    let dx: u128 = offset(col, z, p.x);
    let dy: u128 = offset(row, z, p.y);
    let xx: u128 = saturating_mul(dx, dx);
    let yy: u128 = saturating_mul(dy, dy);
    let sum: u128 = xx.saturating_add(yy);
    let k: u128 = saturating_mul(weight as u128, sum);
    proof {
        let ex = cell_center(col as int, z) - p.x;
        let ey = cell_center(row as int, z) - p.y;
        let d2 = squared_distance(col as int, row as int, z, p);
        assert(ex * ex == dx * dx) by (nonlinear_arith)
            requires
                dx == ex || dx == -ex,
        ;
        assert(ey * ey == dy * dy) by (nonlinear_arith)
            requires
                dy == ey || dy == -ey,
        ;
        assert(dx * dx >= 0 && dy * dy >= 0) by (nonlinear_arith);
        assert(d2 == dx * dx + dy * dy);
        if d2 >= u128::MAX {
            assert(sum == u128::MAX);
            assert(weight * d2 >= u128::MAX) by (nonlinear_arith)
                requires
                    weight >= 1,
                    d2 >= u128::MAX,
            ;
            assert(weight * sum >= u128::MAX) by (nonlinear_arith)
                requires
                    weight >= 1,
                    sum == u128::MAX,
            ;
        } else {
            assert(sum == d2);
        }
    }
    k
}

/// Order key of a tile.
pub fn key_of_tile(weight: u8, t: &TileCoord, p: MercatorPoint) -> (k: u128)
    requires
        t.z < 32,
    ensures
        k == tile_key(weight, *t, p),
{
    cell_key(weight, t.x as i64, t.y as i64, t.z, p)
}

/// Order key of a visible tile, where it is displayed.
pub fn key_of_display(weight: u8, v: &VisibleTile, p: MercatorPoint) -> (k: u128)
    requires
        v.coord.z < 32,
    ensures
        k == display_key(weight, *v, p),
{
    cell_key(weight, v.display_x, v.coord.y as i64, v.coord.z, p)
}

/// With the same weight, a nearer center never gets the larger key.
pub proof fn law_key_monotone(weight: u8, a: int, b: int)
    requires
        0 <= a <= b,
    ensures
        weighted(weight, a) <= weighted(weight, b),
{
    assert(weight * a <= weight * b) by (nonlinear_arith)
        requires
            0 <= a <= b,
            0 <= weight,
    ;
    assert(0 <= weight * a) by (nonlinear_arith)
        requires
            0 <= a,
            0 <= weight,
    ;
}

/// The center of a cell lies in the middle between its edges: `2i + 1` of the `2^(z+1)` half
/// cells of its level from the edge of the world.
pub proof fn law_cell_center(i: int, z: u8, at: int)
    requires
        z < 32,
        at * pow2((z + 1) as nat) == (2 * i + 1) * 0x1_0000_0000,
    ensures
        cell_center(i, z) == at,
{
    let a = pow2((31 - z) as nat) as int;
    let b = pow2((z + 1) as nat) as int;
    vstd::arithmetic::power2::lemma_pow2_adds((31 - z) as nat, (z + 1) as nat);
    vstd::arithmetic::power2::lemma2_to64();
    vstd::arithmetic::power2::lemma_pow2_pos((z + 1) as nat);
    assert((2 * i + 1) * (a * b) == (2 * i + 1) * a * b) by (nonlinear_arith);
    assert(cell_center(i, z) == at) by (nonlinear_arith)
        requires
            cell_center(i, z) * b == at * b,
            b > 0,
    ;
}

/// The key of a tile is its weight times the squared distance of its center, across and down,
/// as far as keys reach. A tile shown elsewhere is measured from where it is shown.
pub proof fn law_key_measures(weight: u8, v: VisibleTile, p: MercatorPoint, x: int, shown: int, y: int)
    requires
        v.coord.z < 32,
        x * pow2((v.coord.z + 1) as nat) == (2 * v.coord.x + 1) * 0x1_0000_0000,
        shown * pow2((v.coord.z + 1) as nat) == (2 * v.display_x + 1) * 0x1_0000_0000,
        y * pow2((v.coord.z + 1) as nat) == (2 * v.coord.y + 1) * 0x1_0000_0000,
    ensures
        ({
            let own = weight * ((x - p.x) * (x - p.x) + (y - p.y) * (y - p.y));
            let there = weight * ((shown - p.x) * (shown - p.x) + (y - p.y) * (y - p.y));
            &&& own <= u128::MAX ==> tile_key(weight, v.coord, p) == own
            &&& own > u128::MAX ==> tile_key(weight, v.coord, p) == u128::MAX
            &&& there <= u128::MAX ==> display_key(weight, v, p) == there
            &&& there > u128::MAX ==> display_key(weight, v, p) == u128::MAX
        }),
{
    law_cell_center(v.coord.x as int, v.coord.z, x);
    law_cell_center(v.display_x as int, v.coord.z, shown);
    law_cell_center(v.coord.y as int, v.coord.z, y);
    let a = (x - p.x) * (x - p.x) + (y - p.y) * (y - p.y);
    let b = (shown - p.x) * (shown - p.x) + (y - p.y) * (y - p.y);
    assert(weight * a >= 0) by (nonlinear_arith)
        requires
            weight >= 0,
            a == (x - p.x) * (x - p.x) + (y - p.y) * (y - p.y),
    ;
    assert(weight * b >= 0) by (nonlinear_arith)
        requires
            weight >= 0,
            b == (shown - p.x) * (shown - p.x) + (y - p.y) * (y - p.y),
    ;
}

} // verus!
