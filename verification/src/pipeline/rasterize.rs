//! Rasterizing a terrain mesh to a square grid of heights.
//!
//! A grid of `gs` by `gs` cells spans the tile from edge to edge. Places in the tile are exact:
//! where a cell and a mesh are compared, both are scaled to `gs - 1` times the tile's units.

use crate::pipeline::gaps::{fill_gaps, fill_plan, lemma_cell, lemma_row_col, GapFill};
use crate::pipeline::terrain_mesh::{triangle_at, triangles, valid_triangles};
use crate::sequences::{gather, lemma_gather_sources};
use vstd::prelude::*;

verus! {

/// Units along one side of a tile.
pub const TILE_UNITS: i64 = 0x100_0000;

/// Square of the units along one side.
pub const TILE_UNITS_SQUARED: i128 = 0x1_0000_0000_0000;

/// Largest side of a grid.
pub const MAX_RASTER: u32 = 0xffff;

/// Where a mesh vertex lies in its tile, in units from the top left corner. Meshes may reach
/// beyond the tile.
#[derive(Debug, Clone, Copy, PartialEq, Eq, Structural)]
pub struct PlanePoint {
    pub u: i64,
    pub v: i64,
}

impl PlanePoint {
    /// Within 128 tile widths.
    pub open spec fn near(self) -> bool {
        -0x8000_0000 <= self.u <= 0x8000_0000 && -0x8000_0000 <= self.v <= 0x8000_0000
    }
}

/// A height as a blend of the heights of three vertices, each weighted by its share of `total`.
#[derive(Debug, Clone, Copy, PartialEq, Eq, Structural)]
pub struct Blend {
    pub a: u32,
    pub b: u32,
    pub c: u32,
    pub wa: i128,
    pub wb: i128,
    pub wc: i128,
    pub total: i128,
}

/// How the heights of a grid are found: blends where triangles cover it, then fills for the
/// other cells.
pub struct HeightmapPlan {
    pub cells: Vec<Option<Blend>>,
    pub fills: Vec<GapFill>,
}

/// Twice the signed area of the triangle from `(ox, oy)` over `(px, py)` to `(qx, qy)`.
pub open spec fn doubled_area(ox: int, oy: int, px: int, py: int, qx: int, qy: int) -> int {
    (px - ox) * (qy - oy) - (py - oy) * (qx - ox)
}

/// Twice the signed area of a triangle, in square units.
pub open spec fn unit_area(a: PlanePoint, b: PlanePoint, c: PlanePoint) -> int {
    doubled_area(a.u as int, a.v as int, b.u as int, b.v as int, c.u as int, c.v as int)
}

/// The magnitude of an integer.
pub open spec fn magnitude(x: int) -> int {
    if x < 0 {
        -x
    } else {
        x
    }
}

/// A triangle with hardly any area: less than a millionth of the square over the tile's side.
pub open spec fn is_degenerate(a: PlanePoint, b: PlanePoint, c: PlanePoint) -> bool {
    magnitude(unit_area(a, b, c)) * 1_000_000 < TILE_UNITS_SQUARED
}

/// Twice the signed area of a triangle, scaled to the grid.
pub open spec fn grid_area(a: PlanePoint, b: PlanePoint, c: PlanePoint, n: int) -> int {
    doubled_area(a.u * n, a.v * n, b.u * n, b.v * n, c.u * n, c.v * n)
}

/// Twice the signed area spanned by corner `a`, the cell and corner `c`.
pub open spec fn share_b(a: PlanePoint, c: PlanePoint, n: int, row: int, col: int) -> int {
    doubled_area(a.u * n, a.v * n, col * TILE_UNITS, row * TILE_UNITS, c.u * n, c.v * n)
}

/// Twice the signed area spanned by corners `a` and `b` and the cell.
pub open spec fn share_c(a: PlanePoint, b: PlanePoint, n: int, row: int, col: int) -> int {
    doubled_area(a.u * n, a.v * n, b.u * n, b.v * n, col * TILE_UNITS, row * TILE_UNITS)
}

/// A weight is not below zero, up to a tolerance of a ten-thousandth.
pub open spec fn is_share(w: int, total: int) -> bool {
    w * 10_000 >= -total
}

/// A value, or its opposite where a triangle is negatively oriented.
pub open spec fn turned(area: int, x: int) -> int {
    if area < 0 {
        -x
    } else {
        x
    }
}

/// The barycentric weights of a cell in a triangle, turned so that their total is positive;
/// `None` where the triangle is degenerate or the cell lies outside.
pub open spec fn weights(
    a: PlanePoint,
    b: PlanePoint,
    c: PlanePoint,
    n: int,
    row: int,
    col: int,
) -> Option<(int, int, int, int)> {
    let area = grid_area(a, b, c, n);
    let total = turned(area, area);
    let wb = turned(area, share_b(a, c, n, row, col));
    let wc = turned(area, share_c(a, b, n, row, col));
    let wa = total - wb - wc;
    if n >= 1 && !is_degenerate(a, b, c) && is_share(wa, total) && is_share(wb, total) && is_share(
        wc,
        total,
    ) {
        Some((wa, wb, wc, total))
    } else {
        None
    }
}

/// The smallest of three coordinates.
pub open spec fn lowest(x: int, y: int, z: int) -> int {
    let m = if x <= y {
        x
    } else {
        y
    };
    if m <= z {
        m
    } else {
        z
    }
}

/// The largest of three coordinates.
pub open spec fn highest(x: int, y: int, z: int) -> int {
    let m = if x >= y {
        x
    } else {
        y
    };
    if m >= z {
        m
    } else {
        z
    }
}

/// The last row or column of the grid that does not lie behind a coordinate; the first one
/// where all do.
pub open spec fn cell_before(x: int, n: int) -> int {
    let at = (x * n) / (TILE_UNITS as int);
    if x < 0 {
        0
    } else if at < n {
        at
    } else {
        n
    }
}

/// The first row or column of the grid that does not lie before a coordinate; the last one
/// where all do.
pub open spec fn cell_after(x: int, n: int) -> int {
    let at = (x * n + TILE_UNITS - 1) / (TILE_UNITS as int);
    if x <= 0 {
        0
    } else if at < n {
        at
    } else {
        n
    }
}

/// The cell lies in the triangle's bounding box, widened to whole cells.
pub open spec fn in_box(
    a: PlanePoint,
    b: PlanePoint,
    c: PlanePoint,
    n: int,
    row: int,
    col: int,
) -> bool {
    &&& cell_before(lowest(a.u as int, b.u as int, c.u as int), n) <= col <= cell_after(
        highest(a.u as int, b.u as int, c.u as int),
        n,
    )
    &&& cell_before(lowest(a.v as int, b.v as int, c.v as int), n) <= row <= cell_after(
        highest(a.v as int, b.v as int, c.v as int),
        n,
    )
}

/// How a triangle gives a cell its height, where it does.
pub open spec fn blend_at(
    points: Seq<PlanePoint>,
    t: (u32, u32, u32),
    gs: int,
    row: int,
    col: int,
) -> Option<Blend> {
    let a = points[t.0 as int];
    let b = points[t.1 as int];
    let c = points[t.2 as int];
    match weights(a, b, c, gs - 1, row, col) {
        Some(w) => if in_box(a, b, c, gs - 1, row, col) {
            Some(
                Blend {
                    a: t.0,
                    b: t.1,
                    c: t.2,
                    wa: w.0 as i128,
                    wb: w.1 as i128,
                    wc: w.2 as i128,
                    total: w.3 as i128,
                },
            )
        } else {
            None
        },
        None => None,
    }
}

/// How a cell gets its height from the first `n` triangles: later ones win.
pub open spec fn latest(
    points: Seq<PlanePoint>,
    tris: Seq<(u32, u32, u32)>,
    gs: int,
    row: int,
    col: int,
    n: nat,
) -> Option<Blend>
    decreases n,
{
    if n == 0 {
        None
    } else {
        match blend_at(points, tris[n - 1], gs, row, col) {
            Some(b) => Some(b),
            None => latest(points, tris, gs, row, col, (n - 1) as nat),
        }
    }
}

/// The cells of the grid, row by row.
pub open spec fn raster(points: Seq<PlanePoint>, tris: Seq<(u32, u32, u32)>, gs: int) -> Seq<
    Option<Blend>,
> {
    Seq::new(
        (gs * gs) as nat,
        |k: int| latest(points, tris, gs, k / gs, k % gs, tris.len()),
    )
}

/// Which cells triangles cover.
pub open spec fn covered(cells: Seq<Option<Blend>>) -> Seq<bool> {
    cells.map_values(|b: Option<Blend>| b is Some)
}

/// Cell `k` comes before the cell in row `row` and column `col`.
spec fn is_before(k: int, gs: int, row: int, col: int) -> bool {
    k / gs < row || (k / gs == row && k % gs < col)
}

/// Cell `k` while triangle `t` is being drawn, up to the cell in row `row` and column `col`.
spec fn drawn(
    points: Seq<PlanePoint>,
    tris: Seq<(u32, u32, u32)>,
    gs: int,
    t: nat,
    row: int,
    col: int,
    k: int,
) -> Option<Blend> {
    latest(
        points,
        tris,
        gs,
        k / gs,
        k % gs,
        if is_before(k, gs, row, col) {
            t + 1
        } else {
            t
        },
    )
}

proof fn lemma_scaled(x: int, n: int)
    requires
        -0x8000_0000 <= x <= 0x8000_0000,
        0 <= n <= 0xffff,
    ensures
        -0x8000_0000_0000 <= x * n <= 0x8000_0000_0000,
{
    assert(-0x8000_0000_0000 <= x * n <= 0x8000_0000_0000) by (nonlinear_arith)
        requires
            -0x8000_0000 <= x <= 0x8000_0000,
            0 <= n <= 0xffff,
    ;
}

proof fn lemma_area_bound(ox: int, oy: int, px: int, py: int, qx: int, qy: int)
    requires
        -0x8000_0000_0000 <= ox <= 0x8000_0000_0000,
        -0x8000_0000_0000 <= oy <= 0x8000_0000_0000,
        -0x8000_0000_0000 <= px <= 0x8000_0000_0000,
        -0x8000_0000_0000 <= py <= 0x8000_0000_0000,
        -0x8000_0000_0000 <= qx <= 0x8000_0000_0000,
        -0x8000_0000_0000 <= qy <= 0x8000_0000_0000,
    ensures
        -0x1_0000_0000_0000_0000_0000_0000 <= (px - ox) * (qy - oy)
            <= 0x1_0000_0000_0000_0000_0000_0000,
        -0x1_0000_0000_0000_0000_0000_0000 <= (py - oy) * (qx - ox)
            <= 0x1_0000_0000_0000_0000_0000_0000,
{
    let (a, b, c, d) = (px - ox, qy - oy, py - oy, qx - ox);
    assert(-0x1_0000_0000_0000_0000_0000_0000 <= a * b <= 0x1_0000_0000_0000_0000_0000_0000)
        by (nonlinear_arith)
        requires
            -0x1_0000_0000_0000 <= a <= 0x1_0000_0000_0000,
            -0x1_0000_0000_0000 <= b <= 0x1_0000_0000_0000,
    ;
    assert(-0x1_0000_0000_0000_0000_0000_0000 <= c * d <= 0x1_0000_0000_0000_0000_0000_0000)
        by (nonlinear_arith)
        requires
            -0x1_0000_0000_0000 <= c <= 0x1_0000_0000_0000,
            -0x1_0000_0000_0000 <= d <= 0x1_0000_0000_0000,
    ;
}

/// Twice the signed area of a triangle of small coordinates.
fn area(ox: i64, oy: i64, px: i64, py: i64, qx: i64, qy: i64) -> (r: i128)
    requires
        -0x8000_0000_0000 <= ox <= 0x8000_0000_0000,
        -0x8000_0000_0000 <= oy <= 0x8000_0000_0000,
        -0x8000_0000_0000 <= px <= 0x8000_0000_0000,
        -0x8000_0000_0000 <= py <= 0x8000_0000_0000,
        -0x8000_0000_0000 <= qx <= 0x8000_0000_0000,
        -0x8000_0000_0000 <= qy <= 0x8000_0000_0000,
    ensures
        r == doubled_area(ox as int, oy as int, px as int, py as int, qx as int, qy as int),
        -0x2_0000_0000_0000_0000_0000_0000 <= r <= 0x2_0000_0000_0000_0000_0000_0000,
{
    proof {
        lemma_area_bound(ox as int, oy as int, px as int, py as int, qx as int, qy as int);
    }
    ((px - ox) as i128) * ((qy - oy) as i128) - ((py - oy) as i128) * ((qx - ox) as i128)
}

/// The weights of a cell in the triangle over three points.
fn weigh(
    a: PlanePoint,
    b: PlanePoint,
    c: PlanePoint,
    n: u32,
    row: u32,
    col: u32,
) -> (r: Option<(i128, i128, i128, i128)>)
    requires
        a.near(),
        b.near(),
        c.near(),
        n <= 0xffff,
        row <= n,
        col <= n,
    ensures
        match r {
            Some(w) => weights(a, b, c, n as int, row as int, col as int) == Some(
                (w.0 as int, w.1 as int, w.2 as int, w.3 as int),
            ),
            None => weights(a, b, c, n as int, row as int, col as int) is None,
        },
{
    let flat: i128 = area(a.u, a.v, b.u, b.v, c.u, c.v);
    let size: i128 = if flat < 0 {
        -flat
    } else {
        flat
    };
    if n == 0 || size * 1_000_000 < TILE_UNITS_SQUARED {
        return None;
    }
    proof {
        lemma_scaled(a.u as int, n as int);
        lemma_scaled(a.v as int, n as int);
        lemma_scaled(b.u as int, n as int);
        lemma_scaled(b.v as int, n as int);
        lemma_scaled(c.u as int, n as int);
        lemma_scaled(c.v as int, n as int);
    }
    let steps: i64 = n as i64;
    let (ax, ay) = (a.u * steps, a.v * steps);
    let (bx, by) = (b.u * steps, b.v * steps);
    let (cx, cy) = (c.u * steps, c.v * steps);
    let px: i64 = col as i64 * TILE_UNITS;
    let py: i64 = row as i64 * TILE_UNITS;
    let whole: i128 = area(ax, ay, bx, by, cx, cy);
    let part_b: i128 = area(ax, ay, px, py, cx, cy);
    let part_c: i128 = area(ax, ay, bx, by, px, py);
    let (total, wb, wc) = if whole < 0 {
        (-whole, -part_b, -part_c)
    } else {
        (whole, part_b, part_c)
    };
    let wa: i128 = total - wb - wc;
    proof {
        let (rn, cn) = (row as int, col as int);
        assert(whole == grid_area(a, b, c, n as int));
        assert(part_b == share_b(a, c, n as int, rn, cn));
        assert(part_c == share_c(a, b, n as int, rn, cn));
    }
    if wa * 10_000 >= -total && wb * 10_000 >= -total && wc * 10_000 >= -total {
        Some((wa, wb, wc, total))
    } else {
        None
    }
}

/// The row or column before a coordinate.
fn find_before(x: i64, n: u32) -> (r: u32)
    requires
        -0x8000_0000 <= x <= 0x8000_0000,
        n <= 0xffff,
    ensures
        r == cell_before(x as int, n as int),
        r <= n,
{
    if x < 0 {
        0
    } else {
        proof {
            lemma_scaled(x as int, n as int);
        }
        let at: i64 = (x * n as i64) / TILE_UNITS;
        if at < n as i64 {
            at as u32
        } else {
            n
        }
    }
}

/// The row or column after a coordinate.
fn find_after(x: i64, n: u32) -> (r: u32)
    requires
        -0x8000_0000 <= x <= 0x8000_0000,
        n <= 0xffff,
    ensures
        r == cell_after(x as int, n as int),
        r <= n,
{
    if x <= 0 {
        0
    } else {
        proof {
            lemma_scaled(x as int, n as int);
        }
        let at: i64 = (x * n as i64 + TILE_UNITS - 1) / TILE_UNITS;
        if at < n as i64 {
            at as u32
        } else {
            n
        }
    }
}

fn low_of(x: i64, y: i64, z: i64) -> (r: i64)
    ensures
        r == lowest(x as int, y as int, z as int),
{
    let m: i64 = if x <= y {
        x
    } else {
        y
    };
    if m <= z {
        m
    } else {
        z
    }
}

fn high_of(x: i64, y: i64, z: i64) -> (r: i64)
    ensures
        r == highest(x as int, y as int, z as int),
{
    let m: i64 = if x >= y {
        x
    } else {
        y
    };
    if m >= z {
        m
    } else {
        z
    }
}

/// Every triangle of a list has corners among the vertices.
proof fn lemma_triangle_corners(indices: Seq<u32>, n: int, t: int)
    requires
        0 <= t < triangles(indices, n).len(),
    ensures
        triangles(indices, n)[t].0 < n,
        triangles(indices, n)[t].1 < n,
        triangles(indices, n)[t].2 < n,
{
    let rule = triangle_at(indices, n);
    let src = lemma_gather_sources(indices.len() / 3, rule);
    assert(rule(src[t]) == Some(gather(indices.len() / 3, rule)[t]));
}

/// Draw triangle `t` over the cells that the ones before it left.
fn draw_triangle(
    points: &[PlanePoint],
    tris: &Vec<(u32, u32, u32)>,
    t: usize,
    grid_size: u32,
    cells: &mut Vec<Option<Blend>>,
)
    requires
        1 <= grid_size <= MAX_RASTER,
        t < tris@.len(),
        tris@[t as int].0 < points@.len(),
        tris@[t as int].1 < points@.len(),
        tris@[t as int].2 < points@.len(),
        forall|i: int| 0 <= i < points@.len() ==> (#[trigger] points@[i]).near(),
        old(cells)@.len() == grid_size * grid_size,
        forall|k: int|
            0 <= k < grid_size * grid_size ==> #[trigger] old(cells)@[k] == latest(
                points@,
                tris@,
                grid_size as int,
                k / grid_size as int,
                k % grid_size as int,
                t as nat,
            ),
    ensures
        final(cells)@.len() == grid_size * grid_size,
        forall|k: int|
            0 <= k < grid_size * grid_size ==> #[trigger] final(cells)@[k] == latest(
                points@,
                tris@,
                grid_size as int,
                k / grid_size as int,
                k % grid_size as int,
                (t + 1) as nat,
            ),
{
    let (ia, ib, ic) = tris[t];
    let a = points[ia as usize];
    let b = points[ib as usize];
    let c = points[ic as usize];
    let n: u32 = grid_size - 1;
    let ghost gs = grid_size as int;
    let ghost tri = tris@[t as int];
    let left: u32 = find_before(low_of(a.u, b.u, c.u), n);
    let right: u32 = find_after(high_of(a.u, b.u, c.u), n);
    let top: u32 = find_before(low_of(a.v, b.v, c.v), n);
    let bottom: u32 = find_after(high_of(a.v, b.v, c.v), n);
    let mut row: u32 = top;
    proof {
        assert forall|k: int| 0 <= k < gs * gs implies #[trigger] cells@[k] == drawn(
            points@,
            tris@,
            gs,
            t as nat,
            row as int,
            0,
            k,
        ) by {
            if k / gs < row {
                assert(blend_at(points@, tri, gs, k / gs, k % gs) is None);
            }
            lemma_row_col(k, gs);
        }
    }
    while row <= bottom
        invariant
            1 <= grid_size <= MAX_RASTER,
            n == grid_size - 1,
            gs == grid_size,
            t < tris@.len(),
            tri == tris@[t as int],
            tri == (ia, ib, ic),
            ia < points@.len(),
            ib < points@.len(),
            ic < points@.len(),
            a == points@[ia as int],
            b == points@[ib as int],
            c == points@[ic as int],
            a.near(),
            b.near(),
            c.near(),
            left == cell_before(lowest(a.u as int, b.u as int, c.u as int), n as int),
            right == cell_after(highest(a.u as int, b.u as int, c.u as int), n as int),
            top == cell_before(lowest(a.v as int, b.v as int, c.v as int), n as int),
            bottom == cell_after(highest(a.v as int, b.v as int, c.v as int), n as int),
            right <= n,
            bottom <= n,
            top <= row,
            cells@.len() == gs * gs,
            forall|k: int|
                0 <= k < gs * gs ==> #[trigger] cells@[k] == drawn(
                    points@,
                    tris@,
                    gs,
                    t as nat,
                    row as int,
                    0,
                    k,
                ),
        decreases bottom + 1 - row,
    {
        let mut col: u32 = left;
        proof {
            assert forall|k: int| 0 <= k < gs * gs implies #[trigger] cells@[k] == drawn(
                points@,
                tris@,
                gs,
                t as nat,
                row as int,
                col as int,
                k,
            ) by {
                lemma_row_col(k, gs);
                if k / gs == row && k % gs < col {
                    assert(blend_at(points@, tri, gs, k / gs, k % gs) is None);
                }
            }
        }
        while col <= right
            invariant
                1 <= grid_size <= MAX_RASTER,
                n == grid_size - 1,
                gs == grid_size,
                t < tris@.len(),
                tri == tris@[t as int],
                tri == (ia, ib, ic),
                ia < points@.len(),
                ib < points@.len(),
                ic < points@.len(),
                a == points@[ia as int],
                b == points@[ib as int],
                c == points@[ic as int],
                a.near(),
                b.near(),
                c.near(),
                left == cell_before(lowest(a.u as int, b.u as int, c.u as int), n as int),
                right == cell_after(highest(a.u as int, b.u as int, c.u as int), n as int),
                top == cell_before(lowest(a.v as int, b.v as int, c.v as int), n as int),
                bottom == cell_after(highest(a.v as int, b.v as int, c.v as int), n as int),
                right <= n,
                bottom <= n,
                top <= row <= bottom,
                left <= col,
                cells@.len() == gs * gs,
                forall|k: int|
                    0 <= k < gs * gs ==> #[trigger] cells@[k] == drawn(
                        points@,
                        tris@,
                        gs,
                        t as nat,
                        row as int,
                        col as int,
                        k,
                    ),
            decreases right + 1 - col,
        {
            proof {
                lemma_cell(row as int, col as int, gs);
                assert(row * grid_size + col <= 0xffff * 0xffff) by (nonlinear_arith)
                    requires
                        0 <= row * grid_size + col < grid_size * grid_size,
                        grid_size <= 0xffff,
                ;
                assert(row * grid_size >= 0) by (nonlinear_arith);
            }
            let at: usize = row as usize * grid_size as usize + col as usize;
            let ghost before = cells@;
            if let Some(w) = weigh(a, b, c, n, row, col) {
                cells.set(
                    at,
                    Some(
                        Blend { a: ia, b: ib, c: ic, wa: w.0, wb: w.1, wc: w.2, total: w.3 },
                    ),
                );
            }
            proof {
                assert forall|k: int| 0 <= k < gs * gs implies #[trigger] cells@[k] == drawn(
                    points@,
                    tris@,
                    gs,
                    t as nat,
                    row as int,
                    col + 1,
                    k,
                ) by {
                    lemma_row_col(k, gs);
                    assert(before[k] == drawn(
                        points@,
                        tris@,
                        gs,
                        t as nat,
                        row as int,
                        col as int,
                        k,
                    ));
                    if k == at {
                        assert(in_box(a, b, c, gs - 1, row as int, col as int));
                        assert(latest(
                            points@,
                            tris@,
                            gs,
                            row as int,
                            col as int,
                            (t + 1) as nat,
                        ) == match blend_at(points@, tri, gs, row as int, col as int) {
                            Some(x) => Some(x),
                            None => latest(points@, tris@, gs, row as int, col as int, t as nat),
                        });
                    }
                }
            }
            col = col + 1;
        }
        proof {
            assert forall|k: int| 0 <= k < gs * gs implies #[trigger] cells@[k] == drawn(
                points@,
                tris@,
                gs,
                t as nat,
                row + 1,
                0,
                k,
            ) by {
                lemma_row_col(k, gs);
                if k / gs == row && k % gs >= col {
                    assert(blend_at(points@, tri, gs, k / gs, k % gs) is None);
                }
            }
        }
        row = row + 1;
    }
    proof {
        assert forall|k: int| 0 <= k < gs * gs implies #[trigger] cells@[k] == latest(
            points@,
            tris@,
            gs,
            k / gs,
            k % gs,
            (t + 1) as nat,
        ) by {
            lemma_row_col(k, gs);
            if k / gs >= row {
                assert(blend_at(points@, tri, gs, k / gs, k % gs) is None);
            }
        }
    }
}

/// Rasterize the triangles of a mesh to a grid of `grid_size` by `grid_size` cells. Triangles
/// with a missing corner are left out, later ones win, and cells that none covers are filled
/// from their neighbours.
pub fn rasterize_qm_to_heightmap(points: &[PlanePoint], indices: &[u32], grid_size: u32) -> (r:
    HeightmapPlan)
    requires
        1 <= grid_size <= MAX_RASTER,
        forall|i: int| 0 <= i < points@.len() ==> (#[trigger] points@[i]).near(),
    ensures
        r.cells@ == raster(
            points@,
            triangles(indices@, points@.len() as int),
            grid_size as int,
        ),
        r.fills@ == fill_plan(covered(r.cells@), grid_size as int, grid_size as nat),
{
    let tris = valid_triangles(indices, points.len());
    let gs: usize = grid_size as usize;
    proof {
        assert(gs * gs <= 0xffff * 0xffff) by (nonlinear_arith)
            requires
                0 <= gs <= 0xffff,
        ;
    }
    let total: usize = gs * gs;
    let mut cells: Vec<Option<Blend>> = Vec::new();
    let mut k: usize = 0;
    while k < total
        invariant
            k <= total,
            cells@.len() == k,
            forall|i: int| 0 <= i < k ==> #[trigger] cells@[i] is None,
        decreases total - k,
    {
        cells.push(None);
        k = k + 1;
    }
    let mut t: usize = 0;
    while t < tris.len()
        invariant
            1 <= grid_size <= MAX_RASTER,
            gs == grid_size,
            total == gs * gs,
            t <= tris@.len(),
            tris@ == triangles(indices@, points@.len() as int),
            forall|i: int| 0 <= i < points@.len() ==> (#[trigger] points@[i]).near(),
            cells@.len() == grid_size * grid_size,
            forall|i: int|
                0 <= i < grid_size * grid_size ==> #[trigger] cells@[i] == latest(
                    points@,
                    tris@,
                    grid_size as int,
                    i / grid_size as int,
                    i % grid_size as int,
                    t as nat,
                ),
        decreases tris@.len() - t,
    {
        proof {
            lemma_triangle_corners(indices@, points@.len() as int, t as int);
        }
        draw_triangle(points, &tris, t, grid_size, &mut cells);
        t = t + 1;
    }
    let mut filled: Vec<bool> = Vec::new();
    let mut i: usize = 0;
    while i < cells.len()
        invariant
            i <= cells@.len(),
            filled@ =~= covered(cells@).take(i as int),
        decreases cells@.len() - i,
    {
        filled.push(cells[i].is_some());
        i = i + 1;
    }
    assert(filled@ =~= covered(cells@));
    assert(cells@ =~= raster(points@, tris@, grid_size as int));
    let fills = fill_gaps(&filled, gs);
    HeightmapPlan { cells, fills }
}

/// The weights of a cell are shares of a positive total, none below a ten-thousandth of it
/// under zero, so that a mesh of one height gives that height.
pub proof fn law_weights(
    a: PlanePoint,
    b: PlanePoint,
    c: PlanePoint,
    n: int,
    row: int,
    col: int,
    height: int,
)
    ensures
        weights(a, b, c, n, row, col) matches Some(w) ==> {
            &&& w.3 > 0
            &&& w.0 + w.1 + w.2 == w.3
            &&& is_share(w.0, w.3) && is_share(w.1, w.3) && is_share(w.2, w.3)
            &&& w.0 * height + w.1 * height + w.2 * height == w.3 * height
        },
{
    if let Some(w) = weights(a, b, c, n, row, col) {
        lemma_area_scales(a, b, c, n);
        let flat = unit_area(a, b, c);
        assert(flat != 0);
        assert(n * n * flat != 0) by (nonlinear_arith)
            requires
                n >= 1,
                flat != 0,
        ;
        assert(w.0 * height + w.1 * height + w.2 * height == w.3 * height) by (nonlinear_arith)
            requires
                w.0 + w.1 + w.2 == w.3,
        ;
    }
}

proof fn lemma_area_scales(a: PlanePoint, b: PlanePoint, c: PlanePoint, n: int)
    ensures
        grid_area(a, b, c, n) == n * n * unit_area(a, b, c),
{
    let (x, y) = (b.u - a.u, c.v - a.v);
    let (z, w) = (b.v - a.v, c.u - a.u);
    assert(b.u * n - a.u * n == x * n) by (nonlinear_arith)
        requires
            x == b.u - a.u,
    ;
    assert(c.v * n - a.v * n == y * n) by (nonlinear_arith)
        requires
            y == c.v - a.v,
    ;
    assert(b.v * n - a.v * n == z * n) by (nonlinear_arith)
        requires
            z == b.v - a.v,
    ;
    assert(c.u * n - a.u * n == w * n) by (nonlinear_arith)
        requires
            w == c.u - a.u,
    ;
    let (p, q) = (x * y, z * w);
    assert((x * n) * (y * n) == (n * n) * p) by (nonlinear_arith)
        requires
            p == x * y,
    ;
    assert((z * n) * (w * n) == (n * n) * q) by (nonlinear_arith)
        requires
            q == z * w,
    ;
    assert((n * n) * p - (n * n) * q == (n * n) * (p - q)) by (nonlinear_arith);
}

/// Weighted by a cell's weights, the places of a triangle's corners blend to the place of the
/// cell, so that heights which are linear over the triangle are met exactly.
pub proof fn law_blend_place(a: PlanePoint, b: PlanePoint, c: PlanePoint, n: int, row: int, col: int)
    ensures
        weights(a, b, c, n, row, col) matches Some(w) ==> {
            &&& w.0 * (a.u * n) + w.1 * (b.u * n) + w.2 * (c.u * n) == w.3 * (col * TILE_UNITS)
            &&& w.0 * (a.v * n) + w.1 * (b.v * n) + w.2 * (c.v * n) == w.3 * (row * TILE_UNITS)
        },
{
    if let Some(w) = weights(a, b, c, n, row, col) {
        let (ax, ay) = (a.u * n, a.v * n);
        let (bx, by) = (b.u * n - ax, b.v * n - ay);
        let (cx, cy) = (c.u * n - ax, c.v * n - ay);
        let (px, py) = (col * TILE_UNITS - ax, row * TILE_UNITS - ay);
        let area = bx * cy - by * cx;
        let sb = px * cy - py * cx;
        let sc = bx * py - by * px;
        lemma_barycentric(bx, by, cx, cy, px, py);
        lemma_blend(ax, bx, cx, px, area, sb, sc);
        lemma_blend(ay, by, cy, py, area, sb, sc);
        if grid_area(a, b, c, n) < 0 {
            lemma_opposite(w.0, w.1, w.2, w.3, ax, bx + ax, cx + ax, px + ax);
            lemma_opposite(w.0, w.1, w.2, w.3, ay, by + ay, cy + ay, py + ay);
        }
    }
}

proof fn lemma_barycentric(bx: int, by: int, cx: int, cy: int, px: int, py: int)
    ensures
        (px * cy - py * cx) * bx + (bx * py - by * px) * cx == (bx * cy - by * cx) * px,
        (px * cy - py * cx) * by + (bx * py - by * px) * cy == (bx * cy - by * cx) * py,
{
    assert((px * cy - py * cx) * bx + (bx * py - by * px) * cx == (bx * cy - by * cx) * px)
        by (nonlinear_arith);
    assert((px * cy - py * cx) * by + (bx * py - by * px) * cy == (bx * cy - by * cx) * py)
        by (nonlinear_arith);
}

proof fn lemma_blend(a: int, b: int, c: int, p: int, area: int, sb: int, sc: int)
    requires
        sb * b + sc * c == area * p,
    ensures
        (area - sb - sc) * a + sb * (b + a) + sc * (c + a) == area * (p + a),
{
    assert((area - sb - sc) * a + sb * (b + a) + sc * (c + a) == area * (p + a))
        by (nonlinear_arith)
        requires
            sb * b + sc * c == area * p,
    ;
}

proof fn lemma_opposite(wa: int, wb: int, wc: int, total: int, a: int, b: int, c: int, p: int)
    requires
        (-wa) * a + (-wb) * b + (-wc) * c == (-total) * p,
    ensures
        wa * a + wb * b + wc * c == total * p,
{
    assert(wa * a + wb * b + wc * c == total * p) by (nonlinear_arith)
        requires
            (-wa) * a + (-wb) * b + (-wc) * c == (-total) * p,
    ;
}

/// A cell that lies in a triangle with area is in its bounding box.
proof fn lemma_inside_box(a: PlanePoint, b: PlanePoint, c: PlanePoint, n: int, row: int, col: int)
    requires
        n >= 1,
        0 <= row <= n,
        0 <= col <= n,
        weights(a, b, c, n, row, col) matches Some(w) && w.0 >= 0 && w.1 >= 0 && w.2 >= 0,
    ensures
        in_box(a, b, c, n, row, col),
{
    let w = weights(a, b, c, n, row, col).unwrap();
    law_weights(a, b, c, n, row, col, 0);
    law_blend_place(a, b, c, n, row, col);
    lemma_between(w.0, w.1, w.2, w.3, a.u as int, b.u as int, c.u as int, n, col);
    lemma_between(w.0, w.1, w.2, w.3, a.v as int, b.v as int, c.v as int, n, row);
}

proof fn lemma_between(
    wa: int,
    wb: int,
    wc: int,
    total: int,
    x: int,
    y: int,
    z: int,
    n: int,
    cell: int,
)
    requires
        wa >= 0,
        wb >= 0,
        wc >= 0,
        total > 0,
        wa + wb + wc == total,
        wa * (x * n) + wb * (y * n) + wc * (z * n) == total * (cell * TILE_UNITS),
        n >= 1,
        0 <= cell <= n,
    ensures
        cell_before(lowest(x, y, z), n) <= cell <= cell_after(highest(x, y, z), n),
{
    let low = lowest(x, y, z);
    let high = highest(x, y, z);
    let place = cell * TILE_UNITS;
    assert(low * n <= x * n && low * n <= y * n && low * n <= z * n && x * n <= high * n && y * n
        <= high * n && z * n <= high * n) by (nonlinear_arith)
        requires
            n >= 1,
            low <= x <= high,
            low <= y <= high,
            low <= z <= high,
    ;
    lemma_mean(wa, wb, wc, total, x * n, y * n, z * n, low * n, high * n, place);
    let units = TILE_UNITS as int;
    if low >= 0 {
        assert((low * n) / units <= cell) by (nonlinear_arith)
            requires
                low * n <= place,
                place == cell * units,
                units == 0x100_0000,
        ;
    }
    if high > 0 {
        assert(cell <= (high * n + units - 1) / units) by (nonlinear_arith)
            requires
                place <= high * n,
                place == cell * units,
                units == 0x100_0000,
        ;
    } else {
        assert(high * n <= 0) by (nonlinear_arith)
            requires
                high <= 0,
                n >= 1,
        ;
        assert(cell == 0);
    }
}

proof fn lemma_mean(
    wa: int,
    wb: int,
    wc: int,
    total: int,
    x: int,
    y: int,
    z: int,
    low: int,
    high: int,
    mean: int,
)
    requires
        wa >= 0,
        wb >= 0,
        wc >= 0,
        total > 0,
        wa + wb + wc == total,
        wa * x + wb * y + wc * z == total * mean,
        low <= x <= high,
        low <= y <= high,
        low <= z <= high,
    ensures
        low <= mean <= high,
{
    assert(wa * low <= wa * x <= wa * high) by (nonlinear_arith)
        requires
            wa >= 0,
            low <= x <= high,
    ;
    assert(wb * low <= wb * y <= wb * high) by (nonlinear_arith)
        requires
            wb >= 0,
            low <= y <= high,
    ;
    assert(wc * low <= wc * z <= wc * high) by (nonlinear_arith)
        requires
            wc >= 0,
            low <= z <= high,
    ;
    assert(wa * low + wb * low + wc * low == total * low) by (nonlinear_arith)
        requires
            wa + wb + wc == total,
    ;
    assert(wa * high + wb * high + wc * high == total * high) by (nonlinear_arith)
        requires
            wa + wb + wc == total,
    ;
    assert(low <= mean) by (nonlinear_arith)
        requires
            total > 0,
            total * low <= total * mean,
    ;
    assert(mean <= high) by (nonlinear_arith)
        requires
            total > 0,
            total * mean <= total * high,
    ;
}

/// Every cell that lies in a triangle with area is covered: by that triangle or a later one.
pub proof fn law_inside_covered(
    points: Seq<PlanePoint>,
    tris: Seq<(u32, u32, u32)>,
    gs: int,
    t: int,
    row: int,
    col: int,
)
    requires
        gs >= 2,
        0 <= t < tris.len(),
        0 <= row < gs,
        0 <= col < gs,
        weights(
            points[tris[t].0 as int],
            points[tris[t].1 as int],
            points[tris[t].2 as int],
            gs - 1,
            row,
            col,
        ) matches Some(w) && w.0 >= 0 && w.1 >= 0 && w.2 >= 0,
    ensures
        raster(points, tris, gs)[row * gs + col] is Some,
{
    lemma_inside_box(
        points[tris[t].0 as int],
        points[tris[t].1 as int],
        points[tris[t].2 as int],
        gs - 1,
        row,
        col,
    );
    lemma_cell(row, col, gs);
    lemma_latest_some(points, tris, gs, row, col, tris.len(), t);
}

proof fn lemma_latest_some(
    points: Seq<PlanePoint>,
    tris: Seq<(u32, u32, u32)>,
    gs: int,
    row: int,
    col: int,
    n: nat,
    t: int,
)
    requires
        0 <= t < n <= tris.len(),
        blend_at(points, tris[t], gs, row, col) is Some,
    ensures
        latest(points, tris, gs, row, col, n) is Some,
    decreases n,
{
    if t < n - 1 {
        lemma_latest_some(points, tris, gs, row, col, (n - 1) as nat, t);
    }
}

/// A cell keeps the blend of the last triangle that gives it one.
pub proof fn law_later_wins(
    points: Seq<PlanePoint>,
    tris: Seq<(u32, u32, u32)>,
    gs: int,
    t: int,
    row: int,
    col: int,
)
    requires
        0 <= t < tris.len(),
        0 <= row < gs,
        0 <= col < gs,
        blend_at(points, tris[t], gs, row, col) is Some,
        forall|s: int|
            t < s < tris.len() ==> blend_at(points, #[trigger] tris[s], gs, row, col) is None,
    ensures
        raster(points, tris, gs)[row * gs + col] == blend_at(points, tris[t], gs, row, col),
{
    lemma_cell(row, col, gs);
    lemma_latest_is(points, tris, gs, row, col, tris.len(), t);
}

proof fn lemma_latest_is(
    points: Seq<PlanePoint>,
    tris: Seq<(u32, u32, u32)>,
    gs: int,
    row: int,
    col: int,
    n: nat,
    t: int,
)
    requires
        0 <= t < n <= tris.len(),
        blend_at(points, tris[t], gs, row, col) is Some,
        forall|s: int|
            t < s < n ==> blend_at(points, #[trigger] tris[s], gs, row, col) is None,
    ensures
        latest(points, tris, gs, row, col, n) == blend_at(points, tris[t], gs, row, col),
    decreases n,
{
    if t < n - 1 {
        assert(blend_at(points, tris[n - 1], gs, row, col) is None);
        lemma_latest_is(points, tris, gs, row, col, (n - 1) as nat, t);
    }
}

/// When a triangle gives a cell weights, and which: the triangle has at least a millionth of
/// the tile's area, counted double, and no weight is more than a ten-thousandth of their total
/// below zero. The weight of a corner is the area that the cell spans with the other two.
pub proof fn law_weights_exactly(
    a: PlanePoint,
    b: PlanePoint,
    c: PlanePoint,
    n: int,
    row: int,
    col: int,
)
    requires
        n >= 1,
    ensures
        ({
            let unit = doubled_area(
                a.u as int,
                a.v as int,
                b.u as int,
                b.v as int,
                c.u as int,
                c.v as int,
            );
            let area = doubled_area(a.u * n, a.v * n, b.u * n, b.v * n, c.u * n, c.v * n);
            let x = col * 0x100_0000;
            let y = row * 0x100_0000;
            let ab = doubled_area(a.u * n, a.v * n, b.u * n, b.v * n, x, y);
            let ac = doubled_area(a.u * n, a.v * n, x, y, c.u * n, c.v * n);
            let wc = if area < 0 {
                -ab
            } else {
                ab
            };
            let wb = if area < 0 {
                -ac
            } else {
                ac
            };
            let total = if area < 0 {
                -area
            } else {
                area
            };
            let wa = total - wb - wc;
            let wide = unit * 1_000_000 >= 0x1_0000_0000_0000 || -unit * 1_000_000
                >= 0x1_0000_0000_0000;
            &&& weights(a, b, c, n, row, col) is Some <==> wide && wa * 10_000 >= -total && wb
                * 10_000 >= -total && wc * 10_000 >= -total
            &&& weights(a, b, c, n, row, col) matches Some(w) ==> w.0 == wa && w.1 == wb && w.2
                == wc && w.3 == total
        }),
{
}

/// The doubled area of a triangle with a corner at the origin, and that moving a triangle does
/// not change it.
pub proof fn law_doubled_area(px: int, py: int, qx: int, qy: int, dx: int, dy: int)
    ensures
        doubled_area(0, 0, px, py, qx, qy) == px * qy - py * qx,
        doubled_area(dx, dy, px + dx, py + dy, qx + dx, qy + dy) == doubled_area(
            0,
            0,
            px,
            py,
            qx,
            qy,
        ),
{
}

/// A triangle gives a cell its height exactly where it has weights for it and the cell lies in
/// its box; the weights belong to the triangle's corners in order.
pub proof fn law_blend(
    points: Seq<PlanePoint>,
    t: (u32, u32, u32),
    gs: int,
    row: int,
    col: int,
)
    ensures
        ({
            let a = points[t.0 as int];
            let b = points[t.1 as int];
            let c = points[t.2 as int];
            let w = weights(a, b, c, gs - 1, row, col);
            let blend = blend_at(points, t, gs, row, col);
            &&& blend is Some <==> w is Some && in_box(a, b, c, gs - 1, row, col)
            &&& blend matches Some(l) ==> l.a == t.0 && l.b == t.1 && l.c == t.2 && l.wa
                == w.unwrap().0 as i128 && l.wb == w.unwrap().1 as i128 && l.wc
                == w.unwrap().2 as i128 && l.total == w.unwrap().3 as i128
        }),
{
}

/// Which rows or columns a box spans: those less than one cell outside the corners' extent, and
/// the nearest one where the extent lies outside the grid.
pub proof fn law_box(x: int, n: int, k: int)
    requires
        n >= 1,
        0 <= k <= n,
    ensures
        cell_before(x, n) <= k <==> x < 0 || k == n || (k + 1) * 0x100_0000 > x * n,
        k <= cell_after(x, n) <==> k == 0 || (x > 0 && (k - 1) * 0x100_0000 < x * n),
{
    if x >= 0 {
        assert(x * n >= 0) by (nonlinear_arith)
            requires
                x >= 0,
                n >= 1,
        ;
    }
}

/// The box of a triangle reaches from the smallest to the largest coordinate of its corners.
pub proof fn law_extremes(x: int, y: int, z: int)
    ensures
        lowest(x, y, z) <= x && lowest(x, y, z) <= y && lowest(x, y, z) <= z,
        lowest(x, y, z) == x || lowest(x, y, z) == y || lowest(x, y, z) == z,
        highest(x, y, z) >= x && highest(x, y, z) >= y && highest(x, y, z) >= z,
        highest(x, y, z) == x || highest(x, y, z) == y || highest(x, y, z) == z,
{
}

/// The box is that of all three corners, columns across and rows down.
pub proof fn law_in_box(a: PlanePoint, b: PlanePoint, c: PlanePoint, n: int, row: int, col: int)
    ensures
        in_box(a, b, c, n, row, col) <==> {
            &&& cell_before(lowest(a.u as int, b.u as int, c.u as int), n) <= col
            &&& col <= cell_after(highest(a.u as int, b.u as int, c.u as int), n)
            &&& cell_before(lowest(a.v as int, b.v as int, c.v as int), n) <= row
            &&& row <= cell_after(highest(a.v as int, b.v as int, c.v as int), n)
        },
{
}

/// The grid counts row by row.
pub proof fn law_raster_rows(
    points: Seq<PlanePoint>,
    tris: Seq<(u32, u32, u32)>,
    gs: int,
    row: int,
    col: int,
)
    requires
        0 <= row < gs,
        0 <= col < gs,
        forall|t: int|
            0 <= t < tris.len() ==> blend_at(points, #[trigger] tris[t], gs, row, col) is None,
    ensures
        raster(points, tris, gs).len() == gs * gs,
        raster(points, tris, gs)[row * gs + col] is None,
{
    lemma_cell(row, col, gs);
    lemma_none_latest(points, tris, gs, row, col, tris.len());
}

proof fn lemma_none_latest(
    points: Seq<PlanePoint>,
    tris: Seq<(u32, u32, u32)>,
    gs: int,
    row: int,
    col: int,
    n: nat,
)
    requires
        n <= tris.len(),
        forall|t: int|
            0 <= t < tris.len() ==> blend_at(points, #[trigger] tris[t], gs, row, col) is None,
    ensures
        latest(points, tris, gs, row, col, n) is None,
    decreases n,
{
    if n > 0 {
        lemma_none_latest(points, tris, gs, row, col, (n - 1) as nat);
        assert(blend_at(points, tris[n - 1], gs, row, col) is None);
    }
}

} // verus!
