//! Triangulated square grids.
//!
//! A grid of `n` by `n` cells has `n + 1` vertices per side, numbered row by row from the
//! top left. Each cell becomes two triangles; the winding says in which order their
//! corners are listed.

use vstd::prelude::*;

verus! {

/// Corner order of the two triangles of a cell.
#[derive(Debug, Clone, Copy, PartialEq, Eq, Structural)]
pub enum Winding {
    /// `tl, bl, tr` and `tr, bl, br`.
    Down,
    /// `tl, tr, bl` and `tr, br, bl`: the reverse of [`Winding::Down`].
    DownReversed,
    /// `tl, tr, bl` and `bl, tr, br`.
    Across,
}

/// The largest grid for which all numbers stay small.
pub const MAX_GRID: u32 = 1024;

/// Number of the vertex in column `gx` and row `gy`.
pub open spec fn vertex_at(n: u32, gx: int, gy: int) -> int {
    gy * (n + 1) + gx
}

/// Column offset and row offset, within the cell, of the `k`-th listed corner.
pub open spec fn corner(w: Winding, k: int) -> (int, int) {
    let tl = (0int, 0int);
    let tr = (1int, 0int);
    let bl = (0int, 1int);
    let br = (1int, 1int);
    match w {
        Winding::Down => if k == 0 {
            tl
        } else if k == 1 || k == 4 {
            bl
        } else if k == 2 || k == 3 {
            tr
        } else {
            br
        },
        Winding::DownReversed => if k == 0 {
            tl
        } else if k == 1 || k == 3 {
            tr
        } else if k == 2 || k == 5 {
            bl
        } else {
            br
        },
        Winding::Across => if k == 0 {
            tl
        } else if k == 1 || k == 4 {
            tr
        } else if k == 2 || k == 3 {
            bl
        } else {
            br
        },
    }
}

/// The vertex listed as corner `k` of cell `q`; cells are numbered row by row.
pub open spec fn cell_vertex(n: u32, w: Winding, q: int, k: int) -> int {
    vertex_at(n, q % (n as int) + corner(w, k).0, q / (n as int) + corner(w, k).1)
}

/// Index list of the whole surface: six entries per cell, cells row by row.
pub open spec fn surface_indices(n: u32, w: Winding) -> Seq<u32> {
    Seq::new((6 * (n * n)) as nat, |i: int| cell_vertex(n, w, i / 6, i % 6) as u32)
}

/// Products of two small numbers stay small.
proof fn lemma_small_products(n: u32)
    requires
        n <= MAX_GRID,
    ensures
        0 <= n * n <= 1024 * 1024,
        (n + 1) * (n + 1) <= 1025 * 1025,
{
    assert(0 <= n * n <= 1024 * 1024 && (n + 1) * (n + 1) <= 1025 * 1025) by (nonlinear_arith)
        requires
            0 <= n <= 1024,
    ;
}

/// Every listed corner is a vertex of the grid.
proof fn lemma_cell_vertex_range(n: u32, w: Winding, q: int, k: int)
    requires
        1 <= n <= MAX_GRID,
        0 <= q < n * n,
    ensures
        0 <= q / (n as int) < n,
        0 <= q % (n as int) < n,
        0 <= cell_vertex(n, w, q, k) < (n + 1) * (n + 1),
        vertex_at(n, q % (n as int), q / (n as int)) == q + q / (n as int),
{
    let m = n as int;
    let gy = q / m;
    let gx = q % m;
    vstd::arithmetic::div_mod::lemma_fundamental_div_mod(q, m);
    assert(0 <= gy < m) by (nonlinear_arith)
        requires
            m >= 1,
            0 <= q < m * m,
            gy == q / m,
    ;
    let (a, b) = corner(w, k);
    assert(0 <= (gy + b) * (m + 1) + gx + a < (m + 1) * (m + 1)) by (nonlinear_arith)
        requires
            0 <= gy < m,
            0 <= gx < m,
            0 <= a <= 1,
            0 <= b <= 1,
    ;
    assert(gy * (m + 1) == m * gy + gy) by (nonlinear_arith);
}

/// Index list of the surface.
pub fn grid_surface(n: u32, w: Winding) -> (indices: Vec<u32>)
    requires
        1 <= n <= MAX_GRID,
    ensures
        indices@ == surface_indices(n, w),
{
    proof {
        lemma_small_products(n);
    }
    let side: u32 = n + 1;
    let total: u32 = n * n;
    let mut indices: Vec<u32> = Vec::new();
    let mut q: u32 = 0;
    let mut gy: u32 = 0;
    while gy < n
        invariant
            1 <= n <= MAX_GRID,
            side == n + 1,
            gy <= n,
            q == gy * n,
            total == n * n,
            total <= 1024 * 1024,
            indices@ == surface_indices(n, w).take(6 * q),
        decreases n - gy,
    {
        let mut gx: u32 = 0;
        proof {
            assert((gy + 1) * n <= n * n) by (nonlinear_arith)
                requires
                    gy + 1 <= n,
            ;
            assert((gy + 1) * n == gy * n + n) by (nonlinear_arith);
        }
        while gx < n
            invariant
                1 <= n <= MAX_GRID,
                side == n + 1,
                gy < n,
                gx <= n,
                q == gy * n + gx,
                gy * n + n <= total,
                total == n * n,
                total <= 1024 * 1024,
                indices@ == surface_indices(n, w).take(6 * q),
            decreases n - gx,
        {
            proof {
                assert(q as int / n as int == gy && q as int % n as int == gx) by {
                    vstd::arithmetic::div_mod::lemma_fundamental_div_mod_converse(
                        q as int,
                        n as int,
                        gy as int,
                        gx as int,
                    );
                }
                lemma_cell_vertex_range(n, w, q as int, 0);
                lemma_cell_vertex_range(n, w, q as int, 1);
                lemma_cell_vertex_range(n, w, q as int, 5);
                assert((gy + 1) * (n + 1) == gy * (n + 1) + n + 1) by (nonlinear_arith);
                assert(0 <= gy * (n + 1) <= 1024 * 1025) by (nonlinear_arith)
                    requires
                        0 <= gy < n <= 1024,
                ;
            }
            let tl: u32 = gy * side + gx;
            let tr: u32 = tl + 1;
            let bl: u32 = tl + side;
            let br: u32 = bl + 1;
            let ghost before = indices@;
            match w {
                Winding::Down => {
                    indices.push(tl);
                    indices.push(bl);
                    indices.push(tr);
                    indices.push(tr);
                    indices.push(bl);
                    indices.push(br);
                },
                Winding::DownReversed => {
                    indices.push(tl);
                    indices.push(tr);
                    indices.push(bl);
                    indices.push(tr);
                    indices.push(br);
                    indices.push(bl);
                },
                Winding::Across => {
                    indices.push(tl);
                    indices.push(tr);
                    indices.push(bl);
                    indices.push(bl);
                    indices.push(tr);
                    indices.push(br);
                },
            }
            proof {
                let s = surface_indices(n, w);
                assert(6 * q + 6 <= s.len());
                assert(s[6 * q] == cell_vertex(n, w, q as int, 0));
                assert(s[6 * q + 1] == cell_vertex(n, w, q as int, 1));
                assert(s[6 * q + 2] == cell_vertex(n, w, q as int, 2));
                assert(s[6 * q + 3] == cell_vertex(n, w, q as int, 3));
                assert(s[6 * q + 4] == cell_vertex(n, w, q as int, 4));
                assert(s[6 * q + 5] == cell_vertex(n, w, q as int, 5));
                assert(indices@ =~= s.take(6 * (q + 1)));
            }
            gx = gx + 1;
            q = q + 1;
        }
        gy = gy + 1;
    }
    assert(surface_indices(n, w).take(6 * q) =~= surface_indices(n, w));
    indices
}

/// Every entry of the index list names a vertex of the grid.
pub proof fn law_surface_in_range(n: u32, w: Winding)
    requires
        1 <= n <= MAX_GRID,
    ensures
        surface_indices(n, w).len() == 6 * (n * n),
        forall|i: int|
            0 <= i < surface_indices(n, w).len() ==> (#[trigger] surface_indices(n, w)[i]) < (n + 1)
                * (n + 1),
{
    lemma_small_products(n);
    assert forall|i: int| 0 <= i < surface_indices(n, w).len() implies (
    #[trigger] surface_indices(n, w)[i]) < (n + 1) * (n + 1) by {
        lemma_cell_vertex_range(n, w, i / 6, i % 6);
    }
}

/// Twice the signed area of the triangle with the given corners, in cells.
pub open spec fn doubled_area(a: (int, int), b: (int, int), c: (int, int)) -> int {
    (b.0 - a.0) * (c.1 - a.1) - (b.1 - a.1) * (c.0 - a.0)
}

/// Column and row of a vertex.
pub open spec fn place(n: u32, v: int) -> (int, int) {
    (v % (n + 1), v / (n + 1))
}

/// Both triangles of every cell have half a cell's area and the orientation of their
/// winding: none is degenerate and none is turned over.
pub proof fn law_surface_oriented(n: u32, w: Winding, t: int)
    requires
        1 <= n <= MAX_GRID,
        0 <= t < 2 * (n * n),
    ensures
        doubled_area(
            place(n, surface_indices(n, w)[3 * t] as int),
            place(n, surface_indices(n, w)[3 * t + 1] as int),
            place(n, surface_indices(n, w)[3 * t + 2] as int),
        ) == (if w is Down {
            -1int
        } else {
            1int
        }),
{
    lemma_small_products(n);
    let q = t / 2;
    let h = 3 * (t % 2);
    let s = surface_indices(n, w);
    assert((3 * t) / 6 == q && (3 * t) % 6 == h);
    assert((3 * t + 1) / 6 == q && (3 * t + 1) % 6 == h + 1);
    assert((3 * t + 2) / 6 == q && (3 * t + 2) % 6 == h + 2);
    lemma_corner_place(n, w, q, h);
    lemma_corner_place(n, w, q, h + 1);
    lemma_corner_place(n, w, q, h + 2);
    assert(s[3 * t] == cell_vertex(n, w, q, h));
    assert(s[3 * t + 1] == cell_vertex(n, w, q, h + 1));
    assert(s[3 * t + 2] == cell_vertex(n, w, q, h + 2));
    let x = q % (n as int);
    let y = q / (n as int);
    let a = corner(w, h);
    let b = corner(w, h + 1);
    let c = corner(w, h + 2);
    assert(doubled_area((x + a.0, y + a.1), (x + b.0, y + b.1), (x + c.0, y + c.1))
        == doubled_area(a, b, c));
    assert(doubled_area((0, 0), (0, 1), (1, 0)) == -1) by (nonlinear_arith);
    assert(doubled_area((1, 0), (0, 1), (1, 1)) == -1) by (nonlinear_arith);
    assert(doubled_area((0, 0), (1, 0), (0, 1)) == 1) by (nonlinear_arith);
    assert(doubled_area((1, 0), (1, 1), (0, 1)) == 1) by (nonlinear_arith);
    assert(doubled_area((0, 1), (1, 0), (1, 1)) == 1) by (nonlinear_arith);
    assert(h == 0 || h == 3);
    assert(place(n, s[3 * t] as int) == (x + a.0, y + a.1));
    assert(place(n, s[3 * t + 1] as int) == (x + b.0, y + b.1));
    assert(place(n, s[3 * t + 2] as int) == (x + c.0, y + c.1));
}

/// A listed corner stands where its cell and its position in the cell say.
proof fn lemma_corner_place(n: u32, w: Winding, q: int, k: int)
    requires
        1 <= n <= MAX_GRID,
        0 <= q < n * n,
    ensures
        place(n, cell_vertex(n, w, q, k)) == (
            q % (n as int) + corner(w, k).0,
            q / (n as int) + corner(w, k).1,
        ),
        0 <= cell_vertex(n, w, q, k) <= u32::MAX,
{
    lemma_cell_vertex_range(n, w, q, k);
    lemma_small_products(n);
    let gx = q % (n as int) + corner(w, k).0;
    let gy = q / (n as int) + corner(w, k).1;
    vstd::arithmetic::div_mod::lemma_fundamental_div_mod_converse(
        gy * (n + 1) + gx,
        n + 1,
        gy,
        gx,
    );
}

/// Every vertex of the grid is used by some triangle.
pub proof fn law_surface_uses_all(n: u32, w: Winding, v: int)
    requires
        1 <= n <= MAX_GRID,
        0 <= v < (n + 1) * (n + 1),
    ensures
        exists|i: int|
            0 <= i < surface_indices(n, w).len() && #[trigger] surface_indices(n, w)[i] == v,
{
    lemma_small_products(n);
    let side = n + 1;
    let x = v % side;
    let y = v / side;
    vstd::arithmetic::div_mod::lemma_fundamental_div_mod(v, side);
    assert(0 <= y < side) by (nonlinear_arith)
        requires
            side >= 1,
            0 <= v < side * side,
            y == v / side,
    ;
    let a: int = if x == n {
        1
    } else {
        0
    };
    let b: int = if y == n {
        1
    } else {
        0
    };
    let q = (y - b) * n + (x - a);
    assert(0 <= q < n * n) by (nonlinear_arith)
        requires
            q == (y - b) * n + (x - a),
            0 <= y - b < n,
            0 <= x - a < n,
    ;
    vstd::arithmetic::div_mod::lemma_fundamental_div_mod_converse(q, n as int, y - b, x - a);
    let k = corner_slot(w, a, b);
    assert(corner(w, k) == (a, b));
    assert(cell_vertex(n, w, q, k) == v) by (nonlinear_arith)
        requires
            q % (n as int) == x - a,
            q / (n as int) == y - b,
            corner(w, k) == (a, b),
            v == side * y + x,
            side == n + 1,
            cell_vertex(n, w, q, k) == (q / (n as int) + corner(w, k).1) * (n + 1) + (q % (
            n as int) + corner(w, k).0),
    ;
    let i = 6 * q + k;
    assert(i / 6 == q && i % 6 == k);
    assert(surface_indices(n, w)[i] == v);
}

/// A list position at which the given corner of a cell appears.
spec fn corner_slot(w: Winding, a: int, b: int) -> int {
    if a == 0 && b == 0 {
        0
    } else if a == 1 && b == 1 {
        if w is DownReversed {
            4
        } else {
            5
        }
    } else if a == 1 {
        if w is Down {
            2
        } else {
            1
        }
    } else {
        if w is Down {
            1
        } else {
            2
        }
    }
}

/// The corners of each cell in the order in which its two triangles list them.
pub proof fn law_cell_triangles(n: u32, w: Winding, q: int)
    requires
        1 <= n <= MAX_GRID,
        0 <= q < n * n,
    ensures
        ({
            let idx = surface_indices(n, w);
            let col = q % (n as int);
            let row = q / (n as int);
            let at = |dx: int, dy: int| (row + dy) * (n + 1) + col + dx;
            &&& w is Down ==> idx[6 * q] == at(0, 0) && idx[6 * q + 1] == at(0, 1) && idx[6 * q + 2]
                == at(1, 0) && idx[6 * q + 3] == at(1, 0) && idx[6 * q + 4] == at(0, 1) && idx[6 * q
                + 5] == at(1, 1)
            &&& w is DownReversed ==> idx[6 * q] == at(0, 0) && idx[6 * q + 1] == at(1, 0) && idx[6
                * q + 2] == at(0, 1) && idx[6 * q + 3] == at(1, 0) && idx[6 * q + 4] == at(1, 1)
                && idx[6 * q + 5] == at(0, 1)
            &&& w is Across ==> idx[6 * q] == at(0, 0) && idx[6 * q + 1] == at(1, 0) && idx[6 * q
                + 2] == at(0, 1) && idx[6 * q + 3] == at(0, 1) && idx[6 * q + 4] == at(1, 0)
                && idx[6 * q + 5] == at(1, 1)
        }),
{
    law_surface_in_range(n, w);
    let idx = surface_indices(n, w);
    assert forall|k: int| 0 <= k < 6 implies #[trigger] idx[6 * q + k] == cell_vertex(n, w, q, k) by {
        assert((6 * q + k) / 6 == q && (6 * q + k) % 6 == k);
        lemma_cell_vertex_small(n, w, q, k);
    }
    assert(idx[6 * q + 0] == cell_vertex(n, w, q, 0));
    assert(idx[6 * q + 1] == cell_vertex(n, w, q, 1));
    assert(idx[6 * q + 2] == cell_vertex(n, w, q, 2));
    assert(idx[6 * q + 3] == cell_vertex(n, w, q, 3));
    assert(idx[6 * q + 4] == cell_vertex(n, w, q, 4));
    assert(idx[6 * q + 5] == cell_vertex(n, w, q, 5));
}

proof fn lemma_cell_vertex_small(n: u32, w: Winding, q: int, k: int)
    requires
        1 <= n <= MAX_GRID,
        0 <= q < n * n,
        0 <= k < 6,
    ensures
        0 <= cell_vertex(n, w, q, k) <= u32::MAX,
{
    let col = q % (n as int);
    let row = q / (n as int);
    assert(0 <= row < n) by (nonlinear_arith)
        requires
            row == q / (n as int),
            0 <= q < n * n,
            n >= 1,
    ;
    let (dx, dy) = corner(w, k);
    assert(0 <= (row + dy) * (n + 1) <= 1025 * 1025) by (nonlinear_arith)
        requires
            0 <= row + dy <= 1024,
            1 <= n <= 1024,
    ;
}

} // verus!
