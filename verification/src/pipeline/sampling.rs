//! Where an elevation grid is read: bilinear stencils and normal stencils.

use crate::pipeline::tile_uniforms::UvRect;
use crate::scalar::Frac;
use vstd::prelude::*;

verus! {

/// How a value is read from a grid.
#[derive(Debug, Clone, Copy, PartialEq, Eq, Structural)]
pub enum Stencil {
    /// Interpolate between four cells: `i00` and `i10` side by side, `i01` and `i11` below
    /// them, with the offsets `fx` and `fy` from `i00` towards the others.
    Quad { i00: usize, i10: usize, i01: usize, i11: usize, fx: Frac, fy: Frac },
    /// Take one cell as it is.
    Single { index: usize },
    /// The grid is empty; the value is zero.
    Zero,
}

/// The cell left of (or above) position `t` of an axis with `size` samples: the position is
/// `t * (size - 1)`, and the last cell starts one sample before the end.
pub open spec fn axis_cell(t: Frac, size: u32) -> int {
    let at = t.num * (size - 1);
    let last: int = if size >= 2 {
        size - 2
    } else {
        0
    };
    if at < 0 {
        0
    } else if at / (t.den as int) < last {
        at / (t.den as int)
    } else {
        last
    }
}

/// Offset of position `t` from the start of its cell.
pub open spec fn axis_offset(t: Frac, size: u32) -> int {
    t.num * (size - 1) - axis_cell(t, size) * t.den
}

/// How position `(u, v)` of a grid of `width` by `height` samples, of which the first `len`
/// are there, is read.
pub open spec fn stencil_at(len: usize, width: u32, height: u32, u: Frac, v: Frac) -> Stencil {
    let i00 = axis_cell(v, height) * width + axis_cell(u, width);
    if i00 + width + 1 < len {
        Stencil::Quad {
            i00: i00 as usize,
            i10: (i00 + 1) as usize,
            i01: (i00 + width) as usize,
            i11: (i00 + width + 1) as usize,
            fx: Frac { num: axis_offset(u, width) as i128, den: u.den },
            fy: Frac { num: axis_offset(v, height) as i128, den: v.den },
        }
    } else if len > 0 {
        Stencil::Single {
            index: if i00 < len {
                i00 as usize
            } else {
                (len - 1) as usize
            },
        }
    } else {
        Stencil::Zero
    }
}

proof fn lemma_axis_bounds(t: Frac, size: u32)
    requires
        t.small(),
        size >= 1,
    ensures
        -0x1_0000_0000_0000_0000_0000_0000_0000 <= t.num * (size - 1)
            <= 0x1_0000_0000_0000_0000_0000_0000_0000,
        0 <= axis_cell(t, size) < size,
        size >= 2 ==> axis_cell(t, size) <= size - 2,
        0 <= axis_cell(t, size) * t.den <= 0x1_0000_0000_0000_0000_0000_0000_0000,
{
    let n = size - 1;
    assert(-0x1_0000_0000_0000_0000_0000_0000_0000 <= t.num * n
        <= 0x1_0000_0000_0000_0000_0000_0000_0000) by (nonlinear_arith)
        requires
            -0x1_0000_0000_0000_0000_0000 <= t.num <= 0x1_0000_0000_0000_0000_0000,
            0 <= n <= 0xffff_ffff,
    ;
    let at = t.num * n;
    let d = t.den as int;
    if at >= 0 {
        assert(at / d >= 0) by (nonlinear_arith)
            requires
                at >= 0,
                d >= 1,
        ;
    }
    let c = axis_cell(t, size);
    assert(0 <= c * d <= 0x1_0000_0000_0000_0000_0000_0000_0000) by (nonlinear_arith)
        requires
            0 <= c <= 0xffff_ffff,
            1 <= d <= 0x1_0000_0000_0000_0000,
    ;
}

/// Cell and offset along one axis.
fn locate(t: Frac, size: u32) -> (r: (u32, i128))
    requires
        t.small(),
        size >= 1,
    ensures
        r.0 == axis_cell(t, size),
        r.1 == axis_offset(t, size),
{
    proof {
        lemma_axis_bounds(t, size);
    }
    let at: i128 = t.num * ((size - 1) as i128);
    let last: u32 = if size >= 2 {
        size - 2
    } else {
        0
    };
    let cell: u32 = if at < 0 {
        0
    } else {
        let c: i128 = at / t.den;
        if c < last as i128 {
            c as u32
        } else {
            last
        }
    };
    (cell, at - (cell as i128) * t.den)
}

/// How a grid is read at `(u, v)`.
pub fn sample_elevation_bilinear(len: usize, width: u32, height: u32, u: Frac, v: Frac) -> (s:
    Stencil)
    requires
        width >= 1,
        height >= 1,
        width * height <= u32::MAX,
        u.small(),
        v.small(),
    ensures
        s == stencil_at(len, width, height, u, v),
{
    let (ix, fx) = locate(u, width);
    let (iy, fy) = locate(v, height);
    proof {
        lemma_axis_bounds(u, width);
        lemma_axis_bounds(v, height);
        assert(iy * width + ix < width * height) by (nonlinear_arith)
            requires
                0 <= iy < height,
                0 <= ix < width,
        ;
        assert(0 <= iy * width) by (nonlinear_arith)
            requires
                0 <= iy,
                0 <= width,
        ;
    }
    let i00: u64 = iy as u64 * width as u64 + ix as u64;
    let i11: u64 = i00 + width as u64 + 1;
    if i11 < len as u64 {
        Stencil::Quad {
            i00: i00 as usize,
            i10: (i00 + 1) as usize,
            i01: (i00 + width as u64) as usize,
            i11: i11 as usize,
            fx: Frac { num: fx, den: u.den },
            fy: Frac { num: fy, den: v.den },
        }
    } else if len > 0 {
        Stencil::Single {
            index: if i00 < len as u64 {
                i00 as usize
            } else {
                len - 1
            },
        }
    } else {
        Stencil::Zero
    }
}

/// Inside the unit square the offsets lie between the cell's corners, and all cells read are
/// there.
pub proof fn law_stencil_inside(len: usize, width: u32, height: u32, u: Frac, v: Frac)
    requires
        width >= 2,
        height >= 2,
        u.small(),
        v.small(),
        0 <= u.num <= u.den,
        0 <= v.num <= v.den,
        width * height <= len,
        width * height <= u32::MAX,
    ensures
        match stencil_at(len, width, height, u, v) {
            Stencil::Quad { i00, i10, i01, i11, fx, fy } => {
                &&& 0 <= fx.num <= fx.den
                &&& 0 <= fy.num <= fy.den
                &&& i00 < i10 < len
                &&& i01 < i11 < len
            },
            _ => false,
        },
{
    lemma_axis_bounds(u, width);
    lemma_axis_bounds(v, height);
    let ix = axis_cell(u, width);
    let iy = axis_cell(v, height);
    assert(iy * width + ix + width + 1 < width * height) by (nonlinear_arith)
        requires
            0 <= iy <= height - 2,
            0 <= ix <= width - 2,
    ;
    assert(0 <= iy * width) by (nonlinear_arith)
        requires
            0 <= iy,
            0 <= width,
    ;
    lemma_offset_inside(u, width);
    lemma_offset_inside(v, height);
}

proof fn lemma_offset_inside(t: Frac, size: u32)
    requires
        size >= 2,
        t.small(),
        0 <= t.num <= t.den,
    ensures
        0 <= axis_offset(t, size) <= t.den,
{
    lemma_axis_bounds(t, size);
    let n = size - 1;
    let d = t.den as int;
    let at = t.num * n;
    assert(0 <= at <= d * n) by (nonlinear_arith)
        requires
            0 <= t.num <= d,
            n >= 1,
            at == t.num * n,
    ;
    vstd::arithmetic::div_mod::lemma_fundamental_div_mod(at, d);
    let q = at / d;
    if q < size - 2 {
        assert(q * d == d * q) by (nonlinear_arith);
    } else {
        assert(axis_cell(t, size) == size - 2);
        assert(at - (size - 2) * d <= d) by (nonlinear_arith)
            requires
                at <= d * n,
                n == size - 1,
        ;
        assert(at >= (size - 2) * d) by (nonlinear_arith)
            requires
                q >= size - 2,
                at == d * q + at % d,
                at % d >= 0,
                d >= 1,
        ;
    }
}

/// The four weights of a stencil add up to one, so a constant grid reads as that constant.
pub proof fn law_weights_sum(fx: Frac, fy: Frac)
    ensures
        (fx.den - fx.num) * (fy.den - fy.num) + fx.num * (fy.den - fy.num) + (fx.den - fx.num)
            * fy.num + fx.num * fy.num == fx.den * fy.den,
{
    assert((fx.den - fx.num) * (fy.den - fy.num) + fx.num * (fy.den - fy.num) + (fx.den - fx.num)
        * fy.num + fx.num * fy.num == fx.den * fy.den) by (nonlinear_arith);
}

/// The corners of the unit square read the corners of the grid: the interpolation gives them
/// their full weight.
pub proof fn law_stencil_corners(size: u32, den: i128)
    requires
        size >= 2,
        (Frac { num: 0, den }).small(),
        (Frac { num: den, den }).small(),
    ensures
        axis_cell(Frac { num: 0, den }, size) == 0,
        axis_offset(Frac { num: 0, den }, size) == 0,
        axis_cell(Frac { num: den, den }, size) == size - 2,
        axis_offset(Frac { num: den, den }, size) == den,
{
    let d = den as int;
    let n = size - 1;
    assert(0 * n == 0) by (nonlinear_arith);
    assert(0int / d == 0) by (nonlinear_arith)
        requires
            d >= 1,
    ;
    assert((d * n) / d == n) by (nonlinear_arith)
        requires
            d >= 1,
    ;
    assert(d * n - (n - 1) * d == d) by (nonlinear_arith);
}

/// The position of grid step `g` out of `steps` along the horizontal extent of a texture
/// rectangle.
pub open spec fn rect_u(r: UvRect, g: int, steps: u32) -> Frac {
    Frac {
        num: (r.u_min * steps + g * (r.u_max - r.u_min)) as i128,
        den: (r.scale * steps) as i128,
    }
}

/// The same along the vertical extent.
pub open spec fn rect_v(r: UvRect, g: int, steps: u32) -> Frac {
    Frac {
        num: (r.v_min * steps + g * (r.v_max - r.v_min)) as i128,
        den: (r.scale * steps) as i128,
    }
}

/// A grid position along an extent `lo..hi` over `scale`.
fn step_along(lo: i64, hi: i64, scale: u32, g: u32, steps: u32) -> (t: Frac)
    requires
        scale >= 1,
        1 <= steps <= 1024,
        g <= steps,
    ensures
        t.num == lo * steps + g * (hi - lo),
        t.den == scale * steps,
        t.small(),
{
    assert(-0x200_0000_0000_0000_0000 <= lo * steps <= 0x200_0000_0000_0000_0000) by (nonlinear_arith)
        requires
            -0x8000_0000_0000_0000 <= lo <= 0x7fff_ffff_ffff_ffff,
            1 <= steps <= 1024,
    ;
    let span: i128 = hi as i128 - lo as i128;
    assert(-0x400_0000_0000_0000_0000 <= g * span <= 0x400_0000_0000_0000_0000) by (nonlinear_arith)
        requires
            -0x1_0000_0000_0000_0000 <= span <= 0x1_0000_0000_0000_0000,
            0 <= g <= 1024,
    ;
    assert(1 <= scale * steps <= 0x400_0000_0000) by (nonlinear_arith)
        requires
            1 <= scale <= 0xffff_ffff,
            1 <= steps <= 1024,
    ;
    Frac { num: lo as i128 * steps as i128 + g as i128 * span, den: scale as i128 * steps as i128 }
}

/// The stencil with which the vertex in column `gx` and row `gy` of a grid of `steps` cells
/// reads an elevation grid through a texture rectangle.
pub open spec fn vertex_stencil(
    len: usize,
    width: u32,
    height: u32,
    r: UvRect,
    steps: u32,
    gx: int,
    gy: int,
) -> Stencil {
    stencil_at(len, width, height, rect_u(r, gx, steps), rect_v(r, gy, steps))
}

/// [`vertex_stencil`] for all vertices, row by row.
pub open spec fn grid_stencils(
    len: usize,
    width: u32,
    height: u32,
    r: UvRect,
    steps: u32,
) -> Seq<Stencil> {
    Seq::new(
        ((steps + 1) * (steps + 1)) as nat,
        |i: int| vertex_stencil(len, width, height, r, steps, i % (steps + 1), i / (steps + 1)),
    )
}

/// The stencils of all vertices of a grid of `steps` cells.
pub fn sample_grid(len: usize, width: u32, height: u32, r: UvRect, steps: u32) -> (out: Vec<
    Stencil,
>)
    requires
        width >= 1,
        height >= 1,
        width * height <= u32::MAX,
        r.scale >= 1,
        1 <= steps <= 1024,
    ensures
        out@ == grid_stencils(len, width, height, r, steps),
{
    let ghost target = grid_stencils(len, width, height, r, steps);
    let side: u32 = steps + 1;
    assert((steps + 1) * (steps + 1) <= 1025 * 1025) by (nonlinear_arith)
        requires
            1 <= steps <= 1024,
    ;
    let mut out: Vec<Stencil> = Vec::new();
    let mut gy: u32 = 0;
    let ghost mut k: int = 0;
    while gy < side
        invariant
            width >= 1,
            height >= 1,
            width * height <= u32::MAX,
            r.scale >= 1,
            1 <= steps <= 1024,
            side == steps + 1,
            gy <= side,
            k == gy * side,
            target == grid_stencils(len, width, height, r, steps),
            out@ == target.take(k),
        decreases side - gy,
    {
        let v = step_along(r.v_min, r.v_max, r.scale, gy, steps);
        proof {
            assert((gy + 1) * side <= side * side && (gy + 1) * side == gy * side + side) by (nonlinear_arith)
                requires
                    gy + 1 <= side,
            ;
        }
        let mut gx: u32 = 0;
        while gx < side
            invariant
                width >= 1,
                height >= 1,
                width * height <= u32::MAX,
                r.scale >= 1,
                1 <= steps <= 1024,
                side == steps + 1,
                gy < side,
                gx <= side,
                k == gy * side + gx,
                gy * side + side <= side * side,
                v.num == r.v_min * steps + gy * (r.v_max - r.v_min),
                v.den == r.scale * steps,
                v.small(),
                target == grid_stencils(len, width, height, r, steps),
                out@ == target.take(k),
            decreases side - gx,
        {
            let u = step_along(r.u_min, r.u_max, r.scale, gx, steps);
            out.push(sample_elevation_bilinear(len, width, height, u, v));
            proof {
                vstd::arithmetic::div_mod::lemma_fundamental_div_mod_converse(
                    k,
                    side as int,
                    gy as int,
                    gx as int,
                );
                assert(u == rect_u(r, gx as int, steps));
                assert(v == rect_v(r, gy as int, steps));
                assert(target[k] == out@[k]);
                assert(out@ =~= target.take(k + 1));
                k = k + 1;
            }
            gx = gx + 1;
        }
        gy = gy + 1;
    }
    assert(target.take(k) =~= target);
    out
}

/// A neighbour of a grid vertex: the vertex itself, or the mirror image across the center of
/// the vertex on the other side where the grid ends.
#[derive(Debug, Clone, Copy, PartialEq, Eq, Structural)]
pub enum Neighbour {
    At { index: usize },
    Mirrored { index: usize },
}

/// The four neighbours from which a vertex normal is computed.
#[derive(Debug, Clone, Copy, PartialEq, Eq, Structural)]
pub struct NormalStencil {
    pub left: Neighbour,
    pub right: Neighbour,
    pub up: Neighbour,
    pub down: Neighbour,
}

/// The neighbours of the vertex in column `gx` and row `gy` of a grid with `side` vertices
/// per side.
pub open spec fn normal_stencil_at(gx: int, gy: int, side: int) -> NormalStencil {
    let i = gy * side + gx;
    NormalStencil {
        left: if gx > 0 {
            Neighbour::At { index: (i - 1) as usize }
        } else {
            Neighbour::Mirrored { index: (i + 1) as usize }
        },
        right: if gx + 1 < side {
            Neighbour::At { index: (i + 1) as usize }
        } else {
            Neighbour::Mirrored { index: (i - 1) as usize }
        },
        up: if gy > 0 {
            Neighbour::At { index: (i - side) as usize }
        } else {
            Neighbour::Mirrored { index: (i + side) as usize }
        },
        down: if gy + 1 < side {
            Neighbour::At { index: (i + side) as usize }
        } else {
            Neighbour::Mirrored { index: (i - side) as usize }
        },
    }
}

/// The neighbours from which the normal of a grid vertex is computed.
pub fn normal_stencil(gx: usize, gy: usize, side: usize) -> (s: NormalStencil)
    requires
        2 <= side <= 1025,
        gx < side,
        gy < side,
    ensures
        s == normal_stencil_at(gx as int, gy as int, side as int),
{
    assert(0 <= gy * side <= (side - 1) * side && (side - 1) * side + side == side * side && side
        * side <= 1025 * 1025) by (nonlinear_arith)
        requires
            0 <= gy <= side - 1,
            2 <= side <= 1025,
    ;
    if gy > 0 {
        assert(gy * side >= side) by (nonlinear_arith)
            requires
                gy >= 1,
                side >= 0,
        ;
    }
    let i: usize = gy * side + gx;
    NormalStencil {
        left: if gx > 0 {
            Neighbour::At { index: i - 1 }
        } else {
            Neighbour::Mirrored { index: i + 1 }
        },
        right: if gx + 1 < side {
            Neighbour::At { index: i + 1 }
        } else {
            Neighbour::Mirrored { index: i - 1 }
        },
        up: if gy > 0 {
            Neighbour::At { index: i - side }
        } else {
            Neighbour::Mirrored { index: i + side }
        },
        down: if gy + 1 < side {
            Neighbour::At { index: i + side }
        } else {
            Neighbour::Mirrored { index: i - side }
        },
    }
}

/// The vertex that a neighbour refers to.
pub open spec fn neighbour_index(n: Neighbour) -> usize {
    match n {
        Neighbour::At { index } => index,
        Neighbour::Mirrored { index } => index,
    }
}

/// Every neighbour is a vertex of the grid other than the vertex itself.
pub proof fn law_normal_stencil(gx: int, gy: int, side: int)
    requires
        2 <= side <= 1025,
        0 <= gx < side,
        0 <= gy < side,
    ensures
        ({
            let s = normal_stencil_at(gx, gy, side);
            let i = gy * side + gx;
            &&& neighbour_index(s.left) < side * side && neighbour_index(s.left) != i
            &&& neighbour_index(s.right) < side * side && neighbour_index(s.right) != i
            &&& neighbour_index(s.up) < side * side && neighbour_index(s.up) != i
            &&& neighbour_index(s.down) < side * side && neighbour_index(s.down) != i
        }),
{
    assert(0 <= gy * side <= (side - 1) * side && (side - 1) * side + side == side * side && side
        * side <= 1025 * 1025) by (nonlinear_arith)
        requires
            0 <= gy <= side - 1,
            2 <= side <= 1025,
    ;
    if gy > 0 {
        assert(gy * side >= side) by (nonlinear_arith)
            requires
                gy >= 1,
                side >= 0,
        ;
    }
    if gy + 1 < side {
        assert(gy * side + side <= (side - 1) * side) by (nonlinear_arith)
            requires
                gy + 1 <= side - 1,
                side >= 0,
        ;
    }
}

/// Inside a complete grid a position is read between the four samples around it: the sample to
/// the left and above, and the offsets from it, add up to the position.
pub proof fn law_stencil_position(len: usize, width: u32, height: u32, u: Frac, v: Frac)
    requires
        width >= 2,
        height >= 2,
        u.small(),
        v.small(),
        0 <= u.num <= u.den,
        0 <= v.num <= v.den,
        width * height <= len,
        width * height <= u32::MAX,
    ensures
        stencil_at(len, width, height, u, v) matches Stencil::Quad { i00, i10, i01, i11, fx, fy } && {
            let col = i00 as int % width as int;
            let row = i00 as int / width as int;
            &&& i10 == i00 + 1
            &&& i01 == i00 + width
            &&& i11 == i01 + 1
            &&& col < width - 1
            &&& row < height - 1
            &&& fx.den == u.den
            &&& fy.den == v.den
            &&& col * u.den + fx.num == u.num * (width - 1)
            &&& row * v.den + fy.num == v.num * (height - 1)
        },
{
    law_stencil_inside(len, width, height, u, v);
    lemma_axis_bounds(u, width);
    lemma_axis_bounds(v, height);
    let ax = axis_cell(u, width);
    let ay = axis_cell(v, height);
    vstd::arithmetic::div_mod::lemma_fundamental_div_mod_converse(
        ay * width + ax,
        width as int,
        ay,
        ax,
    );
    law_axis_inside(u, width);
    law_axis_inside(v, height);
}

/// A position of an axis lies in its cell: at most one sample beyond where that starts.
pub proof fn law_axis_inside(t: Frac, size: u32)
    requires
        size >= 2,
        t.small(),
        0 <= t.num <= t.den,
    ensures
        0 <= axis_cell(t, size) <= size - 2,
        0 <= axis_offset(t, size) <= t.den,
        axis_cell(t, size) * t.den + axis_offset(t, size) == t.num * (size - 1),
{
    lemma_axis_bounds(t, size);
    lemma_offset_inside(t, size);
}

/// Stepping through a texture rectangle goes evenly from its lower to its upper bound.
pub proof fn law_rect_steps(r: UvRect, g: int, steps: u32)
    requires
        0 <= g <= steps <= MAX_STEPS,
        r.scale >= 1,
    ensures
        rect_u(r, g, steps).num == r.u_min * (steps - g) + r.u_max * g,
        rect_v(r, g, steps).num == r.v_min * (steps - g) + r.v_max * g,
        rect_u(r, g, steps).den == r.scale * steps,
        rect_v(r, g, steps).den == r.scale * steps,
{
    lemma_mix(r.u_min as int, r.u_max as int, g, steps as int);
    lemma_mix(r.v_min as int, r.v_max as int, g, steps as int);
    lemma_part(r.scale as int, steps as int);
}

proof fn lemma_mix(lo: int, hi: int, g: int, steps: int)
    requires
        0 <= g <= steps <= MAX_STEPS,
        -0x8000_0000_0000_0000 <= lo <= 0x7fff_ffff_ffff_ffff,
        -0x8000_0000_0000_0000 <= hi <= 0x7fff_ffff_ffff_ffff,
    ensures
        lo * steps + g * (hi - lo) == lo * (steps - g) + hi * g,
        i128::MIN <= lo * steps + g * (hi - lo) <= i128::MAX,
{
    vstd::arithmetic::mul::lemma_mul_is_distributive_sub(g, hi, lo);
    vstd::arithmetic::mul::lemma_mul_is_distributive_sub(lo, steps, g);
    vstd::arithmetic::mul::lemma_mul_is_commutative(g, hi);
    vstd::arithmetic::mul::lemma_mul_is_commutative(g, lo);
    lemma_part(lo, steps - g);
    lemma_part(hi, g);
}

proof fn lemma_part(x: int, k: int)
    requires
        0 <= k <= MAX_STEPS,
        -0x8000_0000_0000_0000 <= x <= 0x7fff_ffff_ffff_ffff,
    ensures
        -0x8000_0000_0000_0000 * 1024 <= x * k <= 0x8000_0000_0000_0000 * 1024,
{
    vstd::arithmetic::mul::lemma_mul_inequality(x, 0x7fff_ffff_ffff_ffff, k);
    vstd::arithmetic::mul::lemma_mul_inequality(-0x8000_0000_0000_0000, x, k);
}

/// Most cells per side that positions are stepped through in.
pub const MAX_STEPS: u32 = 1024;

/// Each vertex of a grid reads the elevation at its own place: columns across, rows down.
pub proof fn law_grid_reads(
    len: usize,
    width: u32,
    height: u32,
    r: UvRect,
    steps: u32,
    col: int,
    row: int,
)
    requires
        0 <= col <= steps,
        0 <= row <= steps,
    ensures
        grid_stencils(len, width, height, r, steps).len() == (steps + 1) * (steps + 1),
        grid_stencils(len, width, height, r, steps)[row * (steps + 1) + col] == stencil_at(
            len,
            width,
            height,
            rect_u(r, col, steps),
            rect_v(r, row, steps),
        ),
{
    let side = steps + 1;
    vstd::arithmetic::div_mod::lemma_fundamental_div_mod_converse(row * side + col, side, row, col);
    assert(0 <= row * side + col < side * side) by (nonlinear_arith)
        requires
            0 <= col < side,
            0 <= row < side,
    ;
}

/// A normal is computed from the four vertices next to its own. Beyond the border the opposite
/// neighbour stands in, mirrored.
pub proof fn law_normal_neighbours(gx: int, gy: int, side: int)
    requires
        2 <= side <= 1025,
        0 <= gx < side,
        0 <= gy < side,
    ensures
        ({
            let s = normal_stencil_at(gx, gy, side);
            let i = gy * side + gx;
            &&& gx > 0 ==> (s.left matches Neighbour::At { index } && index == i - 1)
            &&& gx < side - 1 ==> (s.right matches Neighbour::At { index } && index == i + 1)
            &&& gy > 0 ==> (s.up matches Neighbour::At { index } && index == i - side)
            &&& gy < side - 1 ==> (s.down matches Neighbour::At { index } && index == i + side)
            &&& gx == 0 ==> s.left is Mirrored && neighbour_index(s.left) == neighbour_index(s.right)
            &&& gx == side - 1 ==> s.right is Mirrored && neighbour_index(s.right)
                == neighbour_index(s.left)
            &&& gy == 0 ==> s.up is Mirrored && neighbour_index(s.up) == neighbour_index(s.down)
            &&& gy == side - 1 ==> s.down is Mirrored && neighbour_index(s.down)
                == neighbour_index(s.up)
        }),
{
    law_normal_stencil(gx, gy, side);
    let i = gy * side + gx;
    assert(0 <= gy * side <= 1025 * 1025) by (nonlinear_arith)
        requires
            0 <= gy < side <= 1025,
    ;
    if gy > 0 {
        assert(gy * side >= side) by (nonlinear_arith)
            requires
                gy >= 1,
                side >= 0,
        ;
    }
}

} // verus!
