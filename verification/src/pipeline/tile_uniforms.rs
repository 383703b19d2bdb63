//! Stand-in textures: which ancestor's texture a tile shows, and which part of it.

use crate::collections::TileSet;
use crate::scalar::Real32;
use crate::sequences::{gather, lemma_gather_contains, lemma_gather_sources};
use crate::tile::{
    children_of, covers, law_covers_contains, law_nearest, law_up_address, lemma_pow2_below_32, level_extent,
    member, nearest, nearest_depth, parent_of, up, TileCoord, VisibleTile,
};
use vstd::arithmetic::power2::{lemma_pow2_unfold, pow2};
use vstd::prelude::*;

verus! {

/// A rectangle of texture space. Its corners are `(u_min, v_min)` and `(u_max, v_max)`,
/// each divided by `scale`.
#[derive(Debug, Clone, Copy, PartialEq, Eq, Structural)]
pub struct UvRect {
    pub u_min: i64,
    pub v_min: i64,
    pub u_max: i64,
    pub v_max: i64,
    pub scale: u32,
}

/// A tile ready for rendering, with its texture source.
#[derive(Debug, Clone, Copy, PartialEq, Eq, Structural)]
pub struct RenderableTile {
    /// The tile that is drawn.
    pub coord: TileCoord,
    /// The tile whose texture is used, itself or an ancestor.
    pub texture_coord: TileCoord,
    /// The part of that texture.
    pub uv_rect: UvRect,
    /// Unwrapped column for placement.
    pub display_x: i64,
}

impl UvRect {
    /// The whole texture.
    #[verifier::allow_in_spec]
    pub fn full() -> UvRect
        returns
            (UvRect { u_min: 0, v_min: 0, u_max: 1, v_max: 1, scale: 1 }),
    {
        UvRect { u_min: 0, v_min: 0, u_max: 1, v_max: 1, scale: 1 }
    }
}

/// How many times level `to` is finer than level `from`; 1 when it is not.
pub open spec fn refinement(from: u8, to: u8) -> int {
    if to > from {
        pow2((to - from) as nat) as int
    } else {
        1
    }
}

/// The area of `tile` in the texture of `ancestor`: tile and ancestor on the same level share
/// the whole texture; otherwise positions are measured in cells of the finer of both levels,
/// relative to the ancestor's corner.
pub open spec fn uv_rect_of(tile: TileCoord, ancestor: TileCoord) -> UvRect {
    if tile.z == ancestor.z {
        UvRect::full()
    } else {
        let fine = refinement(ancestor.z, tile.z);
        let coarse = refinement(tile.z, ancestor.z);
        UvRect {
            u_min: (tile.x * coarse - ancestor.x * fine) as i64,
            v_min: (tile.y * coarse - ancestor.y * fine) as i64,
            u_max: ((tile.x + 1) * coarse - ancestor.x * fine) as i64,
            v_max: ((tile.y + 1) * coarse - ancestor.y * fine) as i64,
            scale: fine as u32,
        }
    }
}

fn compute_refinement(from: u8, to: u8) -> (r: u32)
    requires
        from < 32,
        to < 32,
    ensures
        r == refinement(from, to),
        1 <= r <= 0x8000_0000,
{
    if to > from {
        proof {
            lemma_pow2_below_32((to - from) as nat);
        }
        level_extent(to - from)
    } else {
        1
    }
}

/// The part of `ancestor`'s texture that corresponds to the area of `tile`.
pub fn fallback_uv_rect(tile: &TileCoord, ancestor: &TileCoord) -> (r: UvRect)
    requires
        tile.z != ancestor.z ==> tile.z < 32 && ancestor.z < 32 && tile.x < u32::MAX && tile.y
            < u32::MAX,
    ensures
        r == uv_rect_of(*tile, *ancestor),
        tile.z != ancestor.z ==> ({
            let fine = refinement(ancestor.z, tile.z);
            let coarse = refinement(tile.z, ancestor.z);
            &&& r.u_min == tile.x * coarse - ancestor.x * fine
            &&& r.v_min == tile.y * coarse - ancestor.y * fine
            &&& r.u_max == (tile.x + 1) * coarse - ancestor.x * fine
            &&& r.v_max == (tile.y + 1) * coarse - ancestor.y * fine
            &&& r.scale == fine
        }),
{
    if tile.z == ancestor.z {
        return UvRect::full();
    }
    let fine: u32 = compute_refinement(ancestor.z, tile.z);
    let coarse: u32 = compute_refinement(tile.z, ancestor.z);
    proof {
        lemma_small_product(tile.x as int, coarse as int);
        lemma_small_product(tile.y as int, coarse as int);
        lemma_small_product(tile.x + 1, coarse as int);
        lemma_small_product(tile.y + 1, coarse as int);
        lemma_small_product(ancestor.x as int, fine as int);
        lemma_small_product(ancestor.y as int, fine as int);
    }
    let ax: i64 = ancestor.x as i64 * fine as i64;
    let ay: i64 = ancestor.y as i64 * fine as i64;
    UvRect {
        u_min: tile.x as i64 * coarse as i64 - ax,
        v_min: tile.y as i64 * coarse as i64 - ay,
        u_max: (tile.x as i64 + 1) * coarse as i64 - ax,
        v_max: (tile.y as i64 + 1) * coarse as i64 - ay,
        scale: fine,
    }
}

proof fn lemma_small_product(a: int, b: int)
    requires
        0 <= a <= u32::MAX,
        0 <= b <= 0x8000_0000,
    ensures
        0 <= a * b <= 0x7fff_ffff_8000_0000,
{
    assert(0 <= a * b <= 0x7fff_ffff_8000_0000) by (nonlinear_arith)
        requires
            0 <= a <= 0xffff_ffff,
            0 <= b <= 0x8000_0000,
    ;
}

/// What visible tile `v` shows: its own texture or that of its nearest ancestor with one.
pub open spec fn resolved(v: VisibleTile, available: Set<TileCoord>) -> Option<RenderableTile> {
    match nearest(v.coord, member(available)) {
        Some(t) => Some(
            RenderableTile {
                coord: v.coord,
                texture_coord: t,
                uv_rect: uv_rect_of(v.coord, t),
                display_x: v.display_x,
            },
        ),
        None => None,
    }
}

/// [`resolved`] by position.
pub open spec fn resolved_at(visible: Seq<VisibleTile>, available: Set<TileCoord>) -> spec_fn(
    int,
) -> Option<RenderableTile> {
    |i: int| resolved(visible[i], available)
}

/// What the visible tiles show, in order; tiles without any texture are left out.
pub open spec fn resolved_tiles(
    visible: Seq<VisibleTile>,
    available: Set<TileCoord>,
) -> Seq<RenderableTile> {
    gather(visible.len(), resolved_at(visible, available))
}

/// Addresses small enough that their texture areas can be expressed.
pub open spec fn addressable(visible: Seq<VisibleTile>) -> bool {
    forall|i: int|
        0 <= i < visible.len() ==> (#[trigger] visible[i]).coord.z < 32 && visible[i].coord.x
            < u32::MAX && visible[i].coord.y < u32::MAX
}

/// The nearest member of a set on the path from a tile to the root, the tile included.
pub fn find_nearest(t: TileCoord, set: &TileSet) -> (r: Option<TileCoord>)
    ensures
        r == nearest(t, member(set@)),
{
    let ghost p = member(set@);
    let mut cur = t;
    let ghost mut k: nat = 0;
    loop
        invariant
            p == member(set@),
            k + cur.z == t.z,
            cur == up(t, k),
            match nearest_depth(cur, p) {
                Some(d) => nearest_depth(t, p) == Some(k + d),
                None => nearest_depth(t, p) is None,
            },
        decreases cur.z,
    {
        if set.contains(&cur) {
            return Some(cur);
        }
        assert(!p(cur));
        match cur.parent() {
            Some(q) => {
                proof {
                    crate::tile::law_up_composes(t, k, 1);
                    reveal_with_fuel(up, 2);
                    k = k + 1;
                }
                cur = q;
            },
            None => {
                return None;
            },
        }
    }
}

/// Resolve visible tiles to renderable ones with stand-in textures.
pub fn resolve_fallbacks(visible: &[VisibleTile], available: &TileSet) -> (r: Vec<RenderableTile>)
    requires
        addressable(visible@),
    ensures
        r@ == resolved_tiles(visible@, available@),
{
    let ghost rule = resolved_at(visible@, available@);
    let mut r: Vec<RenderableTile> = Vec::new();
    let mut i: usize = 0;
    while i < visible.len()
        invariant
            i <= visible@.len(),
            addressable(visible@),
            rule == resolved_at(visible@, available@),
            r@ == gather(i as nat, rule),
        decreases visible@.len() - i,
    {
        let v = visible[i];
        match find_nearest(v.coord, available) {
            Some(t) => {
                proof {
                    lemma_nearest_covers(v.coord, member(available@));
                }
                r.push(
                    RenderableTile {
                        coord: v.coord,
                        texture_coord: t,
                        uv_rect: fallback_uv_rect(&v.coord, &t),
                        display_x: v.display_x,
                    },
                );
            },
            None => {},
        }
        assert(r@ =~= gather((i + 1) as nat, rule));
        i = i + 1;
    }
    r
}

/// The nearest match covers the tile it was searched for.
pub proof fn lemma_nearest_covers(t: TileCoord, p: spec_fn(TileCoord) -> bool)
    ensures
        match nearest(t, p) {
            Some(a) => covers(a, t) && p(a) && a.z <= t.z,
            None => true,
        },
{
    law_nearest(t, p);
    match nearest_depth(t, p) {
        Some(d) => {
            law_up_address(t, d);
        },
        None => {},
    }
}

/// The texture area of a covered tile lies inside the texture and is a square cell of the
/// refinement: one part in `scale` along each axis.
pub proof fn law_uv_inside(tile: TileCoord, ancestor: TileCoord)
    requires
        covers(ancestor, tile),
        tile.z < 32,
    ensures
        ({
            let r = uv_rect_of(tile, ancestor);
            &&& r.scale == pow2((tile.z - ancestor.z) as nat)
            &&& 0 <= r.u_min < r.u_max <= r.scale
            &&& 0 <= r.v_min < r.v_max <= r.scale
            &&& r.u_max - r.u_min == 1
            &&& r.v_max - r.v_min == 1
        }),
{
    if tile.z == ancestor.z {
        vstd::arithmetic::power2::lemma2_to64();
    } else {
        let k = (tile.z - ancestor.z) as nat;
        law_covers_contains(ancestor, tile);
        lemma_pow2_below_32(k);
        let m = pow2(k) as int;
        assert((ancestor.x + 1) * m == ancestor.x * m + m) by (nonlinear_arith);
        assert((ancestor.y + 1) * m == ancestor.y * m + m) by (nonlinear_arith);
    }
}

/// The four children of a tile split its texture into quarters: each shows the half that
/// its own column and row say.
pub proof fn law_uv_children(parent: TileCoord, child: TileCoord)
    requires
        child.z < 32,
        child.z > 0,
        parent_of(child) == parent,
    ensures
        uv_rect_of(child, parent) == (UvRect {
            u_min: (child.x % 2) as i64,
            v_min: (child.y % 2) as i64,
            u_max: (child.x % 2 + 1) as i64,
            v_max: (child.y % 2 + 1) as i64,
            scale: 2,
        }),
{
    assert(pow2(1) == 2) by {
        vstd::arithmetic::power2::lemma2_to64();
    }
    let r = uv_rect_of(child, parent);
    assert(child.x as int * 1 - parent.x as int * 2 == child.x % 2) by (nonlinear_arith)
        requires
            parent.x == child.x / 2,
    ;
    assert(child.y as int * 1 - parent.y as int * 2 == child.y % 2) by (nonlinear_arith)
        requires
            parent.y == child.y / 2,
    ;
}

/// Every rendered tile is a visible one, shown at its own place with an available texture:
/// its own, and then all of it, whenever that is available, and otherwise that of the nearest
/// ancestor that has one.
pub proof fn law_resolved(visible: Seq<VisibleTile>, available: Set<TileCoord>, k: int)
    requires
        0 <= k < resolved_tiles(visible, available).len(),
    ensures
        ({
            let r = resolved_tiles(visible, available)[k];
            &&& exists|i: int|
                0 <= i < visible.len() && (#[trigger] visible[i]).coord == r.coord
                    && visible[i].display_x == r.display_x
            &&& available.contains(r.texture_coord)
            &&& covers(r.texture_coord, r.coord)
            &&& available.contains(r.coord) ==> r.texture_coord == r.coord && r.uv_rect
                == UvRect::full()
            &&& forall|a: TileCoord|
                #![trigger available.contains(a)]
                available.contains(a) && covers(a, r.coord) ==> a.z <= r.texture_coord.z
        }),
{
    let rule = resolved_at(visible, available);
    let r = resolved_tiles(visible, available)[k];
    assert(resolved_tiles(visible, available).contains(r));
    lemma_gather_contains(visible.len(), rule, r);
    let i = choose|i: int| 0 <= i < visible.len() && #[trigger] rule(i) == Some(r);
    assert(visible[i].coord == r.coord);
    let p = member(available);
    lemma_nearest_covers(r.coord, p);
    law_nearest(r.coord, p);
    let d = nearest_depth(r.coord, p).unwrap();
    law_up_address(r.coord, d);
    assert forall|a: TileCoord|
        #![trigger available.contains(a)]
        available.contains(a) && covers(a, r.coord) implies a.z <= r.texture_coord.z by {
        let j = (r.coord.z - a.z) as nat;
        assert(p(up(r.coord, j)));
        assert(j >= d);
    }
}

/// Exactly the visible tiles with an available texture on their path to the root are
/// rendered, in the order of the visible list.
pub proof fn law_resolved_complete(visible: Seq<VisibleTile>, available: Set<TileCoord>) -> (src:
    Seq<int>)
    ensures
        src.len() == resolved_tiles(visible, available).len(),
        forall|k: int|
            0 <= k < src.len() ==> 0 <= #[trigger] src[k] < visible.len() && resolved_tiles(
                visible,
                available,
            )[k].coord == visible[src[k]].coord,
        forall|a: int, b: int| 0 <= a < b < src.len() ==> #[trigger] src[a] < #[trigger] src[b],
        forall|i: int|
            0 <= i < visible.len() && (exists|a: TileCoord| #[trigger]
                available.contains(a) && covers(a, (#[trigger] visible[i]).coord))
                ==> exists|k: int|
                0 <= k < resolved_tiles(visible, available).len() && #[trigger] resolved_tiles(
                    visible,
                    available,
                )[k].coord == visible[i].coord,
{
    let rule = resolved_at(visible, available);
    let src = lemma_gather_sources(visible.len(), rule);
    assert forall|k: int| 0 <= k < src.len() implies 0 <= #[trigger] src[k] < visible.len()
        && resolved_tiles(visible, available)[k].coord == visible[src[k]].coord by {
        assert(rule(src[k]) == Some(resolved_tiles(visible, available)[k]));
    }
    assert forall|i: int|
        0 <= i < visible.len() && (exists|a: TileCoord| #[trigger]
            available.contains(a) && covers(a, (#[trigger] visible[i]).coord)) implies exists|
        k: int,
    |
        0 <= k < resolved_tiles(visible, available).len() && #[trigger] resolved_tiles(
            visible,
            available,
        )[k].coord == visible[i].coord by {
        let t = visible[i].coord;
        let a = choose|a: TileCoord| #[trigger] available.contains(a) && covers(a, t);
        let p = member(available);
        law_nearest(t, p);
        assert(p(up(t, (t.z - a.z) as nat)));
        let r = rule(i).unwrap();
        assert(rule(i) == Some(r));
        lemma_gather_contains(visible.len(), rule, r);
        let all = resolved_tiles(visible, available);
        let k = choose|k: int| 0 <= k < all.len() && all[k] == r;
        assert(all[k].coord == t);
    }
    src
}

/// The part of the Mercator plane that a tile is drawn on: its corners are `(min_x, min_y)` and
/// `(max_x, max_y)`, each divided by `extent`, the number of tiles along the tile's level. The
/// world spans `0..=1` along both axes.
#[derive(Debug, Clone, Copy, PartialEq, Eq, Structural)]
pub struct TileBounds {
    pub min_x: i64,
    pub min_y: i64,
    pub max_x: i64,
    pub max_y: i64,
    pub extent: u32,
}

/// What a tile's shader is told, besides the matrix that places the tile's center.
#[derive(Debug, Clone, Copy, PartialEq, Eq, Structural)]
pub struct TileUniforms {
    pub bounds: TileBounds,
    pub zoom: u8,
    pub opacity: Real32,
    pub uv_rect: UvRect,
}

/// The bounds of a tile shown in column `display_x`.
pub open spec fn bounds_of(coord: TileCoord, display_x: int) -> TileBounds {
    TileBounds {
        min_x: display_x as i64,
        min_y: coord.y as i64,
        max_x: (display_x + 1) as i64,
        max_y: (coord.y + 1) as i64,
        extent: pow2(coord.z as nat) as u32,
    }
}

/// What the shader of a tile is told.
pub open spec fn uniforms_of(rt: RenderableTile, opacity: Real32) -> TileUniforms {
    TileUniforms {
        bounds: bounds_of(rt.coord, rt.display_x as int),
        zoom: rt.coord.z,
        opacity,
        uv_rect: rt.uv_rect,
    }
}

/// Uniforms of a tile shown in its display column.
pub fn tile_uniforms_for_visible(rt: &RenderableTile, opacity: Real32) -> (u: TileUniforms)
    requires
        rt.coord.z < 32,
        rt.coord.y < u32::MAX,
        rt.display_x < i64::MAX,
    ensures
        u == uniforms_of(*rt, opacity),
{
    let bounds = TileBounds {
        min_x: rt.display_x,
        min_y: rt.coord.y as i64,
        max_x: rt.display_x + 1,
        max_y: rt.coord.y as i64 + 1,
        extent: rt.coord.extent(),
    };
    TileUniforms { bounds, zoom: rt.coord.z, opacity, uv_rect: rt.uv_rect }
}

/// Uniforms of a tile shown in its own column, with a part of a texture.
pub fn tile_uniforms_with_uv(coord: &TileCoord, opacity: Real32, uv_rect: UvRect) -> (u:
    TileUniforms)
    requires
        coord.z < 32,
        coord.x < u32::MAX,
        coord.y < u32::MAX,
    ensures
        u.bounds == bounds_of(*coord, coord.x as int),
        u.zoom == coord.z,
        u.opacity == opacity,
        u.uv_rect == uv_rect,
{
    let rt = RenderableTile {
        coord: *coord,
        texture_coord: *coord,
        uv_rect,
        display_x: coord.x as i64,
    };
    tile_uniforms_for_visible(&rt, opacity)
}

/// Uniforms of a tile shown in its own column, with the whole of its texture.
pub fn tile_uniforms(coord: &TileCoord, opacity: Real32) -> (u: TileUniforms)
    requires
        coord.z < 32,
        coord.x < u32::MAX,
        coord.y < u32::MAX,
    ensures
        u.bounds == bounds_of(*coord, coord.x as int),
        u.zoom == coord.z,
        u.opacity == opacity,
        u.uv_rect == UvRect::full(),
{
    tile_uniforms_with_uv(coord, opacity, UvRect::full())
}

/// A tile's four children are drawn on the four quarters of what it is drawn on.
pub proof fn law_bounds_children(t: TileCoord, k: int)
    requires
        t.in_level(),
        t.z < 31,
        0 <= k < 4,
    ensures
        ({
            let b = bounds_of(t, t.x as int);
            let child = children_of(t)[k];
            let c = bounds_of(child, child.x as int);
            &&& c.extent == 2 * b.extent
            &&& c.min_x == 2 * b.min_x + k % 2
            &&& c.min_y == 2 * b.min_y + k / 2
            &&& c.max_x == c.min_x + 1
            &&& c.max_y == c.min_y + 1
            &&& c.max_x <= 2 * b.max_x
            &&& c.max_y <= 2 * b.max_y
        }),
{
    lemma_pow2_unfold((t.z + 1) as nat);
    lemma_pow2_below_32(t.z as nat);
    lemma_pow2_below_32((t.z + 1) as nat);
}

/// A tile at its own place is drawn inside the world.
pub proof fn law_bounds_inside(t: TileCoord)
    requires
        t.in_level(),
    ensures
        ({
            let b = bounds_of(t, t.x as int);
            &&& 0 <= b.min_x < b.max_x <= b.extent
            &&& 0 <= b.min_y < b.max_y <= b.extent
        }),
{
    lemma_pow2_below_32(t.z as nat);
}

/// The part of an ancestor's texture that a tile shows begins as many of the tile's widths from
/// the ancestor's corner as the tile lies from it.
pub proof fn law_uv_offset(tile: TileCoord, ancestor: TileCoord)
    requires
        covers(ancestor, tile),
        tile.z < 32,
    ensures
        ({
            let r = uv_rect_of(tile, ancestor);
            let m = pow2((tile.z - ancestor.z) as nat);
            &&& r.scale == m
            &&& ancestor.x * m + r.u_min == tile.x
            &&& ancestor.y * m + r.v_min == tile.y
            &&& r.u_max == r.u_min + 1
            &&& r.v_max == r.v_min + 1
        }),
{
    law_uv_inside(tile, ancestor);
    if tile.z == ancestor.z {
        assert(pow2(0) == 1) by {
            vstd::arithmetic::power2::lemma2_to64();
        }
        assert(up(tile, 0) == tile);
    } else {
        crate::tile::law_covers_contains(ancestor, tile);
        let m = pow2((tile.z - ancestor.z) as nat) as int;
        assert(tile.x * 1 - ancestor.x * m >= 0);
        assert(tile.y * 1 - ancestor.y * m >= 0);
    }
}

/// A tile shown with an ancestor's texture shows its own part of it.
pub proof fn law_resolved_part(visible: Seq<VisibleTile>, available: Set<TileCoord>, k: int)
    requires
        0 <= k < resolved_tiles(visible, available).len(),
        addressable(visible),
    ensures
        ({
            let r = resolved_tiles(visible, available)[k];
            let m = pow2((r.coord.z - r.texture_coord.z) as nat);
            &&& r.texture_coord.z <= r.coord.z
            &&& r.uv_rect.scale == m
            &&& r.texture_coord.x * m + r.uv_rect.u_min == r.coord.x
            &&& r.texture_coord.y * m + r.uv_rect.v_min == r.coord.y
            &&& r.uv_rect.u_max == r.uv_rect.u_min + 1
            &&& r.uv_rect.v_max == r.uv_rect.v_min + 1
        }),
{
    law_resolved(visible, available, k);
    let rule = resolved_at(visible, available);
    let src = lemma_gather_sources(visible.len(), rule);
    let r = resolved_tiles(visible, available)[k];
    assert(rule(src[k]) == Some(r));
    assert(visible[src[k]].coord.z < 32);
    law_uv_offset(r.coord, r.texture_coord);
}

/// A tile's shader is told where the tile is shown, in tiles of its level, its level, its
/// opacity and its part of the texture.
pub proof fn law_uniforms(rt: RenderableTile, opacity: Real32)
    requires
        rt.coord.z < 32,
        rt.display_x < i64::MAX,
    ensures
        ({
            let u = uniforms_of(rt, opacity);
            &&& u.opacity == opacity
            &&& u.zoom == rt.coord.z
            &&& u.uv_rect == rt.uv_rect
            &&& u.bounds.min_x == rt.display_x && u.bounds.max_x == rt.display_x + 1
            &&& u.bounds.min_y == rt.coord.y && u.bounds.max_y == rt.coord.y + 1
            &&& u.bounds.extent == pow2(rt.coord.z as nat)
        }),
{
    crate::tile::lemma_pow2_below_32(rt.coord.z as nat);
}

} // verus!
