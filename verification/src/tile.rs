//! Tile addresses in the Web-Mercator quadtree.

use vstd::arithmetic::power2::{lemma_pow2_adds, lemma_pow2_pos, lemma_pow2_unfold, pow2};
use vstd::prelude::*;

verus! {

/// Address of one tile: zoom level and column / row within that level.
#[derive(Debug, Clone, Copy, PartialEq, Eq, Hash, Structural)]
pub struct TileCoord {
    pub z: u8,
    pub x: u32,
    pub y: u32,
}

/// A tile as seen by the camera. `display_x` is the unwrapped column, which may be
/// negative or beyond the level's extent for copies across the antimeridian.
#[derive(Debug, Clone, Copy, PartialEq, Eq, Hash, Structural)]
pub struct VisibleTile {
    pub coord: TileCoord,
    pub display_x: i64,
}

/// The tile one level up. Only meaningful when `t.z > 0`.
pub open spec fn parent_of(t: TileCoord) -> TileCoord {
    TileCoord { z: (t.z - 1) as u8, x: t.x / 2, y: t.y / 2 }
}

/// The tile `k` levels up; `up(t, 0)` is `t` itself.
pub open spec fn up(t: TileCoord, k: nat) -> TileCoord
    decreases k,
{
    if k == 0 {
        t
    } else {
        up(parent_of(t), (k - 1) as nat)
    }
}

/// `a` is `t` itself or one of its ancestors.
pub open spec fn covers(a: TileCoord, t: TileCoord) -> bool {
    a.z <= t.z && up(t, (t.z - a.z) as nat) == a
}

/// Number of levels between `t` and the closest tile on its path to the root
/// (itself included) that satisfies `p`.
pub open spec fn nearest_depth(t: TileCoord, p: spec_fn(TileCoord) -> bool) -> Option<nat>
    decreases t.z,
{
    if p(t) {
        Some(0)
    } else if t.z == 0 {
        None
    } else {
        match nearest_depth(parent_of(t), p) {
            Some(d) => Some(d + 1),
            None => None,
        }
    }
}

/// The closest tile on the path from `t` to the root, `t` included, that satisfies `p`.
pub open spec fn nearest(t: TileCoord, p: spec_fn(TileCoord) -> bool) -> Option<TileCoord> {
    match nearest_depth(t, p) {
        Some(d) => Some(up(t, d)),
        None => None,
    }
}

/// Membership in a set, as a predicate on tiles.
pub open spec fn member(s: Set<TileCoord>) -> spec_fn(TileCoord) -> bool {
    |c: TileCoord| s.contains(c)
}

impl TileCoord {
    pub fn new(z: u8, x: u32, y: u32) -> (t: TileCoord)
        ensures
            t == (TileCoord { z, x, y }),
    {
        TileCoord { z, x, y }
    }

    /// The address lies inside its level.
    pub open spec fn in_level(self) -> bool {
        self.z < 32 && self.x < pow2(self.z as nat) && self.y < pow2(self.z as nat)
    }

    /// Number of tiles along one axis of this tile's level.
    pub fn extent(&self) -> (n: u32)
        requires
            self.z < 32,
        ensures
            n == pow2(self.z as nat),
    {
        level_extent(self.z)
    }

    /// The parent tile, or nothing for the root level.
    pub fn parent(&self) -> (p: Option<TileCoord>)
        ensures
            p == (if self.z == 0 {
                None
            } else {
                Some(parent_of(*self))
            }),
    {
        if self.z == 0 {
            None
        } else {
            Some(TileCoord { z: self.z - 1, x: self.x / 2, y: self.y / 2 })
        }
    }

    /// The four tiles that make up this one, row by row.
    pub fn children(&self) -> (c: Vec<TileCoord>)
        requires
            self.z < u8::MAX,
            self.x < 0x8000_0000,
            self.y < 0x8000_0000,
        ensures
            c@ == children_of(*self),
    {
        let z: u8 = self.z + 1;
        let x: u32 = 2 * self.x;
        let y: u32 = 2 * self.y;
        let mut c: Vec<TileCoord> = Vec::new();
        c.push(TileCoord { z, x, y });
        c.push(TileCoord { z, x: x + 1, y });
        c.push(TileCoord { z, x, y: y + 1 });
        c.push(TileCoord { z, x: x + 1, y: y + 1 });
        assert(c@ =~= children_of(*self));
        c
    }

    /// The tile itself when it is no deeper than `max_zoom`, otherwise its ancestor there.
    pub fn clamp_to_zoom(&self, max_zoom: u8) -> (t: TileCoord)
        ensures
            t == clamped(*self, max_zoom),
    {
        let mut cur = *self;
        while cur.z > max_zoom
            invariant
                cur.z <= self.z,
                self.z > max_zoom ==> cur.z >= max_zoom,
                self.z <= max_zoom ==> cur == *self,
                clamped(*self, max_zoom) == clamped(cur, max_zoom),
            decreases cur.z,
        {
            let next = TileCoord { z: cur.z - 1, x: cur.x / 2, y: cur.y / 2 };
            assert(next == parent_of(cur));
            proof {
                reveal_with_fuel(up, 2);
            }
            cur = next;
        }
        cur
    }
}

/// Limit a tile to a deepest zoom level.
pub open spec fn clamped(t: TileCoord, max_zoom: u8) -> TileCoord {
    if t.z > max_zoom {
        up(t, (t.z - max_zoom) as nat)
    } else {
        t
    }
}

/// Number of tiles along one axis of level `z`.
pub fn level_extent(z: u8) -> (n: u32)
    requires
        z < 32,
    ensures
        n == pow2(z as nat),
{
    let n: u32 = 1u32 << (z as u32);
    proof {
        lemma_pow2_below_32(z as nat);
        vstd::bits::lemma_u32_shl_is_mul(1, z as u32);
    }
    n
}

/// Every level up to 31 has fewer than `2^32` columns.
pub proof fn lemma_pow2_below_32(z: nat)
    requires
        z < 32,
    ensures
        1 <= pow2(z) <= 0x8000_0000,
{
    vstd::arithmetic::power2::lemma2_to64();
    lemma_pow2_pos(z);
    if z < 31 {
        vstd::arithmetic::power2::lemma_pow2_strictly_increases(z, 31);
    }
}

/// The four tiles of the next level that make up `t`, row by row.
pub open spec fn children_of(t: TileCoord) -> Seq<TileCoord> {
    Seq::new(
        4,
        |i: int|
            TileCoord {
                z: (t.z + 1) as u8,
                x: (2 * t.x + i % 2) as u32,
                y: (2 * t.y + i / 2) as u32,
            },
    )
}

impl VisibleTile {
    /// A tile shown at its own column.
    pub fn canonical(coord: TileCoord) -> (v: VisibleTile)
        ensures
            v == (VisibleTile { coord, display_x: coord.x as i64 }),
    {
        VisibleTile { coord, display_x: coord.x as i64 }
    }
}

/// Walking up `a + b` levels is walking up `a` and then `b`.
pub proof fn law_up_composes(t: TileCoord, a: nat, b: nat)
    ensures
        up(t, a + b) == up(up(t, a), b),
    decreases a,
{
    if a > 0 {
        law_up_composes(parent_of(t), (a - 1) as nat, b);
    }
}

/// Walking up stays on the expected level and halves the address once per level.
pub proof fn law_up_address(t: TileCoord, k: nat)
    requires
        k <= t.z,
    ensures
        up(t, k).z == t.z - k,
        up(t, k).x == t.x as int / pow2(k) as int,
        up(t, k).y == t.y as int / pow2(k) as int,
    decreases k,
{
    if k == 0 {
        assert(pow2(0) == 1) by {
            vstd::arithmetic::power2::lemma2_to64();
        }
    } else {
        law_up_address(parent_of(t), (k - 1) as nat);
        let m = pow2((k - 1) as nat) as int;
        lemma_pow2_unfold(k);
        lemma_pow2_pos((k - 1) as nat);
        vstd::arithmetic::div_mod::lemma_div_denominator(t.x as int, 2, m);
        vstd::arithmetic::div_mod::lemma_div_denominator(t.y as int, 2, m);
    }
}

/// An ancestor's address range contains the tile's, so a tile lies inside everything
/// that covers it.
pub proof fn law_covers_contains(a: TileCoord, t: TileCoord)
    requires
        covers(a, t),
    ensures
        a.x * pow2((t.z - a.z) as nat) <= t.x < (a.x + 1) * pow2((t.z - a.z) as nat),
        a.y * pow2((t.z - a.z) as nat) <= t.y < (a.y + 1) * pow2((t.z - a.z) as nat),
{
    let k = (t.z - a.z) as nat;
    law_up_address(t, k);
    lemma_pow2_pos(k);
    let m = pow2(k) as int;
    vstd::arithmetic::div_mod::lemma_fundamental_div_mod(t.x as int, m);
    vstd::arithmetic::div_mod::lemma_fundamental_div_mod(t.y as int, m);
    assert((a.x + 1) * m == a.x * m + m && m * (a.x as int) == a.x * m) by (nonlinear_arith);
    assert((a.y + 1) * m == a.y * m + m && m * (a.y as int) == a.y * m) by (nonlinear_arith);
}

/// Clamping twice is clamping once to the smaller bound.
pub proof fn law_clamp_composes(t: TileCoord, a: u8, b: u8)
    ensures
        clamped(clamped(t, a), b) == clamped(t, if a <= b {
            a
        } else {
            b
        }),
        clamped(t, a).z <= a,
{
    if t.z > a {
        law_up_address(t, (t.z - a) as nat);
        if a > b {
            law_up_composes(t, (t.z - a) as nat, (a - b) as nat);
        }
    }
}

/// The nearest match is on the path to the root, matches, and nothing below it does;
/// there is none exactly when nothing on the path matches.
pub proof fn law_nearest(t: TileCoord, p: spec_fn(TileCoord) -> bool)
    ensures
        match nearest_depth(t, p) {
            Some(d) => d <= t.z && p(up(t, d)) && forall|k: nat| k < d ==> !p(#[trigger] up(t, k)),
            None => forall|k: nat| k <= t.z ==> !p(#[trigger] up(t, k)),
        },
    decreases t.z,
{
    if !p(t) && t.z > 0 {
        let q = parent_of(t);
        law_nearest(q, p);
        match nearest_depth(q, p) {
            Some(d) => {
                assert(up(t, d + 1) == up(q, d));
                assert forall|k: nat| k < d + 1 implies !p(#[trigger] up(t, k)) by {
                    if k > 0 {
                        assert(up(t, k) == up(q, (k - 1) as nat));
                    }
                }
            },
            None => {
                assert forall|k: nat| k <= t.z implies !p(#[trigger] up(t, k)) by {
                    if k > 0 {
                        assert(up(t, k) == up(q, (k - 1) as nat));
                    }
                }
            },
        }
    } else if !p(t) {
        assert forall|k: nat| k <= t.z implies !p(#[trigger] up(t, k)) by {}
    }
}

/// A tile inside its level has all its ancestors inside theirs.
pub proof fn law_ancestors_in_level(t: TileCoord, k: nat)
    requires
        t.in_level(),
        k <= t.z,
    ensures
        up(t, k).in_level(),
{
    law_up_address(t, k);
    lemma_pow2_adds((t.z - k) as nat, k);
    lemma_pow2_pos(k);
    let m = pow2(k) as int;
    let n = pow2((t.z - k) as nat) as int;
    assert(t.x as int / m < n) by (nonlinear_arith)
        requires
            m > 0,
            0 <= t.x < n * m,
    ;
    assert(t.y as int / m < n) by (nonlinear_arith)
        requires
            m > 0,
            0 <= t.y < n * m,
    ;
}

/// A tile's children have it as their parent, and every tile below the root is one of its
/// parent's children.
pub proof fn law_children(t: TileCoord, i: int)
    requires
        0 <= i < 4,
    ensures
        t.z < u8::MAX && t.x < 0x8000_0000 && t.y < 0x8000_0000 ==> parent_of(children_of(t)[i])
            == t,
        t.z > 0 ==> children_of(parent_of(t)).contains(t),
{
    if t.z > 0 {
        let k = t.x % 2 + 2 * (t.y % 2);
        assert(children_of(parent_of(t))[k as int] == t);
    }
}

/// A limited tile is on the limiting level, or stays where it is no deeper, and its column and
/// row are those of the cell there that it lies in.
pub proof fn law_clamped(t: TileCoord, max_zoom: u8)
    ensures
        t.z <= max_zoom ==> clamped(t, max_zoom) == t,
        t.z > max_zoom ==> {
            let c = clamped(t, max_zoom);
            let m = pow2((t.z - max_zoom) as nat);
            &&& c.z == max_zoom
            &&& c.x * m <= t.x < (c.x + 1) * m
            &&& c.y * m <= t.y < (c.y + 1) * m
        },
{
    if t.z > max_zoom {
        law_up_address(t, (t.z - max_zoom) as nat);
        law_covers_contains(clamped(t, max_zoom), t);
    }
}

/// The four children lie side by side: the first two in the upper row, the others below, left
/// before right.
pub proof fn law_children_places(t: TileCoord)
    requires
        t.z < u8::MAX,
        t.x < 0x8000_0000,
        t.y < 0x8000_0000,
    ensures
        ({
            let c = children_of(t);
            &&& c.len() == 4
            &&& forall|i: int| 0 <= i < 4 ==> (#[trigger] c[i]).z == t.z + 1
            &&& c[0].x == 2 * t.x && c[0].y == 2 * t.y
            &&& c[1].x == c[0].x + 1 && c[1].y == c[0].y
            &&& c[2].x == c[0].x && c[2].y == c[0].y + 1
            &&& c[3].x == c[0].x + 1 && c[3].y == c[0].y + 1
        }),
{
}

/// A tile covers itself and everything below it: what it covers has it on the way to the root.
pub proof fn law_covers(a: TileCoord, t: TileCoord, k: nat)
    requires
        k <= t.z,
        up(t, k) == a,
    ensures
        covers(a, t),
        covers(t, t),
        covers(a, t) ==> a.z + k == t.z,
{
    law_up_address(t, k);
}

} // verus!
