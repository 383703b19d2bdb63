//! Tile visibility tracking and crossfade overlays.

use crate::collections::{TileMap, TileSet};
use crate::interaction::animation::{
    keep_younger, smooth_step, smoothstep, FADE_DURATION,
};
use crate::pipeline::tile_uniforms::{
    find_nearest, resolved, RenderableTile, UvRect,
};
use crate::scalar::Frac;
use crate::sequences::{gather, lemma_push_contains};
use crate::tile::{
    law_nearest, law_up_address, member, nearest, nearest_depth, parent_of, up, TileCoord,
    VisibleTile,
};
use vstd::prelude::*;

verus! {

// ---------------------------------------------------------------------------
// Visibility tracking
// ---------------------------------------------------------------------------
/// `c` is one of the visible tiles.
pub open spec fn is_visible(visible: Seq<VisibleTile>, c: TileCoord) -> bool {
    exists|i: int| 0 <= i < visible.len() && (#[trigger] visible[i]).coord == c
}

/// When each tile that left the view did so, given when earlier ones did: tiles that were shown
/// last frame and are gone now leave now, and entries as old as a fade are dropped.
pub open spec fn departed(
    before: Map<TileCoord, i64>,
    prev: Set<TileCoord>,
    visible: Seq<VisibleTile>,
    now: i64,
) -> Map<TileCoord, i64> {
    Map::new(
        |c: TileCoord|
            if before.contains_key(c) {
                now - before[c] < FADE_DURATION
            } else {
                prev.contains(c) && !is_visible(visible, c)
            },
        |c: TileCoord|
            if before.contains_key(c) {
                before[c]
            } else {
                now
            },
    )
}

/// The addresses of the visible tiles.
pub fn visible_coords(visible: &[VisibleTile]) -> (s: TileSet)
    ensures
        forall|c: TileCoord| #[trigger] s@.contains(c) <==> is_visible(visible@, c),
{
    let mut s = TileSet::new();
    let mut i: usize = 0;
    while i < visible.len()
        invariant
            i <= visible@.len(),
            forall|c: TileCoord| #[trigger]
                s@.contains(c) <==> is_visible(visible@.take(i as int), c),
        decreases visible@.len() - i,
    {
        let ghost before = s@;
        let coord = visible[i].coord;
        s.insert(coord);
        proof {
            assert forall|c: TileCoord| #[trigger] s@.contains(c) <==> is_visible(
                visible@.take(i + 1),
                c,
            ) by {
                lemma_visible_step(visible@, i as int, c);
                assert(before.contains(c) <==> is_visible(visible@.take(i as int), c));
            }
        }
        i = i + 1;
    }
    assert(visible@.take(i as int) =~= visible@);
    s
}

proof fn lemma_visible_step(visible: Seq<VisibleTile>, i: int, c: TileCoord)
    requires
        0 <= i < visible.len(),
    ensures
        is_visible(visible.take(i + 1), c) <==> is_visible(visible.take(i), c) || visible[i].coord
            == c,
{
    let a = visible.take(i);
    let b = visible.take(i + 1);
    if is_visible(a, c) {
        let j = choose|j: int| 0 <= j < a.len() && (#[trigger] a[j]).coord == c;
        assert(b[j].coord == c);
    }
    if visible[i].coord == c {
        assert(b[i].coord == c);
    }
    if is_visible(b, c) {
        let j = choose|j: int| 0 <= j < b.len() && (#[trigger] b[j]).coord == c;
        if j < i {
            assert(a[j].coord == c);
        }
    }
}

/// Track which tiles entered and left the view. Returns the tiles that are visible and have a
/// texture, and those among them whose fade has to start: they were not shown last frame and
/// are not fading. Tiles that left are remembered in `departing`.
pub fn update_tile_visibility(
    visible: &[VisibleTile],
    available: &TileSet,
    prev: &TileSet,
    fades: &TileMap<i64>,
    departing: &mut TileMap<i64>,
    now: i64,
) -> (r: (TileSet, Vec<TileCoord>))
    ensures
        forall|c: TileCoord| #[trigger]
            r.0@.contains(c) <==> is_visible(visible@, c) && available@.contains(c),
        r.1@.no_duplicates(),
        forall|c: TileCoord| #[trigger]
            r.1@.contains(c) <==> is_visible(visible@, c) && available@.contains(c)
                && !prev@.contains(c) && !fades@.contains_key(c),
        final(departing)@ == departed(old(departing)@, prev@, visible@, now),
{
    let visible_set = visible_coords(visible);
    let mut shown = TileSet::new();
    let mut entering: Vec<TileCoord> = Vec::new();
    let mut i: usize = 0;
    while i < visible.len()
        invariant
            i <= visible@.len(),
            forall|c: TileCoord| #[trigger]
                shown@.contains(c) <==> is_visible(visible@.take(i as int), c)
                    && available@.contains(c),
            entering@.no_duplicates(),
            forall|c: TileCoord| #[trigger]
                entering@.contains(c) <==> is_visible(visible@.take(i as int), c)
                    && available@.contains(c) && !prev@.contains(c) && !fades@.contains_key(c),
        decreases visible@.len() - i,
    {
        let coord = visible[i].coord;
        let ghost shown_before = shown@;
        let ghost entering_before = entering@;
        if available.contains(&coord) {
            let fresh: bool = shown.insert(coord);
            if fresh && !prev.contains(&coord) && !fades.contains(&coord) {
                assert(!entering@.contains(coord));
                entering.push(coord);
            }
        }
        proof {
            assert forall|c: TileCoord| #[trigger] shown@.contains(c) <==> is_visible(
                visible@.take(i + 1),
                c,
            ) && available@.contains(c) by {
                lemma_visible_step(visible@, i as int, c);
                assert(shown_before.contains(c) <==> is_visible(visible@.take(i as int), c)
                    && available@.contains(c));
            }
            assert forall|c: TileCoord| #[trigger] entering@.contains(c) <==> is_visible(
                visible@.take(i + 1),
                c,
            ) && available@.contains(c) && !prev@.contains(c) && !fades@.contains_key(c) by {
                lemma_visible_step(visible@, i as int, c);
                lemma_push_contains(entering_before, coord, c);
                assert(entering_before.contains(c) <==> is_visible(visible@.take(i as int), c)
                    && available@.contains(c) && !prev@.contains(c) && !fades@.contains_key(c));
                assert(shown_before.contains(coord) <==> is_visible(visible@.take(i as int), coord)
                    && available@.contains(coord));
            }
        }
        i = i + 1;
    }
    assert(visible@.take(i as int) =~= visible@);
    let ghost start = departing@;
    let n: usize = prev.len();
    let mut k: usize = 0;
    while k < n
        invariant
            n == prev.listing().len(),
            k <= n,
            forall|c: TileCoord| #[trigger] visible_set@.contains(c) <==> is_visible(visible@, c),
            forall|c: TileCoord| #[trigger]
                departing@.contains_key(c) <==> start.contains_key(c) || (!is_visible(visible@, c)
                    && exists|j: int| 0 <= j < k && #[trigger] prev.listing()[j] == c),
            forall|c: TileCoord| #[trigger]
                departing@.contains_key(c) ==> departing@[c] == (if start.contains_key(c) {
                    start[c]
                } else {
                    now
                }),
        decreases n - k,
    {
        let c = prev.item_at(k);
        let ghost at = departing@;
        if !visible_set.contains(&c) && !departing.contains(&c) {
            departing.insert(c, now);
        }
        proof {
            assert forall|d: TileCoord| #[trigger] departing@.contains_key(d) <==> start.contains_key(
                d,
            ) || (!is_visible(visible@, d) && exists|j: int|
                0 <= j < k + 1 && #[trigger] prev.listing()[j] == d) by {
                assert(prev.listing()[k as int] == c);
                if d != c {
                    assert(at.contains_key(d) == departing@.contains_key(d));
                }
                if exists|j: int| 0 <= j < k && #[trigger] prev.listing()[j] == d {
                    let j = choose|j: int| 0 <= j < k && #[trigger] prev.listing()[j] == d;
                    assert(0 <= j < k + 1);
                }
            }
        }
        k = k + 1;
    }
    let ghost grown = departing@;
    let kept = keep_younger(departing, now, FADE_DURATION as i128);
    *departing = kept;
    assert(departing@ =~= departed(start, prev@, visible@, now)) by {
        assert forall|c: TileCoord| #[trigger] prev@.contains(c) <==> exists|j: int|
            0 <= j < n && #[trigger] prev.listing()[j] == c by {}
        assert forall|c: TileCoord| #[trigger] departing@.contains_key(c) <==> departed(
            start,
            prev@,
            visible@,
            now,
        ).contains_key(c) by {
            assert(departing@.contains_key(c) <==> grown.contains_key(c) && now - grown[c]
                < FADE_DURATION);
            assert(prev@.contains(c) <==> exists|j: int|
                0 <= j < n && #[trigger] prev.listing()[j] == c);
        }
    }
    (shown, entering)
}

// ---------------------------------------------------------------------------
// Crossfade
// ---------------------------------------------------------------------------
/// A tile drawn on top of its stand-in while it fades in; `fade` is its share.
#[derive(Debug, Clone, Copy, PartialEq, Eq, Structural)]
pub struct CrossfadeTile {
    pub coord: TileCoord,
    pub fade: Frac,
    pub display_x: i64,
}

/// The tile is tracked and its fade has not finished.
pub open spec fn is_fading(fades: Map<TileCoord, i64>, c: TileCoord, now: i64) -> bool {
    fades.contains_key(c) && now - fades[c] < FADE_DURATION
}

/// The elapsed part of a fade, between nothing and all of it.
pub open spec fn fade_covered(elapsed: int) -> int {
    if elapsed < 0 {
        0
    } else if elapsed > FADE_DURATION {
        FADE_DURATION as int
    } else {
        elapsed
    }
}

/// Share of a fading tile: the smooth step of the elapsed part.
pub open spec fn fade_share(elapsed: int) -> Frac {
    Frac {
        num: smooth_step(fade_covered(elapsed), FADE_DURATION as int) as i128,
        den: 125_000_000_000_000_000,
    }
}

fn share_of(elapsed: i128) -> (f: Frac)
    ensures
        f == fade_share(elapsed as int),
        0 <= f.num <= f.den,
{
    let covered: i64 = if elapsed < 0 {
        0
    } else if elapsed > FADE_DURATION as i128 {
        FADE_DURATION
    } else {
        elapsed as i64
    };
    assert(500_000int * 500_000int * 500_000int == 125_000_000_000_000_000) by (nonlinear_arith);
    smoothstep(covered, FADE_DURATION)
}

/// An ancestor of `c`, itself not counted, is available.
pub open spec fn has_ancestor_in(available: Set<TileCoord>, c: TileCoord) -> bool {
    c.z > 0 && nearest(parent_of(c), member(available)) is Some
}

/// The tile fades in over an ancestor: it is available, fading, and some ancestor is available
/// to stand in for it meanwhile.
pub open spec fn crossfades(
    available: Set<TileCoord>,
    fades: Map<TileCoord, i64>,
    c: TileCoord,
    now: i64,
) -> bool {
    available.contains(c) && is_fading(fades, c, now) && has_ancestor_in(available, c)
}

/// The overlay entry of the `i`-th visible tile, if it fades in over an ancestor.
pub open spec fn crossfade_at(
    visible: Seq<VisibleTile>,
    available: Set<TileCoord>,
    fades: Map<TileCoord, i64>,
    now: i64,
) -> spec_fn(int) -> Option<CrossfadeTile> {
    |i: int|
        {
            let c = visible[i].coord;
            if crossfades(available, fades, c, now) {
                Some(
                    CrossfadeTile {
                        coord: c,
                        fade: fade_share(now - fades[c]),
                        display_x: visible[i].display_x,
                    },
                )
            } else {
                None
            }
        }
}

/// The tiles whose own texture the base pass may use: all available ones but those that are
/// visible and fade in over an ancestor.
pub open spec fn base_available(
    visible: Seq<VisibleTile>,
    available: Set<TileCoord>,
    fades: Map<TileCoord, i64>,
    now: i64,
    c: TileCoord,
) -> bool {
    available.contains(c) && !(is_visible(visible, c) && crossfades(available, fades, c, now))
}

/// Separate the tiles that fade in over an ancestor: the set of textures for the base pass
/// without them, and the overlay entries in the order of the visible list.
pub fn compute_crossfade(
    visible: &[VisibleTile],
    available: &TileSet,
    fades: &TileMap<i64>,
    now: i64,
) -> (r: (TileSet, Vec<CrossfadeTile>))
    ensures
        forall|c: TileCoord| #[trigger]
            r.0@.contains(c) <==> base_available(visible@, available@, fades@, now, c),
        r.1@ == gather(visible@.len(), crossfade_at(visible@, available@, fades@, now)),
{
    let ghost rule = crossfade_at(visible@, available@, fades@, now);
    let mut fading = TileSet::new();
    let mut overlay: Vec<CrossfadeTile> = Vec::new();
    let mut i: usize = 0;
    while i < visible.len()
        invariant
            i <= visible@.len(),
            rule == crossfade_at(visible@, available@, fades@, now),
            forall|c: TileCoord| #[trigger]
                fading@.contains(c) <==> is_visible(visible@.take(i as int), c) && crossfades(
                    available@,
                    fades@,
                    c,
                    now,
                ),
            overlay@ == gather(i as nat, rule),
        decreases visible@.len() - i,
    {
        let v = visible[i];
        let ghost before = fading@;
        if available.contains(&v.coord) {
            match fades.get(&v.coord) {
                Some(start) => {
                    let elapsed: i128 = now as i128 - start as i128;
                    if elapsed < FADE_DURATION as i128 {
                        let covered: bool = match v.coord.parent() {
                            Some(p) => find_nearest(p, available).is_some(),
                            None => false,
                        };
                        if covered {
                            fading.insert(v.coord);
                            overlay.push(
                                CrossfadeTile {
                                    coord: v.coord,
                                    fade: share_of(elapsed),
                                    display_x: v.display_x,
                                },
                            );
                        }
                    }
                },
                None => {},
            }
        }
        proof {
            assert forall|c: TileCoord| #[trigger] fading@.contains(c) <==> is_visible(
                visible@.take(i + 1),
                c,
            ) && crossfades(available@, fades@, c, now) by {
                lemma_visible_step(visible@, i as int, c);
                assert(before.contains(c) <==> is_visible(visible@.take(i as int), c) && crossfades(
                    available@,
                    fades@,
                    c,
                    now,
                ));
            }
            assert(overlay@ =~= gather((i + 1) as nat, rule));
        }
        i = i + 1;
    }
    assert(visible@.take(i as int) =~= visible@);
    let base = difference(available, &fading);
    (base, overlay)
}

/// The members of `a` that are not in `b`.
fn difference(a: &TileSet, b: &TileSet) -> (r: TileSet)
    ensures
        forall|c: TileCoord| #[trigger] r@.contains(c) <==> a@.contains(c) && !b@.contains(c),
{
    let n: usize = a.len();
    let mut r = TileSet::new();
    let mut i: usize = 0;
    while i < n
        invariant
            n == a.listing().len(),
            i <= n,
            forall|c: TileCoord| #[trigger]
                r@.contains(c) <==> !b@.contains(c) && exists|j: int|
                    0 <= j < i && #[trigger] a.listing()[j] == c,
        decreases n - i,
    {
        let c = a.item_at(i);
        let ghost before = r@;
        if !b.contains(&c) {
            r.insert(c);
        }
        assert forall|d: TileCoord| #[trigger] r@.contains(d) <==> !b@.contains(d) && exists|j: int|
            0 <= j < i + 1 && #[trigger] a.listing()[j] == d by {
            assert(a.listing()[i as int] == c);
            if d != c {
                assert(before.contains(d) == r@.contains(d));
            }
            if exists|j: int| 0 <= j < i && #[trigger] a.listing()[j] == d {
                let j = choose|j: int| 0 <= j < i && #[trigger] a.listing()[j] == d;
                assert(0 <= j < i + 1);
            }
        }
        i = i + 1;
    }
    assert forall|c: TileCoord| #[trigger] r@.contains(c) <==> a@.contains(c) && !b@.contains(
        c,
    ) by {
        assert(a@.contains(c) <==> exists|j: int| 0 <= j < n && #[trigger] a.listing()[j] == c);
    }
    r
}

/// The tile shows its own texture and is fading: its opacity follows the fade.
pub open spec fn is_overridden(
    renderable: Seq<RenderableTile>,
    fades: Map<TileCoord, i64>,
    now: i64,
    c: TileCoord,
) -> bool {
    is_fading(fades, c, now) && exists|i: int|
        0 <= i < renderable.len() && (#[trigger] renderable[i]).coord == c
            && renderable[i].texture_coord == c
}

/// Opacity shares of the tiles that fade in without a stand-in below them.
pub fn compute_fade_overrides(
    renderable: &[RenderableTile],
    fades: &TileMap<i64>,
    now: i64,
) -> (r: TileMap<Frac>)
    ensures
        forall|c: TileCoord| #[trigger]
            r@.contains_key(c) <==> is_overridden(renderable@, fades@, now, c),
        forall|c: TileCoord| #[trigger]
            r@.contains_key(c) ==> r@[c] == fade_share(now - fades@[c]),
{
    let mut r: TileMap<Frac> = TileMap::new();
    let mut i: usize = 0;
    while i < renderable.len()
        invariant
            i <= renderable@.len(),
            forall|c: TileCoord| #[trigger]
                r@.contains_key(c) <==> is_overridden(
                    renderable@.take(i as int),
                    fades@,
                    now,
                    c,
                ),
            forall|c: TileCoord| #[trigger]
                r@.contains_key(c) ==> r@[c] == fade_share(now - fades@[c]),
        decreases renderable@.len() - i,
    {
        let rt = renderable[i];
        let ghost before = r@;
        if rt.texture_coord == rt.coord {
            match fades.get(&rt.coord) {
                Some(start) => {
                    let elapsed: i128 = now as i128 - start as i128;
                    if elapsed < FADE_DURATION as i128 {
                        r.insert(rt.coord, share_of(elapsed));
                    }
                },
                None => {},
            }
        }
        proof {
            let a = renderable@.take(i as int);
            let b = renderable@.take(i + 1);
            assert forall|c: TileCoord| #[trigger] r@.contains_key(c) <==> is_overridden(
                b,
                fades@,
                now,
                c,
            ) by {
                assert(before.contains_key(c) <==> is_overridden(a, fades@, now, c));
                assert(b[i as int] == rt);
                if is_overridden(a, fades@, now, c) {
                    let j = choose|j: int|
                        0 <= j < a.len() && (#[trigger] a[j]).coord == c && a[j].texture_coord == c;
                    assert(b[j] == a[j]);
                }
                if is_overridden(b, fades@, now, c) && !is_overridden(a, fades@, now, c) {
                    let j = choose|j: int|
                        0 <= j < b.len() && (#[trigger] b[j]).coord == c && b[j].texture_coord == c;
                    if j < i {
                        assert(a[j] == b[j]);
                    }
                }
            }
        }
        i = i + 1;
    }
    assert(renderable@.take(i as int) =~= renderable@);
    r
}

/// An overlay tile shows its own texture, all of it.
pub open spec fn overlay_tile() -> spec_fn(CrossfadeTile) -> RenderableTile {
    |t: CrossfadeTile|
        RenderableTile {
            coord: t.coord,
            texture_coord: t.coord,
            uv_rect: UvRect::full(),
            display_x: t.display_x,
        }
}

/// Shares of the first `n` overlay entries; the last entry of an address counts.
pub open spec fn overlay_shares(tiles: Seq<CrossfadeTile>, n: nat) -> Map<TileCoord, Frac>
    decreases n,
{
    if n == 0 {
        Map::empty()
    } else {
        overlay_shares(tiles, (n - 1) as nat).insert(tiles[n - 1].coord, tiles[n - 1].fade)
    }
}

/// The overlay's renderable tiles and their opacity shares.
pub fn build_crossfade_overlay(tiles: &[CrossfadeTile]) -> (r: (
    Vec<RenderableTile>,
    TileMap<Frac>,
))
    ensures
        r.0@ == tiles@.map_values(overlay_tile()),
        r.1@ == overlay_shares(tiles@, tiles@.len()),
{
    let ghost target = tiles@.map_values(overlay_tile());
    let mut out: Vec<RenderableTile> = Vec::new();
    let mut shares: TileMap<Frac> = TileMap::new();
    let mut i: usize = 0;
    while i < tiles.len()
        invariant
            i <= tiles@.len(),
            target == tiles@.map_values(overlay_tile()),
            out@ == target.take(i as int),
            shares@ == overlay_shares(tiles@, i as nat),
        decreases tiles@.len() - i,
    {
        let t = tiles[i];
        out.push(
            RenderableTile {
                coord: t.coord,
                texture_coord: t.coord,
                uv_rect: UvRect::full(),
                display_x: t.display_x,
            },
        );
        shares.insert(t.coord, t.fade);
        assert(out@ =~= target.take(i + 1));
        i = i + 1;
    }
    assert(out@ =~= target);
    (out, shares)
}

// ---------------------------------------------------------------------------
// Laws
// ---------------------------------------------------------------------------
/// The visible tile's own texture is either used by the base pass or by the overlay, never by
/// both and never by neither.
pub proof fn law_crossfade_splits(
    visible: Seq<VisibleTile>,
    available: Set<TileCoord>,
    fades: Map<TileCoord, i64>,
    now: i64,
    i: int,
)
    requires
        0 <= i < visible.len(),
        available.contains(visible[i].coord),
    ensures
        base_available(visible, available, fades, now, visible[i].coord)
            <==> crossfade_at(visible, available, fades, now)(i) is None,
{
    assert(visible[i].coord == visible[i].coord);
}

/// Taking tiles out of the base pass leaves no hole: a tile that fades in over an ancestor
/// still resolves to a texture in the base pass, namely that of an ancestor.
pub proof fn law_crossfade_covered(
    visible: Seq<VisibleTile>,
    available: Set<TileCoord>,
    base: Set<TileCoord>,
    fades: Map<TileCoord, i64>,
    now: i64,
    i: int,
)
    requires
        0 <= i < visible.len(),
        forall|c: TileCoord| #[trigger]
            base.contains(c) <==> base_available(visible, available, fades, now, c),
        nearest(visible[i].coord, member(available)) is Some,
    ensures
        resolved(visible[i], base) is Some,
{
    let c = visible[i].coord;
    let d = nearest_depth(c, member(available)).unwrap();
    law_nearest(c, member(available));
    lemma_base_ancestor(visible, available, base, fades, now, up(c, d));
    law_up_address(c, d);
    let a = up(c, d);
    let e = nearest_depth(a, member(base)).unwrap();
    law_nearest(a, member(base));
    crate::tile::law_up_composes(c, d, e);
    law_nearest(c, member(base));
    assert(member(base)(up(c, d + e)));
    law_up_address(a, e);
}

/// From every available tile the base pass can reach a texture towards the root.
proof fn lemma_base_ancestor(
    visible: Seq<VisibleTile>,
    available: Set<TileCoord>,
    base: Set<TileCoord>,
    fades: Map<TileCoord, i64>,
    now: i64,
    c: TileCoord,
)
    requires
        available.contains(c),
        forall|c: TileCoord| #[trigger]
            base.contains(c) <==> base_available(visible, available, fades, now, c),
    ensures
        nearest_depth(c, member(base)) is Some,
    decreases c.z,
{
    let p = member(base);
    if base.contains(c) {
        assert(p(c));
    } else {
        let q = parent_of(c);
        let d = nearest_depth(q, member(available)).unwrap();
        law_nearest(q, member(available));
        law_up_address(q, d);
        let a = up(q, d);
        lemma_base_ancestor(visible, available, base, fades, now, a);
        let e = nearest_depth(a, p).unwrap();
        law_nearest(a, p);
        law_up_address(a, e);
        crate::tile::law_up_composes(q, d, e);
        assert(up(c, d + e + 1) == up(q, d + e));
        assert(p(up(c, d + e + 1)));
        law_nearest(c, p);
    }
}

/// A finished fade is neither in the overlay nor overridden, so a tile ends up fully shown.
pub proof fn law_fade_ends(
    visible: Seq<VisibleTile>,
    available: Set<TileCoord>,
    renderable: Seq<RenderableTile>,
    fades: Map<TileCoord, i64>,
    now: i64,
    c: TileCoord,
)
    requires
        fades.contains_key(c) ==> now - fades[c] >= FADE_DURATION,
    ensures
        !crossfades(available, fades, c, now),
        !is_overridden(renderable, fades, now, c),
        available.contains(c) ==> base_available(visible, available, fades, now, c),
{
}

/// The share of a fade grows from nothing to all of it.
pub proof fn law_fade_share(e1: int, e2: int)
    requires
        e1 <= e2,
    ensures
        fade_share(e1).num <= fade_share(e2).num,
        e1 <= 0 ==> fade_share(e1).num == 0,
        e2 >= FADE_DURATION ==> fade_share(e2).num == fade_share(e2).den,
        0 <= fade_share(e1).num <= fade_share(e1).den,
{
    let d = FADE_DURATION as int;
    let a = fade_covered(e1);
    let b = fade_covered(e2);
    crate::interaction::animation::law_smoothstep(a, b, d);
    crate::interaction::animation::law_smoothstep(0, a, d);
    crate::interaction::animation::law_smoothstep(b, d, d);
    crate::interaction::animation::law_smoothstep(a, d, d);
    assert(500_000int * 500_000int * 500_000int == 125_000_000_000_000_000) by (nonlinear_arith);
}

/// A tile that has just left the view fades out from now; one that left earlier keeps its time;
/// and no entry is as old as a fade.
pub proof fn law_departed(
    before: Map<TileCoord, i64>,
    prev: Set<TileCoord>,
    visible: Seq<VisibleTile>,
    now: i64,
    c: TileCoord,
)
    ensures
        !before.contains_key(c) && prev.contains(c) && !is_visible(visible, c) ==> departed(
            before,
            prev,
            visible,
            now,
        ).contains_key(c) && departed(before, prev, visible, now)[c] == now,
        departed(before, prev, visible, now).contains_key(c) && before.contains_key(c)
            ==> departed(before, prev, visible, now)[c] == before[c],
        departed(before, prev, visible, now).contains_key(c) ==> now - departed(
            before,
            prev,
            visible,
            now,
        )[c] < FADE_DURATION,
{
}

/// A tile fades for half a second from when its fade began.
pub proof fn law_fading_time(fades: Map<TileCoord, i64>, c: TileCoord, now: i64)
    ensures
        is_fading(fades, c, now) <==> fades.contains_key(c) && now - fades[c] < 500_000,
{
}

/// While a fade runs, its share is the smooth curve over half a second: none at the start, half
/// of it halfway, all of it at the end.
pub proof fn law_fade_curve(elapsed: int)
    requires
        0 <= elapsed <= 500_000,
    ensures
        fade_share(elapsed).den == 500_000 * 500_000 * 500_000,
        fade_share(elapsed).num == elapsed * elapsed * (1_500_000 - 2 * elapsed),
{
    assert(0 <= elapsed * elapsed <= 500_000 * 500_000) by (nonlinear_arith)
        requires
            0 <= elapsed <= 500_000,
    ;
    let sq = elapsed * elapsed;
    let rest = 1_500_000 - 2 * elapsed;
    assert(0 <= sq * rest <= 250_000_000_000 * 1_500_000) by (nonlinear_arith)
        requires
            0 <= sq <= 250_000_000_000,
            0 <= rest <= 1_500_000,
    ;
}

/// A tile fades in over a stand-in exactly when its texture is there, its fade is running and
/// some tile above it is there too.
pub proof fn law_crossfades(
    available: Set<TileCoord>,
    fades: Map<TileCoord, i64>,
    c: TileCoord,
    now: i64,
)
    ensures
        crossfades(available, fades, c, now) <==> {
            &&& available.contains(c)
            &&& fades.contains_key(c)
            &&& now - fades[c] < 500_000
            &&& exists|k: nat| 1 <= k <= c.z && available.contains(#[trigger] up(c, k))
        },
{
    if c.z > 0 {
        let q = parent_of(c);
        law_nearest(q, member(available));
        match nearest_depth(q, member(available)) {
            Some(d) => {
                assert(up(c, d + 1) == up(q, d));
                assert(available.contains(up(c, d + 1)));
            },
            None => {
                assert forall|k: nat| 1 <= k <= c.z implies !available.contains(
                    #[trigger] up(c, k),
                ) by {
                    assert(up(c, k) == up(q, (k - 1) as nat));
                    assert(!member(available)(up(q, (k - 1) as nat)));
                }
            },
        }
    }
}

/// The overlay lists exactly the visible tiles that fade in over a stand-in, each where it is
/// shown and with the share of its own fade.
pub proof fn law_overlay_entries(
    visible: Seq<VisibleTile>,
    available: Set<TileCoord>,
    fades: Map<TileCoord, i64>,
    now: i64,
    i: int,
)
    requires
        0 <= i < visible.len(),
    ensures
        ({
            let c = visible[i].coord;
            let entry = crossfade_at(visible, available, fades, now)(i);
            &&& entry is Some <==> crossfades(available, fades, c, now)
            &&& entry matches Some(t) ==> t.coord == c && t.display_x == visible[i].display_x
                && t.fade == fade_share(now - fades[c])
        }),
{
}

/// The base may use a tile's own texture unless the tile is in view and fades in over another.
pub proof fn law_base_textures(
    visible: Seq<VisibleTile>,
    available: Set<TileCoord>,
    fades: Map<TileCoord, i64>,
    now: i64,
    c: TileCoord,
)
    ensures
        base_available(visible, available, fades, now, c) ==> available.contains(c),
        available.contains(c) && !base_available(visible, available, fades, now, c)
            <==> crossfades(available, fades, c, now) && exists|i: int|
            0 <= i < visible.len() && (#[trigger] visible[i]).coord == c,
{
}

/// The opacity of a rendered tile follows a fade exactly while that runs and the tile shows its
/// own texture.
pub proof fn law_overridden(
    renderable: Seq<RenderableTile>,
    fades: Map<TileCoord, i64>,
    now: i64,
    c: TileCoord,
)
    ensures
        is_overridden(renderable, fades, now, c) <==> {
            &&& fades.contains_key(c)
            &&& now - fades[c] < 500_000
            &&& exists|i: int|
                0 <= i < renderable.len() && (#[trigger] renderable[i]).coord == c
                    && renderable[i].texture_coord == c
        },
{
}

/// A tile of the overlay is drawn at its place with the whole of its own texture.
pub proof fn law_overlay_tile(t: CrossfadeTile)
    ensures
        ({
            let r = overlay_tile()(t);
            &&& r.coord == t.coord
            &&& r.texture_coord == t.coord
            &&& r.display_x == t.display_x
            &&& r.uv_rect.u_min == 0 && r.uv_rect.v_min == 0
            &&& r.uv_rect.u_max == 1 && r.uv_rect.v_max == 1
            &&& r.uv_rect.scale == 1
        }),
{
}

/// The overlay's shares are those of its entries: every entry has one, nothing else has, and of
/// several entries of a tile the last one counts.
pub proof fn law_overlay_shares(tiles: Seq<CrossfadeTile>, n: nat, c: TileCoord)
    requires
        n <= tiles.len(),
    ensures
        overlay_shares(tiles, n).contains_key(c) <==> exists|i: int|
            0 <= i < n && (#[trigger] tiles[i]).coord == c,
        forall|i: int|
            0 <= i < n && (#[trigger] tiles[i]).coord == c && (forall|j: int|
                i < j < n ==> (#[trigger] tiles[j]).coord != c) ==> overlay_shares(tiles, n)[c]
                == tiles[i].fade,
    decreases n,
{
    if n > 0 {
        law_overlay_shares(tiles, (n - 1) as nat, c);
        if tiles[n - 1].coord == c {
        } else {
            assert forall|i: int|
                0 <= i < n && (#[trigger] tiles[i]).coord == c && (forall|j: int|
                    i < j < n ==> (#[trigger] tiles[j]).coord != c) implies overlay_shares(
                tiles,
                n,
            )[c] == tiles[i].fade by {
                assert(i < n - 1);
            }
        }
    }
}

/// Which tiles count as departed: those that did so less than half a second ago, and those that
/// were shown before and are not in view any more.
pub proof fn law_departed_tiles(
    before: Map<TileCoord, i64>,
    prev: Set<TileCoord>,
    visible: Seq<VisibleTile>,
    now: i64,
    c: TileCoord,
)
    ensures
        before.contains_key(c) ==> (departed(before, prev, visible, now).contains_key(c) <==> now
            - before[c] < 500_000),
        !before.contains_key(c) ==> (departed(before, prev, visible, now).contains_key(c)
            <==> prev.contains(c) && forall|i: int|
            0 <= i < visible.len() ==> (#[trigger] visible[i]).coord != c),
{
}

} // verus!
