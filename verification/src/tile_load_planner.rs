//! Decides which tiles to load, and in which order, without performing any I/O.

use crate::collections::TileSet;
use crate::engine::LayerKind;
use crate::mercator::{
    display_key, key_of_display, key_of_tile, squared_distance, tile_key, MercatorPoint,
};
use crate::ordering::{
    comes_before, is_stable_order, law_stably_ordered, occurs, stable_order, stably_ordered,
};
use crate::sequences::{gather, lemma_gather_contains, lemma_gather_sources, lemma_push_contains};
use crate::tile::{
    clamped, law_clamp_composes, law_nearest, law_up_address, law_up_composes, member,
    nearest_depth, parent_of, up, TileCoord, VisibleTile,
};
use vstd::prelude::*;

verus! {

/// What a layer knows about its tiles, as the planner sees it.
pub struct LoadModel {
    pub kind: LayerKind,
    pub min_zoom: u8,
    pub max_zoom: u8,
    /// Tiles with a texture in the cache.
    pub textured: Set<TileCoord>,
    /// Tiles being fetched.
    pub pending: Set<TileCoord>,
    /// Tiles whose fetch failed recently.
    pub failed: Set<TileCoord>,
    /// Tiles with elevation data.
    pub elevated: Set<TileCoord>,
    /// Tiles whose elevation is being fetched.
    pub elevation_pending: Set<TileCoord>,
    pub max_concurrent: usize,
    pub pending_count: usize,
    pub max_elevation_concurrent: usize,
    pub elevation_pending_count: usize,
    pub has_elevation_source: bool,
}

/// Read-only view of a layer's current loading state.
pub trait LayerLoadState {
    spec fn model(&self) -> LoadModel;

    fn kind(&self) -> (r: &LayerKind)
        ensures
            *r == self.model().kind,
    ;

    fn min_zoom(&self) -> (r: u8)
        ensures
            r == self.model().min_zoom,
    ;

    fn max_zoom(&self) -> (r: u8)
        ensures
            r == self.model().max_zoom,
    ;

    fn has_texture(&self, coord: &TileCoord) -> (r: bool)
        ensures
            r == self.model().textured.contains(*coord),
    ;

    fn is_pending(&self, coord: &TileCoord) -> (r: bool)
        ensures
            r == self.model().pending.contains(*coord),
    ;

    fn is_failed_cooldown(&self, coord: &TileCoord) -> (r: bool)
        ensures
            r == self.model().failed.contains(*coord),
    ;

    fn has_terrain_data(&self, coord: &TileCoord) -> (r: bool)
        ensures
            r == self.model().elevated.contains(*coord),
    ;

    fn is_elevation_pending(&self, coord: &TileCoord) -> (r: bool)
        ensures
            r == self.model().elevation_pending.contains(*coord),
    ;

    fn max_concurrent(&self) -> (r: usize)
        ensures
            r == self.model().max_concurrent,
    ;

    fn pending_count(&self) -> (r: usize)
        ensures
            r == self.model().pending_count,
    ;

    fn max_elevation_concurrent(&self) -> (r: usize)
        ensures
            r == self.model().max_elevation_concurrent,
    ;

    fn elevation_pending_count(&self) -> (r: usize)
        ensures
            r == self.model().elevation_pending_count,
    ;

    fn has_elevation_source(&self) -> (r: bool)
        ensures
            r == self.model().has_elevation_source,
    ;
}

/// What kind of tile to load.
#[derive(Debug, Clone, Copy, PartialEq, Eq, Structural)]
pub enum PlannedRequestKind {
    /// Imagery.
    Raster,
    /// A tile of a terrain layer.
    Terrain,
    /// Elevation for a raster layer on which terrain is switched on.
    Elevation,
}

/// A planned load. Requests with a lower `priority` are more urgent.
///
/// The priority is the squared distance from the camera, in units of `2^-32` of the world,
/// times a weight: the square of ten times the factor that the request's class puts on
/// its distance.
#[derive(Debug, Clone, Copy, PartialEq, Eq, Structural)]
pub struct PlannedRequest {
    pub coord: TileCoord,
    pub priority: u128,
    pub kind: PlannedRequestKind,
}

/// The tiles that are still needed this frame; requests in flight for others can be aborted.
pub struct NeededSet {
    pub raster: TileSet,
    pub elevation: TileSet,
}

/// Weight of an ancestor request: factor 0.8.
pub const ANCESTOR_WEIGHT: u8 = 64;

/// Weight of an elevation request: factor 1.
pub const ELEVATION_WEIGHT: u8 = 100;

// ---------------------------------------------------------------------------
// Model
// ---------------------------------------------------------------------------
/// The tile may be requested: it is not there, not on its way, and did not just fail.
pub open spec fn wanted(m: LoadModel, c: TileCoord) -> bool {
    !m.textured.contains(c) && !m.pending.contains(c) && !m.failed.contains(c)
}

/// Kind of the imagery requests of a layer.
pub open spec fn imagery_kind(m: LoadModel) -> PlannedRequestKind {
    if m.kind is Terrain {
        PlannedRequestKind::Terrain
    } else {
        PlannedRequestKind::Raster
    }
}

/// The tile of level 0.
pub open spec fn root_tile() -> TileCoord {
    TileCoord { z: 0, x: 0, y: 0 }
}

/// The four tiles of level 1, row by row.
pub open spec fn level_one() -> Seq<TileCoord> {
    seq![
        TileCoord { z: 1, x: 0, y: 0 },
        TileCoord { z: 1, x: 1, y: 0 },
        TileCoord { z: 1, x: 0, y: 1 },
        TileCoord { z: 1, x: 1, y: 1 },
    ]
}

/// The tiles of levels 0 and 1 that lie in the layer's zoom range.
pub open spec fn base_tiles(min_z: u8, max_z: u8) -> Seq<TileCoord> {
    (if min_z == 0 {
        seq![root_tile()]
    } else {
        Seq::empty()
    }) + (if min_z <= 1 && max_z >= 1 {
        level_one()
    } else {
        Seq::empty()
    })
}

/// The request for the `i`-th base tile, if it may be requested.
pub open spec fn base_request(m: LoadModel) -> spec_fn(int) -> Option<PlannedRequest> {
    |i: int|
        {
            let c = base_tiles(m.min_zoom, m.max_zoom)[i];
            if wanted(m, c) {
                Some(PlannedRequest { coord: c, priority: 0, kind: imagery_kind(m) })
            } else {
                None
            }
        }
}

/// The requests for base tiles.
pub open spec fn base_requests(m: LoadModel) -> Seq<PlannedRequest> {
    gather(base_tiles(m.min_zoom, m.max_zoom).len(), base_request(m))
}

/// The tile one level up, where there is one.
pub open spec fn parent_option(c: TileCoord) -> Option<TileCoord> {
    if c.z == 0 {
        None
    } else {
        Some(parent_of(c))
    }
}

/// Where the search for a missing ancestor of `c` starts: at the parent, or at the deepest
/// level the source serves when `c` is below that.
pub open spec fn ancestor_start(m: LoadModel, c: TileCoord) -> Option<TileCoord> {
    if c.z > m.max_zoom {
        Some(clamped(c, m.max_zoom))
    } else {
        parent_option(c)
    }
}

/// Distance to the root, as a measure for walks.
pub open spec fn height(cur: Option<TileCoord>) -> nat {
    match cur {
        Some(c) => (c.z + 1) as nat,
        None => 0,
    }
}

/// Search upwards from `cur` for a tile to request. The search ends at the first textured
/// tile or above the layer's lowest level; it passes over tiles that are pending or failed,
/// and over tiles that were considered before (`seen`) or are visible themselves. Returns the
/// tile and the considered tiles.
pub open spec fn ancestor_search(
    m: LoadModel,
    visible_set: Set<TileCoord>,
    cur: Option<TileCoord>,
    seen: Set<TileCoord>,
) -> (Option<TileCoord>, Set<TileCoord>)
    decreases height(cur),
{
    match cur {
        None => (None, seen),
        Some(p) => if p.z < m.min_zoom || m.textured.contains(p) {
            (None, seen)
        } else if !wanted(m, p) || seen.contains(p) {
            ancestor_search(m, visible_set, parent_option(p), seen)
        } else if visible_set.contains(p) {
            ancestor_search(m, visible_set, parent_option(p), seen.insert(p))
        } else {
            (Some(p), seen.insert(p))
        },
    }
}

/// Ancestors chosen for a prefix of the visible tiles, and the tiles considered on the way.
pub struct AncestorPlan {
    pub chosen: Seq<TileCoord>,
    pub seen: Set<TileCoord>,
}

/// The plan for the first `n` visible tiles: one ancestor at most for every tile without a
/// texture, until the layer's concurrency limit is used up.
pub open spec fn ancestor_plan(
    m: LoadModel,
    visible: Seq<VisibleTile>,
    visible_set: Set<TileCoord>,
    n: nat,
) -> AncestorPlan
    decreases n,
{
    if n == 0 {
        AncestorPlan { chosen: Seq::empty(), seen: Set::empty() }
    } else {
        let before = ancestor_plan(m, visible, visible_set, (n - 1) as nat);
        let c = visible[n - 1].coord;
        if before.chosen.len() >= m.max_concurrent || m.textured.contains(c) {
            before
        } else {
            let (found, seen) = ancestor_search(m, visible_set, ancestor_start(m, c), before.seen);
            AncestorPlan {
                chosen: match found {
                    Some(p) => before.chosen.push(p),
                    None => before.chosen,
                },
                seen,
            }
        }
    }
}

/// The request for an ancestor.
pub open spec fn ancestor_request(m: LoadModel, camera: MercatorPoint) -> spec_fn(
    TileCoord,
) -> PlannedRequest {
    |p: TileCoord|
        PlannedRequest {
            coord: p,
            priority: tile_key(ANCESTOR_WEIGHT, p, camera),
            kind: imagery_kind(m),
        }
}

/// The requests for ancestors, in the order in which they are found.
pub open spec fn ancestor_requests(
    m: LoadModel,
    visible: Seq<VisibleTile>,
    visible_set: Set<TileCoord>,
    camera: MercatorPoint,
) -> Seq<PlannedRequest> {
    ancestor_plan(m, visible, visible_set, visible.len()).chosen.map_values(
        ancestor_request(m, camera),
    )
}

/// Levels from `c` up to its nearest textured proper ancestor; 0 where there is none.
pub open spec fn fallback_depth(m: LoadModel, c: TileCoord) -> nat {
    if c.z == 0 {
        0
    } else {
        match nearest_depth(parent_of(c), member(m.textured)) {
            Some(d) => d + 1,
            None => 0,
        }
    }
}

/// Weight of a visible tile by how far away its stand-in is: factor 0.5 without one, 1.5 for
/// a parent, 1.2 for a grandparent, 1 beyond.
pub open spec fn fallback_weight(depth: nat) -> u8 {
    if depth == 0 {
        25
    } else if depth == 1 {
        225
    } else if depth == 2 {
        144
    } else {
        100
    }
}

/// The `i`-th visible tile is deeper than the source and an earlier one already asked for
/// the tile that stands in for it.
pub open spec fn repeats_overzoom(m: LoadModel, visible: Seq<VisibleTile>, i: int) -> bool {
    let c = visible[i].coord;
    c.z > m.max_zoom && exists|j: int|
        0 <= j < i && (#[trigger] visible[j]).coord.z > m.max_zoom && visible[j].coord.z
            >= m.min_zoom && clamped(visible[j].coord, m.max_zoom) == clamped(c, m.max_zoom)
}

/// The request for the `i`-th visible tile, if there is one.
pub open spec fn visible_request(
    m: LoadModel,
    visible: Seq<VisibleTile>,
    camera: MercatorPoint,
) -> spec_fn(int) -> Option<PlannedRequest> {
    |i: int|
        {
            let c = clamped(visible[i].coord, m.max_zoom);
            if visible[i].coord.z < m.min_zoom || repeats_overzoom(m, visible, i) || !wanted(m, c) {
                None
            } else {
                Some(
                    PlannedRequest {
                        coord: c,
                        priority: tile_key(fallback_weight(fallback_depth(m, c)), c, camera),
                        kind: imagery_kind(m),
                    },
                )
            }
        }
}

/// The requests for visible tiles, in the order of the list.
pub open spec fn visible_requests(
    m: LoadModel,
    visible: Seq<VisibleTile>,
    camera: MercatorPoint,
) -> Seq<PlannedRequest> {
    gather(visible.len(), visible_request(m, visible, camera))
}

/// Elevation of the tile is neither there nor on its way.
pub open spec fn elevation_wanted(m: LoadModel, c: TileCoord) -> bool {
    !m.elevated.contains(c) && !m.elevation_pending.contains(c)
}

/// The elevation request for the `i`-th visible tile: each address once.
pub open spec fn elevation_request(
    m: LoadModel,
    visible: Seq<VisibleTile>,
    visible_set: Set<TileCoord>,
    camera: MercatorPoint,
) -> spec_fn(int) -> Option<PlannedRequest> {
    |i: int|
        {
            let c = visible[i].coord;
            if visible_set.contains(c) && elevation_wanted(m, c) && forall|j: int|
                0 <= j < i ==> (#[trigger] visible[j]).coord != c {
                Some(
                    PlannedRequest {
                        coord: c,
                        priority: display_key(ELEVATION_WEIGHT, visible[i], camera),
                        kind: PlannedRequestKind::Elevation,
                    },
                )
            } else {
                None
            }
        }
}

/// An ordered list with one more request, put behind all that are at least as urgent.
pub open spec fn placed_by_priority(ordered: Seq<PlannedRequest>, r: PlannedRequest) -> Seq<
    PlannedRequest,
>
    decreases ordered.len(),
{
    if ordered.len() == 0 || ordered.last().priority <= r.priority {
        ordered.push(r)
    } else {
        placed_by_priority(ordered.drop_last(), r).push(ordered.last())
    }
}

/// The requests by priority, most urgent first; equal priorities keep their order.
pub open spec fn by_priority(requests: Seq<PlannedRequest>) -> Seq<PlannedRequest>
    decreases requests.len(),
{
    if requests.len() == 0 {
        Seq::empty()
    } else {
        placed_by_priority(by_priority(requests.drop_last()), requests.last())
    }
}

/// The elevation requests: the root tile first, then the visible tiles, nearest first.
pub open spec fn elevation_requests(
    m: LoadModel,
    visible: Seq<VisibleTile>,
    visible_set: Set<TileCoord>,
    camera: MercatorPoint,
) -> Seq<PlannedRequest> {
    (if elevation_wanted(m, root_tile()) {
        seq![
            PlannedRequest {
                coord: root_tile(),
                priority: 0,
                kind: PlannedRequestKind::Elevation,
            },
        ]
    } else {
        Seq::empty()
    }) + by_priority(gather(visible.len(), elevation_request(m, visible, visible_set, camera)))
}

/// Everything a layer asks for this frame, before ordering.
pub open spec fn candidates(
    m: LoadModel,
    visible: Seq<VisibleTile>,
    visible_set: Set<TileCoord>,
    camera: MercatorPoint,
) -> Seq<PlannedRequest> {
    base_requests(m) + ancestor_requests(m, visible, visible_set, camera) + visible_requests(
        m,
        visible,
        camera,
    ) + (if m.has_elevation_source || m.kind is Terrain {
        elevation_requests(m, visible, visible_set, camera)
    } else {
        Seq::empty()
    })
}

/// The order keys of a list of requests.
pub open spec fn priorities(requests: Seq<PlannedRequest>) -> Seq<u128> {
    requests.map_values(|r: PlannedRequest| r.priority)
}

/// `c` is needed on behalf of the visible tile `t`: the tile that stands in for `t` when `t`
/// is deeper than the source, and the ancestors up to and including the first textured one.
pub open spec fn needed_for(m: LoadModel, t: TileCoord, c: TileCoord) -> bool {
    let s = clamped(t, m.max_zoom);
    (t.z > m.max_zoom && c == s) || exists|k: nat|
        1 <= k <= s.z && c == #[trigger] up(s, k) && no_texture_below(m, s, k)
}

/// None of the proper ancestors of `s` less than `k` levels up is textured.
pub open spec fn no_texture_below(m: LoadModel, s: TileCoord, k: nat) -> bool {
    forall|j: nat| 1 <= j < k ==> !m.textured.contains(#[trigger] up(s, j))
}

/// The tiles whose imagery is needed: visible ones, base tiles, and what is needed on behalf
/// of the visible ones.
pub open spec fn raster_needed(
    m: LoadModel,
    visible: Seq<VisibleTile>,
    visible_set: Set<TileCoord>,
    c: TileCoord,
) -> bool {
    ||| visible_set.contains(c)
    ||| base_tiles(m.min_zoom, m.max_zoom).contains(c)
    ||| exists|i: int| 0 <= i < visible.len() && needed_for(m, (#[trigger] visible[i]).coord, c)
}

// ---------------------------------------------------------------------------
// Planning
// ---------------------------------------------------------------------------
/// The camera can be related to every visible tile: no tile is deeper than level 31.
pub open spec fn measurable(visible: Seq<VisibleTile>) -> bool {
    forall|i: int| 0 <= i < visible.len() ==> (#[trigger] visible[i]).coord.z < 32
}

/// Compute which tiles to load for one layer this frame: the tiles whose requests must not
/// be aborted, and the requests, most urgent first.
pub fn plan_tile_loads<L: LayerLoadState>(
    layer: &L,
    visible: &[VisibleTile],
    visible_set: &TileSet,
    camera: MercatorPoint,
) -> (r: (NeededSet, Vec<PlannedRequest>))
    requires
        measurable(visible@),
    ensures
        forall|c: TileCoord| #[trigger]
            r.0.raster@.contains(c) <==> raster_needed(layer.model(), visible@, visible_set@, c),
        r.0.elevation@ == visible_set@,
        ({
            let all = candidates(layer.model(), visible@, visible_set@, camera);
            stably_ordered(all, priorities(all), r.1@)
        }),
{
    let raster = compute_needed_set(layer, visible, visible_set);
    let elevation = copy_set(visible_set);
    let ghost m = layer.model();
    let mut requests: Vec<PlannedRequest> = Vec::new();
    plan_base_tile_loads(layer, &mut requests);
    plan_ancestor_loads(layer, visible, visible_set, camera, &mut requests);
    plan_visible_tile_loads(layer, visible, camera, &mut requests);
    if layer.has_elevation_source() || is_terrain(layer) {
        plan_elevation_loads(layer, visible, visible_set, camera, &mut requests);
    }
    assert(requests@ =~= candidates(m, visible@, visible_set@, camera));
    let ordered = order_requests(&requests);
    (NeededSet { raster, elevation }, ordered)
}

/// Where the request that comes last in a list goes when the list is put in order.
proof fn lemma_placed_at(ordered: Seq<PlannedRequest>, r: PlannedRequest, k: int)
    requires
        0 <= k <= ordered.len(),
        forall|i: int| 0 <= i < k ==> (#[trigger] ordered[i]).priority <= r.priority,
        forall|i: int| k <= i < ordered.len() ==> r.priority < (#[trigger] ordered[i]).priority,
    ensures
        placed_by_priority(ordered, r) == ordered.insert(k, r),
    decreases ordered.len(),
{
    if ordered.len() == 0 || ordered.last().priority <= r.priority {
        assert(k == ordered.len());
        assert(ordered.push(r) =~= ordered.insert(k, r));
    } else {
        assert(k < ordered.len());
        let rest = ordered.drop_last();
        lemma_placed_at(rest, r, k);
        assert(rest.insert(k, r).push(ordered.last()) =~= ordered.insert(k, r));
    }
}

/// The stable ordering by priority is the one that putting the requests in place gives.
proof fn lemma_ordered_by_priority(requests: Seq<PlannedRequest>, p: Seq<usize>)
    requires
        is_stable_order(priorities(requests), p),
    ensures
        p.map_values(|i: usize| requests[i as int]) == by_priority(requests),
    decreases requests.len(),
{
    let keys = priorities(requests);
    let out = p.map_values(|i: usize| requests[i as int]);
    if requests.len() == 0 {
        assert(out =~= by_priority(requests));
    } else {
        let n = requests.len() - 1;
        let head = requests.drop_last();
        assert(occurs(p, n));
        let k = choose|k: int| 0 <= k < p.len() && p[k] == n;
        let q = p.remove(k);
        assert(priorities(head) =~= keys.drop_last());
        assert forall|i: int| 0 <= i < q.len() implies 0 <= #[trigger] q[i] < n by {
            let a = if i < k {
                i
            } else {
                i + 1
            };
            assert(q[i] == p[a]);
            if a < k {
                assert(comes_before(keys, p[a] as int, p[k] as int));
            } else {
                assert(comes_before(keys, p[k] as int, p[a] as int));
            }
        }
        assert forall|i: int, j: int| 0 <= i < j < q.len() implies comes_before(
            priorities(head),
            #[trigger] q[i] as int,
            #[trigger] q[j] as int,
        ) by {
            let a = if i < k {
                i
            } else {
                i + 1
            };
            let b = if j < k {
                j
            } else {
                j + 1
            };
            assert(q[i] == p[a] && q[j] == p[b]);
            assert(comes_before(keys, p[a] as int, p[b] as int));
        }
        assert forall|v: int| 0 <= v < n implies #[trigger] occurs(q, v) by {
            assert(occurs(p, v));
            let a = choose|a: int| 0 <= a < p.len() && p[a] == v;
            if a < k {
                assert(q[a] == v);
            } else {
                assert(q[a - 1] == v);
            }
        }
        lemma_ordered_by_priority(head, q);
        let rest = q.map_values(|i: usize| head[i as int]);
        assert forall|i: int| 0 <= i < k implies (#[trigger] rest[i]).priority
            <= requests[n].priority by {
            assert(q[i] == p[i]);
            assert(comes_before(keys, p[i] as int, p[k] as int));
        }
        assert forall|i: int| k <= i < rest.len() implies requests[n].priority < (
        #[trigger] rest[i]).priority by {
            assert(q[i] == p[i + 1]);
            assert(comes_before(keys, p[k] as int, p[i + 1] as int));
        }
        lemma_placed_at(rest, requests[n], k);
        assert(out =~= rest.insert(k, requests[n]));
    }
}

/// The requests by priority, equal priorities in their present order.
fn order_requests(requests: &Vec<PlannedRequest>) -> (r: Vec<PlannedRequest>)
    ensures
        stably_ordered(requests@, priorities(requests@), r@),
        r@ == by_priority(requests@),
{
    let mut keys: Vec<u128> = Vec::new();
    let mut i: usize = 0;
    while i < requests.len()
        invariant
            i <= requests@.len(),
            keys@ == priorities(requests@).take(i as int),
        decreases requests@.len() - i,
    {
        keys.push(requests[i].priority);
        assert(keys@ =~= priorities(requests@).take(i + 1));
        i = i + 1;
    }
    assert(keys@ =~= priorities(requests@));
    let p = stable_order(&keys);
    let mut r: Vec<PlannedRequest> = Vec::new();
    let ghost target = p@.map_values(|i: usize| requests@[i as int]);
    let mut k: usize = 0;
    while k < p.len()
        invariant
            k <= p@.len(),
            forall|i: int| 0 <= i < p@.len() ==> 0 <= #[trigger] p@[i] < requests@.len(),
            target == p@.map_values(|i: usize| requests@[i as int]),
            r@ == target.take(k as int),
        decreases p@.len() - k,
    {
        r.push(requests[p[k]]);
        assert(r@ =~= target.take(k + 1));
        k = k + 1;
    }
    assert(r@ =~= target);
    proof {
        lemma_ordered_by_priority(requests@, p@);
    }
    r
}

/// A set with the same members.
fn copy_set(s: &TileSet) -> (r: TileSet)
    ensures
        r@ == s@,
{
    let n: usize = s.len();
    let mut r = TileSet::new();
    let mut i: usize = 0;
    while i < n
        invariant
            n == s.listing().len(),
            i <= n,
            forall|c: TileCoord| #[trigger]
                r@.contains(c) <==> exists|j: int| 0 <= j < i && #[trigger] s.listing()[j] == c,
        decreases n - i,
    {
        let ghost before = r@;
        let c = s.item_at(i);
        r.insert(c);
        assert forall|d: TileCoord| #[trigger] r@.contains(d) <==> exists|j: int|
            0 <= j < i + 1 && #[trigger] s.listing()[j] == d by {
            if d == c {
                assert(s.listing()[i as int] == d);
            } else {
                assert(before.contains(d) == r@.contains(d));
            }
        }
        i = i + 1;
    }
    assert(r@ =~= s@);
    r
}

fn is_terrain<L: LayerLoadState>(layer: &L) -> (b: bool)
    ensures
        b == (layer.model().kind is Terrain),
{
    match layer.kind() {
        LayerKind::Terrain { .. } => true,
        _ => false,
    }
}

fn request_kind<L: LayerLoadState>(layer: &L) -> (k: PlannedRequestKind)
    ensures
        k == imagery_kind(layer.model()),
{
    if is_terrain(layer) {
        PlannedRequestKind::Terrain
    } else {
        PlannedRequestKind::Raster
    }
}

fn may_request<L: LayerLoadState>(layer: &L, c: &TileCoord) -> (b: bool)
    ensures
        b == wanted(layer.model(), *c),
{
    !layer.has_texture(c) && !layer.is_pending(c) && !layer.is_failed_cooldown(c)
}

fn base_tile_list(min_z: u8, max_z: u8) -> (r: Vec<TileCoord>)
    ensures
        r@ == base_tiles(min_z, max_z),
{
    let mut r: Vec<TileCoord> = Vec::new();
    if min_z == 0 {
        r.push(TileCoord { z: 0, x: 0, y: 0 });
    }
    if min_z <= 1 && max_z >= 1 {
        r.push(TileCoord { z: 1, x: 0, y: 0 });
        r.push(TileCoord { z: 1, x: 1, y: 0 });
        r.push(TileCoord { z: 1, x: 0, y: 1 });
        r.push(TileCoord { z: 1, x: 1, y: 1 });
    }
    assert(r@ =~= base_tiles(min_z, max_z));
    r
}

/// The tiles whose requests must not be aborted: visible tiles, base tiles, and the ancestor
/// chain of every visible tile up to its first textured ancestor.
fn compute_needed_set<L: LayerLoadState>(
    layer: &L,
    visible: &[VisibleTile],
    visible_set: &TileSet,
) -> (needed: TileSet)
    ensures
        forall|c: TileCoord| #[trigger]
            needed@.contains(c) <==> raster_needed(layer.model(), visible@, visible_set@, c),
{
    let ghost m = layer.model();
    let max_z: u8 = layer.max_zoom();
    let mut needed = copy_set(visible_set);
    let base = base_tile_list(layer.min_zoom(), max_z);
    let mut b: usize = 0;
    while b < base.len()
        invariant
            b <= base@.len(),
            forall|c: TileCoord| #[trigger]
                needed@.contains(c) <==> visible_set@.contains(c) || base@.take(b as int).contains(c),
        decreases base@.len() - b,
    {
        let ghost before = needed@;
        let ghost head = base@.take(b as int);
        needed.insert(base[b]);
        proof {
            assert(base@.take(b + 1) =~= head.push(base@[b as int]));
            assert forall|c: TileCoord| #[trigger] needed@.contains(c) <==> visible_set@.contains(c)
                || base@.take(b + 1).contains(c) by {
                lemma_push_contains(head, base@[b as int], c);
            }
        }
        b = b + 1;
    }
    assert(base@.take(base@.len() as int) =~= base@);
    let mut i: usize = 0;
    while i < visible.len()
        invariant
            i <= visible@.len(),
            m == layer.model(),
            max_z == m.max_zoom,
            base@ == base_tiles(m.min_zoom, m.max_zoom),
            forall|c: TileCoord| #[trigger]
                needed@.contains(c) <==> raster_needed(
                    m,
                    visible@.take(i as int),
                    visible_set@,
                    c,
                ),
        decreases visible@.len() - i,
    {
        let ghost before = needed@;
        let coord = visible[i].coord;
        insert_chain(layer, coord, &mut needed);
        proof {
            let head = visible@.take(i as int);
            let next = visible@.take(i + 1);
            assert forall|c: TileCoord| #[trigger] needed@.contains(c) <==> raster_needed(
                m,
                next,
                visible_set@,
                c,
            ) by {
                assert(next[i as int].coord == coord);
                if raster_needed(m, head, visible_set@, c) {
                    if exists|j: int|
                        0 <= j < head.len() && needed_for(m, (#[trigger] head[j]).coord, c) {
                        let j = choose|j: int|
                            0 <= j < head.len() && needed_for(m, (#[trigger] head[j]).coord, c);
                        assert(next[j] == head[j]);
                    }
                }
                if raster_needed(m, next, visible_set@, c) && !before.contains(c) {
                    let j = choose|j: int|
                        0 <= j < next.len() && needed_for(m, (#[trigger] next[j]).coord, c);
                    if j < i {
                        assert(next[j] == head[j]);
                    }
                }
                assert(before.contains(c) <==> raster_needed(m, head, visible_set@, c));
            }
        }
        i = i + 1;
    }
    assert(visible@.take(visible@.len() as int) =~= visible@);
    needed
}

/// Add what is needed on behalf of the visible tile `t`.
fn insert_chain<L: LayerLoadState>(layer: &L, t: TileCoord, needed: &mut TileSet)
    ensures
        forall|c: TileCoord| #[trigger]
            final(needed)@.contains(c) <==> old(needed)@.contains(c) || needed_for(
                layer.model(),
                t,
                c,
            ),
{
    let ghost m = layer.model();
    let ghost before = needed@;
    let max_z: u8 = layer.max_zoom();
    let s = t.clamp_to_zoom(max_z);
    if t.z > max_z {
        needed.insert(s);
    }
    let mut cur = s.parent();
    let ghost mut k: nat = 1;
    proof {
        reveal_with_fuel(up, 2);
        assert forall|c: TileCoord| #[trigger] needed@.contains(c) <==> before.contains(c) || (t.z
            > m.max_zoom && c == s) || exists|j: nat|
            1 <= j < k && j <= s.z && c == #[trigger] up(s, j) by {}
    }
    loop
        invariant_except_break
            m == layer.model(),
            s == clamped(t, m.max_zoom),
            1 <= k <= s.z + 1,
            cur == (if k <= s.z {
                Some(up(s, k))
            } else {
                None
            }),
            no_texture_below(m, s, k),
            forall|c: TileCoord| #[trigger]
                needed@.contains(c) <==> before.contains(c) || (t.z > m.max_zoom && c == s)
                    || exists|j: nat| 1 <= j < k && j <= s.z && c == #[trigger] up(s, j),
        ensures
            forall|c: TileCoord| #[trigger]
                needed@.contains(c) <==> before.contains(c) || needed_for(m, t, c),
        decreases height(cur),
    {
        match cur {
            None => {
                assert forall|c: TileCoord| #[trigger] needed@.contains(c) <==> before.contains(c)
                    || needed_for(m, t, c) by {
                    if needed_for(m, t, c) && !(t.z > m.max_zoom && c == s) {
                        let j = choose|j: nat|
                            1 <= j <= s.z && c == #[trigger] up(s, j) && no_texture_below(m, s, j);
                        assert(j < k);
                    }
                    if exists|j: nat| 1 <= j < k && j <= s.z && c == #[trigger] up(s, j) {
                        let j = choose|j: nat| 1 <= j < k && j <= s.z && c == #[trigger] up(s, j);
                        assert(no_texture_below(m, s, j));
                    }
                }
                break ;
            },
            Some(p) => {
                let ghost at = needed@;
                needed.insert(p);
                proof {
                    law_up_address(s, k);
                    assert forall|c: TileCoord| #[trigger] needed@.contains(c) <==> before.contains(
                        c,
                    ) || (t.z > m.max_zoom && c == s) || exists|j: nat|
                        1 <= j < k + 1 && j <= s.z && c == #[trigger] up(s, j) by {
                        assert(needed@.contains(c) <==> at.contains(c) || c == up(s, k));
                        if at.contains(c) && !before.contains(c) && !(t.z > m.max_zoom && c == s) {
                            let j = choose|j: nat|
                                1 <= j < k && j <= s.z && c == #[trigger] up(s, j);
                            assert(j < k + 1);
                        }
                    }
                }
                if layer.has_texture(&p) {
                    assert forall|c: TileCoord| #[trigger] needed@.contains(c) <==> before.contains(
                        c,
                    ) || needed_for(m, t, c) by {
                        if needed_for(m, t, c) && !(t.z > m.max_zoom && c == s) {
                            let j = choose|j: nat|
                                1 <= j <= s.z && c == #[trigger] up(s, j) && no_texture_below(m, s, j);
                            assert(j <= k) by {
                                if j > k {
                                    assert(!m.textured.contains(up(s, k)));
                                }
                            }
                        }
                        if exists|j: nat| 1 <= j < k + 1 && j <= s.z && c == #[trigger] up(s, j) {
                            let j = choose|j: nat|
                                1 <= j < k + 1 && j <= s.z && c == #[trigger] up(s, j);
                            assert(no_texture_below(m, s, j));
                        }
                    }
                    break ;
                }
                cur = p.parent();
                proof {
                    law_up_composes(s, k, 1);
                    reveal_with_fuel(up, 2);
                    k = k + 1;
                }
            },
        }
    }
}

/// Base tiles: the most urgent ones.
fn plan_base_tile_loads<L: LayerLoadState>(layer: &L, requests: &mut Vec<PlannedRequest>)
    ensures
        final(requests)@ == old(requests)@ + base_requests(layer.model()),
{
    let ghost m = layer.model();
    let ghost before = requests@;
    let base = base_tile_list(layer.min_zoom(), layer.max_zoom());
    let kind = request_kind(layer);
    let mut i: usize = 0;
    while i < base.len()
        invariant
            i <= base@.len(),
            m == layer.model(),
            base@ == base_tiles(m.min_zoom, m.max_zoom),
            kind == imagery_kind(m),
            requests@ == before + gather(i as nat, base_request(m)),
        decreases base@.len() - i,
    {
        let coord = base[i];
        if may_request(layer, &coord) {
            requests.push(PlannedRequest { coord, priority: 0, kind });
        }
        assert(requests@ =~= before + gather((i + 1) as nat, base_request(m)));
        i = i + 1;
    }
}

/// Search upwards for a tile to request; see [`ancestor_search`].
fn search_ancestor<L: LayerLoadState>(
    layer: &L,
    visible_set: &TileSet,
    start: Option<TileCoord>,
    seen: &mut TileSet,
) -> (found: Option<TileCoord>)
    ensures
        (found, final(seen)@) == ancestor_search(
            layer.model(),
            visible_set@,
            start,
            old(seen)@,
        ),
{
    let ghost m = layer.model();
    let min_z: u8 = layer.min_zoom();
    let mut cur = start;
    loop
        invariant
            m == layer.model(),
            min_z == m.min_zoom,
            ancestor_search(m, visible_set@, cur, seen@) == ancestor_search(
                m,
                visible_set@,
                start,
                old(seen)@,
            ),
        decreases height(cur),
    {
        match cur {
            None => {
                return None;
            },
            Some(p) => {
                if p.z < min_z || layer.has_texture(&p) {
                    return None;
                }
                if !layer.is_pending(&p) && !layer.is_failed_cooldown(&p) {
                    let ghost at = seen@;
                    if seen.insert(p) {
                        if !visible_set.contains(&p) {
                            return Some(p);
                        }
                    } else {
                        assert(seen@ =~= at);
                    }
                }
                cur = p.parent();
            },
        }
    }
}

/// Parent-first loading: one missing ancestor per visible tile, up to the concurrency limit.
fn plan_ancestor_loads<L: LayerLoadState>(
    layer: &L,
    visible: &[VisibleTile],
    visible_set: &TileSet,
    camera: MercatorPoint,
    requests: &mut Vec<PlannedRequest>,
)
    requires
        measurable(visible@),
    ensures
        final(requests)@ == old(requests)@ + ancestor_requests(
            layer.model(),
            visible@,
            visible_set@,
            camera,
        ),
{
    let ghost m = layer.model();
    let ghost before = requests@;
    let ghost make = ancestor_request(m, camera);
    let kind = request_kind(layer);
    let max_z: u8 = layer.max_zoom();
    let mut budget: usize = layer.max_concurrent();
    let mut seen = TileSet::new();
    let mut i: usize = 0;
    while i < visible.len()
        invariant
            i <= visible@.len(),
            measurable(visible@),
            m == layer.model(),
            max_z == m.max_zoom,
            make == ancestor_request(m, camera),
            kind == imagery_kind(m),
            ({
                let plan = ancestor_plan(m, visible@, visible_set@, i as nat);
                &&& seen@ == plan.seen
                &&& budget == m.max_concurrent - plan.chosen.len()
                &&& requests@ == before + plan.chosen.map_values(make)
            }),
        decreases visible@.len() - i,
    {
        let coord = visible[i].coord;
        if budget > 0 && !layer.has_texture(&coord) {
            let start = if coord.z > max_z {
                Some(coord.clamp_to_zoom(max_z))
            } else {
                coord.parent()
            };
            let ghost chosen = ancestor_plan(m, visible@, visible_set@, i as nat).chosen;
            proof {
                law_clamp_composes(coord, max_z, max_z);
                if coord.z > max_z {
                    law_up_address(coord, (coord.z - max_z) as nat);
                }
                lemma_search_below(m, visible_set@, start, seen@);
            }
            match search_ancestor(layer, visible_set, start, &mut seen) {
                Some(p) => {
                    requests.push(
                        PlannedRequest {
                            coord: p,
                            priority: key_of_tile(ANCESTOR_WEIGHT, &p, camera),
                            kind,
                        },
                    );
                    budget = budget - 1;
                    assert(chosen.push(p).map_values(make) =~= chosen.map_values(make).push(
                        make(p),
                    ));
                },
                None => {},
            }
        }
        i = i + 1;
    }
}

/// A found ancestor lies on the path from the start, in the layer's zoom range, is wanted and
/// was not considered before, is not visible, and everything below it on the path is untextured.
proof fn lemma_search_below(
    m: LoadModel,
    visible_set: Set<TileCoord>,
    cur: Option<TileCoord>,
    seen: Set<TileCoord>,
)
    ensures
        match ancestor_search(m, visible_set, cur, seen).0 {
            Some(p) => {
                &&& cur is Some
                &&& p.z <= cur.unwrap().z
                &&& m.min_zoom <= p.z
                &&& wanted(m, p)
                &&& !visible_set.contains(p)
                &&& !seen.contains(p)
                &&& ancestor_search(m, visible_set, cur, seen).1.contains(p)
                &&& up(cur.unwrap(), (cur.unwrap().z - p.z) as nat) == p
                &&& forall|j: nat|
                    j <= cur.unwrap().z - p.z ==> !m.textured.contains(
                        #[trigger] up(cur.unwrap(), j),
                    )
            },
            None => true,
        },
        forall|c: TileCoord|
            seen.contains(c) ==> #[trigger] ancestor_search(m, visible_set, cur, seen).1.contains(c),
    decreases height(cur),
{
    match cur {
        None => {},
        Some(p) => {
            if p.z < m.min_zoom || m.textured.contains(p) {
            } else if !wanted(m, p) || seen.contains(p) {
                lemma_search_below(m, visible_set, parent_option(p), seen);
                lemma_step_up(m, p, ancestor_search(m, visible_set, cur, seen).0);
            } else if visible_set.contains(p) {
                lemma_search_below(m, visible_set, parent_option(p), seen.insert(p));
                lemma_step_up(m, p, ancestor_search(m, visible_set, cur, seen).0);
            } else {
                assert forall|j: nat| j <= 0 implies !m.textured.contains(#[trigger] up(p, j)) by {}
            }
        },
    }
}

proof fn lemma_step_up(m: LoadModel, p: TileCoord, found: Option<TileCoord>)
    requires
        !m.textured.contains(p),
        match found {
            Some(q) => p.z > 0 && q.z <= parent_of(p).z && up(
                parent_of(p),
                (parent_of(p).z - q.z) as nat,
            ) == q && forall|j: nat|
                j <= parent_of(p).z - q.z ==> !m.textured.contains(
                    #[trigger] up(parent_of(p), j),
                ),
            None => true,
        },
    ensures
        match found {
            Some(q) => q.z <= p.z && up(p, (p.z - q.z) as nat) == q && forall|j: nat|
                j <= p.z - q.z ==> !m.textured.contains(#[trigger] up(p, j)),
            None => true,
        },
{
    match found {
        Some(q) => {
            assert forall|j: nat| j <= p.z - q.z implies !m.textured.contains(
                #[trigger] up(p, j),
            ) by {
                if j > 0 {
                    assert(up(p, j) == up(parent_of(p), (j - 1) as nat));
                }
            }
        },
        None => {},
    }
}

/// Levels from `c` up to its nearest textured proper ancestor; 0 where there is none.
fn compute_fallback_depth<L: LayerLoadState>(layer: &L, c: &TileCoord) -> (depth: u32)
    ensures
        depth == fallback_depth(layer.model(), *c),
{
    let ghost m = layer.model();
    let ghost p = member(m.textured);
    let mut depth: u32 = 0;
    let mut cur = c.parent();
    loop
        invariant
            m == layer.model(),
            p == member(m.textured),
            depth + height(cur) == c.z,
            match cur {
                Some(q) => match nearest_depth(q, p) {
                    Some(d) => fallback_depth(m, *c) == depth + d + 1,
                    None => fallback_depth(m, *c) == 0,
                },
                None => fallback_depth(m, *c) == 0,
            },
        decreases height(cur),
    {
        match cur {
            None => {
                return 0;
            },
            Some(q) => {
                if layer.has_texture(&q) {
                    return depth + 1;
                }
                assert(!p(q));
                depth = depth + 1;
                cur = q.parent();
            },
        }
    }
}

fn weight_of_depth(depth: u32) -> (w: u8)
    ensures
        w == fallback_weight(depth as nat),
{
    match depth {
        0 => 25,
        1 => 225,
        2 => 144,
        _ => 100,
    }
}

/// Visible tiles, weighted by how far away their stand-in is; tiles deeper than the source
/// ask for the ancestor it does serve, once.
fn plan_visible_tile_loads<L: LayerLoadState>(
    layer: &L,
    visible: &[VisibleTile],
    camera: MercatorPoint,
    requests: &mut Vec<PlannedRequest>,
)
    requires
        measurable(visible@),
    ensures
        final(requests)@ == old(requests)@ + visible_requests(layer.model(), visible@, camera),
{
    let ghost m = layer.model();
    let ghost before = requests@;
    let ghost rule = visible_request(m, visible@, camera);
    let kind = request_kind(layer);
    let min_z: u8 = layer.min_zoom();
    let max_z: u8 = layer.max_zoom();
    let mut asked = TileSet::new();
    let mut i: usize = 0;
    while i < visible.len()
        invariant
            i <= visible@.len(),
            measurable(visible@),
            m == layer.model(),
            min_z == m.min_zoom,
            max_z == m.max_zoom,
            rule == visible_request(m, visible@, camera),
            kind == imagery_kind(m),
            forall|c: TileCoord| #[trigger]
                asked@.contains(c) <==> exists|j: int|
                    0 <= j < i && (#[trigger] visible@[j]).coord.z > m.max_zoom && visible@[j].coord.z
                        >= m.min_zoom && clamped(visible@[j].coord, m.max_zoom) == c,
            requests@ == before + gather(i as nat, rule),
        decreases visible@.len() - i,
    {
        let coord = visible[i].coord;
        let fetch = coord.clamp_to_zoom(max_z);
        let ghost asked_before = asked@;
        let in_range: bool = coord.z >= min_z;
        let first: bool = if in_range && coord.z > max_z {
            asked.insert(fetch)
        } else {
            true
        };
        proof {
            assert forall|c: TileCoord| #[trigger] asked@.contains(c) <==> exists|j: int|
                0 <= j < i + 1 && (#[trigger] visible@[j]).coord.z > m.max_zoom && visible@[j].coord.z
                    >= m.min_zoom && clamped(visible@[j].coord, m.max_zoom) == c by {
                assert(asked@.contains(c) <==> asked_before.contains(c) || (in_range && coord.z
                    > max_z && c == fetch));
                if asked_before.contains(c) {
                    let j = choose|j: int|
                        0 <= j < i && (#[trigger] visible@[j]).coord.z > m.max_zoom
                            && visible@[j].coord.z >= m.min_zoom && clamped(
                            visible@[j].coord,
                            m.max_zoom,
                        ) == c;
                    assert(0 <= j < i + 1);
                }
                if in_range && coord.z > max_z && c == fetch {
                    assert(visible@[i as int].coord == coord);
                }
            }
            if in_range {
                assert(repeats_overzoom(m, visible@, i as int) == !first) by {
                    if coord.z > max_z {
                        assert(first == !asked_before.contains(fetch));
                    }
                }
            }
        }
        if in_range && first && may_request(layer, &fetch) {
            proof {
                if coord.z > max_z {
                    law_up_address(coord, (coord.z - max_z) as nat);
                }
            }
            let depth: u32 = compute_fallback_depth(layer, &fetch);
            requests.push(
                PlannedRequest {
                    coord: fetch,
                    priority: key_of_tile(weight_of_depth(depth), &fetch, camera),
                    kind,
                },
            );
        }
        assert(requests@ =~= before + gather((i + 1) as nat, rule));
        i = i + 1;
    }
}

/// Elevation of the root tile as a global stand-in, then of the visible tiles, nearest first.
fn plan_elevation_loads<L: LayerLoadState>(
    layer: &L,
    visible: &[VisibleTile],
    visible_set: &TileSet,
    camera: MercatorPoint,
    requests: &mut Vec<PlannedRequest>,
)
    requires
        measurable(visible@),
    ensures
        final(requests)@ == old(requests)@ + elevation_requests(
            layer.model(),
            visible@,
            visible_set@,
            camera,
        ),
{
    let ghost m = layer.model();
    let ghost rule = elevation_request(m, visible@, visible_set@, camera);
    let base = TileCoord { z: 0, x: 0, y: 0 };
    if !layer.has_terrain_data(&base) && !layer.is_elevation_pending(&base) {
        requests.push(
            PlannedRequest { coord: base, priority: 0, kind: PlannedRequestKind::Elevation },
        );
    }
    let ghost before = requests@;
    let mut found: Vec<PlannedRequest> = Vec::new();
    let mut seen = TileSet::new();
    let mut i: usize = 0;
    while i < visible.len()
        invariant
            i <= visible@.len(),
            measurable(visible@),
            m == layer.model(),
            rule == elevation_request(m, visible@, visible_set@, camera),
            forall|c: TileCoord| #[trigger]
                seen@.contains(c) <==> visible_set@.contains(c) && elevation_wanted(m, c)
                    && exists|j: int| 0 <= j < i && (#[trigger] visible@[j]).coord == c,
            found@ == gather(i as nat, rule),
        decreases visible@.len() - i,
    {
        let coord = visible[i].coord;
        let ghost seen_before = seen@;
        let eligible: bool = visible_set.contains(&coord) && !layer.has_terrain_data(&coord)
            && !layer.is_elevation_pending(&coord);
        if eligible {
            let first: bool = seen.insert(coord);
            if first {
                found.push(
                    PlannedRequest {
                        coord,
                        priority: key_of_display(ELEVATION_WEIGHT, &visible[i], camera),
                        kind: PlannedRequestKind::Elevation,
                    },
                );
            }
        }
        proof {
            assert forall|c: TileCoord| #[trigger] seen@.contains(c) <==> visible_set@.contains(c)
                && elevation_wanted(m, c) && exists|j: int|
                0 <= j < i + 1 && (#[trigger] visible@[j]).coord == c by {
                assert(seen@.contains(c) <==> seen_before.contains(c) || (eligible && c == coord));
                if seen_before.contains(c) {
                    let j = choose|j: int| 0 <= j < i && (#[trigger] visible@[j]).coord == c;
                    assert(0 <= j < i + 1);
                }
                if c == coord {
                    assert(visible@[i as int].coord == c);
                }
            }
        }
        assert(found@ =~= gather((i + 1) as nat, rule));
        i = i + 1;
    }
    let ordered = order_requests(&found);
    let mut k: usize = 0;
    while k < ordered.len()
        invariant
            k <= ordered@.len(),
            requests@ == before + ordered@.take(k as int),
        decreases ordered@.len() - k,
    {
        requests.push(ordered[k]);
        assert(requests@ =~= before + ordered@.take(k + 1));
        k = k + 1;
    }
    assert(ordered@.take(ordered@.len() as int) =~= ordered@);
    assert(requests@ =~= old(requests)@ + elevation_requests(m, visible@, visible_set@, camera));
}

// ---------------------------------------------------------------------------
// Laws
// ---------------------------------------------------------------------------
/// The planned requests are exactly the candidates, most urgent first.
pub proof fn law_plan_ordered(all: Seq<PlannedRequest>, out: Seq<PlannedRequest>)
    requires
        stably_ordered(all, priorities(all), out),
    ensures
        out.len() == all.len(),
        out.to_multiset() == all.to_multiset(),
        forall|i: int, j: int|
            0 <= i <= j < out.len() ==> (#[trigger] out[i]).priority <= (#[trigger] out[j]).priority,
        forall|r: PlannedRequest| #[trigger] out.contains(r) <==> all.contains(r),
{
    law_stably_ordered(all, priorities(all), out);
    let p = choose|p: Seq<usize>|
        {
            &&& #[trigger] is_stable_order(priorities(all), p)
            &&& out == p.map_values(|i: usize| all[i as int])
            &&& forall|i: int, j: int|
                0 <= i <= j < p.len() ==> priorities(all)[#[trigger] p[i] as int] <= priorities(
                    all,
                )[#[trigger] p[j] as int]
        };
    assert forall|i: int, j: int| 0 <= i <= j < out.len() implies (#[trigger] out[i]).priority <= (
    #[trigger] out[j]).priority by {
        assert(priorities(all)[p[i] as int] <= priorities(all)[p[j] as int]);
    }
    assert forall|r: PlannedRequest| #[trigger] out.contains(r) <==> all.contains(r) by {
        all.to_multiset_ensures();
        out.to_multiset_ensures();
        assert(out.contains(r) <==> out.to_multiset().contains(r));
        assert(all.contains(r) <==> all.to_multiset().contains(r));
    }
}

/// A candidate comes from one of the four groups.
proof fn lemma_candidate_sources(
    m: LoadModel,
    visible: Seq<VisibleTile>,
    visible_set: Set<TileCoord>,
    camera: MercatorPoint,
    r: PlannedRequest,
)
    ensures
        candidates(m, visible, visible_set, camera).contains(r) <==> {
            ||| base_requests(m).contains(r)
            ||| ancestor_requests(m, visible, visible_set, camera).contains(r)
            ||| visible_requests(m, visible, camera).contains(r)
            ||| (m.has_elevation_source || m.kind is Terrain) && elevation_requests(
                m,
                visible,
                visible_set,
                camera,
            ).contains(r)
        },
{
    let a = base_requests(m);
    let b = ancestor_requests(m, visible, visible_set, camera);
    let c = visible_requests(m, visible, camera);
    let d = if m.has_elevation_source || m.kind is Terrain {
        elevation_requests(m, visible, visible_set, camera)
    } else {
        Seq::empty()
    };
    lemma_add_contains(a, b, r);
    lemma_add_contains(a + b, c, r);
    lemma_add_contains(a + b + c, d, r);
}

/// Putting requests in order neither loses nor adds one, and the most urgent come first.
proof fn lemma_by_priority(s: Seq<PlannedRequest>, r: PlannedRequest)
    ensures
        by_priority(s).len() == s.len(),
        by_priority(s).contains(r) <==> s.contains(r),
        forall|i: int, j: int|
            0 <= i <= j < by_priority(s).len() ==> (#[trigger] by_priority(s)[i]).priority <= (
            #[trigger] by_priority(s)[j]).priority,
    decreases s.len(),
{
    if s.len() > 0 {
        let head = s.drop_last();
        lemma_by_priority(head, r);
        lemma_placed(by_priority(head), s.last(), r);
        assert(s =~= head.push(s.last()));
        lemma_add_contains(head, seq![s.last()], r);
        assert(head + seq![s.last()] =~= s);
        assert(seq![s.last()].contains(r) <==> r == s.last()) by {
            assert(seq![s.last()][0] == s.last());
        }
    }
}

proof fn lemma_placed(ordered: Seq<PlannedRequest>, v: PlannedRequest, r: PlannedRequest)
    requires
        forall|i: int, j: int|
            0 <= i <= j < ordered.len() ==> (#[trigger] ordered[i]).priority <= (
            #[trigger] ordered[j]).priority,
    ensures
        ({
            let out = placed_by_priority(ordered, v);
            &&& out.len() == ordered.len() + 1
            &&& out.contains(r) <==> ordered.contains(r) || r == v
            &&& forall|i: int, j: int|
                0 <= i <= j < out.len() ==> (#[trigger] out[i]).priority <= (
                #[trigger] out[j]).priority
            &&& forall|i: int|
                0 <= i < out.len() ==> (#[trigger] out[i]).priority <= v.priority || (
                ordered.len() > 0 && out[i].priority <= ordered.last().priority)
        }),
    decreases ordered.len(),
{
    let out = placed_by_priority(ordered, v);
    if ordered.len() == 0 || ordered.last().priority <= v.priority {
        lemma_add_contains(ordered, seq![v], r);
        assert(ordered + seq![v] =~= out);
        assert(seq![v].contains(r) <==> r == v) by {
            assert(seq![v][0] == v);
        }
    } else {
        let rest = ordered.drop_last();
        let last = ordered.last();
        lemma_placed(rest, v, r);
        let inner = placed_by_priority(rest, v);
        assert forall|i: int| 0 <= i < inner.len() implies (#[trigger] inner[i]).priority
            <= last.priority by {
            if rest.len() > 0 {
                assert(rest.last() == ordered[rest.len() - 1]);
            }
        }
        lemma_add_contains(inner, seq![last], r);
        assert(inner + seq![last] =~= out);
        lemma_add_contains(rest, seq![last], r);
        assert(rest + seq![last] =~= ordered);
        assert(seq![last].contains(r) <==> r == last) by {
            assert(seq![last][0] == last);
        }
    }
}

proof fn lemma_add_contains<T>(a: Seq<T>, b: Seq<T>, r: T)
    ensures
        (a + b).contains(r) <==> a.contains(r) || b.contains(r),
{
    let s = a + b;
    if a.contains(r) {
        let k = choose|k: int| 0 <= k < a.len() && a[k] == r;
        assert(s[k] == r);
    }
    if b.contains(r) {
        let k = choose|k: int| 0 <= k < b.len() && b[k] == r;
        assert(s[a.len() + k] == r);
    }
    if s.contains(r) {
        let k = choose|k: int| 0 <= k < s.len() && s[k] == r;
        if k < a.len() {
            assert(a[k] == r);
        } else {
            assert(b[k - a.len()] == r);
        }
    }
}

/// Ancestor loading asks for at most as many tiles as may load at once, each once, and only
/// for tiles that are wanted, lie in the layer's zoom range and are not visible themselves.
pub proof fn law_ancestor_plan(
    m: LoadModel,
    visible: Seq<VisibleTile>,
    visible_set: Set<TileCoord>,
    n: nat,
)
    requires
        n <= visible.len(),
    ensures
        ({
            let plan = ancestor_plan(m, visible, visible_set, n);
            &&& plan.chosen.len() <= m.max_concurrent
            &&& plan.chosen.len() <= n
            &&& plan.chosen.no_duplicates()
            &&& forall|i: int|
                0 <= i < plan.chosen.len() ==> {
                    let p = #[trigger] plan.chosen[i];
                    &&& plan.seen.contains(p)
                    &&& wanted(m, p)
                    &&& m.min_zoom <= p.z <= m.max_zoom
                    &&& !visible_set.contains(p)
                }
        }),
    decreases n,
{
    if n > 0 {
        law_ancestor_plan(m, visible, visible_set, (n - 1) as nat);
        let before = ancestor_plan(m, visible, visible_set, (n - 1) as nat);
        let c = visible[n - 1].coord;
        let start = ancestor_start(m, c);
        lemma_search_below(m, visible_set, start, before.seen);
        if c.z > m.max_zoom {
            law_up_address(c, (c.z - m.max_zoom) as nat);
        }
        let plan = ancestor_plan(m, visible, visible_set, n);
        let (found, seen) = ancestor_search(m, visible_set, start, before.seen);
        if !(before.chosen.len() >= m.max_concurrent || m.textured.contains(c)) {
            match found {
                Some(p) => {
                    assert forall|i: int| 0 <= i < plan.chosen.len() implies {
                        let q = #[trigger] plan.chosen[i];
                        &&& plan.seen.contains(q)
                        &&& wanted(m, q)
                        &&& m.min_zoom <= q.z <= m.max_zoom
                        &&& !visible_set.contains(q)
                    } by {
                        if i < before.chosen.len() {
                            assert(plan.chosen[i] == before.chosen[i]);
                            assert(before.seen.contains(before.chosen[i]));
                        }
                    }
                    assert(!before.chosen.contains(p)) by {
                        if before.chosen.contains(p) {
                            let k = choose|k: int|
                                0 <= k < before.chosen.len() && before.chosen[k] == p;
                            assert(before.seen.contains(before.chosen[k]));
                        }
                    }
                },
                None => {
                    assert forall|i: int| 0 <= i < plan.chosen.len() implies plan.seen.contains(
                        #[trigger] plan.chosen[i],
                    ) by {
                        assert(before.seen.contains(before.chosen[i]));
                    }
                },
            }
        }
    }
}

/// The chosen ancestors all stand on the path above some visible tile, below that tile's
/// first textured ancestor.
proof fn lemma_chosen_needed(
    m: LoadModel,
    visible: Seq<VisibleTile>,
    visible_set: Set<TileCoord>,
    n: nat,
    p: TileCoord,
)
    requires
        n <= visible.len(),
        ancestor_plan(m, visible, visible_set, n).chosen.contains(p),
    ensures
        exists|i: int| 0 <= i < n && needed_for(m, (#[trigger] visible[i]).coord, p),
    decreases n,
{
    if n > 0 {
        let before = ancestor_plan(m, visible, visible_set, (n - 1) as nat);
        let chosen = ancestor_plan(m, visible, visible_set, n).chosen;
        if before.chosen.contains(p) {
            lemma_chosen_needed(m, visible, visible_set, (n - 1) as nat, p);
        } else {
            let c = visible[n - 1].coord;
            let start = ancestor_start(m, c);
            let found = ancestor_search(m, visible_set, start, before.seen).0;
            assert(found == Some(p)) by {
                let k = choose|k: int| 0 <= k < chosen.len() && chosen[k] == p;
                if k < before.chosen.len() {
                    assert(before.chosen[k] == p);
                }
            }
            lemma_search_below(m, visible_set, start, before.seen);
            let s = clamped(c, m.max_zoom);
            let q = start.unwrap();
            let k = (q.z - p.z) as nat;
            if c.z > m.max_zoom {
                law_up_address(c, (c.z - m.max_zoom) as nat);
                if k >= 1 {
                    assert(p == up(s, k));
                    assert(no_texture_below(m, s, k));
                }
            } else {
                assert(up(s, k + 1) == up(q, k));
                assert forall|j: nat| 1 <= j < k + 1 implies !m.textured.contains(
                    #[trigger] up(s, j),
                ) by {
                    assert(up(s, j) == up(q, (j - 1) as nat));
                }
                assert(no_texture_below(m, s, k + 1));
            }
            assert(needed_for(m, visible[n - 1].coord, p));
        }
    } else {
        assert(ancestor_plan(m, visible, visible_set, n).chosen.len() == 0);
    }
}

/// No imagery request is made for a tile that is textured, on its way or just failed, nor
/// for a level outside the layer's zoom range; and no elevation request for a tile whose
/// elevation is there or on its way. Where the range is empty, requests are still made for the
/// deepest level that the source serves.
pub proof fn law_requests_useful(
    m: LoadModel,
    visible: Seq<VisibleTile>,
    visible_set: Set<TileCoord>,
    camera: MercatorPoint,
    r: PlannedRequest,
)
    requires
        candidates(m, visible, visible_set, camera).contains(r),
    ensures
        r.kind is Elevation ==> elevation_wanted(m, r.coord),
        !(r.kind is Elevation) ==> wanted(m, r.coord) && r.coord.z <= m.max_zoom && r.kind
            == imagery_kind(m),
        !(r.kind is Elevation) ==> m.min_zoom <= r.coord.z || (m.max_zoom < m.min_zoom && r.coord.z
            == m.max_zoom),
        r.kind is Elevation ==> !m.elevated.contains(r.coord) && !m.elevation_pending.contains(
            r.coord,
        ) && (m.has_elevation_source || m.kind is Terrain),
        !(r.kind is Elevation) ==> !m.textured.contains(r.coord) && !m.pending.contains(r.coord)
            && !m.failed.contains(r.coord) && (r.kind is Terrain <==> m.kind is Terrain),
{
    lemma_candidate_sources(m, visible, visible_set, camera, r);
    let base = base_tiles(m.min_zoom, m.max_zoom);
    if base_requests(m).contains(r) {
        lemma_gather_contains(base.len(), base_request(m), r);
        let i = choose|i: int| 0 <= i < base.len() && #[trigger] base_request(m)(i) == Some(r);
        assert(base[i] == r.coord);
        lemma_base_levels(m.min_zoom, m.max_zoom, i);
    } else if ancestor_requests(m, visible, visible_set, camera).contains(r) {
        let plan = ancestor_plan(m, visible, visible_set, visible.len());
        let all = ancestor_requests(m, visible, visible_set, camera);
        let k = choose|k: int| 0 <= k < all.len() && all[k] == r;
        law_ancestor_plan(m, visible, visible_set, visible.len());
        assert(plan.chosen[k] == r.coord);
    } else if visible_requests(m, visible, camera).contains(r) {
        let rule = visible_request(m, visible, camera);
        lemma_gather_contains(visible.len(), rule, r);
        let i = choose|i: int| 0 <= i < visible.len() && #[trigger] rule(i) == Some(r);
        law_clamp_composes(visible[i].coord, m.max_zoom, m.max_zoom);
        if visible[i].coord.z > m.max_zoom {
            law_up_address(visible[i].coord, (visible[i].coord.z - m.max_zoom) as nat);
        }
    } else {
        let rule = elevation_request(m, visible, visible_set, camera);
        let found = gather(visible.len(), rule);
        let rest = by_priority(found);
        lemma_by_priority(found, r);
        let head = if elevation_wanted(m, root_tile()) {
            seq![
                PlannedRequest {
                    coord: root_tile(),
                    priority: 0,
                    kind: PlannedRequestKind::Elevation,
                },
            ]
        } else {
            Seq::empty()
        };
        lemma_add_contains(head, rest, r);
        lemma_gather_contains(visible.len(), rule, r);
    }
}

proof fn lemma_base_levels(min_z: u8, max_z: u8, i: int)
    requires
        0 <= i < base_tiles(min_z, max_z).len(),
    ensures
        min_z <= base_tiles(min_z, max_z)[i].z <= max_z,
{
    let t = base_tiles(min_z, max_z);
    let off: int = if min_z == 0 {
        1
    } else {
        0
    };
    if i >= off {
        assert(t[i] == level_one()[i - off]);
        assert(level_one()[0].z == 1 && level_one()[1].z == 1 && level_one()[2].z == 1
            && level_one()[3].z == 1);
    } else {
        assert(t[0] == root_tile());
    }
}

/// Every imagery request is for a tile that counts as needed, so a planned load is never
/// among those to abort.
pub proof fn law_requests_needed(
    m: LoadModel,
    visible: Seq<VisibleTile>,
    visible_set: Set<TileCoord>,
    camera: MercatorPoint,
    r: PlannedRequest,
)
    requires
        candidates(m, visible, visible_set, camera).contains(r),
        forall|i: int| 0 <= i < visible.len() ==> visible_set.contains((#[trigger] visible[i]).coord),
    ensures
        !(r.kind is Elevation) ==> raster_needed(m, visible, visible_set, r.coord),
        r.kind is Elevation ==> visible_set.contains(r.coord) || r.coord == root_tile(),
{
    lemma_candidate_sources(m, visible, visible_set, camera, r);
    let base = base_tiles(m.min_zoom, m.max_zoom);
    if base_requests(m).contains(r) {
        lemma_gather_contains(base.len(), base_request(m), r);
        let i = choose|i: int| 0 <= i < base.len() && #[trigger] base_request(m)(i) == Some(r);
        assert(base[i] == r.coord);
        assert(base.contains(r.coord));
    } else if ancestor_requests(m, visible, visible_set, camera).contains(r) {
        let all = ancestor_requests(m, visible, visible_set, camera);
        let k = choose|k: int| 0 <= k < all.len() && all[k] == r;
        let chosen = ancestor_plan(m, visible, visible_set, visible.len()).chosen;
        assert(chosen[k] == r.coord);
        lemma_chosen_needed(m, visible, visible_set, visible.len(), r.coord);
    } else if visible_requests(m, visible, camera).contains(r) {
        let rule = visible_request(m, visible, camera);
        lemma_gather_contains(visible.len(), rule, r);
        let i = choose|i: int| 0 <= i < visible.len() && #[trigger] rule(i) == Some(r);
        if visible[i].coord.z > m.max_zoom {
            assert(needed_for(m, visible[i].coord, r.coord));
        }
    } else {
        let rule = elevation_request(m, visible, visible_set, camera);
        let found = gather(visible.len(), rule);
        let rest = by_priority(found);
        lemma_by_priority(found, r);
        let head = if elevation_wanted(m, root_tile()) {
            seq![
                PlannedRequest {
                    coord: root_tile(),
                    priority: 0,
                    kind: PlannedRequestKind::Elevation,
                },
            ]
        } else {
            Seq::empty()
        };
        lemma_add_contains(head, rest, r);
        lemma_gather_contains(visible.len(), rule, r);
    }
}

/// Every visible tile at or below the layer's lowest level leads to an imagery request for
/// itself, or for the ancestor that the source serves in its place, unless that tile is
/// textured, on its way or just failed.
pub proof fn law_visible_requested(
    m: LoadModel,
    visible: Seq<VisibleTile>,
    visible_set: Set<TileCoord>,
    camera: MercatorPoint,
    i: int,
)
    requires
        0 <= i < visible.len(),
        visible[i].coord.z >= m.min_zoom,
        wanted(m, clamped(visible[i].coord, m.max_zoom)),
    ensures
        exists|r: PlannedRequest| #[trigger]
            candidates(m, visible, visible_set, camera).contains(r) && r.coord == clamped(
                visible[i].coord,
                m.max_zoom,
            ) && r.kind == imagery_kind(m),
    decreases i,
{
    if repeats_overzoom(m, visible, i) {
        let j = choose|j: int|
            0 <= j < i && (#[trigger] visible[j]).coord.z > m.max_zoom && visible[j].coord.z
                >= m.min_zoom && clamped(visible[j].coord, m.max_zoom) == clamped(
                visible[i].coord,
                m.max_zoom,
            );
        law_visible_requested(m, visible, visible_set, camera, j);
    } else {
        let rule = visible_request(m, visible, camera);
        let r = rule(i).unwrap();
        lemma_gather_contains(visible.len(), rule, r);
        lemma_candidate_sources(m, visible, visible_set, camera, r);
    }
}

/// Every base tile that may be requested is requested with the highest urgency, and so is
/// the root elevation of a layer with elevation.
pub proof fn law_base_requested(
    m: LoadModel,
    visible: Seq<VisibleTile>,
    visible_set: Set<TileCoord>,
    camera: MercatorPoint,
    c: TileCoord,
)
    ensures
        base_tiles(m.min_zoom, m.max_zoom).contains(c) && wanted(m, c) ==> candidates(
            m,
            visible,
            visible_set,
            camera,
        ).contains(PlannedRequest { coord: c, priority: 0, kind: imagery_kind(m) }),
        (m.has_elevation_source || m.kind is Terrain) && elevation_wanted(m, root_tile())
            ==> candidates(m, visible, visible_set, camera).contains(
            PlannedRequest { coord: root_tile(), priority: 0, kind: PlannedRequestKind::Elevation },
        ),
{
    let base = base_tiles(m.min_zoom, m.max_zoom);
    if base.contains(c) && wanted(m, c) {
        let r = PlannedRequest { coord: c, priority: 0, kind: imagery_kind(m) };
        let i = choose|i: int| 0 <= i < base.len() && base[i] == c;
        assert(base_request(m)(i) == Some(r));
        lemma_gather_contains(base.len(), base_request(m), r);
        lemma_candidate_sources(m, visible, visible_set, camera, r);
    }
    if (m.has_elevation_source || m.kind is Terrain) && elevation_wanted(m, root_tile()) {
        let r = PlannedRequest {
            coord: root_tile(),
            priority: 0,
            kind: PlannedRequestKind::Elevation,
        };
        assert(elevation_requests(m, visible, visible_set, camera)[0] == r);
        lemma_candidate_sources(m, visible, visible_set, camera, r);
    }
}

/// The elevation requests begin with the root tile where that is wanted; the others are for
/// exactly the visible tiles whose elevation is wanted, each once, and never become more urgent.
pub proof fn law_elevation_order(
    m: LoadModel,
    visible: Seq<VisibleTile>,
    visible_set: Set<TileCoord>,
    camera: MercatorPoint,
    c: TileCoord,
)
    ensures
        ({
            let found = gather(
                visible.len(),
                elevation_request(m, visible, visible_set, camera),
            );
            let rest = by_priority(found);
            let all = elevation_requests(m, visible, visible_set, camera);
            &&& elevation_wanted(m, root_tile()) ==> all[0] == (PlannedRequest {
                coord: root_tile(),
                priority: 0,
                kind: PlannedRequestKind::Elevation,
            }) && all.skip(1) == rest
            &&& !elevation_wanted(m, root_tile()) ==> all == rest
            &&& forall|i: int, j: int|
                0 <= i <= j < rest.len() ==> (#[trigger] rest[i]).priority <= (
                #[trigger] rest[j]).priority
            &&& rest.to_multiset() == found.to_multiset()
            &&& (exists|i: int| 0 <= i < rest.len() && (#[trigger] rest[i]).coord == c)
                <==> visible_set.contains(c) && elevation_wanted(m, c) && exists|i: int|
                0 <= i < visible.len() && (#[trigger] visible[i]).coord == c
            &&& forall|i: int, j: int|
                0 <= i < j < found.len() ==> (#[trigger] found[i]).coord != (
                #[trigger] found[j]).coord
        }),
{
    let rule = elevation_request(m, visible, visible_set, camera);
    let found = gather(visible.len(), rule);
    let rest = by_priority(found);
    let all = elevation_requests(m, visible, visible_set, camera);
    if elevation_wanted(m, root_tile()) {
        assert(all.skip(1) =~= rest);
    } else {
        assert(all =~= rest);
    }
    lemma_by_priority_multiset(found);
    lemma_by_priority(found, found[0]);
    let src = lemma_gather_sources(visible.len(), rule);
    assert forall|i: int, j: int| 0 <= i < j < found.len() implies (#[trigger] found[i]).coord != (
    #[trigger] found[j]).coord by {
        assert(rule(src[i]) == Some(found[i]) && rule(src[j]) == Some(found[j]));
        assert(src[i] < src[j]);
        assert(visible[src[i]].coord != visible[src[j]].coord);
    }
    if exists|i: int| 0 <= i < rest.len() && (#[trigger] rest[i]).coord == c {
        let i = choose|i: int| 0 <= i < rest.len() && (#[trigger] rest[i]).coord == c;
        lemma_by_priority(found, rest[i]);
        assert(rest.contains(rest[i]));
        let k = choose|k: int| 0 <= k < found.len() && found[k] == rest[i];
        assert(rule(src[k]) == Some(found[k]));
        assert(visible[src[k]].coord == c);
    }
    if visible_set.contains(c) && elevation_wanted(m, c) && exists|i: int|
        0 <= i < visible.len() && (#[trigger] visible[i]).coord == c {
        let i = choose|i: int| 0 <= i < visible.len() && (#[trigger] visible[i]).coord == c;
        let f = lemma_first_of(visible, c, i);
        let r = rule(f).unwrap();
        assert(rule(f) == Some(r));
        lemma_gather_contains(visible.len(), rule, r);
        lemma_by_priority(found, r);
        let k = choose|k: int| 0 <= k < rest.len() && rest[k] == r;
        assert(rest[k].coord == c);
    }
}

/// The first position of an address that is visible.
proof fn lemma_first_of(visible: Seq<VisibleTile>, c: TileCoord, i: int) -> (f: int)
    requires
        0 <= i < visible.len(),
        visible[i].coord == c,
    ensures
        0 <= f <= i,
        visible[f].coord == c,
        forall|j: int| 0 <= j < f ==> (#[trigger] visible[j]).coord != c,
    decreases i,
{
    if exists|j: int| 0 <= j < i && (#[trigger] visible[j]).coord == c {
        let j = choose|j: int| 0 <= j < i && (#[trigger] visible[j]).coord == c;
        lemma_first_of(visible, c, j)
    } else {
        i
    }
}

proof fn lemma_by_priority_multiset(s: Seq<PlannedRequest>)
    ensures
        by_priority(s).to_multiset() == s.to_multiset(),
    decreases s.len(),
{
    if s.len() == 0 {
        assert(by_priority(s) =~= s);
    } else {
        let head = s.drop_last();
        lemma_by_priority_multiset(head);
        lemma_placed_multiset(by_priority(head), s.last());
        assert(s =~= head.push(s.last()));
        vstd::seq_lib::to_multiset_build(head, s.last());
    }
}

proof fn lemma_placed_multiset(ordered: Seq<PlannedRequest>, v: PlannedRequest)
    ensures
        placed_by_priority(ordered, v).to_multiset() == ordered.to_multiset().insert(v),
    decreases ordered.len(),
{
    if ordered.len() == 0 || ordered.last().priority <= v.priority {
        vstd::seq_lib::to_multiset_build(ordered, v);
    } else {
        let rest = ordered.drop_last();
        let last = ordered.last();
        lemma_placed_multiset(rest, v);
        vstd::seq_lib::to_multiset_build(placed_by_priority(rest, v), last);
        vstd::seq_lib::to_multiset_build(rest, last);
        assert(ordered =~= rest.push(last));
        assert(rest.to_multiset().insert(v).insert(last) =~= rest.to_multiset().insert(last).insert(
            v,
        ));
    }
}

/// What is visible, the base tiles, the stand-in of a tile deeper than the source, and each
/// visible tile's nearest textured ancestor are all needed, so none of them is given up.
pub proof fn law_needed_covers(
    m: LoadModel,
    visible: Seq<VisibleTile>,
    visible_set: Set<TileCoord>,
    i: int,
)
    requires
        0 <= i < visible.len(),
    ensures
        visible[i].coord.z > m.max_zoom ==> raster_needed(
            m,
            visible,
            visible_set,
            clamped(visible[i].coord, m.max_zoom),
        ),
        ({
            let s = clamped(visible[i].coord, m.max_zoom);
            s.z > 0 ==> match nearest_depth(parent_of(s), member(m.textured)) {
                Some(d) => raster_needed(m, visible, visible_set, up(parent_of(s), d)),
                None => true,
            }
        }),
{
    let t = visible[i].coord;
    let s = clamped(t, m.max_zoom);
    if t.z > m.max_zoom {
        assert(needed_for(m, t, s));
    }
    if s.z > 0 {
        let q = parent_of(s);
        let p = member(m.textured);
        law_nearest(q, p);
        match nearest_depth(q, p) {
            Some(d) => {
                assert(up(s, d + 1) == up(q, d));
                assert forall|j: nat| 1 <= j < d + 1 implies !m.textured.contains(
                    #[trigger] up(s, j),
                ) by {
                    assert(up(s, j) == up(q, (j - 1) as nat));
                    assert(!p(up(q, (j - 1) as nat)));
                }
                assert(no_texture_below(m, s, d + 1));
                assert(needed_for(m, t, up(s, d + 1)));
            },
            None => {},
        }
    }
}

/// The base tiles are those of levels 0 and 1 within the source's zoom range, each once.
pub proof fn law_base_tiles(min_z: u8, max_z: u8, c: TileCoord)
    ensures
        base_tiles(min_z, max_z).contains(c) <==> min_z <= c.z <= max_z && (c == (TileCoord {
            z: 0,
            x: 0,
            y: 0,
        }) || (c.z == 1 && c.x < 2 && c.y < 2)),
        base_tiles(min_z, max_z).no_duplicates(),
{
    let t = base_tiles(min_z, max_z);
    let root = if min_z == 0 {
        seq![root_tile()]
    } else {
        Seq::empty()
    };
    let four = if min_z <= 1 && max_z >= 1 {
        level_one()
    } else {
        Seq::empty()
    };
    assert(t =~= root + four);
    lemma_add_contains(root, four, c);
    assert(seq![root_tile()][0] == root_tile());
    assert(level_one()[0] == (TileCoord { z: 1, x: 0, y: 0 }));
    assert(level_one()[1] == (TileCoord { z: 1, x: 1, y: 0 }));
    assert(level_one()[2] == (TileCoord { z: 1, x: 0, y: 1 }));
    assert(level_one()[3] == (TileCoord { z: 1, x: 1, y: 1 }));
    if four.contains(c) {
        let k = choose|k: int| 0 <= k < four.len() && four[k] == c;
    }
}

/// A base tile is requested before anything else, unless it is there, on its way or just failed.
pub proof fn law_base_first(
    m: LoadModel,
    visible: Seq<VisibleTile>,
    visible_set: Set<TileCoord>,
    camera: MercatorPoint,
    c: TileCoord,
)
    requires
        m.min_zoom <= c.z <= m.max_zoom,
        c.z == 0 ==> c.x == 0 && c.y == 0,
        c.z <= 1 && c.x < 2 && c.y < 2,
        !m.textured.contains(c) && !m.pending.contains(c) && !m.failed.contains(c),
    ensures
        exists|r: PlannedRequest| #[trigger]
            candidates(m, visible, visible_set, camera).contains(r) && r.coord == c && r.priority == 0
                && (r.kind is Terrain <==> m.kind is Terrain) && !(r.kind is Elevation),
{
    law_base_tiles(m.min_zoom, m.max_zoom, c);
    law_base_requested(m, visible, visible_set, camera, c);
}

/// How urgent a visible tile is: its squared distance, more pressing where nothing can stand in
/// for it and less so where its parent can. In hundredths of the squared distance it is 25 with
/// no textured tile above it, 225 where the next one above is textured, 144 where the second one
/// is the first textured, and 100 where that comes later.
pub proof fn law_visible_urgency(
    m: LoadModel,
    visible: Seq<VisibleTile>,
    visible_set: Set<TileCoord>,
    camera: MercatorPoint,
    i: int,
)
    requires
        0 <= i < visible.len(),
        visible[i].coord.z >= m.min_zoom,
        visible[i].coord.z > m.max_zoom ==> forall|j: int|
            0 <= j < i && (#[trigger] visible[j]).coord.z > m.max_zoom && visible[j].coord.z
                >= m.min_zoom ==> clamped(
                visible[j].coord,
                m.max_zoom,
            ) != clamped(visible[i].coord, m.max_zoom),
        ({
            let c = clamped(visible[i].coord, m.max_zoom);
            !m.textured.contains(c) && !m.pending.contains(c) && !m.failed.contains(c)
        }),
    ensures
        ({
            let c = clamped(visible[i].coord, m.max_zoom);
            let all = candidates(m, visible, visible_set, camera);
            let at = |weight: u8|
                PlannedRequest {
                    coord: c,
                    priority: tile_key(weight, c, camera),
                    kind: if m.kind is Terrain {
                        PlannedRequestKind::Terrain
                    } else {
                        PlannedRequestKind::Raster
                    },
                };
            &&& (forall|k: nat| 1 <= k <= c.z ==> !m.textured.contains(#[trigger] up(c, k)))
                ==> all.contains(at(25)) && visible_request(m, visible, camera)(i) == Some(at(25))
            &&& c.z >= 1 && m.textured.contains(up(c, 1)) ==> all.contains(at(225))
                && visible_request(m, visible, camera)(i) == Some(at(225))
            &&& c.z >= 2 && !m.textured.contains(up(c, 1)) && m.textured.contains(up(c, 2))
                ==> all.contains(at(144)) && visible_request(m, visible, camera)(i) == Some(at(144))
            &&& c.z >= 1 && !m.textured.contains(up(c, 1)) && !m.textured.contains(up(c, 2)) && (
            exists|k: nat| 3 <= k <= c.z && m.textured.contains(#[trigger] up(c, k)))
                ==> all.contains(at(100)) && visible_request(m, visible, camera)(i) == Some(at(100))
        }),
{
    let c = clamped(visible[i].coord, m.max_zoom);
    let rule = visible_request(m, visible, camera);
    let r = rule(i).unwrap();
    assert(rule(i) == Some(r));
    lemma_gather_contains(visible.len(), rule, r);
    lemma_candidate_sources(m, visible, visible_set, camera, r);
    if c.z > 0 {
        let q = parent_of(c);
        let p = member(m.textured);
        law_nearest(q, p);
        assert forall|k: nat| k < c.z implies up(c, k + 1) == #[trigger] up(q, k) by {}
        reveal_with_fuel(up, 3);
        match nearest_depth(q, p) {
            Some(d) => {
                assert(up(c, d + 1) == up(q, d));
                assert(p(up(q, d)));
                if d >= 1 {
                    assert(!p(up(q, 0)));
                }
                if d >= 2 {
                    assert(!p(up(q, 1)));
                }
            },
            None => {
                assert forall|k: nat| 1 <= k <= c.z implies !m.textured.contains(
                    #[trigger] up(c, k),
                ) by {
                    assert(up(c, k) == up(q, (k - 1) as nat));
                    assert(!p(up(q, (k - 1) as nat)));
                }
                assert(c.z >= 1 ==> !m.textured.contains(up(c, 1)));
                assert(c.z >= 2 ==> !m.textured.contains(up(c, 2)));
            },
        }
    }
}

/// Of two tiles as far from the camera, the one that nothing stands in for comes before any that
/// has a stand-in, and one whose parent stands in comes after all others.
pub proof fn law_stand_in_order(
    m: LoadModel,
    visible: Seq<VisibleTile>,
    camera: MercatorPoint,
    i: int,
    j: int,
)
    requires
        0 <= i < visible.len(),
        0 <= j < visible.len(),
        visible_request(m, visible, camera)(i) is Some,
        visible_request(m, visible, camera)(j) is Some,
        ({
            let a = visible_request(m, visible, camera)(i).unwrap().coord;
            let b = visible_request(m, visible, camera)(j).unwrap().coord;
            let d = squared_distance(a.x as int, a.y as int, a.z, camera);
            &&& d == squared_distance(b.x as int, b.y as int, b.z, camera)
            &&& 0 < 225 * d < u128::MAX
        }),
    ensures
        ({
            let r = visible_request(m, visible, camera)(i).unwrap();
            let s = visible_request(m, visible, camera)(j).unwrap();
            let bare = |c: TileCoord|
                forall|k: nat| 1 <= k <= c.z ==> !m.textured.contains(#[trigger] up(c, k));
            &&& bare(r.coord) && !bare(s.coord) ==> r.priority < s.priority
            &&& s.coord.z > 0 && m.textured.contains(up(s.coord, 1)) && !(r.coord.z > 0
                && m.textured.contains(up(r.coord, 1))) ==> r.priority < s.priority
        }),
{
    law_visible_urgency(m, visible, Set::empty(), camera, i);
    law_visible_urgency(m, visible, Set::empty(), camera, j);
    let r = visible_request(m, visible, camera)(i).unwrap();
    let s = visible_request(m, visible, camera)(j).unwrap();
    assert(up(r.coord, 0) == r.coord);
    lemma_four_cases(m, r.coord);
    lemma_four_cases(m, s.coord);
}

/// Above a tile there is no texture, or the first one is one, two or more levels up.
proof fn lemma_four_cases(m: LoadModel, c: TileCoord)
    ensures
        ({
            ||| (forall|k: nat| 1 <= k <= c.z ==> !m.textured.contains(#[trigger] up(c, k)))
            ||| c.z >= 1 && m.textured.contains(up(c, 1))
            ||| c.z >= 2 && !m.textured.contains(up(c, 1)) && m.textured.contains(up(c, 2))
            ||| c.z >= 1 && !m.textured.contains(up(c, 1)) && !m.textured.contains(up(c, 2)) && (
            exists|k: nat| 3 <= k <= c.z && m.textured.contains(#[trigger] up(c, k)))
        }),
        c.z >= 1 && m.textured.contains(up(c, 1)) ==> !(forall|k: nat|
            1 <= k <= c.z ==> !m.textured.contains(#[trigger] up(c, k))),
{
    if !(forall|k: nat| 1 <= k <= c.z ==> !m.textured.contains(#[trigger] up(c, k))) {
        let k = choose|k: nat| 1 <= k <= c.z && m.textured.contains(#[trigger] up(c, k));
        if k >= 3 && c.z == 1 {
            assert(false);
        }
    }
}

/// The search for a missing ancestor takes the first tile on the way up that may be asked for: it
/// passes only over tiles that are on their way, failed, were considered before or are visible
/// themselves, never over a textured one, and does not leave the zoom range. It finds nothing
/// only where every tile that may be asked for lies above a textured one.
pub proof fn law_ancestor_search(
    m: LoadModel,
    visible_set: Set<TileCoord>,
    q: TileCoord,
    seen: Set<TileCoord>,
)
    ensures
        ({
            let may = |t: TileCoord|
                t.z >= m.min_zoom && !m.textured.contains(t) && !m.pending.contains(t)
                    && !m.failed.contains(t) && !seen.contains(t) && !visible_set.contains(t);
            match ancestor_search(m, visible_set, Some(q), seen).0 {
                Some(p) => p.z <= q.z && may(p) && p == up(q, (q.z - p.z) as nat) && forall|k: nat|
                    k < q.z - p.z ==> !m.textured.contains(#[trigger] up(q, k)) && !may(up(q, k)),
                None => forall|k: nat|
                    k <= q.z && may(#[trigger] up(q, k)) ==> exists|j: nat|
                        j < k && m.textured.contains(#[trigger] up(q, j)),
            }
        }),
    decreases q.z,
{
    let may = |t: TileCoord|
        t.z >= m.min_zoom && !m.textured.contains(t) && !m.pending.contains(t)
            && !m.failed.contains(t) && !seen.contains(t) && !visible_set.contains(t);
    assert(up(q, 0) == q);
    if q.z < m.min_zoom {
        assert forall|k: nat| k <= q.z && may(#[trigger] up(q, k)) implies false by {
            law_up_address(q, k);
        }
    } else if m.textured.contains(q) {
        assert forall|k: nat| k <= q.z && may(#[trigger] up(q, k)) implies exists|j: nat|
            j < k && m.textured.contains(#[trigger] up(q, j)) by {
            assert(m.textured.contains(up(q, 0)));
        }
    } else if may(q) {
    } else {
        let next = if !wanted(m, q) || seen.contains(q) {
            seen
        } else {
            seen.insert(q)
        };
        if q.z == 0 {
            assert(ancestor_search(m, visible_set, parent_option(q), next).0 is None);
            assert forall|k: nat| k <= q.z && may(#[trigger] up(q, k)) implies false by {
                assert(k == 0);
            }
        } else {
            let a = parent_of(q);
            law_ancestor_search(m, visible_set, a, next);
            let inner = |t: TileCoord|
                t.z >= m.min_zoom && !m.textured.contains(t) && !m.pending.contains(t)
                    && !m.failed.contains(t) && !next.contains(t) && !visible_set.contains(t);
            assert forall|k: nat| k <= a.z implies inner(#[trigger] up(a, k)) == may(up(a, k))
                && up(a, k) == up(q, k + 1) by {
                law_up_address(a, k);
            }
            match ancestor_search(m, visible_set, Some(q), seen).0 {
                Some(p) => {
                    assert(up(q, (q.z - p.z) as nat) == up(a, (a.z - p.z) as nat));
                    assert forall|k: nat| k < q.z - p.z implies !m.textured.contains(
                        #[trigger] up(q, k),
                    ) && !may(up(q, k)) by {
                        if k > 0 {
                            assert(up(q, k) == up(a, (k - 1) as nat));
                            assert(inner(up(a, (k - 1) as nat)) == may(up(a, (k - 1) as nat)));
                        }
                    }
                },
                None => {
                    assert forall|k: nat| k <= q.z && may(#[trigger] up(q, k)) implies exists|
                        j: nat,
                    | j < k && m.textured.contains(#[trigger] up(q, j)) by {
                        assert(k > 0);
                        assert(up(q, k) == up(a, (k - 1) as nat));
                        assert(inner(up(a, (k - 1) as nat)));
                        let j = choose|j: nat|
                            j < k - 1 && m.textured.contains(#[trigger] up(a, j));
                        assert(up(q, j + 1) == up(a, j));
                    }
                },
            }
        }
    }
}

/// Each visible tile without a texture adds at most the ancestor that the search from the tile
/// above it finds, or from the deepest level of the source where it is deeper than that; once as
/// many are chosen as may load at once, none is added.
pub proof fn law_ancestor_step(
    m: LoadModel,
    visible: Seq<VisibleTile>,
    visible_set: Set<TileCoord>,
    camera: MercatorPoint,
    n: nat,
)
    requires
        0 < n <= visible.len(),
    ensures
        ({
            let c = visible[n - 1].coord;
            let before = ancestor_plan(m, visible, visible_set, (n - 1) as nat);
            let after = ancestor_plan(m, visible, visible_set, n);
            let from = if c.z > m.max_zoom {
                Some(up(c, (c.z - m.max_zoom) as nat))
            } else if c.z > 0 {
                Some(up(c, 1))
            } else {
                None
            };
            &&& m.textured.contains(c) || before.chosen.len() >= m.max_concurrent || from is None
                ==> after.chosen == before.chosen
            &&& !m.textured.contains(c) && before.chosen.len() < m.max_concurrent && from is Some
                ==> match ancestor_search(m, visible_set, from, before.seen).0 {
                Some(p) => after.chosen == before.chosen.push(p) && after.seen.contains(p),
                None => after.chosen == before.chosen,
            }
        }),
        ({
            let chosen = ancestor_plan(m, visible, visible_set, visible.len()).chosen;
            let asked = ancestor_requests(m, visible, visible_set, camera);
            &&& asked.len() == chosen.len()
            &&& forall|k: int|
                0 <= k < asked.len() ==> (#[trigger] asked[k]).coord == chosen[k]
                    && asked[k].priority == tile_key(64, chosen[k], camera) && (
                asked[k].kind is Terrain <==> m.kind is Terrain)
        }),
        forall|r: PlannedRequest|
            ancestor_requests(m, visible, visible_set, camera).contains(r) ==> #[trigger] candidates(
                m,
                visible,
                visible_set,
                camera,
            ).contains(r),
{
    reveal_with_fuel(up, 2);
    let c = visible[n - 1].coord;
    let before = ancestor_plan(m, visible, visible_set, (n - 1) as nat);
    lemma_search_below(m, visible_set, ancestor_start(m, c), before.seen);
    assert forall|r: PlannedRequest|
        ancestor_requests(m, visible, visible_set, camera).contains(
            r,
        ) implies #[trigger] candidates(m, visible, visible_set, camera).contains(r) by {
        lemma_candidate_sources(m, visible, visible_set, camera, r);
    }
}

/// The elevation of a visible tile is asked for once, as urgently as the tile is near where it is
/// first shown, unless it is there or on its way; layers without elevation ask for none.
pub proof fn law_elevation_urgency(
    m: LoadModel,
    visible: Seq<VisibleTile>,
    visible_set: Set<TileCoord>,
    camera: MercatorPoint,
    i: int,
)
    requires
        0 <= i < visible.len(),
        m.has_elevation_source || m.kind is Terrain,
        visible_set.contains(visible[i].coord),
        !m.elevated.contains(visible[i].coord),
        !m.elevation_pending.contains(visible[i].coord),
        forall|j: int| 0 <= j < i ==> (#[trigger] visible[j]).coord != visible[i].coord,
    ensures
        candidates(m, visible, visible_set, camera).contains(
            PlannedRequest {
                coord: visible[i].coord,
                priority: display_key(100, visible[i], camera),
                kind: PlannedRequestKind::Elevation,
            },
        ),
{
    let rule = elevation_request(m, visible, visible_set, camera);
    let found = gather(visible.len(), rule);
    let r = rule(i).unwrap();
    assert(rule(i) == Some(r));
    lemma_gather_contains(visible.len(), rule, r);
    lemma_by_priority(found, r);
    let head = if elevation_wanted(m, root_tile()) {
        seq![
            PlannedRequest {
                coord: root_tile(),
                priority: 0,
                kind: PlannedRequestKind::Elevation,
            },
        ]
    } else {
        Seq::empty()
    };
    lemma_add_contains(head, by_priority(found), r);
    lemma_candidate_sources(m, visible, visible_set, camera, r);
}

/// Needed for imagery are exactly the visible tiles, those of the first two levels within the
/// zoom range, and above every visible tile, brought to the source's deepest level, that tile's
/// ancestors up to and with the first textured one.
pub proof fn law_needed_exactly(
    m: LoadModel,
    visible: Seq<VisibleTile>,
    visible_set: Set<TileCoord>,
    c: TileCoord,
)
    ensures
        visible_set.contains(c) ==> raster_needed(m, visible, visible_set, c),
        m.min_zoom <= c.z <= m.max_zoom && c.z <= 1 && (c.z == 0 ==> c.x == 0 && c.y == 0) && c.x
            < 2 && c.y < 2 ==> raster_needed(m, visible, visible_set, c),
        forall|i: int, k: nat|
            #![trigger up(clamped(visible[i].coord, m.max_zoom), k)]
            0 <= i < visible.len() && k <= clamped(visible[i].coord, m.max_zoom).z && (k == 0
                ==> visible[i].coord.z > m.max_zoom) && c == up(
                clamped(visible[i].coord, m.max_zoom),
                k,
            ) && (forall|j: nat|
                1 <= j < k ==> !m.textured.contains(
                    #[trigger] up(clamped(visible[i].coord, m.max_zoom), j),
                )) ==> raster_needed(m, visible, visible_set, c),
        raster_needed(m, visible, visible_set, c) ==> {
            ||| visible_set.contains(c)
            ||| m.min_zoom <= c.z <= m.max_zoom && c.z <= 1 && c.x < 2 && c.y < 2
            ||| exists|i: int, k: nat|
                #![trigger up(clamped(visible[i].coord, m.max_zoom), k)]
                0 <= i < visible.len() && k <= clamped(visible[i].coord, m.max_zoom).z && (k == 0
                    ==> visible[i].coord.z > m.max_zoom) && c == up(
                    clamped(visible[i].coord, m.max_zoom),
                    k,
                ) && (forall|j: nat|
                    1 <= j < k ==> !m.textured.contains(
                        #[trigger] up(clamped(visible[i].coord, m.max_zoom), j),
                    ))
        },
{
    law_base_tiles(m.min_zoom, m.max_zoom, c);
    assert forall|i: int, k: nat|
        #![trigger up(clamped(visible[i].coord, m.max_zoom), k)]
        0 <= i < visible.len() && k <= clamped(visible[i].coord, m.max_zoom).z && (k == 0
            ==> visible[i].coord.z > m.max_zoom) && c == up(
            clamped(visible[i].coord, m.max_zoom),
            k,
        ) && (forall|j: nat|
            1 <= j < k ==> !m.textured.contains(
                #[trigger] up(clamped(visible[i].coord, m.max_zoom), j),
            )) implies raster_needed(m, visible, visible_set, c) by {
        let s = clamped(visible[i].coord, m.max_zoom);
        if k > 0 {
            assert(no_texture_below(m, s, k));
        }
        assert(needed_for(m, visible[i].coord, c));
    }
    if raster_needed(m, visible, visible_set, c) && !visible_set.contains(c) && !base_tiles(
        m.min_zoom,
        m.max_zoom,
    ).contains(c) {
        let i = choose|i: int|
            0 <= i < visible.len() && needed_for(m, (#[trigger] visible[i]).coord, c);
        let t = visible[i].coord;
        let s = clamped(t, m.max_zoom);
        if t.z > m.max_zoom && c == s {
            assert(up(clamped(visible[i].coord, m.max_zoom), 0) == c);
        } else {
            let k = choose|k: nat|
                1 <= k <= s.z && c == #[trigger] up(s, k) && no_texture_below(m, s, k);
            assert(up(clamped(visible[i].coord, m.max_zoom), k) == c);
        }
    }
}

} // verus!
