//! Planning flat tile passes: which tiles are drawn, when a mesh is made anew, and how passes
//! follow each other.

use crate::collections::{lemma_packed_injective, pack, packed};
use crate::engine::ProjectionMode;
use crate::named::NamedMap;
use crate::ordering::{is_stable_order, law_stably_ordered, stable_order, stably_ordered};
use crate::pipeline::tile_mesh::{
    build_centered_tile_mesh, build_globe_tile_mesh, centered_density, centered_local, count_sum,
    facing_indices, globe_density, globe_local, lattice, law_merged_places, local_counts,
    merged_indices, merged_vertices, LatticeVertex,
};
use crate::pipeline::tile_uniforms::RenderableTile;
use crate::render::grid::{surface_indices, Winding};
use crate::render::tile::{centered_steps, globe_steps};
use crate::render_data::{RasterPass, RenderLayerData};
use crate::scalar::Frac;
use crate::sequences::{gather, lemma_gather_contains, lemma_gather_sources};
use crate::tile::TileCoord;
use vstd::prelude::*;
use vstd::relations::total_ordering;

verus! {

/// A mesh of several tiles; `counts` holds the number of index entries of each tile.
pub struct TileMesh {
    pub vertices: Vec<LatticeVertex>,
    pub indices: Vec<u32>,
    pub counts: Vec<u32>,
}

/// What a mesh holds.
#[verifier::ext_equal]
pub struct MeshModel {
    pub vertices: Seq<LatticeVertex>,
    pub indices: Seq<u32>,
    pub counts: Seq<u32>,
}

impl View for TileMesh {
    type V = MeshModel;

    open spec fn view(&self) -> MeshModel {
        MeshModel { vertices: self.vertices@, indices: self.indices@, counts: self.counts@ }
    }
}

/// What a mesh was made for.
pub struct MeshKey {
    /// The tiles, in order of address.
    pub tile_coords: Vec<TileCoord>,
    /// The center of the view, rounded, on a map centered on it.
    pub center: Option<(i64, i64)>,
    pub is_globe: bool,
}

/// A kept mesh.
pub struct CachedTileMesh {
    pub mesh: TileMesh,
    pub key: MeshKey,
}

/// A tile of a pass.
#[derive(Debug, Clone, Copy, PartialEq, Eq, Structural)]
pub struct PreparedTile {
    pub tile: RenderableTile,
    /// The tile's share of the layer's opacity; all of it where there is none.
    pub share: Option<Frac>,
}

/// The order of addresses: by level, then column, then row.
pub open spec fn address_order() -> spec_fn(TileCoord, TileCoord) -> bool {
    |a: TileCoord, b: TileCoord| packed(a) <= packed(b)
}

/// Addresses in order.
pub open spec fn sorted_coords(coords: Seq<TileCoord>) -> Seq<TileCoord> {
    coords.sort_by(address_order())
}

/// The order of addresses compares level first, then column, then row, and tells any two
/// addresses apart.
pub proof fn law_address_order(a: TileCoord, b: TileCoord)
    ensures
        total_ordering(address_order()),
        packed(a) < packed(b) <==> a.z < b.z || (a.z == b.z && (a.x < b.x || (a.x == b.x && a.y
            < b.y))),
{
    let r = address_order();
    assert forall|x: TileCoord, y: TileCoord| #[trigger] r(x, y) && #[trigger] r(y, x) implies x
        == y by {
        lemma_packed_injective(x, y);
    }
}

/// The addresses in order.
pub fn sort_coords(coords: &Vec<TileCoord>) -> (r: Vec<TileCoord>)
    ensures
        r@ == sorted_coords(coords@),
{
    let mut keys: Vec<u128> = Vec::new();
    let mut i: usize = 0;
    while i < coords.len()
        invariant
            i <= coords@.len(),
            keys@.len() == i,
            forall|k: int| 0 <= k < i ==> #[trigger] keys@[k] == packed(coords@[k]),
        decreases coords@.len() - i,
    {
        keys.push(pack(&coords[i]));
        i = i + 1;
    }
    let order = stable_order(&keys);
    let ghost target = order@.map_values(|k: usize| coords@[k as int]);
    let mut r: Vec<TileCoord> = Vec::new();
    let mut j: usize = 0;
    while j < order.len()
        invariant
            j <= order@.len(),
            is_stable_order(keys@, order@),
            keys@.len() == coords@.len(),
            target == order@.map_values(|k: usize| coords@[k as int]),
            r@ == target.take(j as int),
        decreases order@.len() - j,
    {
        r.push(coords[order[j]]);
        assert(r@ =~= target.take(j + 1));
        j = j + 1;
    }
    proof {
        assert(r@ =~= target);
        assert(stably_ordered(coords@, keys@, r@));
        law_stably_ordered(coords@, keys@, r@);
        let p = choose|p: Seq<usize>|
            {
                &&& #[trigger] is_stable_order(keys@, p)
                &&& r@ == p.map_values(|i: usize| coords@[i as int])
                &&& forall|i: int, j: int|
                    0 <= i <= j < p.len() ==> keys@[#[trigger] p[i] as int]
                        <= keys@[#[trigger] p[j] as int]
            };
        let leq = address_order();
        assert forall|a: int, b: int| 0 <= a < b < r@.len() implies #[trigger] leq(r@[a], r@[b]) by {
            assert(keys@[p[a] as int] <= keys@[p[b] as int]);
        }
        let origin = TileCoord { z: 0, x: 0, y: 0 };
        law_address_order(origin, origin);
        coords@.lemma_sort_by_ensures(leq);
        vstd::seq_lib::lemma_sorted_unique(r@, sorted_coords(coords@), leq);
    }
    r
}

/// The tile at position `i`, if its texture can be bound and it is not filtered out.
pub open spec fn drawable_at(p: RasterPass, mode: ProjectionMode, near: Seq<bool>) -> spec_fn(
    int,
) -> Option<RenderableTile> {
    |i: int|
        if p.textures.contains(p.tiles[i].texture_coord) && (mode is Globe || near[i]) {
            Some(p.tiles[i])
        } else {
            None
        }
}

/// The tiles of a pass that are drawn, in order.
pub open spec fn drawable(p: RasterPass, mode: ProjectionMode, near: Seq<bool>) -> Seq<
    RenderableTile,
> {
    gather(p.tiles.len(), drawable_at(p, mode, near))
}

/// Addresses of tiles.
pub open spec fn coords_of(tiles: Seq<RenderableTile>) -> Seq<TileCoord> {
    tiles.map_values(|t: RenderableTile| t.coord)
}

/// The key fits the tiles, the projection and the center.
pub open spec fn key_fits(
    key: MeshKey,
    tiles: Seq<RenderableTile>,
    mode: ProjectionMode,
    center: (i64, i64),
) -> bool {
    &&& key.is_globe == (mode is Globe)
    &&& key.tile_coords@ == sorted_coords(coords_of(tiles))
    &&& key.center == (if mode is Globe {
        None
    } else {
        Some(center)
    })
}

/// The mesh of the tiles. On a map centered on the view, `front` tells for each triangle of each
/// tile whether it faces the viewer.
pub open spec fn mesh_for(
    tiles: Seq<RenderableTile>,
    mode: ProjectionMode,
    front: Seq<Vec<bool>>,
) -> MeshModel {
    if mode is Globe {
        let steps = globe_density(tiles);
        let local = globe_local(steps);
        MeshModel {
            vertices: merged_vertices(steps, tiles.len()),
            indices: merged_indices(steps, local, tiles.len()),
            counts: local_counts(local),
        }
    } else {
        let steps = centered_density(tiles);
        let local = centered_local(steps, front);
        MeshModel {
            vertices: merged_vertices(steps, tiles.len()),
            indices: merged_indices(steps, local, tiles.len()),
            counts: local_counts(local),
        }
    }
}

/// There is a flag for every triangle of every tile.
pub open spec fn flags_match(tiles: Seq<RenderableTile>, front: Seq<Vec<bool>>) -> bool {
    &&& front.len() == tiles.len()
    &&& forall|k: int|
        0 <= k < tiles.len() ==> (#[trigger] front[k])@.len() == 2 * (centered_steps(
            tiles[k].coord.z,
        ) * centered_steps(tiles[k].coord.z))
}

/// The kept mesh is that of these tiles, and its key says so.
pub open spec fn made_for(
    c: CachedTileMesh,
    tiles: Seq<RenderableTile>,
    mode: ProjectionMode,
    center: (i64, i64),
    front: Seq<Vec<bool>>,
) -> bool {
    &&& key_fits(c.key, tiles, mode, center)
    &&& mode !is Globe ==> flags_match(tiles, front)
    &&& c.mesh@ == mesh_for(tiles, mode, front)
}

/// The kept mesh is that of some tiles, and its key says of which.
pub open spec fn is_made(c: CachedTileMesh) -> bool {
    exists|
        tiles: Seq<RenderableTile>,
        mode: ProjectionMode,
        center: (i64, i64),
        front: Seq<Vec<bool>>,
    | #[trigger]
        made_for(c, tiles, mode, center, front)
}

/// The kept mesh serves for the tiles: it was made for tiles of the same addresses, each as
/// often, under the same projection and around the same center.
pub open spec fn serves(
    c: CachedTileMesh,
    tiles: Seq<RenderableTile>,
    mode: ProjectionMode,
    center: (i64, i64),
) -> bool {
    exists|made: Seq<RenderableTile>, front: Seq<Vec<bool>>|
        {
            &&& #[trigger] made_for(c, made, mode, center, front)
            &&& coords_of(made).to_multiset() == coords_of(tiles).to_multiset()
        }
}

/// The tiles with their shares.
pub open spec fn prepared_tiles(p: RasterPass, tiles: Seq<RenderableTile>) -> Seq<PreparedTile> {
    tiles.map_values(
        |t: RenderableTile|
            PreparedTile {
                tile: t,
                share: if p.shares.contains_key(t.coord) {
                    Some(p.shares[t.coord])
                } else {
                    None
                },
            },
    )
}

/// Keeps meshes between frames, one per layer name.
pub struct TileRenderer {
    pub cached_meshes: NamedMap<CachedTileMesh>,
}

fn same_coords(a: &Vec<TileCoord>, b: &Vec<TileCoord>) -> (same: bool)
    ensures
        same == (a@ == b@),
{
    if a.len() != b.len() {
        return false;
    }
    let mut i: usize = 0;
    while i < a.len()
        invariant
            i <= a@.len(),
            a@.len() == b@.len(),
            forall|k: int| 0 <= k < i ==> #[trigger] a@[k] == b@[k],
        decreases a@.len() - i,
    {
        if a[i] != b[i] {
            return false;
        }
        i = i + 1;
    }
    assert(a@ =~= b@);
    true
}

impl TileRenderer {
    /// Every kept mesh is the one that its key speaks of.
    pub open spec fn wf(&self) -> bool {
        forall|name: Seq<char>| #[trigger]
            self.cached_meshes@.contains_key(name) ==> is_made(self.cached_meshes@[name])
    }

    pub fn new() -> (r: TileRenderer)
        ensures
            r.wf(),
            r.cached_meshes@ == Map::<Seq<char>, CachedTileMesh>::empty(),
    {
        TileRenderer { cached_meshes: NamedMap::new() }
    }

    /// The tiles of a layer that are drawn: those whose texture can be bound and, on a map
    /// centered on the view, that are near enough.
    pub fn select_tiles(&self, layer: &RenderLayerData, mode: ProjectionMode, near: &[bool]) -> (r:
        Vec<RenderableTile>)
        requires
            mode !is Globe ==> near@.len() == layer.tiles@.len(),
        ensures
            r@ == drawable(layer@, mode, near@),
    {
        let ghost rule = drawable_at(layer@, mode, near@);
        let mut r: Vec<RenderableTile> = Vec::new();
        let mut i: usize = 0;
        while i < layer.tiles.len()
            invariant
                i <= layer.tiles@.len(),
                mode !is Globe ==> near@.len() == layer.tiles@.len(),
                rule == drawable_at(layer@, mode, near@),
                r@ == gather(i as nat, rule),
            decreases layer.tiles@.len() - i,
        {
            let t = layer.tiles[i];
            let wanted: bool = match mode {
                ProjectionMode::Globe => true,
                ProjectionMode::Mercator => near[i],
            };
            if layer.texture_views.contains(&t.texture_coord) && wanted {
                r.push(t);
            }
            assert(r@ =~= gather((i + 1) as nat, rule));
            i = i + 1;
        }
        r
    }

    /// The kept mesh of the layer fits.
    pub open spec fn hits(
        &self,
        name: Seq<char>,
        tiles: Seq<RenderableTile>,
        mode: ProjectionMode,
        center: (i64, i64),
    ) -> bool {
        self.cached_meshes@.contains_key(name) && key_fits(
            self.cached_meshes@[name].key,
            tiles,
            mode,
            center,
        )
    }

    fn key_of(tiles: &Vec<RenderableTile>, mode: ProjectionMode, center: (i64, i64)) -> (k: MeshKey)
        ensures
            key_fits(k, tiles@, mode, center),
    {
        let mut coords: Vec<TileCoord> = Vec::new();
        let mut i: usize = 0;
        while i < tiles.len()
            invariant
                i <= tiles@.len(),
                coords@ =~= coords_of(tiles@).take(i as int),
            decreases tiles@.len() - i,
        {
            coords.push(tiles[i].coord);
            i = i + 1;
        }
        assert(coords@ =~= coords_of(tiles@));
        MeshKey {
            tile_coords: sort_coords(&coords),
            center: match mode {
                ProjectionMode::Globe => None,
                ProjectionMode::Mercator => Some(center),
            },
            is_globe: mode == ProjectionMode::Globe,
        }
    }

    /// Whether the kept mesh of the layer can be used for these tiles.
    pub fn is_cached(
        &self,
        name: &String,
        tiles: &Vec<RenderableTile>,
        mode: ProjectionMode,
        center: (i64, i64),
    ) -> (hit: bool)
        ensures
            hit == self.hits(name@, tiles@, mode, center),
    {
        let key = TileRenderer::key_of(tiles, mode, center);
        match self.cached_meshes.get(name) {
            Some(c) => c.key.is_globe == key.is_globe && same_coords(
                &c.key.tile_coords,
                &key.tile_coords,
            ) && same_center(c.key.center, key.center),
            None => false,
        }
    }

    /// Prepare a layer: the tiles to draw, with a mesh that serves kept under the layer's name. The
    /// mesh is made only if none fits. `front` is asked only then, and only on a map centered on
    /// the view. Without tiles there is nothing to draw and nothing changes.
    pub fn prepare_layer(
        &mut self,
        layer: &RenderLayerData,
        mode: ProjectionMode,
        near: &[bool],
        center: (i64, i64),
        front: &Vec<Vec<bool>>,
    ) -> (r: Option<Vec<PreparedTile>>)
        requires
            old(self).wf(),
            mode !is Globe ==> near@.len() == layer.tiles@.len(),
            ({
                let tiles = drawable(layer@, mode, near@);
                &&& 1089 * tiles.len() <= u32::MAX
                &&& mode !is Globe && !old(self).hits(layer.name@, tiles, mode, center)
                    ==> flags_match(tiles, front@)
            }),
        ensures
            final(self).wf(),
            ({
                let tiles = drawable(layer@, mode, near@);
                let name = layer.name@;
                &&& r is Some <==> tiles.len() > 0
                &&& r is Some ==> final(self).cached_meshes@.contains_key(name) && serves(
                    final(self).cached_meshes@[name],
                    tiles,
                    mode,
                    center,
                )
                &&& r matches Some(t) ==> t@ == prepared_tiles(layer@, tiles)
                &&& tiles.len() == 0 || old(self).hits(name, tiles, mode, center)
                    ==> final(self).cached_meshes@ == old(self).cached_meshes@
                &&& tiles.len() > 0 && !old(self).hits(name, tiles, mode, center) ==> {
                    &&& final(self).hits(name, tiles, mode, center)
                    &&& final(self).cached_meshes@[name].mesh@ == mesh_for(tiles, mode, front@)
                    &&& final(self).cached_meshes@.remove(name) == old(
                        self,
                    ).cached_meshes@.remove(name)
                }
            }),
    {
        let tiles = self.select_tiles(layer, mode, near);
        if tiles.len() == 0 {
            return None;
        }
        if !self.is_cached(&layer.name, &tiles, mode, center) {
            let (vertices, indices, counts) = match mode {
                ProjectionMode::Globe => build_globe_tile_mesh(tiles.as_slice()),
                ProjectionMode::Mercator => build_centered_tile_mesh(tiles.as_slice(), front),
            };
            let key = TileRenderer::key_of(&tiles, mode, center);
            let entry = CachedTileMesh { mesh: TileMesh { vertices, indices, counts }, key };
            assert(made_for(entry, tiles@, mode, center, front@));
            self.cached_meshes.insert(layer.name.clone(), entry);
            assert(self.cached_meshes@.remove(layer.name@) =~= old(self).cached_meshes@.remove(
                layer.name@,
            ));
        }
        proof {
            assert forall|name: Seq<char>| #[trigger]
                self.cached_meshes@.contains_key(name) implies is_made(
                self.cached_meshes@[name],
            ) by {
                if name != layer.name@ {
                    let others = old(self).cached_meshes@.remove(layer.name@);
                    assert(self.cached_meshes@.remove(layer.name@).contains_key(name));
                    assert(self.cached_meshes@[name] == others[name]);
                    assert(old(self).cached_meshes@.contains_key(name));
                }
            }
            law_hit_serves(*self, layer.name@, tiles@, mode, center);
        }
        let ghost target = prepared_tiles(layer@, tiles@);
        let mut out: Vec<PreparedTile> = Vec::new();
        let mut i: usize = 0;
        while i < tiles.len()
            invariant
                i <= tiles@.len(),
                target == prepared_tiles(layer@, tiles@),
                out@ == target.take(i as int),
            decreases tiles@.len() - i,
        {
            let t = tiles[i];
            out.push(PreparedTile { tile: t, share: layer.tile_opacity_overrides.get(&t.coord) });
            assert(out@ =~= target.take(i + 1));
            i = i + 1;
        }
        assert(out@ =~= target);
        Some(out)
    }
}

fn same_center(a: Option<(i64, i64)>, b: Option<(i64, i64)>) -> (same: bool)
    ensures
        same == (a == b),
{
    match (a, b) {
        (Some(p), Some(q)) => p.0 == q.0 && p.1 == q.1,
        (None, None) => true,
        _ => false,
    }
}

/// The part of the index list that each tile draws.
pub fn draw_ranges(counts: &Vec<u32>) -> (r: Vec<(u32, u32)>)
    requires
        count_sum(counts@, counts@.len()) <= u32::MAX,
    ensures
        r@.len() == counts@.len(),
        forall|i: int|
            0 <= i < r@.len() ==> (#[trigger] r@[i]).0 == count_sum(counts@, i as nat) && r@[i].1
                == count_sum(counts@, (i + 1) as nat),
{
    let mut r: Vec<(u32, u32)> = Vec::new();
    let mut offset: u32 = 0;
    let mut i: usize = 0;
    while i < counts.len()
        invariant
            i <= counts@.len(),
            count_sum(counts@, counts@.len()) <= u32::MAX,
            offset == count_sum(counts@, i as nat),
            r@.len() == i,
            forall|k: int|
                0 <= k < i ==> (#[trigger] r@[k]).0 == count_sum(counts@, k as nat) && r@[k].1
                    == count_sum(counts@, (k + 1) as nat),
        decreases counts@.len() - i,
    {
        proof {
            lemma_sum_grows(counts@, (i + 1) as nat, counts@.len());
        }
        let end: u32 = offset + counts[i];
        r.push((offset, end));
        offset = end;
        i = i + 1;
    }
    r
}

proof fn lemma_sum_grows(counts: Seq<u32>, a: nat, b: nat)
    requires
        a <= b <= counts.len(),
    ensures
        count_sum(counts, a) <= count_sum(counts, b),
    decreases b,
{
    if a < b {
        lemma_sum_grows(counts, a, (b - 1) as nat);
    }
}

/// A pass of a frame.
#[derive(Debug, Clone, Copy, PartialEq, Eq, Structural)]
pub enum FramePass {
    /// Only clears the target.
    Clear,
    /// Draws a layer, after clearing the target or on top of it; then the polar caps.
    Draw { layer: usize, clear: bool, polar_caps: bool },
}

/// The pass of layer `i`: the first layer clears, also if it has nothing to draw.
pub open spec fn pass_at(prepared: Seq<bool>, mode: ProjectionMode) -> spec_fn(int) -> Option<
    FramePass,
> {
    |i: int|
        if prepared[i] {
            Some(
                FramePass::Draw { layer: i as usize, clear: i == 0, polar_caps: mode is Globe },
            )
        } else if i == 0 {
            Some(FramePass::Clear)
        } else {
            None
        }
}

/// The passes of a frame: without layers the target is cleared.
pub open spec fn frame_plan(prepared: Seq<bool>, mode: ProjectionMode) -> Seq<FramePass> {
    if prepared.len() == 0 {
        seq![FramePass::Clear]
    } else {
        gather(prepared.len(), pass_at(prepared, mode))
    }
}

/// The passes of a frame; `prepared[i]` tells whether layer `i` has something to draw.
pub fn render_frame_layered_projected(prepared: &[bool], mode: ProjectionMode) -> (r: Vec<FramePass>)
    ensures
        r@ == frame_plan(prepared@, mode),
{
    let ghost rule = pass_at(prepared@, mode);
    let mut r: Vec<FramePass> = Vec::new();
    if prepared.len() == 0 {
        r.push(FramePass::Clear);
        assert(r@ =~= seq![FramePass::Clear]);
        return r;
    }
    let mut i: usize = 0;
    while i < prepared.len()
        invariant
            i <= prepared@.len(),
            rule == pass_at(prepared@, mode),
            r@ == gather(i as nat, rule),
        decreases prepared@.len() - i,
    {
        if prepared[i] {
            r.push(
                FramePass::Draw {
                    layer: i,
                    clear: i == 0,
                    polar_caps: mode == ProjectionMode::Globe,
                },
            );
        } else if i == 0 {
            r.push(FramePass::Clear);
        }
        assert(r@ =~= gather((i + 1) as nat, rule));
        i = i + 1;
    }
    r
}

// ---------------------------------------------------------------------------
// Laws
// ---------------------------------------------------------------------------
/// The pass clears the target.
pub open spec fn clears(p: FramePass) -> bool {
    p matches FramePass::Draw { clear, .. } ==> clear
}

/// Every frame clears the target once, in its first pass, and draws exactly the prepared layers
/// in their order.
pub proof fn law_clears_once(prepared: Seq<bool>, mode: ProjectionMode) -> (src: Seq<int>)
    ensures
        frame_plan(prepared, mode).len() > 0,
        clears(frame_plan(prepared, mode)[0]),
        forall|k: int|
            0 < k < frame_plan(prepared, mode).len() ==> !clears(
                #[trigger] frame_plan(prepared, mode)[k],
            ),
        prepared.len() > 0 ==> src.len() == frame_plan(prepared, mode).len(),
        forall|k: int|
            0 <= k < src.len() ==> 0 <= #[trigger] src[k] < prepared.len() && (prepared[src[k]]
                ==> frame_plan(prepared, mode)[k] == (FramePass::Draw {
                layer: src[k] as usize,
                clear: src[k] == 0,
                polar_caps: mode is Globe,
            })),
        forall|a: int, b: int| 0 <= a < b < src.len() ==> #[trigger] src[a] < #[trigger] src[b],
{
    if prepared.len() == 0 {
        Seq::empty()
    } else {
        let rule = pass_at(prepared, mode);
        let plan = frame_plan(prepared, mode);
        let src = lemma_gather_sources(prepared.len(), rule);
        assert(rule(0) is Some);
        lemma_gather_contains(prepared.len(), rule, rule(0).unwrap());
        let k = choose|k: int| 0 <= k < plan.len() && plan[k] == rule(0).unwrap();
        assert(src[k] == 0) by {
            assert(rule(src[k]) == Some(plan[k]));
        }
        if k > 0 {
            assert(src[0] < src[k]);
        }
        assert(rule(src[0]) == Some(plan[0]));
        assert forall|j: int| 0 < j < plan.len() implies !clears(#[trigger] plan[j]) by {
            assert(src[0] < src[j]);
            assert(rule(src[j]) == Some(plan[j]));
        }
        assert forall|j: int| 0 <= j < src.len() implies 0 <= #[trigger] src[j] < prepared.len()
            && (prepared[src[j]] ==> plan[j] == (FramePass::Draw {
            layer: src[j] as usize,
            clear: src[j] == 0,
            polar_caps: mode is Globe,
        })) by {
            assert(rule(src[j]) == Some(plan[j]));
        }
        src
    }
}

/// Whether a kept mesh fits does not depend on the order of the tiles.
pub proof fn law_key_order(
    key: MeshKey,
    a: Seq<RenderableTile>,
    b: Seq<RenderableTile>,
    mode: ProjectionMode,
    center: (i64, i64),
)
    requires
        coords_of(a).to_multiset() == coords_of(b).to_multiset(),
    ensures
        key_fits(key, a, mode, center) == key_fits(key, b, mode, center),
{
    let origin = TileCoord { z: 0, x: 0, y: 0 };
    let leq = address_order();
    law_address_order(origin, origin);
    coords_of(a).lemma_sort_by_ensures(leq);
    coords_of(b).lemma_sort_by_ensures(leq);
    vstd::seq_lib::lemma_sorted_unique(
        sorted_coords(coords_of(a)),
        sorted_coords(coords_of(b)),
        leq,
    );
}

/// A kept mesh whose key fits serves: it was made for tiles of the same addresses.
pub proof fn law_hit_serves(
    r: TileRenderer,
    name: Seq<char>,
    tiles: Seq<RenderableTile>,
    mode: ProjectionMode,
    center: (i64, i64),
)
    requires
        r.wf(),
        r.hits(name, tiles, mode, center),
    ensures
        serves(r.cached_meshes@[name], tiles, mode, center),
{
    let c = r.cached_meshes@[name];
    assert(is_made(c));
    let (made, old_mode, old_center, front) = choose|
        made: Seq<RenderableTile>,
        old_mode: ProjectionMode,
        old_center: (i64, i64),
        front: Seq<Vec<bool>>,
    | #[trigger]
        made_for(c, made, old_mode, old_center, front);
    assert(old_mode == mode);
    assert(made_for(c, made, mode, center, front));
    let origin = TileCoord { z: 0, x: 0, y: 0 };
    law_address_order(origin, origin);
    coords_of(made).lemma_sort_by_ensures(address_order());
    coords_of(tiles).lemma_sort_by_ensures(address_order());
}

/// A mesh depends on the addresses of its tiles alone, not on where they are shown or which
/// textures they bear.
pub proof fn law_mesh_by_address(
    a: Seq<RenderableTile>,
    b: Seq<RenderableTile>,
    mode: ProjectionMode,
    front: Seq<Vec<bool>>,
)
    requires
        coords_of(a) == coords_of(b),
    ensures
        mesh_for(a, mode, front) == mesh_for(b, mode, front),
        flags_match(a, front) == flags_match(b, front),
{
    assert(a.len() == coords_of(a).len() && b.len() == coords_of(b).len());
    assert forall|k: int| 0 <= k < a.len() implies (#[trigger] a[k]).coord == b[k].coord by {
        assert(coords_of(a)[k] == a[k].coord);
        assert(coords_of(b)[k] == b[k].coord);
    }
    assert(globe_density(a) =~= globe_density(b));
    assert(centered_density(a) =~= centered_density(b));
    assert(flags_match(a, front) == flags_match(b, front)) by {
        assert forall|k: int| 0 <= k < b.len() implies (#[trigger] b[k]).coord == a[k].coord by {
            assert(a[k].coord == b[k].coord);
        }
    }
}

/// The tiles' parts of the index list follow each other: each begins where the one before it
/// ends, and the last ends where all counts add up.
pub proof fn law_ranges(counts: Seq<u32>, r: Seq<(u32, u32)>, i: int)
    requires
        r.len() == counts.len(),
        forall|i: int|
            0 <= i < r.len() ==> (#[trigger] r[i]).0 == count_sum(counts, i as nat) && r[i].1
                == count_sum(counts, (i + 1) as nat),
        0 <= i < r.len(),
    ensures
        r[0].0 == 0,
        r[i].1 - r[i].0 == counts[i],
        i + 1 < r.len() ==> r[i + 1].0 == r[i].1,
        r[r.len() - 1].1 == count_sum(counts, counts.len()),
{
    assert(r[0].0 == count_sum(counts, 0));
    assert(r[i].1 == count_sum(counts, (i + 1) as nat));
    if i + 1 < r.len() {
        assert(r[i + 1].0 == count_sum(counts, (i + 1) as nat));
    }
    assert(r[r.len() - 1].1 == count_sum(counts, counts.len()));
}

/// Drawn are, in order, exactly the tiles whose texture can be bound; on a map centered on the
/// view only those near enough.
pub proof fn law_drawable(p: RasterPass, mode: ProjectionMode, near: Seq<bool>) -> (src: Seq<int>)
    ensures
        src.len() == drawable(p, mode, near).len(),
        forall|k: int|
            0 <= k < src.len() ==> 0 <= #[trigger] src[k] < p.tiles.len() && drawable(
                p,
                mode,
                near,
            )[k] == p.tiles[src[k]] && p.textures.contains(p.tiles[src[k]].texture_coord) && (
            mode is Globe || near[src[k]]),
        forall|a: int, b: int| 0 <= a < b < src.len() ==> #[trigger] src[a] < #[trigger] src[b],
        forall|i: int|
            0 <= i < p.tiles.len() && p.textures.contains((#[trigger] p.tiles[i]).texture_coord) && (
            mode is Globe || near[i]) ==> drawable(p, mode, near).contains(p.tiles[i]),
{
    let rule = drawable_at(p, mode, near);
    let src = lemma_gather_sources(p.tiles.len(), rule);
    assert forall|k: int| 0 <= k < src.len() implies 0 <= #[trigger] src[k] < p.tiles.len()
        && drawable(p, mode, near)[k] == p.tiles[src[k]] && p.textures.contains(
        p.tiles[src[k]].texture_coord,
    ) && (mode is Globe || near[src[k]]) by {
        assert(rule(src[k]) == Some(drawable(p, mode, near)[k]));
    }
    assert forall|i: int|
        0 <= i < p.tiles.len() && p.textures.contains((#[trigger] p.tiles[i]).texture_coord) && (
        mode is Globe || near[i]) implies drawable(p, mode, near).contains(p.tiles[i]) by {
        assert(rule(i) == Some(p.tiles[i]));
        lemma_gather_contains(p.tiles.len(), rule, p.tiles[i]);
    }
    src
}

/// A key tells the projection, the addresses of the tiles in ascending order, each as often as
/// there are tiles of it, and, except on the globe, the center.
pub proof fn law_key(
    key: MeshKey,
    tiles: Seq<RenderableTile>,
    mode: ProjectionMode,
    center: (i64, i64),
)
    requires
        key_fits(key, tiles, mode, center),
    ensures
        key.is_globe <==> mode is Globe,
        mode is Globe ==> key.center is None,
        mode !is Globe ==> key.center == Some(center),
        key.tile_coords@.to_multiset() == tiles.map_values(
            |t: RenderableTile| t.coord,
        ).to_multiset(),
        forall|i: int, j: int|
            0 <= i < j < key.tile_coords@.len() ==> packed(#[trigger] key.tile_coords@[i])
                <= packed(#[trigger] key.tile_coords@[j]),
{
    let coords = coords_of(tiles);
    law_address_order(TileCoord { z: 0, x: 0, y: 0 }, TileCoord { z: 0, x: 0, y: 0 });
    coords.lemma_sort_by_ensures(address_order());
    assert(coords =~= tiles.map_values(|t: RenderableTile| t.coord));
    let sorted = key.tile_coords@;
    assert forall|i: int, j: int| 0 <= i < j < sorted.len() implies packed(#[trigger] sorted[i])
        <= packed(#[trigger] sorted[j]) by {
        assert(address_order()(sorted[i], sorted[j]));
    }
}

/// In the mesh of several tiles each tile has its own grid, as fine as its level asks for under
/// the projection, and its own triangles: all of them on the globe, those that face the viewer
/// on a map centered on the view.
pub proof fn law_mesh_of_tile(
    tiles: Seq<RenderableTile>,
    mode: ProjectionMode,
    front: Seq<Vec<bool>>,
    k: int,
) -> (at: (int, int))
    requires
        0 <= k < tiles.len(),
    ensures
        ({
            let m = mesh_for(tiles, mode, front);
            let s = if mode is Globe {
                globe_steps(tiles[k].coord.z)
            } else {
                centered_steps(tiles[k].coord.z)
            };
            let own = lattice(k as usize, s);
            let local = if mode is Globe {
                surface_indices(s, Winding::Down)
            } else {
                facing_indices(s, front[k]@)
            };
            &&& m.counts.len() == tiles.len()
            &&& m.counts[k] == local.len() as u32
            &&& 0 <= at.0 && at.0 + own.len() <= m.vertices.len()
            &&& 0 <= at.1 && at.1 + local.len() <= m.indices.len()
            &&& forall|j: int| 0 <= j < own.len() ==> m.vertices[at.0 + j] == #[trigger] own[j]
            &&& forall|i: int|
                0 <= i < local.len() && (#[trigger] local[i]) + at.0 <= u32::MAX
                    ==> m.indices[at.1 + i] == local[i] + at.0
        }),
{
    let steps = if mode is Globe {
        globe_density(tiles)
    } else {
        centered_density(tiles)
    };
    let local = if mode is Globe {
        globe_local(steps)
    } else {
        centered_local(steps, front)
    };
    law_merged_places(steps, local, tiles.len(), k);
    (
        merged_vertices(steps, k as nat).len() as int,
        merged_indices(steps, local, k as nat).len() as int,
    )
}

/// A prepared tile keeps its place in the order, and has the share of its address where the
/// pass gives it one.
pub proof fn law_prepared(p: RasterPass, tiles: Seq<RenderableTile>, k: int)
    requires
        0 <= k < tiles.len(),
    ensures
        prepared_tiles(p, tiles).len() == tiles.len(),
        prepared_tiles(p, tiles)[k].tile == tiles[k],
        prepared_tiles(p, tiles)[k].share is Some <==> p.shares.contains_key(tiles[k].coord),
        prepared_tiles(p, tiles)[k].share matches Some(f) ==> f == p.shares[tiles[k].coord],
{
}

/// Every layer that has something to draw is drawn, and besides those only the first layer has
/// a pass, which clears.
pub proof fn law_frame_layers(prepared: Seq<bool>, mode: ProjectionMode, i: int)
    requires
        0 <= i < prepared.len() <= usize::MAX,
    ensures
        prepared[i] ==> frame_plan(prepared, mode).contains(
            (FramePass::Draw { layer: i as usize, clear: i == 0, polar_caps: mode is Globe }),
        ),
        forall|k: int|
            0 <= k < frame_plan(prepared, mode).len() ==> ((#[trigger] frame_plan(
                prepared,
                mode,
            )[k]) matches FramePass::Draw { layer, polar_caps, .. } ==> layer < prepared.len()
                && prepared[layer as int] && polar_caps == (mode is Globe)),
        frame_plan(prepared, mode).contains(FramePass::Clear) <==> !prepared[0],
{
    let rule = pass_at(prepared, mode);
    let n = prepared.len();
    let plan = frame_plan(prepared, mode);
    let src = lemma_gather_sources(n, rule);
    if prepared[i] {
        let d = FramePass::Draw { layer: i as usize, clear: i == 0, polar_caps: mode is Globe };
        assert(rule(i) == Some(d));
        lemma_gather_contains(n, rule, d);
    }
    assert forall|k: int| 0 <= k < plan.len() implies ((
    #[trigger] plan[k]) matches FramePass::Draw { layer, polar_caps, .. } ==> layer < prepared.len()
        && prepared[layer as int] && polar_caps == (mode is Globe)) by {
        assert(rule(src[k]) == Some(plan[k]));
    }
    lemma_gather_contains(n, rule, FramePass::Clear);
    if !prepared[0] {
        assert(rule(0) == Some(FramePass::Clear));
    }
}

/// A mesh is shown as its vertices, its indices and the counts of its tiles.
pub proof fn law_mesh_parts(m: TileMesh)
    ensures
        m@.vertices == m.vertices@,
        m@.indices == m.indices@,
        m@.counts == m.counts@,
{
}

} // verus!
