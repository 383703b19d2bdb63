//! Planning terrain passes: which meshes and bind groups to make, which to reuse.
//!
//! A tile's mesh is made once and kept until its elevation comes from another tile, the
//! exaggeration changes or the projection changes. On a map centered on the view, meshes depend
//! on the center and are made in every frame.

use crate::collections::{TileMap, TileSet};
use crate::engine::{LayerConfig, ProjectionMode};
use crate::pipeline::tile_uniforms::{
    addressable, fallback_uv_rect, law_resolved, lemma_nearest_covers, resolved_at, uv_rect_of,
    UvRect,
};
use crate::render_data::{terrain_pass, CacheModel, TerrainLayerData, TerrainPass};
use crate::scalar::{Frac, Real64};
use crate::sequences::{gather, lemma_gather_sources};
use crate::shared_render_resources::SharedRenderResources;
use crate::tile::{member, TileCoord, VisibleTile};
use vstd::prelude::*;

verus! {

/// Meshes kept beyond those of a frame before the others are dropped.
pub const CACHE_MARGIN: usize = 64;

/// A kept mesh.
#[derive(Debug, Clone, Copy, PartialEq, Eq, Structural)]
pub struct CachedMesh {
    /// The tile whose elevation was used.
    pub elev_source: TileCoord,
    /// The texture that the bind group was made for.
    pub last_texture_coord: Option<TileCoord>,
}

/// One tile of a terrain pass.
#[derive(Debug, Clone, Copy, PartialEq, Eq, Structural)]
pub struct TerrainDraw {
    /// Position in the layer's tile list.
    pub tile: usize,
    pub coord: TileCoord,
    pub texture_coord: TileCoord,
    /// The tile whose elevation is used, and the part of it.
    pub elev_source: TileCoord,
    pub elev_uv: UvRect,
    /// The tile's share of the layer's opacity; all of it where there is none.
    pub share: Option<Frac>,
    /// The mesh has to be made.
    pub build_mesh: bool,
    /// The bind group has to be made.
    pub build_bind_group: bool,
}

/// A tile that can be drawn.
pub struct DrawSource {
    pub tile: int,
    pub coord: TileCoord,
    pub texture: TileCoord,
    pub source: TileCoord,
    pub share: Option<Frac>,
}

/// The share of a tile, where it has one.
pub open spec fn share_of(shares: Map<TileCoord, Frac>, c: TileCoord) -> Option<Frac> {
    if shares.contains_key(c) {
        Some(shares[c])
    } else {
        None
    }
}

/// The tile at position `i`, if it is not filtered out and has both texture and elevation.
pub open spec fn source_at(p: TerrainPass, mode: ProjectionMode, near: Seq<bool>) -> spec_fn(
    int,
) -> Option<DrawSource> {
    |i: int|
        {
            let t = p.tiles[i];
            if (mode is Globe || near[i]) && p.textures.contains(t.texture_coord)
                && p.elevation.contains_key(t.coord) {
                Some(
                    DrawSource {
                        tile: i,
                        coord: t.coord,
                        texture: t.texture_coord,
                        source: p.elevation[t.coord],
                        share: share_of(p.shares, t.coord),
                    },
                )
            } else {
                None
            }
        }
}

/// The tiles of a pass that can be drawn, in order.
pub open spec fn draw_sources(p: TerrainPass, mode: ProjectionMode, near: Seq<bool>) -> Seq<
    DrawSource,
> {
    gather(p.tiles.len(), source_at(p, mode, near))
}

/// A mesh for this elevation is kept.
pub open spec fn is_current(cache: Map<TileCoord, CachedMesh>, d: DrawSource) -> bool {
    cache.contains_key(d.coord) && cache[d.coord].elev_source == d.source
}

/// The cache once the meshes of the first `n` tiles are there.
pub open spec fn with_meshes(
    cache: Map<TileCoord, CachedMesh>,
    s: Seq<DrawSource>,
    n: nat,
) -> Map<TileCoord, CachedMesh>
    decreases n,
{
    if n == 0 {
        cache
    } else {
        let m = with_meshes(cache, s, (n - 1) as nat);
        let d = s[n - 1];
        if is_current(m, d) {
            m
        } else {
            m.insert(d.coord, CachedMesh { elev_source: d.source, last_texture_coord: None })
        }
    }
}

/// The bind group was made for this texture.
pub open spec fn is_bound(cache: Map<TileCoord, CachedMesh>, d: DrawSource) -> bool {
    cache[d.coord].last_texture_coord == Some(d.texture)
}

/// The cache once the bind groups of the first `n` tiles are there.
pub open spec fn with_bind_groups(
    cache: Map<TileCoord, CachedMesh>,
    s: Seq<DrawSource>,
    n: nat,
) -> Map<TileCoord, CachedMesh>
    decreases n,
{
    if n == 0 {
        cache
    } else {
        let m = with_bind_groups(cache, s, (n - 1) as nat);
        let d = s[n - 1];
        if is_bound(m, d) {
            m
        } else {
            m.insert(
                d.coord,
                CachedMesh { last_texture_coord: Some(d.texture), ..m[d.coord] },
            )
        }
    }
}

/// The cache after a pass.
pub open spec fn cache_after(cache: Map<TileCoord, CachedMesh>, s: Seq<DrawSource>) -> Map<
    TileCoord,
    CachedMesh,
> {
    with_bind_groups(with_meshes(cache, s, s.len()), s, s.len())
}

/// The tiles of a pass: meshes that are not kept are made, and bind groups made for another
/// texture are made anew.
pub open spec fn draws(cache: Map<TileCoord, CachedMesh>, s: Seq<DrawSource>) -> Seq<TerrainDraw> {
    Seq::new(
        s.len(),
        |k: int|
            TerrainDraw {
                tile: s[k].tile as usize,
                coord: s[k].coord,
                texture_coord: s[k].texture,
                elev_source: s[k].source,
                elev_uv: uv_rect_of(s[k].coord, s[k].source),
                share: s[k].share,
                build_mesh: !is_current(with_meshes(cache, s, k as nat), s[k]),
                build_bind_group: !is_bound(
                    with_bind_groups(with_meshes(cache, s, s.len()), s, k as nat),
                    s[k],
                ),
            },
    )
}

/// The cache at the end of a frame: once it holds many more meshes than tiles were rendered,
/// only the rendered ones.
pub open spec fn trimmed(cache: Map<TileCoord, CachedMesh>, rendered: Set<TileCoord>) -> Map<
    TileCoord,
    CachedMesh,
> {
    if cache.dom().len() > rendered.len() + CACHE_MARGIN {
        cache.restrict(rendered)
    } else {
        cache
    }
}

/// The tiles drawn.
pub open spec fn drawn_tiles(s: Seq<DrawSource>) -> Set<TileCoord> {
    Set::new(|c: TileCoord| exists|k: int| 0 <= k < s.len() && (#[trigger] s[k]).coord == c)
}

/// What terrain passes draw from.
pub open spec fn layer_sources(
    layers: Seq<TerrainLayerData>,
    mode: ProjectionMode,
    near: Seq<Vec<bool>>,
    n: int,
) -> Seq<DrawSource> {
    draw_sources(layers[n]@, mode, near[n]@)
}

/// The cache after the first `n` passes.
pub open spec fn layered_cache(
    cache: Map<TileCoord, CachedMesh>,
    layers: Seq<TerrainLayerData>,
    mode: ProjectionMode,
    near: Seq<Vec<bool>>,
    n: nat,
) -> Map<TileCoord, CachedMesh>
    decreases n,
{
    if n == 0 {
        cache
    } else {
        cache_after(
            layered_cache(cache, layers, mode, near, (n - 1) as nat),
            layer_sources(layers, mode, near, n - 1),
        )
    }
}

/// The tiles drawn by the first `n` passes.
pub open spec fn layered_tiles(
    layers: Seq<TerrainLayerData>,
    mode: ProjectionMode,
    near: Seq<Vec<bool>>,
    n: nat,
) -> Set<TileCoord>
    decreases n,
{
    if n == 0 {
        Set::empty()
    } else {
        layered_tiles(layers, mode, near, (n - 1) as nat).union(
            drawn_tiles(layer_sources(layers, mode, near, n - 1)),
        )
    }
}

/// The elevation areas of the pass can be expressed.
pub open spec fn areas_expressible(p: TerrainPass) -> bool {
    forall|c: TileCoord| #[trigger]
        p.elevation.contains_key(c) ==> c.z == p.elevation[c].z || (c.z < 32 && p.elevation[c].z
            < 32 && c.x < u32::MAX && c.y < u32::MAX)
}

/// Terrain exaggerations that differ by more than this need other meshes: 1e-9.
pub open spec fn exaggeration_epsilon() -> Real64 {
    Real64 { bits: 0x3e11_2e0b_e826_d695 }
}

/// Decides what terrain passes make and reuse.
pub struct TerrainRenderer {
    pub surface: SharedRenderResources,
    /// Elevation exaggeration.
    pub exaggeration: Real64,
    /// Kept meshes by tile.
    pub mesh_cache: TileMap<CachedMesh>,
    /// The exaggeration that the kept meshes were made with.
    pub cached_exaggeration: Real64,
    /// The projection that the kept meshes were made for.
    pub cached_projection_mode: ProjectionMode,
}

impl TerrainRenderer {
    pub fn new(surface: Option<(u32, u32)>) -> (r: TerrainRenderer)
        ensures
            r.surface == (match surface {
                Some((w, h)) => SharedRenderResources { surface_width: w, surface_height: h },
                None => SharedRenderResources { surface_width: 800, surface_height: 600 },
            }),
            r.exaggeration.bits == 0x3ff8_0000_0000_0000,
            r.mesh_cache@ == Map::<TileCoord, CachedMesh>::empty(),
            r.cached_exaggeration == r.exaggeration,
            r.cached_projection_mode is Mercator,
    {
        TerrainRenderer {
            surface: SharedRenderResources::new(surface),
            exaggeration: Real64 { bits: 0x3ff8_0000_0000_0000 },
            mesh_cache: TileMap::new(),
            cached_exaggeration: Real64 { bits: 0x3ff8_0000_0000_0000 },
            cached_projection_mode: ProjectionMode::Mercator,
        }
    }

    /// Take over a new surface size. Tells whether the depth texture has to be made anew.
    pub fn resize(&mut self, width: u32, height: u32) -> (anew: bool)
        ensures
            *final(self) == (TerrainRenderer {
                surface: SharedRenderResources { surface_width: width, surface_height: height },
                ..*old(self)
            }),
            anew == (final(self).surface != old(self).surface),
    {
        self.surface.resize(width, height)
    }

    /// Drop a mesh, so that it is made anew in the next frame.
    pub fn invalidate_mesh(&mut self, coord: &TileCoord)
        ensures
            final(self).mesh_cache@ == old(self).mesh_cache@.remove(*coord),
            *final(self) == (TerrainRenderer {
                mesh_cache: final(self).mesh_cache,
                ..*old(self)
            }),
    {
        self.mesh_cache.remove(coord);
    }

    /// The kept meshes no longer fit: the exaggeration or the projection changed, or the map is
    /// centered on the view.
    pub open spec fn is_stale(&self, mode: ProjectionMode, gap: Real64) -> bool {
        exaggeration_epsilon().below(gap) || self.cached_projection_mode != mode || mode
            !is Globe
    }

    /// Begin a frame: drop meshes that no longer fit. `gap` is the magnitude of the difference
    /// between the exaggeration and the one that the meshes were made with.
    pub fn begin_frame(&mut self, mode: ProjectionMode, gap: Real64)
        ensures
            final(self).mesh_cache@ == (if old(self).is_stale(mode, gap) {
                Map::empty()
            } else {
                old(self).mesh_cache@
            }),
            *final(self) == (TerrainRenderer {
                mesh_cache: final(self).mesh_cache,
                cached_projection_mode: mode,
                cached_exaggeration: if exaggeration_epsilon().below(gap) || old(
                    self,
                ).cached_projection_mode != mode {
                    old(self).exaggeration
                } else {
                    old(self).cached_exaggeration
                },
                ..*old(self)
            }),
    {
        let changed: bool = (Real64 { bits: 0x3e11_2e0b_e826_d695 }).less(gap)
            || self.cached_projection_mode != mode;
        if changed {
            self.mesh_cache = TileMap::new();
            self.cached_exaggeration = self.exaggeration;
            self.cached_projection_mode = mode;
        }
        if mode != ProjectionMode::Globe {
            self.mesh_cache = TileMap::new();
        }
    }

    /// Make sure that a mesh for this elevation is kept. Tells whether it has to be made.
    fn get_or_build_mesh(&mut self, coord: TileCoord, elev_source: TileCoord) -> (build: bool)
        ensures
            build == !(old(self).mesh_cache@.contains_key(coord) && old(
                self,
            ).mesh_cache@[coord].elev_source == elev_source),
            final(self).mesh_cache@ == (if build {
                old(self).mesh_cache@.insert(
                    coord,
                    CachedMesh { elev_source, last_texture_coord: None },
                )
            } else {
                old(self).mesh_cache@
            }),
            *final(self) == (TerrainRenderer {
                mesh_cache: final(self).mesh_cache,
                ..*old(self)
            }),
    {
        let build: bool = match self.mesh_cache.get(&coord) {
            Some(m) => m.elev_source != elev_source,
            None => true,
        };
        if build {
            self.mesh_cache.insert(coord, CachedMesh { elev_source, last_texture_coord: None });
        }
        build
    }

    /// Plan one pass. `near[i]` tells whether tile `i` is close enough to the center of the view
    /// for a map centered on it; on the globe it is not asked.
    pub fn plan_layer(
        &mut self,
        layer: &TerrainLayerData,
        mode: ProjectionMode,
        near: &[bool],
    ) -> (r: Vec<TerrainDraw>)
        requires
            areas_expressible(layer@),
            mode !is Globe ==> near@.len() == layer.tiles@.len(),
        ensures
            ({
                let s = draw_sources(layer@, mode, near@);
                &&& r@ == draws(old(self).mesh_cache@, s)
                &&& final(self).mesh_cache@ == cache_after(old(self).mesh_cache@, s)
            }),
            *final(self) == (TerrainRenderer {
                mesh_cache: final(self).mesh_cache,
                ..*old(self)
            }),
    {
        let ghost p = layer@;
        let ghost rule = source_at(p, mode, near@);
        let ghost s = draw_sources(p, mode, near@);
        let ghost start = self.mesh_cache@;
        let mut r: Vec<TerrainDraw> = Vec::new();
        let mut i: usize = 0;
        while i < layer.tiles.len()
            invariant
                i <= layer.tiles@.len(),
                p == layer@,
                areas_expressible(p),
                mode !is Globe ==> near@.len() == layer.tiles@.len(),
                rule == source_at(p, mode, near@),
                r@.len() == gather(i as nat, rule).len(),
                self.mesh_cache@ == with_meshes(start, gather(i as nat, rule), r@.len()),
                *self == (TerrainRenderer { mesh_cache: self.mesh_cache, ..*old(self) }),
                forall|k: int|
                    0 <= k < r@.len() ==> first_phase(
                        #[trigger] r@[k],
                        start,
                        gather(i as nat, rule),
                        k,
                    ),
            decreases layer.tiles@.len() - i,
        {
            let t = layer.tiles[i];
            let ghost g0 = gather(i as nat, rule);
            let ghost r0 = r@;
            assert(p.tiles[i as int] == t);
            let wanted: bool = match mode {
                ProjectionMode::Globe => true,
                ProjectionMode::Mercator => near[i],
            };
            if wanted && layer.imagery_views.contains(&t.texture_coord) {
                match layer.elevation_data.get(&t.coord) {
                    Some(source) => {
                        assert(p.elevation.contains_key(t.coord));
                        let elev_uv = fallback_uv_rect(&t.coord, &source);
                        let build_mesh = self.get_or_build_mesh(t.coord, source);
                        r.push(
                            TerrainDraw {
                                tile: i,
                                coord: t.coord,
                                texture_coord: t.texture_coord,
                                elev_source: source,
                                elev_uv,
                                share: layer.tile_opacity_overrides.get(&t.coord),
                                build_mesh,
                                build_bind_group: false,
                            },
                        );
                        proof {
                            let d = rule(i as int).unwrap();
                            let g1 = gather((i + 1) as nat, rule);
                            assert(g1 == g0.push(d));
                            lemma_meshes_prefix(start, g0, g1, g0.len());
                            assert forall|k: int| 0 <= k < r@.len() implies first_phase(
                                #[trigger] r@[k],
                                start,
                                g1,
                                k,
                            ) by {
                                if k < r0.len() {
                                    assert(first_phase(r0[k], start, g0, k));
                                    lemma_meshes_prefix(start, g0, g1, k as nat);
                                    assert(g1[k] == g0[k]);
                                }
                            }
                        }
                    },
                    None => {},
                }
            }
            i = i + 1;
        }
        let ghost built = self.mesh_cache@;
        let ghost first = r@;
        proof {
            assert(built == with_meshes(start, s, s.len()));
            lemma_meshes_there(start, s, s.len());
        }
        let mut k: usize = 0;
        while k < r.len()
            invariant
                k <= r@.len(),
                r@.len() == s.len(),
                first.len() == s.len(),
                built == with_meshes(start, s, s.len()),
                forall|j: int| 0 <= j < s.len() ==> built.contains_key((#[trigger] s[j]).coord),
                self.mesh_cache@ == with_bind_groups(built, s, k as nat),
                *self == (TerrainRenderer { mesh_cache: self.mesh_cache, ..*old(self) }),
                forall|j: int| 0 <= j < s.len() ==> first_phase(#[trigger] first[j], start, s, j),
                forall|j: int| k <= j < s.len() ==> #[trigger] r@[j] == first[j],
                forall|j: int| 0 <= j < k ==> #[trigger] r@[j] == draws(start, s)[j],
            decreases r@.len() - k,
        {
            let mut d = r[k];
            assert(d == first[k as int]);
            proof {
                lemma_bind_groups_keys(built, s, k as nat, d.coord);
            }
            match self.mesh_cache.get(&d.coord) {
                Some(m) => {
                    if m.last_texture_coord != Some(d.texture_coord) {
                        d.build_bind_group = true;
                        self.mesh_cache.insert(
                            d.coord,
                            CachedMesh {
                                elev_source: m.elev_source,
                                last_texture_coord: Some(d.texture_coord),
                            },
                        );
                    }
                },
                None => {
                    assert(false);
                },
            }
            assert(d == draws(start, s)[k as int]);
            r.set(k, d);
            k = k + 1;
        }
        assert(r@ =~= draws(start, s));
        r
    }

    /// End a frame: drop the meshes of tiles that were not rendered, once there are many more
    /// than were rendered.
    pub fn end_frame(&mut self, rendered: &TileSet)
        ensures
            final(self).mesh_cache@ == trimmed(old(self).mesh_cache@, rendered@),
            *final(self) == (TerrainRenderer {
                mesh_cache: final(self).mesh_cache,
                ..*old(self)
            }),
    {
        let kept: usize = self.mesh_cache.len();
        let drawn: usize = rendered.len();
        if kept > drawn && kept - drawn > CACHE_MARGIN {
            self.mesh_cache.retain(rendered);
        }
    }

    /// Plan the terrain passes of a frame, one list per layer. A layer without anything to draw
    /// needs no pass. Color is kept from what was drawn before; depth starts anew in every pass.
    pub fn render_terrain_layered(
        &mut self,
        layers: &[TerrainLayerData],
        mode: ProjectionMode,
        gap: Real64,
        near: &Vec<Vec<bool>>,
    ) -> (r: Vec<Vec<TerrainDraw>>)
        requires
            forall|k: int| 0 <= k < layers@.len() ==> areas_expressible((#[trigger] layers@[k])@),
            near@.len() == layers@.len(),
            mode !is Globe ==> forall|k: int|
                0 <= k < layers@.len() ==> (#[trigger] near@[k])@.len()
                    == layers@[k].tiles@.len(),
        ensures
            r@.len() == layers@.len(),
            layers@.len() == 0 ==> *final(self) == *old(self),
            layers@.len() > 0 ==> ({
                let start = if old(self).is_stale(mode, gap) {
                    Map::empty()
                } else {
                    old(self).mesh_cache@
                };
                &&& forall|k: int|
                    0 <= k < layers@.len() ==> (#[trigger] r@[k])@ == draws(
                        layered_cache(start, layers@, mode, near@, k as nat),
                        layer_sources(layers@, mode, near@, k),
                    )
                &&& final(self).mesh_cache@ == trimmed(
                    layered_cache(start, layers@, mode, near@, layers@.len()),
                    layered_tiles(layers@, mode, near@, layers@.len()),
                )
            }),
            layers@.len() > 0 ==> *final(self) == (TerrainRenderer {
                mesh_cache: final(self).mesh_cache,
                cached_projection_mode: mode,
                cached_exaggeration: if exaggeration_epsilon().below(gap) || old(
                    self,
                ).cached_projection_mode != mode {
                    old(self).exaggeration
                } else {
                    old(self).cached_exaggeration
                },
                ..*old(self)
            }),
    {
        let mut r: Vec<Vec<TerrainDraw>> = Vec::new();
        if layers.len() == 0 {
            return r;
        }
        self.begin_frame(mode, gap);
        let ghost start = self.mesh_cache@;
        let ghost begun = *self;
        let mut rendered = TileSet::new();
        let mut k: usize = 0;
        while k < layers.len()
            invariant
                k <= layers@.len(),
                forall|j: int|
                    0 <= j < layers@.len() ==> areas_expressible((#[trigger] layers@[j])@),
                near@.len() == layers@.len(),
                mode !is Globe ==> forall|j: int|
                    0 <= j < layers@.len() ==> (#[trigger] near@[j])@.len()
                        == layers@[j].tiles@.len(),
                r@.len() == k,
                forall|j: int|
                    0 <= j < k ==> (#[trigger] r@[j])@ == draws(
                        layered_cache(start, layers@, mode, near@, j as nat),
                        layer_sources(layers@, mode, near@, j),
                    ),
                self.mesh_cache@ == layered_cache(start, layers@, mode, near@, k as nat),
                rendered@ == layered_tiles(layers@, mode, near@, k as nat),
                *self == (TerrainRenderer { mesh_cache: self.mesh_cache, ..begun }),
            decreases layers@.len() - k,
        {
            let d = self.plan_layer(&layers[k], mode, near[k].as_slice());
            let ghost s = layer_sources(layers@, mode, near@, k as int);
            let ghost before = rendered@;
            let mut i: usize = 0;
            while i < d.len()
                invariant
                    i <= d@.len(),
                    d@.len() == s.len(),
                    forall|j: int| 0 <= j < s.len() ==> (#[trigger] d@[j]).coord == s[j].coord,
                    rendered@ == before.union(drawn_tiles(s.take(i as int))),
                decreases d@.len() - i,
            {
                rendered.insert(d[i].coord);
                proof {
                    let a = s.take(i as int);
                    let b = s.take(i + 1);
                    assert(b =~= a.push(s[i as int]));
                    lemma_drawn_push(a, s[i as int]);
                    assert(rendered@ =~= before.union(drawn_tiles(b)));
                }
                i = i + 1;
            }
            assert(s.take(i as int) =~= s);
            r.push(d);
            k = k + 1;
        }
        self.end_frame(&rendered);
        r
    }
}

proof fn lemma_drawn_push(s: Seq<DrawSource>, d: DrawSource)
    ensures
        drawn_tiles(s.push(d)) == drawn_tiles(s).insert(d.coord),
{
    let t = s.push(d);
    assert forall|c: TileCoord| drawn_tiles(t).contains(c) <==> drawn_tiles(s).insert(
        d.coord,
    ).contains(c) by {
        if drawn_tiles(s).contains(c) {
            let k = choose|k: int| 0 <= k < s.len() && (#[trigger] s[k]).coord == c;
            assert(t[k].coord == c);
        }
        assert(t[s.len() as int].coord == d.coord);
        if drawn_tiles(t).contains(c) {
            let k = choose|k: int| 0 <= k < t.len() && (#[trigger] t[k]).coord == c;
            if k < s.len() {
                assert(s[k].coord == c);
            }
        }
    }
    assert(drawn_tiles(t) =~= drawn_tiles(s).insert(d.coord));
}

/// The entry after the meshes were looked up: its bind group is still open.
pub open spec fn first_phase(
    d: TerrainDraw,
    cache: Map<TileCoord, CachedMesh>,
    s: Seq<DrawSource>,
    k: int,
) -> bool {
    d == (TerrainDraw {
        tile: s[k].tile as usize,
        coord: s[k].coord,
        texture_coord: s[k].texture,
        elev_source: s[k].source,
        elev_uv: uv_rect_of(s[k].coord, s[k].source),
        share: s[k].share,
        build_mesh: !is_current(with_meshes(cache, s, k as nat), s[k]),
        build_bind_group: false,
    })
}

proof fn lemma_meshes_prefix(
    cache: Map<TileCoord, CachedMesh>,
    a: Seq<DrawSource>,
    b: Seq<DrawSource>,
    n: nat,
)
    requires
        n <= a.len(),
        a.is_prefix_of(b),
    ensures
        with_meshes(cache, a, n) == with_meshes(cache, b, n),
    decreases n,
{
    if n > 0 {
        lemma_meshes_prefix(cache, a, b, (n - 1) as nat);
        assert(a[n - 1] == b[n - 1]);
    }
}

/// After the first phase every tile has a mesh.
proof fn lemma_meshes_there(cache: Map<TileCoord, CachedMesh>, s: Seq<DrawSource>, n: nat)
    requires
        n <= s.len(),
    ensures
        forall|j: int|
            0 <= j < n ==> with_meshes(cache, s, n).contains_key((#[trigger] s[j]).coord),
    decreases n,
{
    if n > 0 {
        lemma_meshes_there(cache, s, (n - 1) as nat);
    }
}

proof fn lemma_bind_groups_keys(
    cache: Map<TileCoord, CachedMesh>,
    s: Seq<DrawSource>,
    n: nat,
    c: TileCoord,
)
    requires
        n <= s.len(),
        cache.contains_key(c),
    ensures
        with_bind_groups(cache, s, n).contains_key(c),
    decreases n,
{
    if n > 0 {
        lemma_bind_groups_keys(cache, s, (n - 1) as nat, c);
    }
}

// ---------------------------------------------------------------------------
// Laws
// ---------------------------------------------------------------------------
/// Tiles of one address agree on elevation and texture.
pub open spec fn consistent(s: Seq<DrawSource>) -> bool {
    forall|i: int, j: int|
        0 <= i < s.len() && 0 <= j < s.len() && (#[trigger] s[i]).coord == (
        #[trigger] s[j]).coord ==> s[i].source == s[j].source && s[i].texture == s[j].texture
}

/// Every tile of a pass has its mesh and its bind group once the pass is planned.
proof fn lemma_cache_ready(cache: Map<TileCoord, CachedMesh>, s: Seq<DrawSource>)
    requires
        consistent(s),
    ensures
        forall|k: int|
            0 <= k < s.len() ==> is_current(cache_after(cache, s), #[trigger] s[k]) && is_bound(
                cache_after(cache, s),
                s[k],
            ),
{
    let built = with_meshes(cache, s, s.len());
    lemma_meshes_current(cache, s, s.len());
    lemma_groups_bound(built, s, s.len());
}

proof fn lemma_meshes_current(cache: Map<TileCoord, CachedMesh>, s: Seq<DrawSource>, n: nat)
    requires
        consistent(s),
        n <= s.len(),
    ensures
        forall|k: int| 0 <= k < n ==> is_current(with_meshes(cache, s, n), #[trigger] s[k]),
    decreases n,
{
    if n > 0 {
        lemma_meshes_current(cache, s, (n - 1) as nat);
        let d = s[n - 1];
        assert forall|k: int| 0 <= k < n implies is_current(
            with_meshes(cache, s, n),
            #[trigger] s[k],
        ) by {
            if s[k].coord == d.coord {
                assert(s[k].source == d.source);
            }
        }
    }
}

proof fn lemma_groups_bound(cache: Map<TileCoord, CachedMesh>, s: Seq<DrawSource>, n: nat)
    requires
        consistent(s),
        n <= s.len(),
        forall|k: int| 0 <= k < s.len() ==> is_current(cache, #[trigger] s[k]),
    ensures
        forall|k: int|
            0 <= k < s.len() ==> is_current(with_bind_groups(cache, s, n), #[trigger] s[k]),
        forall|k: int| 0 <= k < n ==> is_bound(with_bind_groups(cache, s, n), #[trigger] s[k]),
    decreases n,
{
    if n > 0 {
        lemma_groups_bound(cache, s, (n - 1) as nat);
        let d = s[n - 1];
        let m = with_bind_groups(cache, s, (n - 1) as nat);
        assert(is_current(m, d));
        assert forall|k: int| 0 <= k < n implies is_bound(
            with_bind_groups(cache, s, n),
            #[trigger] s[k],
        ) by {
            if s[k].coord == d.coord {
                assert(s[k].texture == d.texture);
            }
        }
    }
}

/// Nothing is made twice: planning the same tiles again makes no mesh and no bind group, and
/// leaves the cache as it is.
pub proof fn law_reuse(cache: Map<TileCoord, CachedMesh>, s: Seq<DrawSource>, k: int)
    requires
        consistent(s),
        0 <= k < s.len(),
    ensures
        !draws(cache_after(cache, s), s)[k].build_mesh,
        !draws(cache_after(cache, s), s)[k].build_bind_group,
        cache_after(cache_after(cache, s), s) == cache_after(cache, s),
{
    let c = cache_after(cache, s);
    lemma_cache_ready(cache, s);
    lemma_nothing_built(c, s, s.len());
    lemma_nothing_bound(c, s, s.len());
    lemma_nothing_built(c, s, k as nat);
    lemma_nothing_bound(c, s, k as nat);
    assert(is_current(c, s[k]) && is_bound(c, s[k]));
}

proof fn lemma_nothing_built(cache: Map<TileCoord, CachedMesh>, s: Seq<DrawSource>, n: nat)
    requires
        n <= s.len(),
        forall|k: int| 0 <= k < s.len() ==> is_current(cache, #[trigger] s[k]),
    ensures
        with_meshes(cache, s, n) == cache,
    decreases n,
{
    if n > 0 {
        lemma_nothing_built(cache, s, (n - 1) as nat);
        assert(is_current(cache, s[n - 1]));
    }
}

proof fn lemma_nothing_bound(cache: Map<TileCoord, CachedMesh>, s: Seq<DrawSource>, n: nat)
    requires
        n <= s.len(),
        forall|k: int| 0 <= k < s.len() ==> is_bound(cache, #[trigger] s[k]),
    ensures
        with_bind_groups(cache, s, n) == cache,
    decreases n,
{
    if n > 0 {
        lemma_nothing_bound(cache, s, (n - 1) as nat);
        assert(is_bound(cache, s[n - 1]));
    }
}

/// Tiles of one pass always agree: both elevation and texture depend on the address alone.
pub proof fn law_pass_consistent(p: TerrainPass, mode: ProjectionMode, near: Seq<bool>)
    requires
        forall|i: int, j: int|
            0 <= i < p.tiles.len() && 0 <= j < p.tiles.len() && (#[trigger] p.tiles[i]).coord == (
            #[trigger] p.tiles[j]).coord ==> p.tiles[i].texture_coord == p.tiles[j].texture_coord,
    ensures
        consistent(draw_sources(p, mode, near)),
{
    let rule = source_at(p, mode, near);
    let s = draw_sources(p, mode, near);
    let src = lemma_gather_sources(p.tiles.len(), rule);
    assert forall|i: int, j: int|
        0 <= i < s.len() && 0 <= j < s.len() && (#[trigger] s[i]).coord == (
        #[trigger] s[j]).coord implies s[i].source == s[j].source && s[i].texture
        == s[j].texture by {
        assert(rule(src[i]) == Some(s[i]));
        assert(rule(src[j]) == Some(s[j]));
        assert(p.tiles[src[i]].coord == p.tiles[src[j]].coord);
    }
}

/// So do those of a pass made from visible tiles.
pub proof fn law_terrain_pass_consistent(
    c: LayerConfig,
    terrain: CacheModel,
    imagery: CacheModel,
    visible: Seq<VisibleTile>,
    mode: ProjectionMode,
    near: Seq<bool>,
)
    ensures
        consistent(draw_sources(terrain_pass(c, terrain, imagery, visible), mode, near)),
{
    let p = terrain_pass(c, terrain, imagery, visible);
    let rule = resolved_at(visible, imagery.available);
    let src = lemma_gather_sources(visible.len(), rule);
    assert forall|i: int, j: int|
        0 <= i < p.tiles.len() && 0 <= j < p.tiles.len() && (#[trigger] p.tiles[i]).coord == (
        #[trigger] p.tiles[j]).coord implies p.tiles[i].texture_coord
        == p.tiles[j].texture_coord by {
        assert(rule(src[i]) == Some(p.tiles[i]));
        assert(rule(src[j]) == Some(p.tiles[j]));
    }
    law_pass_consistent(p, mode, near);
}

/// Every tile of a pass is drawn with the share of its address, where there is one, whatever
/// meshes are kept.
pub proof fn law_draw_share(
    cache: Map<TileCoord, CachedMesh>,
    p: TerrainPass,
    mode: ProjectionMode,
    near: Seq<bool>,
    k: int,
)
    requires
        0 <= k < draw_sources(p, mode, near).len(),
    ensures
        ({
            let d = draws(cache, draw_sources(p, mode, near))[k];
            d.share == share_of(p.shares, d.coord)
        }),
{
    let rule = source_at(p, mode, near);
    let src = lemma_gather_sources(p.tiles.len(), rule);
    assert(rule(src[k]) == Some(draw_sources(p, mode, near)[k]));
}

/// Dropping meshes never drops one of a tile that was rendered.
pub proof fn law_trim_keeps_rendered(
    cache: Map<TileCoord, CachedMesh>,
    rendered: Set<TileCoord>,
    c: TileCoord,
)
    requires
        rendered.contains(c),
        cache.contains_key(c),
    ensures
        trimmed(cache, rendered).contains_key(c),
        trimmed(cache, rendered)[c] == cache[c],
{
}

/// A pass made from visible tiles has elevation areas that can be expressed.
pub proof fn law_areas(
    c: LayerConfig,
    terrain: CacheModel,
    imagery: CacheModel,
    visible: Seq<VisibleTile>,
)
    requires
        addressable(visible),
    ensures
        areas_expressible(terrain_pass(c, terrain, imagery, visible)),
{
    let p = terrain_pass(c, terrain, imagery, visible);
    assert forall|t: TileCoord| #[trigger] p.elevation.contains_key(t) implies t.z
        == p.elevation[t].z || (t.z < 32 && p.elevation[t].z < 32 && t.x < u32::MAX && t.y
        < u32::MAX) by {
        let k = choose|k: int| 0 <= k < p.tiles.len() && (#[trigger] p.tiles[k]).coord == t;
        law_resolved(visible, imagery.available, k);
        let i = choose|i: int|
            0 <= i < visible.len() && (#[trigger] visible[i]).coord == p.tiles[k].coord
                && visible[i].display_x == p.tiles[k].display_x;
        assert(visible[i].coord == t);
        lemma_nearest_covers(t, member(terrain.elevation));
    }
}

/// Drawn are, in order, exactly the tiles that have both a texture that can be bound and
/// elevation; on a map centered on the view only those near enough. Each takes the texture that
/// was found for it, the elevation of its address and the share of its address.
pub proof fn law_draw_sources(p: TerrainPass, mode: ProjectionMode, near: Seq<bool>) -> (src: Seq<
    int,
>)
    ensures
        src.len() == draw_sources(p, mode, near).len(),
        forall|k: int|
            0 <= k < src.len() ==> {
                let d = draw_sources(p, mode, near)[k];
                let t = p.tiles[#[trigger] src[k]];
                &&& 0 <= src[k] < p.tiles.len()
                &&& mode is Globe || near[src[k]]
                &&& p.textures.contains(t.texture_coord)
                &&& p.elevation.contains_key(t.coord)
                &&& d.tile == src[k]
                &&& d.coord == t.coord
                &&& d.texture == t.texture_coord
                &&& d.source == p.elevation[t.coord]
                &&& d.share is Some <==> p.shares.contains_key(t.coord)
                &&& d.share matches Some(f) ==> f == p.shares[t.coord]
            },
        forall|a: int, b: int| 0 <= a < b < src.len() ==> #[trigger] src[a] < #[trigger] src[b],
        forall|i: int|
            0 <= i < p.tiles.len() && (mode is Globe || near[i]) && p.textures.contains(
                (#[trigger] p.tiles[i]).texture_coord,
            ) && p.elevation.contains_key(p.tiles[i].coord) ==> drawn_tiles(
                draw_sources(p, mode, near),
            ).contains(p.tiles[i].coord),
{
    let rule = source_at(p, mode, near);
    let s = draw_sources(p, mode, near);
    let src = lemma_gather_sources(p.tiles.len(), rule);
    assert forall|k: int| 0 <= k < src.len() implies {
        let d = s[k];
        let t = p.tiles[#[trigger] src[k]];
        &&& 0 <= src[k] < p.tiles.len()
        &&& mode is Globe || near[src[k]]
        &&& p.textures.contains(t.texture_coord)
        &&& p.elevation.contains_key(t.coord)
        &&& d.tile == src[k]
        &&& d.coord == t.coord
        &&& d.texture == t.texture_coord
        &&& d.source == p.elevation[t.coord]
        &&& d.share is Some <==> p.shares.contains_key(t.coord)
        &&& d.share matches Some(f) ==> f == p.shares[t.coord]
    } by {
        assert(rule(src[k]) == Some(s[k]));
    }
    assert forall|i: int|
        0 <= i < p.tiles.len() && (mode is Globe || near[i]) && p.textures.contains(
            (#[trigger] p.tiles[i]).texture_coord,
        ) && p.elevation.contains_key(p.tiles[i].coord) implies drawn_tiles(s).contains(
        p.tiles[i].coord,
    ) by {
        let d = rule(i).unwrap();
        assert(rule(i) == Some(d));
        crate::sequences::lemma_gather_contains(p.tiles.len(), rule, d);
        let k = choose|k: int| 0 <= k < s.len() && s[k] == d;
        assert(s[k].coord == p.tiles[i].coord);
    }
    src
}

/// What is told of each tile that is drawn: its place in the layer, its texture, its elevation
/// and the part of that. Where no tile before it has its address, its mesh is made exactly if
/// none is kept for its elevation.
pub proof fn law_draws(cache: Map<TileCoord, CachedMesh>, s: Seq<DrawSource>, k: int)
    requires
        0 <= k < s.len(),
        forall|j: int| 0 <= j < k ==> (#[trigger] s[j]).coord != s[k].coord,
    ensures
        draws(cache, s).len() == s.len(),
        ({
            let d = draws(cache, s)[k];
            &&& d.tile == s[k].tile as usize
            &&& d.coord == s[k].coord
            &&& d.texture_coord == s[k].texture
            &&& d.elev_source == s[k].source
            &&& d.elev_uv == uv_rect_of(s[k].coord, s[k].source)
            &&& d.build_mesh <==> !(cache.contains_key(s[k].coord)
                && cache[s[k].coord].elev_source == s[k].source)
        }),
{
    lemma_others_keep(cache, s, s[k].coord, k as nat);
}

/// Tiles of other addresses leave the mesh of an address alone.
proof fn lemma_others_keep(
    cache: Map<TileCoord, CachedMesh>,
    s: Seq<DrawSource>,
    c: TileCoord,
    n: nat,
)
    requires
        n <= s.len(),
        forall|j: int| 0 <= j < n ==> (#[trigger] s[j]).coord != c,
    ensures
        with_meshes(cache, s, n).contains_key(c) == cache.contains_key(c),
        cache.contains_key(c) ==> with_meshes(cache, s, n)[c] == cache[c],
        with_bind_groups(cache, s, n).contains_key(c) == cache.contains_key(c),
        cache.contains_key(c) ==> with_bind_groups(cache, s, n)[c] == cache[c],
    decreases n,
{
    if n > 0 {
        lemma_others_keep(cache, s, c, (n - 1) as nat);
        assert(s[n - 1].coord != c);
    }
}

/// After a pass every tile drawn has a mesh for its elevation and a bind group for its texture,
/// and whatever was kept for other tiles still is.
pub proof fn law_cache_after(cache: Map<TileCoord, CachedMesh>, s: Seq<DrawSource>, c: TileCoord)
    requires
        consistent(s),
    ensures
        forall|k: int|
            0 <= k < s.len() && (#[trigger] s[k]).coord == c ==> cache_after(cache, s).contains_key(
                c,
            ) && cache_after(cache, s)[c].elev_source == s[k].source && cache_after(
                cache,
                s,
            )[c].last_texture_coord == Some(s[k].texture),
        (forall|k: int| 0 <= k < s.len() ==> (#[trigger] s[k]).coord != c) ==> {
            &&& cache_after(cache, s).contains_key(c) == cache.contains_key(c)
            &&& cache.contains_key(c) ==> cache_after(cache, s)[c] == cache[c]
        },
{
    lemma_cache_ready(cache, s);
    assert forall|k: int| 0 <= k < s.len() && (#[trigger] s[k]).coord == c implies cache_after(
        cache,
        s,
    ).contains_key(c) && cache_after(cache, s)[c].elev_source == s[k].source && cache_after(
        cache,
        s,
    )[c].last_texture_coord == Some(s[k].texture) by {
        assert(is_current(cache_after(cache, s), s[k]) && is_bound(cache_after(cache, s), s[k]));
    }
    if forall|k: int| 0 <= k < s.len() ==> (#[trigger] s[k]).coord != c {
        lemma_others_keep(cache, s, c, s.len());
        lemma_others_keep(with_meshes(cache, s, s.len()), s, c, s.len());
    }
}

/// A bind group is made exactly where the mesh is new or the kept one was made for another
/// texture, of the first tile of an address.
pub proof fn law_bind_groups(cache: Map<TileCoord, CachedMesh>, s: Seq<DrawSource>, k: int)
    requires
        consistent(s),
        0 <= k < s.len(),
        forall|j: int| 0 <= j < k ==> (#[trigger] s[j]).coord != s[k].coord,
    ensures
        draws(cache, s)[k].build_bind_group <==> !(cache.contains_key(s[k].coord)
            && cache[s[k].coord].elev_source == s[k].source
            && cache[s[k].coord].last_texture_coord == Some(s[k].texture)),
{
    let c = s[k].coord;
    let built = with_meshes(cache, s, s.len());
    lemma_others_keep(cache, s, c, k as nat);
    lemma_first_mesh(cache, s, k, s.len());
    lemma_meshes_current(cache, s, s.len());
    assert(is_current(built, s[k]));
    lemma_others_keep(built, s, c, k as nat);
}

/// Once the mesh of an address is there, further tiles of it keep it.
proof fn lemma_first_mesh(cache: Map<TileCoord, CachedMesh>, s: Seq<DrawSource>, k: int, n: nat)
    requires
        consistent(s),
        0 <= k < n <= s.len(),
        forall|j: int| 0 <= j < k ==> (#[trigger] s[j]).coord != s[k].coord,
    ensures
        with_meshes(cache, s, n).contains_key(s[k].coord),
        with_meshes(cache, s, n)[s[k].coord] == (if cache.contains_key(s[k].coord)
            && cache[s[k].coord].elev_source == s[k].source {
            cache[s[k].coord]
        } else {
            CachedMesh { elev_source: s[k].source, last_texture_coord: None }
        }),
    decreases n,
{
    if n == k + 1 {
        lemma_others_keep(cache, s, s[k].coord, k as nat);
    } else {
        lemma_first_mesh(cache, s, k, (n - 1) as nat);
        let d = s[n - 1];
        if d.coord == s[k].coord {
            assert(d.source == s[k].source);
        }
    }
}

/// The cache is left alone up to 64 meshes beyond the tiles rendered, and cut down to these
/// beyond that.
pub proof fn law_trimmed(
    cache: Map<TileCoord, CachedMesh>,
    rendered: Set<TileCoord>,
    c: TileCoord,
)
    ensures
        cache.dom().len() <= rendered.len() + 64 ==> trimmed(cache, rendered) == cache,
        cache.dom().len() > rendered.len() + 64 ==> {
            &&& trimmed(cache, rendered).contains_key(c) <==> cache.contains_key(c)
                && rendered.contains(c)
            &&& trimmed(cache, rendered).contains_key(c) ==> trimmed(cache, rendered)[c] == cache[c]
        },
{
}

/// The tiles rendered in a frame are those drawn by any of its passes.
pub proof fn law_rendered_tiles(
    layers: Seq<TerrainLayerData>,
    mode: ProjectionMode,
    near: Seq<Vec<bool>>,
    n: nat,
    c: TileCoord,
)
    ensures
        layered_tiles(layers, mode, near, n).contains(c) <==> exists|l: int, k: int|
            0 <= l < n && 0 <= k < draw_sources(layers[l]@, mode, near[l]@).len() && (
            #[trigger] draw_sources(layers[l]@, mode, near[l]@)[k]).coord == c,
    decreases n,
{
    if n > 0 {
        law_rendered_tiles(layers, mode, near, (n - 1) as nat, c);
        let s = layer_sources(layers, mode, near, n - 1);
        if drawn_tiles(s).contains(c) {
            let k = choose|k: int| 0 <= k < s.len() && (#[trigger] s[k]).coord == c;
            assert(draw_sources(layers[n - 1]@, mode, near[n - 1]@)[k].coord == c);
        }
        if exists|l: int, k: int|
            0 <= l < n && 0 <= k < draw_sources(layers[l]@, mode, near[l]@).len() && (
            #[trigger] draw_sources(layers[l]@, mode, near[l]@)[k]).coord == c {
            let (l, k) = choose|l: int, k: int|
                0 <= l < n && 0 <= k < draw_sources(layers[l]@, mode, near[l]@).len() && (
                #[trigger] draw_sources(layers[l]@, mode, near[l]@)[k]).coord == c;
            if l == n - 1 {
                assert(s[k].coord == c);
            }
        }
    }
}

/// Kept meshes are used again only on the globe, under the projection that they were made for,
/// and while the exaggeration differs by no more than a billionth.
pub proof fn law_stale(r: TerrainRenderer, mode: ProjectionMode, gap: Real64)
    ensures
        !r.is_stale(mode, gap) <==> mode is Globe && r.cached_projection_mode == mode && !(Real64 {
            bits: 0x3e11_2e0b_e826_d695,
        }).below(gap),
{
}

} // verus!
