//! Assembling the passes of a frame.
//!
//! The platform tells for each layer which tiles it has cached. From that, the layer stack and
//! the running fades follow the passes to draw: flat imagery with crossfade overlays, terrain
//! meshes draped with imagery, and tiles that fade out after leaving the view.

use crate::collections::{lists_map, lists_set, TileMap, TileSet};
use crate::engine::{shown, LayerConfig, LayerKind, TileLayer};
use crate::interaction::crossfade::{
    base_available, build_crossfade_overlay, compute_crossfade, compute_fade_overrides,
    crossfade_at, crossfades, fade_share, is_overridden, is_visible, law_crossfade_covered,
    law_overlay_shares, overlay_shares, overlay_tile, CrossfadeTile,
};
use crate::map_controller::MapController;
use crate::pipeline::tile_uniforms::{
    addressable, find_nearest, resolve_fallbacks, resolved_at, resolved_tiles, RenderableTile,
    UvRect,
};
use crate::scalar::{Frac, Real32};
use crate::sequences::{gather, lemma_gather_contains, lemma_gather_sources, lemma_push_contains};
use crate::tile::{law_nearest, member, nearest, nearest_depth, up, TileCoord, VisibleTile};
use vstd::prelude::*;

verus! {

/// What a layer's cache holds.
pub struct CacheModel {
    /// The layer's name.
    pub name: Seq<char>,
    /// Tiles listed as having a raster texture.
    pub available: Set<TileCoord>,
    /// Tiles whose texture can be bound.
    pub textures: Set<TileCoord>,
    /// Tiles with elevation data.
    pub elevation: Set<TileCoord>,
}

/// A layer's cache as the platform shows it.
pub trait LayerStateView {
    /// What the cache holds.
    spec fn model(&self) -> CacheModel;

    /// Layer name, the same as in the layer's configuration.
    fn name(&self) -> (s: &str)
        ensures
            s@ == self.model().name,
    ;

    /// Tiles listed as having a raster texture.
    fn available_raster_coords(&self) -> (s: &TileSet)
        ensures
            s@ == self.model().available,
    ;

    /// Tiles whose texture can be bound.
    fn texture_coords(&self) -> (s: &TileSet)
        ensures
            s@ == self.model().textures,
    ;

    /// Tiles with elevation data.
    fn terrain_coords(&self) -> (s: &TileSet)
        ensures
            s@ == self.model().elevation,
    ;
}

/// A snapshot of a layer's cache.
pub struct LayerCache {
    pub name: String,
    pub available: TileSet,
    pub textures: TileSet,
    pub elevation: TileSet,
}

impl LayerStateView for LayerCache {
    open spec fn model(&self) -> CacheModel {
        CacheModel {
            name: self.name@,
            available: self.available@,
            textures: self.textures@,
            elevation: self.elevation@,
        }
    }

    fn name(&self) -> (s: &str) {
        self.name.as_str()
    }

    fn available_raster_coords(&self) -> (s: &TileSet) {
        &self.available
    }

    fn texture_coords(&self) -> (s: &TileSet) {
        &self.textures
    }

    fn terrain_coords(&self) -> (s: &TileSet) {
        &self.elevation
    }
}

/// A pass of flat tiles. The opacity of a tile is the layer's, times the tile's share where it
/// has one.
pub struct RenderLayerData {
    pub name: String,
    /// The layer whose textures are bound.
    pub source: String,
    pub opacity: Real32,
    pub tiles: Vec<RenderableTile>,
    /// The textures to bind.
    pub texture_views: TileSet,
    pub tile_opacity_overrides: TileMap<Frac>,
}

/// A pass of terrain meshes draped with imagery. The opacity of a tile is the layer's, times the
/// tile's share where it has one.
pub struct TerrainLayerData {
    pub name: String,
    /// The layer whose textures are bound.
    pub imagery_source: String,
    /// The layer that holds the elevation.
    pub elevation_source: String,
    pub opacity: Real32,
    pub tiles: Vec<RenderableTile>,
    /// The textures to bind.
    pub imagery_views: TileSet,
    /// The tile whose elevation each rendered tile takes.
    pub elevation_data: TileMap<TileCoord>,
    pub tile_opacity_overrides: TileMap<Frac>,
}

/// The passes of one frame.
pub struct RenderOutput {
    pub raster_layers: Vec<RenderLayerData>,
    pub terrain_layers: Vec<TerrainLayerData>,
    /// Terrain transitions are instant: there are never any.
    pub terrain_overlay_layers: Vec<TerrainLayerData>,
}

/// What a flat pass draws.
#[verifier::ext_equal]
pub struct RasterPass {
    pub name: Seq<char>,
    pub source: Seq<char>,
    pub opacity: Real32,
    pub tiles: Seq<RenderableTile>,
    pub textures: Set<TileCoord>,
    pub shares: Map<TileCoord, Frac>,
}

/// What a terrain pass draws.
#[verifier::ext_equal]
pub struct TerrainPass {
    pub name: Seq<char>,
    pub imagery_source: Seq<char>,
    pub elevation_source: Seq<char>,
    pub opacity: Real32,
    pub tiles: Seq<RenderableTile>,
    pub textures: Set<TileCoord>,
    pub elevation: Map<TileCoord, TileCoord>,
    pub shares: Map<TileCoord, Frac>,
}

impl View for RenderLayerData {
    type V = RasterPass;

    open spec fn view(&self) -> RasterPass {
        RasterPass {
            name: self.name@,
            source: self.source@,
            opacity: self.opacity,
            tiles: self.tiles@,
            textures: self.texture_views@,
            shares: self.tile_opacity_overrides@,
        }
    }
}

impl View for TerrainLayerData {
    type V = TerrainPass;

    open spec fn view(&self) -> TerrainPass {
        TerrainPass {
            name: self.name@,
            imagery_source: self.imagery_source@,
            elevation_source: self.elevation_source@,
            opacity: self.opacity,
            tiles: self.tiles@,
            textures: self.imagery_views@,
            elevation: self.elevation_data@,
            shares: self.tile_opacity_overrides@,
        }
    }
}

/// What the flat passes draw.
pub open spec fn raster_views(s: Seq<RenderLayerData>) -> Seq<RasterPass> {
    s.map_values(|d: RenderLayerData| d@)
}

/// What the terrain passes draw.
pub open spec fn terrain_views(s: Seq<TerrainLayerData>) -> Seq<TerrainPass> {
    s.map_values(|d: TerrainLayerData| d@)
}

/// The tiles in view and their fades.
pub struct Sight {
    pub visible: Seq<VisibleTile>,
    pub fades: Map<TileCoord, i64>,
    pub now: i64,
}

/// Everything that decides what a frame draws.
pub struct Frame {
    /// Layers that are shown, bottom to top.
    pub layers: Seq<TileLayer>,
    pub views: Seq<CacheModel>,
    /// The imagery layer of terrain, where that is on.
    pub imagery: Option<Seq<char>>,
    pub sight: Sight,
}

/// The caches' contents.
pub open spec fn models<V: LayerStateView>(views: Seq<V>) -> Seq<CacheModel> {
    views.map_values(|v: V| v.model())
}

/// Position of the first cache of the layer `name`.
pub open spec fn view_index(views: Seq<CacheModel>, name: Seq<char>) -> Option<int>
    decreases views.len(),
{
    if views.len() == 0 {
        None
    } else {
        match view_index(views.drop_last(), name) {
            Some(i) => Some(i),
            None => if views.last().name == name {
                Some(views.len() - 1)
            } else {
                None
            },
        }
    }
}

/// A terrain layer among `layers` takes the imagery of `name`, which is then not drawn flat.
pub open spec fn consumed(layers: Seq<TileLayer>, name: Seq<char>) -> bool {
    exists|i: int| 0 <= i < layers.len() && drapes(#[trigger] layers[i], name)
}

/// The layer is a terrain layer draped with the imagery of `name`.
pub open spec fn drapes(layer: TileLayer, name: Seq<char>) -> bool {
    layer.config.kind matches LayerKind::Terrain { imagery_layer, .. } && imagery_layer@ == name
}

/// Textures that the base pass may use.
pub open spec fn base_set(s: Sight, m: CacheModel) -> Set<TileCoord> {
    Set::new(|c: TileCoord| base_available(s.visible, m.available, s.fades, s.now, c))
}

/// The tiles that fade in over a stand-in.
pub open spec fn fading_tiles(s: Sight, m: CacheModel) -> Seq<CrossfadeTile> {
    gather(s.visible.len(), crossfade_at(s.visible, m.available, s.fades, s.now))
}

/// The flat pass of a layer.
pub open spec fn base_pass(s: Sight, c: LayerConfig, m: CacheModel) -> RasterPass {
    let tiles = resolved_tiles(s.visible, base_set(s, m));
    RasterPass {
        name: c.name@,
        source: m.name,
        opacity: c.opacity,
        tiles,
        textures: m.available.intersect(m.textures),
        shares: Map::new(
            |t: TileCoord| is_overridden(tiles, s.fades, s.now, t),
            |t: TileCoord| fade_share(s.now - s.fades[t]),
        ),
    }
}

/// The pass that lays fading tiles over their stand-ins.
pub open spec fn overlay_pass(s: Sight, c: LayerConfig, m: CacheModel) -> RasterPass {
    let fading = fading_tiles(s, m);
    RasterPass {
        name: "crossfade-overlay"@,
        source: m.name,
        opacity: c.opacity,
        tiles: fading.map_values(overlay_tile()),
        textures: m.available.intersect(m.textures),
        shares: overlay_shares(fading, fading.len()),
    }
}

/// The flat pass of a layer, and the overlay where tiles are fading.
pub open spec fn flat_passes(s: Sight, c: LayerConfig, m: CacheModel) -> Seq<RasterPass> {
    if fading_tiles(s, m).len() > 0 {
        seq![base_pass(s, c, m), overlay_pass(s, c, m)]
    } else {
        seq![base_pass(s, c, m)]
    }
}

/// Elevation and imagery of the tile are there, its own or an ancestor's.
pub open spec fn draped(elevation: Set<TileCoord>, imagery: Set<TileCoord>) -> spec_fn(
    VisibleTile,
) -> bool {
    |v: VisibleTile|
        nearest(v.coord, member(elevation)) is Some && nearest(v.coord, member(imagery)) is Some
}

/// The opposite of [`draped`].
pub open spec fn undraped(elevation: Set<TileCoord>, imagery: Set<TileCoord>) -> spec_fn(
    VisibleTile,
) -> bool {
    |v: VisibleTile| !draped(elevation, imagery)(v)
}

/// A tile is among those rendered.
pub open spec fn is_rendered(tiles: Seq<RenderableTile>, c: TileCoord) -> bool {
    exists|i: int| 0 <= i < tiles.len() && (#[trigger] tiles[i]).coord == c
}

/// The tile whose elevation each rendered tile takes: itself or the nearest ancestor with some.
pub open spec fn elevation_of(tiles: Seq<RenderableTile>, elevation: Set<TileCoord>) -> Map<
    TileCoord,
    TileCoord,
> {
    Map::new(
        |c: TileCoord| is_rendered(tiles, c) && nearest(c, member(elevation)) is Some,
        |c: TileCoord| nearest(c, member(elevation)).unwrap(),
    )
}

/// The terrain pass of a layer for the given tiles. Terrain does not fade: no tile has a share.
pub open spec fn terrain_pass(
    c: LayerConfig,
    terrain: CacheModel,
    imagery: CacheModel,
    visible: Seq<VisibleTile>,
) -> TerrainPass {
    let tiles = resolved_tiles(visible, imagery.available);
    TerrainPass {
        name: c.name@,
        imagery_source: imagery.name,
        elevation_source: terrain.name,
        opacity: c.opacity,
        tiles,
        textures: imagery.available.intersect(imagery.textures),
        elevation: elevation_of(tiles, terrain.elevation),
        shares: Map::empty(),
    }
}

/// The flat passes that a layer adds: none unless it is a raster layer that no terrain layer
/// takes its imagery from, and its cache is known.
pub open spec fn raster_passes_of(f: Frame, layer: TileLayer) -> Seq<RasterPass> {
    let name = layer.config.name@;
    match view_index(f.views, name) {
        Some(i) => if layer.config.kind is Raster && !consumed(f.layers, name) {
            flat_passes(f.sight, layer.config, f.views[i])
        } else {
            Seq::empty()
        },
        None => Seq::empty(),
    }
}

/// The terrain passes that a layer adds: that of a terrain layer whose own and whose imagery's
/// cache are known; and that of the raster layer chosen as terrain imagery, for those of its
/// tiles that have both elevation and imagery.
pub open spec fn terrain_passes_of(f: Frame, layer: TileLayer) -> Seq<TerrainPass> {
    let name = layer.config.name@;
    match view_index(f.views, name) {
        None => Seq::empty(),
        Some(i) => {
            let m = f.views[i];
            match layer.config.kind {
                LayerKind::Raster => {
                    let over = f.sight.visible.filter(draped(m.elevation, m.available));
                    if !consumed(f.layers, name) && f.imagery == Some(name) && over.len() > 0 {
                        seq![terrain_pass(layer.config, m, m, over)]
                    } else {
                        Seq::empty()
                    }
                },
                LayerKind::Terrain { imagery_layer, .. } => match view_index(
                    f.views,
                    imagery_layer@,
                ) {
                    Some(j) => seq![terrain_pass(layer.config, m, f.views[j], f.sight.visible)],
                    None => Seq::empty(),
                },
                LayerKind::Tiles3d => Seq::empty(),
            }
        },
    }
}

/// The flat passes of the first `n` layers.
pub open spec fn raster_passes(f: Frame, n: nat) -> Seq<RasterPass>
    decreases n,
{
    if n == 0 {
        Seq::empty()
    } else {
        raster_passes(f, (n - 1) as nat) + raster_passes_of(f, f.layers[n - 1])
    }
}

/// The terrain passes of the first `n` layers.
pub open spec fn terrain_passes(f: Frame, n: nat) -> Seq<TerrainPass>
    decreases n,
{
    if n == 0 {
        Seq::empty()
    } else {
        terrain_passes(f, (n - 1) as nat) + terrain_passes_of(f, f.layers[n - 1])
    }
}

/// What is left of a fade-out of length `duration` after `elapsed`: from all of it down to
/// nothing, and more than all of it before it began. A fade without length leaves nothing once
/// it began, and before that more than any bound.
pub open spec fn fade_left(elapsed: int, duration: i64) -> Frac {
    let num = if duration > 0 {
        duration - elapsed
    } else {
        elapsed - duration
    };
    if duration == 0 {
        if elapsed < 0 {
            Frac { num: 1, den: 0 }
        } else {
            Frac { num: 0, den: 1 }
        }
    } else {
        Frac {
            num: (if num > 0 {
                num
            } else {
                0
            }) as i128,
            den: (if duration > 0 {
                duration as int
            } else {
                -(duration as int)
            }) as i128,
        }
    }
}

/// More than a hundredth is left.
pub open spec fn still_seen(left: Frac) -> bool {
    100 * left.num > left.den
}

/// The entry of a tile that left the view, while it can be seen and has a texture.
pub open spec fn departing_at(
    listing: Seq<(TileCoord, i64)>,
    textures: Set<TileCoord>,
    now: i64,
    duration: i64,
) -> spec_fn(int) -> Option<RenderableTile> {
    |i: int|
        {
            let (c, start) = listing[i];
            if still_seen(fade_left(now - start, duration)) && textures.contains(c) {
                Some(
                    RenderableTile {
                        coord: c,
                        texture_coord: c,
                        uv_rect: UvRect::full(),
                        display_x: c.x as i64,
                    },
                )
            } else {
                None
            }
        }
}

/// The pass that fades out the tiles that left the view.
pub open spec fn departing_pass(
    listing: Seq<(TileCoord, i64)>,
    departing: Map<TileCoord, i64>,
    m: CacheModel,
    now: i64,
    duration: i64,
) -> RasterPass {
    let tiles = gather(listing.len(), departing_at(listing, m.textures, now, duration));
    RasterPass {
        name: "zoom-out-overlay"@,
        source: m.name,
        opacity: Real32::one(),
        tiles,
        textures: Set::new(|c: TileCoord| is_rendered(tiles, c)),
        shares: Map::new(
            |c: TileCoord| is_rendered(tiles, c),
            |c: TileCoord| fade_left(now - departing[c], duration),
        ),
    }
}

// ---------------------------------------------------------------------------
// Building the passes
// ---------------------------------------------------------------------------
/// The members of both sets.
fn intersection(a: &TileSet, b: &TileSet) -> (r: TileSet)
    ensures
        r@ == a@.intersect(b@),
{
    let n: usize = a.len();
    let mut r = TileSet::new();
    let mut i: usize = 0;
    while i < n
        invariant
            n == a.listing().len(),
            i <= n,
            lists_set(a.listing(), a@),
            forall|c: TileCoord| #[trigger]
                r@.contains(c) <==> b@.contains(c) && a.listing().take(i as int).contains(c),
        decreases n - i,
    {
        let c = a.item_at(i);
        let ghost before = r@;
        if b.contains(&c) {
            r.insert(c);
        }
        proof {
            let head = a.listing().take(i as int);
            let next = a.listing().take(i + 1);
            assert(next =~= head.push(c));
            assert forall|t: TileCoord| #[trigger] r@.contains(t) <==> b@.contains(t)
                && next.contains(t) by {
                lemma_push_contains(head, c, t);
            }
        }
        i = i + 1;
    }
    proof {
        assert(a.listing().take(i as int) =~= a.listing());
        assert forall|c: TileCoord| r@.contains(c) <==> a@.intersect(b@).contains(c) by {
            if a@.contains(c) {
                let j = choose|j: int| 0 <= j < a.listing().len() && a.listing()[j] == c;
                assert(a.listing().contains(c));
            }
        }
        assert(r@ =~= a@.intersect(b@));
    }
    r
}

/// Sets with the same members are rendered alike.
proof fn lemma_same_set(a: Set<TileCoord>, b: Set<TileCoord>)
    requires
        forall|c: TileCoord| #[trigger] a.contains(c) <==> b.contains(c),
    ensures
        a == b,
{
    assert(a =~= b);
}

/// The flat pass of a layer and, where tiles are fading, its overlay.
pub fn build_raster_layer<V: LayerStateView>(
    config: &LayerConfig,
    view: &V,
    visible: &[VisibleTile],
    fades: &TileMap<i64>,
    now: i64,
) -> (r: (RenderLayerData, Option<RenderLayerData>))
    requires
        addressable(visible@),
    ensures
        ({
            let s = Sight { visible: visible@, fades: fades@, now };
            let m = view.model();
            &&& r.0@ == base_pass(s, *config, m)
            &&& match r.1 {
                Some(o) => fading_tiles(s, m).len() > 0 && o@ == overlay_pass(s, *config, m),
                None => fading_tiles(s, m).len() == 0,
            }
        }),
{
    let ghost s = Sight { visible: visible@, fades: fades@, now };
    let ghost m = view.model();
    let available = view.available_raster_coords();
    let (for_base, fading) = compute_crossfade(visible, available, fades, now);
    proof {
        lemma_same_set(for_base@, base_set(s, m));
    }
    let tiles = resolve_fallbacks(visible, &for_base);
    let shares = compute_fade_overrides(tiles.as_slice(), fades, now);
    let base = RenderLayerData {
        name: config.name.clone(),
        source: view.name().to_owned(),
        opacity: config.opacity,
        tiles,
        texture_views: intersection(available, view.texture_coords()),
        tile_opacity_overrides: shares,
    };
    assert(base@.shares =~= base_pass(s, *config, m).shares);
    let overlay: Option<RenderLayerData> = if fading.len() > 0 {
        let (over_tiles, over_shares) = build_crossfade_overlay(fading.as_slice());
        Some(
            RenderLayerData {
                name: "crossfade-overlay".to_owned(),
                source: view.name().to_owned(),
                opacity: config.opacity,
                tiles: over_tiles,
                texture_views: intersection(available, view.texture_coords()),
                tile_opacity_overrides: over_shares,
            },
        )
    } else {
        None
    };
    (base, overlay)
}

/// Split visible tiles into those that stay flat and those drawn as terrain. A tile is drawn as
/// terrain if it has both elevation and imagery, its own or an ancestor's.
pub fn split_by_elevation<V: LayerStateView>(
    visible: &[VisibleTile],
    terrain_view: &V,
    imagery_view: &V,
) -> (r: (Vec<VisibleTile>, Vec<VisibleTile>))
    ensures
        ({
            let e = terrain_view.model().elevation;
            let i = imagery_view.model().available;
            &&& r.0@ == visible@.filter(undraped(e, i))
            &&& r.1@ == visible@.filter(draped(e, i))
        }),
{
    let elevation = terrain_view.terrain_coords();
    let imagery = imagery_view.available_raster_coords();
    let ghost yes = draped(elevation@, imagery@);
    let ghost no = undraped(elevation@, imagery@);
    let ghost all = visible@;
    let mut flat: Vec<VisibleTile> = Vec::new();
    let mut terrain: Vec<VisibleTile> = Vec::new();
    let mut i: usize = 0;
    proof {
        reveal(Seq::filter);
        assert(flat@ =~= all.take(0).filter(no));
        assert(terrain@ =~= all.take(0).filter(yes));
    }
    while i < visible.len()
        invariant
            i <= visible@.len(),
            all == visible@,
            yes == draped(elevation@, imagery@),
            no == undraped(elevation@, imagery@),
            flat@ == all.take(i as int).filter(no),
            terrain@ == all.take(i as int).filter(yes),
        decreases visible@.len() - i,
    {
        let v = visible[i];
        proof {
            assert(all.take(i + 1) =~= all.take(i as int).push(v));
            all.take(i as int).lemma_filter_push(v, yes);
            all.take(i as int).lemma_filter_push(v, no);
        }
        if find_nearest(v.coord, elevation).is_some() && find_nearest(v.coord, imagery).is_some() {
            terrain.push(v);
        } else {
            flat.push(v);
        }
        i = i + 1;
    }
    assert(all.take(i as int) =~= all);
    (flat, terrain)
}

/// The terrain pass of a layer. Terrain does not crossfade: blending two displaced surfaces
/// would leave holes, and the flat pass below already makes the transition smooth.
pub fn build_terrain_layer<V: LayerStateView>(
    config: &LayerConfig,
    terrain_view: &V,
    imagery_view: &V,
    visible: &[VisibleTile],
) -> (r: TerrainLayerData)
    requires
        addressable(visible@),
    ensures
        r@ == terrain_pass(*config, terrain_view.model(), imagery_view.model(), visible@),
{
    let available = imagery_view.available_raster_coords();
    let elevation = terrain_view.terrain_coords();
    let tiles = resolve_fallbacks(visible, available);
    let mut sources: TileMap<TileCoord> = TileMap::new();
    let mut i: usize = 0;
    while i < tiles.len()
        invariant
            i <= tiles@.len(),
            sources@ == elevation_of(tiles@.take(i as int), elevation@),
        decreases tiles@.len() - i,
    {
        let c = tiles[i].coord;
        let ghost before = sources@;
        match find_nearest(c, elevation) {
            Some(e) => {
                sources.insert(c, e);
            },
            None => {},
        }
        proof {
            let a = tiles@.take(i as int);
            let b = tiles@.take(i + 1);
            assert(b =~= a.push(tiles@[i as int]));
            assert forall|t: TileCoord| is_rendered(b, t) == (is_rendered(a, t) || t == c) by {
                if is_rendered(a, t) {
                    let j = choose|j: int| 0 <= j < a.len() && (#[trigger] a[j]).coord == t;
                    assert(b[j].coord == t);
                }
                assert(b[i as int].coord == c);
                if is_rendered(b, t) {
                    let j = choose|j: int| 0 <= j < b.len() && (#[trigger] b[j]).coord == t;
                    if j < i {
                        assert(a[j].coord == t);
                    }
                }
            }
            assert(sources@ =~= elevation_of(b, elevation@));
        }
        i = i + 1;
    }
    assert(tiles@.take(i as int) =~= tiles@);
    TerrainLayerData {
        name: config.name.clone(),
        imagery_source: imagery_view.name().to_owned(),
        elevation_source: terrain_view.name().to_owned(),
        opacity: config.opacity,
        tiles,
        imagery_views: intersection(available, imagery_view.texture_coords()),
        elevation_data: sources,
        tile_opacity_overrides: TileMap::new(),
    }
}

/// The first cache of the layer `name`.
fn find_view<V: LayerStateView>(views: &[V], name: &String) -> (r: Option<usize>)
    ensures
        match r {
            Some(i) => i < views@.len() && view_index(models(views@), name@) == Some(i as int),
            None => view_index(models(views@), name@) is None,
        },
{
    let ghost all = models(views@);
    let mut i: usize = 0;
    while i < views.len()
        invariant
            i <= views@.len(),
            all == models(views@),
            view_index(all.take(i as int), name@) is None,
        decreases views@.len() - i,
    {
        assert(all.take(i + 1).drop_last() =~= all.take(i as int));
        let own: String = views[i].name().to_owned();
        if own == *name {
            proof {
                lemma_view_prefix(all, name@, i + 1);
            }
            return Some(i);
        }
        i = i + 1;
    }
    assert(all.take(i as int) =~= all);
    None
}

proof fn lemma_view_prefix(views: Seq<CacheModel>, name: Seq<char>, n: int)
    requires
        0 <= n <= views.len(),
        view_index(views.take(n), name) is Some,
    ensures
        view_index(views, name) == view_index(views.take(n), name),
    decreases views.len() - n,
{
    if n == views.len() {
        assert(views.take(n) =~= views);
    } else {
        assert(views.take(n + 1).drop_last() =~= views.take(n));
        lemma_view_prefix(views, name, n + 1);
    }
}

/// Whether a terrain layer takes the imagery of `name`.
fn is_consumed(layers: &Vec<TileLayer>, name: &String) -> (b: bool)
    ensures
        b == consumed(layers@, name@),
{
    let mut i: usize = 0;
    while i < layers.len()
        invariant
            i <= layers@.len(),
            forall|j: int| 0 <= j < i ==> !drapes(#[trigger] layers@[j], name@),
        decreases layers@.len() - i,
    {
        match &layers[i].config.kind {
            LayerKind::Terrain { imagery_layer, .. } => {
                if *imagery_layer == *name {
                    assert(drapes(layers@[i as int], name@));
                    return true;
                }
            },
            _ => {},
        }
        i = i + 1;
    }
    false
}

/// What is left of a fade-out.
fn left_of(elapsed: i128, duration: i64) -> (f: Frac)
    requires
        -0x1_0000_0000_0000_0000 <= elapsed <= 0x1_0000_0000_0000_0000,
    ensures
        f == fade_left(elapsed as int, duration),
        0 <= f.num <= 0x4_0000_0000_0000_0000,
        0 <= f.den <= 0x1_0000_0000_0000_0000,
{
    let d: i128 = duration as i128;
    if d == 0 {
        return if elapsed < 0 {
            Frac { num: 1, den: 0 }
        } else {
            Frac { num: 0, den: 1 }
        };
    }
    let num: i128 = if d > 0 {
        d - elapsed
    } else {
        elapsed - d
    };
    Frac {
        num: if num > 0 {
            num
        } else {
            0
        },
        den: if d > 0 {
            d
        } else {
            -d
        },
    }
}

/// The pass that fades out the tiles that left the view, if any of them can be seen.
pub fn build_departing_layer<V: LayerStateView>(
    departing: &TileMap<i64>,
    view: &V,
    now: i64,
    duration: i64,
) -> (r: Option<RenderLayerData>)
    ensures
        ({
            let pass = departing_pass(
                departing.listing(),
                departing@,
                view.model(),
                now,
                duration,
            );
            match r {
                Some(d) => pass.tiles.len() > 0 && d@ == pass,
                None => pass.tiles.len() == 0,
            }
        }),
{
    let ghost m = view.model();
    let ghost listing = departing.listing();
    let ghost rule = departing_at(listing, m.textures, now, duration);
    let textures = view.texture_coords();
    let n: usize = departing.len();
    let mut tiles: Vec<RenderableTile> = Vec::new();
    let mut bound = TileSet::new();
    let mut shares: TileMap<Frac> = TileMap::new();
    let mut i: usize = 0;
    while i < n
        invariant
            i <= n,
            n == listing.len(),
            listing == departing.listing(),
            lists_map(listing, departing@),
            textures@ == m.textures,
            rule == departing_at(listing, m.textures, now, duration),
            tiles@ == gather(i as nat, rule),
            forall|c: TileCoord| #[trigger] bound@.contains(c) <==> is_rendered(tiles@, c),
            forall|c: TileCoord| #[trigger] shares@.contains_key(c) <==> is_rendered(tiles@, c),
            forall|c: TileCoord| #[trigger]
                shares@.contains_key(c) ==> shares@[c] == fade_left(
                    now - departing@[c],
                    duration,
                ),
        decreases n - i,
    {
        let (c, start) = departing.entry_at(i);
        let left = left_of(now as i128 - start as i128, duration);
        let ghost old_tiles = tiles@;
        let ghost old_bound = bound@;
        let ghost old_shares = shares@;
        assert(listing[i as int] == (c, start));
        if 100 * left.num > left.den && textures.contains(&c) {
            let t = RenderableTile {
                coord: c,
                texture_coord: c,
                uv_rect: UvRect::full(),
                display_x: c.x as i64,
            };
            tiles.push(t);
            bound.insert(c);
            shares.insert(c, left);
            proof {
                assert forall|x: TileCoord| #[trigger]
                    is_rendered(tiles@, x) == (is_rendered(old_tiles, x) || x == c) by {
                    lemma_rendered_push(old_tiles, t, x);
                }
                assert forall|x: TileCoord| #[trigger] bound@.contains(x) <==> is_rendered(
                    tiles@,
                    x,
                ) by {
                    assert(old_bound.contains(x) <==> is_rendered(old_tiles, x));
                }
                assert forall|x: TileCoord| #[trigger] shares@.contains_key(x) <==> is_rendered(
                    tiles@,
                    x,
                ) by {
                    assert(old_shares.contains_key(x) <==> is_rendered(old_tiles, x));
                }
            }
        }
        assert(tiles@ =~= gather((i + 1) as nat, rule));
        i = i + 1;
    }
    if tiles.len() == 0 {
        return None;
    }
    let d = RenderLayerData {
        name: "zoom-out-overlay".to_owned(),
        source: view.name().to_owned(),
        opacity: Real32::one(),
        tiles,
        texture_views: bound,
        tile_opacity_overrides: shares,
    };
    proof {
        let pass = departing_pass(listing, departing@, m, now, duration);
        assert(d@.textures =~= pass.textures);
        assert(d@.shares =~= pass.shares);
    }
    Some(d)
}

proof fn lemma_rendered_push(tiles: Seq<RenderableTile>, t: RenderableTile, x: TileCoord)
    ensures
        is_rendered(tiles.push(t), x) == (is_rendered(tiles, x) || x == t.coord),
{
    let b = tiles.push(t);
    if is_rendered(tiles, x) {
        let j = choose|j: int| 0 <= j < tiles.len() && (#[trigger] tiles[j]).coord == x;
        assert(b[j].coord == x);
    }
    assert(b[tiles.len() as int].coord == t.coord);
    if is_rendered(b, x) {
        let j = choose|j: int| 0 <= j < b.len() && (#[trigger] b[j]).coord == x;
        if j < tiles.len() {
            assert(tiles[j].coord == x);
        }
    }
}

/// What the controller's frame draws from.
pub open spec fn frame_of(
    c: MapController,
    views: Seq<CacheModel>,
    visible: Seq<VisibleTile>,
    now: i64,
) -> Frame {
    Frame {
        layers: shown(c.engine.layers@),
        views,
        imagery: match c.terrain {
            Some(t) => Some(t.imagery_layer_name@),
            None => None,
        },
        sight: Sight { visible, fades: c.anim.tile_fade_start@, now },
    }
}

/// The pass for tiles that left the view, where there is something to see of them.
pub open spec fn departing_passes(
    c: MapController,
    views: Seq<CacheModel>,
    now: i64,
) -> Seq<RasterPass> {
    if views.len() > 0 {
        let pass = departing_pass(
            c.departing_tiles.listing(),
            c.departing_tiles@,
            views[0],
            now,
            c.anim.config.fade_duration,
        );
        if pass.tiles.len() > 0 {
            seq![pass]
        } else {
            Seq::empty()
        }
    } else {
        Seq::empty()
    }
}

impl MapController {
    /// Assemble the passes of a frame from the layers' caches.
    pub fn build_render_data<V: LayerStateView>(
        &self,
        views: &[V],
        visible: &[VisibleTile],
        now: i64,
    ) -> (out: RenderOutput)
        requires
            addressable(visible@),
        ensures
            ({
                let f = frame_of(*self, models(views@), visible@, now);
                &&& raster_views(out.raster_layers@) == raster_passes(f, f.layers.len())
                    + departing_passes(*self, models(views@), now)
                &&& terrain_views(out.terrain_layers@) == terrain_passes(f, f.layers.len())
                &&& out.terrain_overlay_layers@.len() == 0
            }),
    {
        let ghost f = frame_of(*self, models(views@), visible@, now);
        let layers = self.engine.visible_layers();
        let mut raster: Vec<RenderLayerData> = Vec::new();
        let mut terrain: Vec<TerrainLayerData> = Vec::new();
        assert(raster_views(raster@) =~= raster_passes(f, 0));
        assert(terrain_views(terrain@) =~= terrain_passes(f, 0));
        let mut i: usize = 0;
        while i < layers.len()
            invariant
                i <= layers@.len(),
                addressable(visible@),
                f == frame_of(*self, models(views@), visible@, now),
                layers@ == f.layers,
                raster_views(raster@) == raster_passes(f, i as nat),
                terrain_views(terrain@) == terrain_passes(f, i as nat),
            decreases layers@.len() - i,
        {
            self.add_raster_passes(&layers, i, views, visible, now, &mut raster);
            self.add_terrain_passes(&layers, i, views, visible, now, &mut terrain);
            i = i + 1;
        }
        assert(raster_passes(f, f.layers.len()) + Seq::<RasterPass>::empty() =~= raster_passes(
            f,
            f.layers.len(),
        ));
        if views.len() > 0 {
            match build_departing_layer(
                &self.departing_tiles,
                &views[0],
                now,
                self.anim.config.fade_duration,
            ) {
                Some(d) => {
                    let ghost before = raster@;
                    raster.push(d);
                    assert(raster_views(raster@) =~= raster_views(before) + seq![d@]);
                },
                None => {},
            }
        }
        RenderOutput {
            raster_layers: raster,
            terrain_layers: terrain,
            terrain_overlay_layers: Vec::new(),
        }
    }

    /// Append the flat passes of layer `i`.
    fn add_raster_passes<V: LayerStateView>(
        &self,
        layers: &Vec<TileLayer>,
        i: usize,
        views: &[V],
        visible: &[VisibleTile],
        now: i64,
        out: &mut Vec<RenderLayerData>,
    )
        requires
            addressable(visible@),
            i < layers@.len(),
            layers@ == shown(self.engine.layers@),
        ensures
            raster_views(final(out)@) == raster_views(old(out)@) + raster_passes_of(
                frame_of(*self, models(views@), visible@, now),
                layers@[i as int],
            ),
    {
        let ghost f = frame_of(*self, models(views@), visible@, now);
        let ghost start = raster_views(out@);
        let config = &layers[i].config;
        assert(start + Seq::<RasterPass>::empty() =~= start);
        match find_view(views, &config.name) {
            None => {},
            Some(v) => {
                match config.kind {
                    LayerKind::Raster => {
                        if !is_consumed(layers, &config.name) {
                            let (base, overlay) = build_raster_layer(
                                config,
                                &views[v],
                                visible,
                                &self.anim.tile_fade_start,
                                now,
                            );
                            let ghost base_view = base@;
                            out.push(base);
                            match overlay {
                                Some(o) => {
                                    let ghost over_view = o@;
                                    out.push(o);
                                    assert(raster_views(out@) =~= start + seq![
                                        base_view,
                                        over_view,
                                    ]);
                                },
                                None => {
                                    assert(raster_views(out@) =~= start + seq![base_view]);
                                },
                            }
                        }
                    },
                    _ => {},
                }
            },
        }
    }

    /// Append the terrain passes of layer `i`.
    fn add_terrain_passes<V: LayerStateView>(
        &self,
        layers: &Vec<TileLayer>,
        i: usize,
        views: &[V],
        visible: &[VisibleTile],
        now: i64,
        out: &mut Vec<TerrainLayerData>,
    )
        requires
            addressable(visible@),
            i < layers@.len(),
            layers@ == shown(self.engine.layers@),
        ensures
            terrain_views(final(out)@) == terrain_views(old(out)@) + terrain_passes_of(
                frame_of(*self, models(views@), visible@, now),
                layers@[i as int],
            ),
    {
        let ghost f = frame_of(*self, models(views@), visible@, now);
        let ghost start = terrain_views(out@);
        let config = &layers[i].config;
        assert(start + Seq::<TerrainPass>::empty() =~= start);
        match find_view(views, &config.name) {
            None => {},
            Some(v) => {
                match &config.kind {
                    LayerKind::Raster => {
                        let is_imagery: bool = match &self.terrain {
                            Some(t) => t.imagery_layer_name == config.name,
                            None => false,
                        };
                        if is_imagery && !is_consumed(layers, &config.name) {
                            let (_, over) = split_by_elevation(visible, &views[v], &views[v]);
                            if over.len() > 0 {
                                proof {
                                    let m = views@[v as int].model();
                                    lemma_filter_addressable(
                                        visible@,
                                        draped(m.elevation, m.available),
                                    );
                                }
                                let d = build_terrain_layer(
                                    config,
                                    &views[v],
                                    &views[v],
                                    over.as_slice(),
                                );
                                let ghost view = d@;
                                out.push(d);
                                assert(terrain_views(out@) =~= start + seq![view]);
                            }
                        }
                    },
                    LayerKind::Terrain { imagery_layer, .. } => {
                        match find_view(views, imagery_layer) {
                            Some(w) => {
                                let d = build_terrain_layer(
                                    config,
                                    &views[v],
                                    &views[w],
                                    visible,
                                );
                                let ghost view = d@;
                                out.push(d);
                                assert(terrain_views(out@) =~= start + seq![view]);
                            },
                            None => {},
                        }
                    },
                    LayerKind::Tiles3d => {},
                }
            },
        }
    }
}

proof fn lemma_filter_addressable(visible: Seq<VisibleTile>, p: spec_fn(VisibleTile) -> bool)
    requires
        addressable(visible),
    ensures
        addressable(visible.filter(p)),
{
    let over = visible.filter(p);
    assert forall|i: int| 0 <= i < over.len() implies (#[trigger] over[i]).coord.z < 32
        && over[i].coord.x < u32::MAX && over[i].coord.y < u32::MAX by {
        assert(over.contains(over[i]));
        visible.lemma_filter_contains_rev(p, over[i]);
        let j = choose|j: int| 0 <= j < visible.len() && visible[j] == over[i];
        assert(visible[j].coord.z < 32);
    }
}

// ---------------------------------------------------------------------------
// Laws
// ---------------------------------------------------------------------------
/// Every visible tile is either flat or terrain, never both: the two lists together are as long
/// as the visible list, and each holds only tiles of its kind.
pub proof fn law_split(
    visible: Seq<VisibleTile>,
    elevation: Set<TileCoord>,
    imagery: Set<TileCoord>,
    v: VisibleTile,
)
    ensures
        ({
            let flat = visible.filter(undraped(elevation, imagery));
            let terrain = visible.filter(draped(elevation, imagery));
            &&& flat.len() + terrain.len() == visible.len()
            &&& visible.contains(v) ==> flat.contains(v) != terrain.contains(v)
            &&& flat.contains(v) || terrain.contains(v) ==> visible.contains(v)
        }),
    decreases visible.len(),
{
    let yes = draped(elevation, imagery);
    let no = undraped(elevation, imagery);
    if visible.len() == 0 {
        reveal(Seq::filter);
        assert(visible.filter(no).len() == 0);
        assert(visible.filter(yes).len() == 0);
    } else {
        let init = visible.drop_last();
        let x = visible.last();
        law_split(init, elevation, imagery, v);
        assert(visible =~= init.push(x));
        init.lemma_filter_push(x, yes);
        init.lemma_filter_push(x, no);
        lemma_push_contains(init, x, v);
        lemma_push_contains(init.filter(yes), x, v);
        lemma_push_contains(init.filter(no), x, v);
        if init.filter(yes).contains(x) {
            init.lemma_filter_contains_rev(yes, x);
            let j = choose|j: int| 0 <= j < init.filter(yes).len() && init.filter(yes)[j] == x;
            lemma_filter_holds(init, yes, j);
        }
        if init.filter(no).contains(x) {
            let j = choose|j: int| 0 <= j < init.filter(no).len() && init.filter(no)[j] == x;
            lemma_filter_holds(init, no, j);
        }
    }
}

proof fn lemma_filter_holds(s: Seq<VisibleTile>, p: spec_fn(VisibleTile) -> bool, j: int)
    requires
        0 <= j < s.filter(p).len(),
    ensures
        p(s.filter(p)[j]),
{
    s.lemma_filter_pred(p, j);
}

/// Tiles drawn as terrain leave no hole: every one of them is rendered, in order, and has both
/// a texture and elevation.
pub proof fn law_terrain_complete(c: LayerConfig, m: CacheModel, visible: Seq<VisibleTile>, k: int)
    requires
        0 <= k < visible.filter(draped(m.elevation, m.available)).len(),
    ensures
        ({
            let over = visible.filter(draped(m.elevation, m.available));
            let pass = terrain_pass(c, m, m, over);
            &&& pass.tiles.len() == over.len()
            &&& pass.tiles[k].coord == over[k].coord
            &&& m.available.contains(pass.tiles[k].texture_coord)
            &&& pass.elevation.contains_key(over[k].coord)
            &&& m.elevation.contains(pass.elevation[over[k].coord])
        }),
{
    let p = draped(m.elevation, m.available);
    let over = visible.filter(p);
    let pass = terrain_pass(c, m, m, over);
    let rule = resolved_at(over, m.available);
    assert forall|i: int| 0 <= i < over.len() implies #[trigger] rule(i) is Some by {
        lemma_filter_holds(visible, p, i);
    }
    lemma_gather_all(over.len(), rule);
    assert(rule(k) == Some(pass.tiles[k]));
    lemma_filter_holds(visible, p, k);
    law_nearest(over[k].coord, member(m.available));
    law_nearest(over[k].coord, member(m.elevation));
    assert(is_rendered(pass.tiles, over[k].coord));
}

/// A rule that always yields something gathers one element per index.
proof fn lemma_gather_all(n: nat, rule: spec_fn(int) -> Option<RenderableTile>)
    requires
        forall|i: int| 0 <= i < n ==> #[trigger] rule(i) is Some,
    ensures
        gather(n, rule).len() == n,
        forall|i: int| 0 <= i < n ==> #[trigger] rule(i) == Some(gather(n, rule)[i]),
    decreases n,
{
    if n > 0 {
        let m = (n - 1) as nat;
        lemma_gather_all(m, rule);
        assert(rule(n - 1) is Some);
    }
}

/// A layer drawn flat covers what it can: every visible tile for which any texture towards the
/// root is available is drawn by the flat pass, also while it is fading in.
pub proof fn law_flat_complete(s: Sight, c: LayerConfig, m: CacheModel, i: int)
    requires
        0 <= i < s.visible.len(),
        nearest(s.visible[i].coord, member(m.available)) is Some,
    ensures
        is_rendered(base_pass(s, c, m).tiles, s.visible[i].coord),
{
    let base = base_set(s, m);
    law_crossfade_covered(s.visible, m.available, base, s.fades, s.now, i);
    let rule = resolved_at(s.visible, base);
    let r = rule(i).unwrap();
    lemma_gather_contains(s.visible.len(), rule, r);
    let tiles = base_pass(s, c, m).tiles;
    let k = choose|k: int| 0 <= k < tiles.len() && tiles[k] == r;
    assert(tiles[k].coord == s.visible[i].coord);
}

/// Where a raster layer is drawn as terrain, its flat pass is drawn below.
pub proof fn law_terrain_over_flat(f: Frame, layer: TileLayer)
    requires
        layer.config.kind is Raster,
        terrain_passes_of(f, layer).len() > 0,
    ensures
        raster_passes_of(f, layer).len() > 0,
        raster_passes_of(f, layer)[0].name == layer.config.name@,
        f.imagery == Some(layer.config.name@),
{
}

/// A raster layer whose imagery a shown terrain layer takes is not drawn on its own, and neither
/// is a layer whose cache is not known or that holds 3D content.
pub proof fn law_not_drawn(f: Frame, layer: TileLayer)
    requires
        (layer.config.kind is Raster && consumed(f.layers, layer.config.name@)) || view_index(
            f.views,
            layer.config.name@,
        ) is None || layer.config.kind is Tiles3d,
    ensures
        raster_passes_of(f, layer) == Seq::<RasterPass>::empty(),
        terrain_passes_of(f, layer) == Seq::<TerrainPass>::empty(),
{
}

/// Passes are ordered like the layers: those of lower layers come first.
pub proof fn law_pass_order(f: Frame, n: nat, m: nat)
    requires
        n <= m,
    ensures
        raster_passes(f, n).is_prefix_of(raster_passes(f, m)),
        terrain_passes(f, n).is_prefix_of(terrain_passes(f, m)),
    decreases m,
{
    if n < m {
        law_pass_order(f, n, (m - 1) as nat);
    }
}

/// A fade-out begins with everything, only ever loses, and has nothing left when its time is
/// up.
pub proof fn law_fade_left(e1: int, e2: int, duration: i64)
    requires
        duration > 0,
        0 <= e1 <= e2,
    ensures
        fade_left(0, duration) == (Frac { num: duration as i128, den: duration as i128 }),
        fade_left(e2, duration).num <= fade_left(e1, duration).num,
        fade_left(e1, duration).den == duration,
        e1 >= duration ==> fade_left(e1, duration).num == 0 && !still_seen(
            fade_left(e1, duration),
        ),
{
    if e1 < duration {
        assert(duration - e1 <= duration);
    }
}

/// A tile is seen as long as its departure lies ahead, also where fades have no length.
pub proof fn law_fade_ahead(now: i64, start: i64, duration: i64)
    requires
        now < start,
        duration >= 0,
    ensures
        still_seen(fade_left(now - start, duration)),
{
}

/// Every pass that a layer adds to a frame has the opacity of the layer's configuration, whether
/// it is drawn flat, as an overlay or as terrain.
pub proof fn law_layer_opacity(f: Frame, layer: TileLayer, k: int)
    ensures
        0 <= k < raster_passes_of(f, layer).len() ==> raster_passes_of(f, layer)[k].opacity
            == layer.config.opacity,
        0 <= k < terrain_passes_of(f, layer).len() ==> terrain_passes_of(f, layer)[k].opacity
            == layer.config.opacity,
{
}

/// Every flat pass of a frame belongs to a layer: it has that layer's opacity and shows that
/// layer's textures.
pub proof fn law_frame_raster(f: Frame, n: nat, k: int) -> (l: int)
    requires
        n <= f.layers.len(),
        0 <= k < raster_passes(f, n).len(),
    ensures
        0 <= l < n,
        raster_passes(f, n)[k].opacity == f.layers[l].config.opacity,
        raster_passes(f, n)[k].source == f.layers[l].config.name@,
        f.layers[l].config.kind is Raster,
    decreases n,
{
    let below = raster_passes(f, (n - 1) as nat);
    if k < below.len() {
        law_frame_raster(f, (n - 1) as nat, k)
    } else {
        law_first_view(f.views, f.layers[n - 1].config.name@);
        law_layer_opacity(f, f.layers[n - 1], k - below.len());
        n - 1
    }
}

/// Every terrain pass of a frame belongs to a layer: it has that layer's opacity, name and
/// elevation.
pub proof fn law_frame_terrain(f: Frame, n: nat, k: int) -> (l: int)
    requires
        n <= f.layers.len(),
        0 <= k < terrain_passes(f, n).len(),
    ensures
        0 <= l < n,
        terrain_passes(f, n)[k].opacity == f.layers[l].config.opacity,
        terrain_passes(f, n)[k].name == f.layers[l].config.name@,
        terrain_passes(f, n)[k].elevation_source == f.layers[l].config.name@,
    decreases n,
{
    let below = terrain_passes(f, (n - 1) as nat);
    if k < below.len() {
        law_frame_terrain(f, (n - 1) as nat, k)
    } else {
        law_first_view(f.views, f.layers[n - 1].config.name@);
        law_layer_opacity(f, f.layers[n - 1], k - below.len());
        n - 1
    }
}

/// A layer's cache is the first one that bears its name.
pub proof fn law_first_view(views: Seq<CacheModel>, name: Seq<char>)
    ensures
        match view_index(views, name) {
            Some(i) => 0 <= i < views.len() && views[i].name == name && forall|j: int|
                0 <= j < i ==> (#[trigger] views[j]).name != name,
            None => forall|j: int| 0 <= j < views.len() ==> (#[trigger] views[j]).name != name,
        },
    decreases views.len(),
{
    if views.len() > 0 {
        let init = views.drop_last();
        law_first_view(init, name);
        match view_index(init, name) {
            Some(i) => {
                assert(init[i] == views[i]);
                assert forall|j: int| 0 <= j < i implies (#[trigger] views[j]).name != name by {
                    assert(init[j] == views[j]);
                }
            },
            None => {
                assert forall|j: int| 0 <= j < init.len() implies (#[trigger] views[j]).name
                    != name by {
                    assert(init[j] == views[j]);
                }
            },
        }
    }
}

/// The imagery of a layer is taken by a terrain layer exactly where some layer of the stack is
/// one and names it.
pub proof fn law_consumed(layers: Seq<TileLayer>, name: Seq<char>)
    ensures
        consumed(layers, name) <==> exists|i: int|
            0 <= i < layers.len() && ((#[trigger] layers[i]).config.kind matches LayerKind::Terrain {
                imagery_layer,
                ..
            } && imagery_layer@ == name),
{
    if exists|i: int|
        0 <= i < layers.len() && ((#[trigger] layers[i]).config.kind matches LayerKind::Terrain {
            imagery_layer,
            ..
        } && imagery_layer@ == name) {
        let i = choose|i: int|
            0 <= i < layers.len() && ((#[trigger] layers[i]).config.kind matches LayerKind::Terrain {
                imagery_layer,
                ..
            } && imagery_layer@ == name);
        assert(drapes(layers[i], name));
    }
}

/// What a raster layer with a known cache adds: a pass of its own name, and, exactly while some
/// tile fades in over a stand-in, an overlay on it. Both bind the textures that are listed and
/// can be bound.
pub proof fn law_raster_passes(f: Frame, layer: TileLayer, i: int, t: TileCoord)
    requires
        layer.config.kind is Raster,
        !consumed(f.layers, layer.config.name@),
        view_index(f.views, layer.config.name@) == Some(i),
    ensures
        ({
            let p = raster_passes_of(f, layer);
            let m = f.views[i];
            &&& p.len() == 1 || p.len() == 2
            &&& p[0].name == layer.config.name@
            &&& p[0].source == m.name
            &&& p[0].textures.contains(t) <==> m.available.contains(t) && m.textures.contains(t)
            &&& p.len() == 2 <==> fading_tiles(f.sight, m).len() > 0
            &&& p.len() == 2 ==> {
                &&& p[1].name == "crossfade-overlay"@
                &&& p[1].source == m.name
                &&& p[1].textures.contains(t) <==> m.available.contains(t) && m.textures.contains(t)
                &&& p[1].tiles.len() == fading_tiles(f.sight, m).len()
            }
        }),
{
}

/// A flat pass draws exactly the visible tiles that have a texture towards the root, and a tile
/// of it has a share exactly while it fades and shows its own texture.
pub proof fn law_flat_pass(s: Sight, c: LayerConfig, m: CacheModel, t: TileCoord)
    ensures
        ({
            let p = base_pass(s, c, m);
            &&& p.tiles == resolved_tiles(s.visible, base_set(s, m))
            &&& base_set(s, m).contains(t) <==> base_available(
                s.visible,
                m.available,
                s.fades,
                s.now,
                t,
            )
            &&& p.shares.contains_key(t) <==> {
                &&& s.fades.contains_key(t)
                &&& s.now - s.fades[t] < 500_000
                &&& exists|i: int|
                    0 <= i < p.tiles.len() && (#[trigger] p.tiles[i]).coord == t
                        && p.tiles[i].texture_coord == t
            }
            &&& p.shares.contains_key(t) ==> p.shares[t] == fade_share(s.now - s.fades[t])
        }),
{
    crate::interaction::crossfade::law_overridden(
        base_pass(s, c, m).tiles,
        s.fades,
        s.now,
        t,
    );
}

/// The overlay draws exactly the visible tiles that fade in over a stand-in, each with the share
/// of its fade.
pub proof fn law_overlay_pass(s: Sight, c: LayerConfig, m: CacheModel, t: TileCoord)
    ensures
        ({
            let p = overlay_pass(s, c, m);
            &&& is_rendered(p.tiles, t) <==> crossfades(m.available, s.fades, t, s.now) && is_visible(
                s.visible,
                t,
            )
            &&& p.shares.contains_key(t) <==> is_rendered(p.tiles, t)
            &&& p.shares.contains_key(t) ==> p.shares[t] == fade_share(s.now - s.fades[t])
            &&& forall|k: int|
                0 <= k < p.tiles.len() ==> (#[trigger] p.tiles[k]).texture_coord == p.tiles[k].coord
        }),
{
    let rule = crossfade_at(s.visible, m.available, s.fades, s.now);
    let fading = fading_tiles(s, m);
    let p = overlay_pass(s, c, m);
    let src = lemma_gather_sources(s.visible.len(), rule);
    law_overlay_shares(fading, fading.len(), t);
    assert forall|k: int| 0 <= k < fading.len() implies (#[trigger] fading[k]).coord
        == s.visible[src[k]].coord && fading[k].fade == fade_share(s.now - s.fades[fading[k].coord])
        && crossfades(m.available, s.fades, fading[k].coord, s.now) by {
        assert(rule(src[k]) == Some(fading[k]));
    }
    assert forall|k: int| 0 <= k < p.tiles.len() implies (#[trigger] p.tiles[k]).texture_coord
        == p.tiles[k].coord && p.tiles[k].coord == fading[k].coord by {
        assert(p.tiles[k] == overlay_tile()(fading[k]));
    }
    if is_rendered(p.tiles, t) {
        let k = choose|k: int| 0 <= k < p.tiles.len() && (#[trigger] p.tiles[k]).coord == t;
        assert(fading[k].coord == t);
        assert(s.visible[src[k]].coord == t);
    }
    if crossfades(m.available, s.fades, t, s.now) && is_visible(s.visible, t) {
        let i = choose|i: int| 0 <= i < s.visible.len() && (#[trigger] s.visible[i]).coord == t;
        let e = rule(i).unwrap();
        assert(rule(i) == Some(e));
        lemma_gather_contains(s.visible.len(), rule, e);
        let k = choose|k: int| 0 <= k < fading.len() && fading[k] == e;
        assert(p.tiles[k].coord == t);
    }
    if exists|k: int| 0 <= k < fading.len() && (#[trigger] fading[k]).coord == t {
        let k = choose|k: int| 0 <= k < fading.len() && (#[trigger] fading[k]).coord == t;
        assert(p.tiles[k].coord == t);
        let last = lemma_last_entry(fading, t, fading.len());
        assert(p.shares[t] == fading[last].fade);
    }
}

/// Where a tile is listed at all there is a last entry of it.
proof fn lemma_last_entry(tiles: Seq<CrossfadeTile>, t: TileCoord, n: nat) -> (last: int)
    requires
        n <= tiles.len(),
        exists|k: int| 0 <= k < n && (#[trigger] tiles[k]).coord == t,
    ensures
        0 <= last < n,
        tiles[last].coord == t,
        forall|j: int| last < j < n ==> (#[trigger] tiles[j]).coord != t,
    decreases n,
{
    if tiles[n - 1].coord == t {
        n - 1
    } else {
        let k = choose|k: int| 0 <= k < n && (#[trigger] tiles[k]).coord == t;
        assert(k < n - 1);
        lemma_last_entry(tiles, t, (n - 1) as nat)
    }
}

/// What a terrain layer adds where its own cache and that of its imagery are known: one pass
/// with the imagery's textures over its own elevation, for all visible tiles.
pub proof fn law_terrain_layer(f: Frame, layer: TileLayer, i: int, j: int, t: TileCoord)
    requires
        layer.config.kind is Terrain,
        view_index(f.views, layer.config.name@) == Some(i),
        layer.config.kind matches LayerKind::Terrain { imagery_layer, .. } && view_index(
            f.views,
            imagery_layer@,
        ) == Some(j),
    ensures
        ({
            let p = terrain_passes_of(f, layer);
            let m = f.views[j];
            &&& p.len() == 1
            &&& p[0].name == layer.config.name@
            &&& p[0].imagery_source == m.name
            &&& p[0].elevation_source == f.views[i].name
            &&& p[0].tiles == resolved_tiles(f.sight.visible, m.available)
            &&& p[0].textures.contains(t) <==> m.available.contains(t) && m.textures.contains(t)
            &&& p[0].shares == Map::<TileCoord, Frac>::empty()
            &&& p[0].elevation == elevation_of(p[0].tiles, f.views[i].elevation)
        }),
{
}

/// A raster layer is drawn as terrain exactly where it is the chosen imagery, no terrain layer
/// takes it, and some visible tile has both elevation and imagery.
pub proof fn law_raster_as_terrain(f: Frame, layer: TileLayer, i: int, t: TileCoord)
    requires
        layer.config.kind is Raster,
        view_index(f.views, layer.config.name@) == Some(i),
    ensures
        ({
            let p = terrain_passes_of(f, layer);
            let m = f.views[i];
            &&& p.len() <= 1
            &&& p.len() == 1 <==> !consumed(f.layers, layer.config.name@) && f.imagery == Some(
                layer.config.name@,
            ) && exists|k: int|
                0 <= k < f.sight.visible.len() && draped(m.elevation, m.available)(
                    #[trigger] f.sight.visible[k],
                )
            &&& p.len() == 1 ==> {
                &&& p[0].name == layer.config.name@
                &&& p[0].imagery_source == m.name
                &&& p[0].elevation_source == m.name
                &&& p[0].textures.contains(t) <==> m.available.contains(t) && m.textures.contains(t)
                &&& p[0].shares == Map::<TileCoord, Frac>::empty()
            }
        }),
{
    let m = f.views[i];
    let p = draped(m.elevation, m.available);
    let over = f.sight.visible.filter(p);
    if over.len() > 0 {
        lemma_filter_holds(f.sight.visible, p, 0);
        law_split(f.sight.visible, m.elevation, m.available, over[0]);
        assert(over.contains(over[0]));
        let k = choose|k: int| 0 <= k < f.sight.visible.len() && f.sight.visible[k] == over[0];
        assert(p(f.sight.visible[k]));
    }
    if exists|k: int| 0 <= k < f.sight.visible.len() && p(#[trigger] f.sight.visible[k]) {
        let k = choose|k: int| 0 <= k < f.sight.visible.len() && p(#[trigger] f.sight.visible[k]);
        law_split(f.sight.visible, m.elevation, m.available, f.sight.visible[k]);
        let q = undraped(m.elevation, m.available);
        let flat = f.sight.visible.filter(q);
        assert(f.sight.visible.contains(f.sight.visible[k]));
        if flat.contains(f.sight.visible[k]) {
            let j = choose|j: int| 0 <= j < flat.len() && flat[j] == f.sight.visible[k];
            lemma_filter_holds(f.sight.visible, q, j);
        }
        assert(over.contains(f.sight.visible[k]));
    }
}

/// A tile can be drawn as terrain where it or a tile above it has elevation, and it or a tile
/// above it has imagery.
pub proof fn law_draped(elevation: Set<TileCoord>, imagery: Set<TileCoord>, v: VisibleTile)
    ensures
        draped(elevation, imagery)(v) <==> {
            &&& exists|k: nat| k <= v.coord.z && elevation.contains(#[trigger] up(v.coord, k))
            &&& exists|k: nat| k <= v.coord.z && imagery.contains(#[trigger] up(v.coord, k))
        },
{
    lemma_some_above(elevation, v.coord);
    lemma_some_above(imagery, v.coord);
}

proof fn lemma_some_above(s: Set<TileCoord>, c: TileCoord)
    ensures
        nearest(c, member(s)) is Some <==> exists|k: nat| k <= c.z && s.contains(#[trigger] up(c, k)),
{
    law_nearest(c, member(s));
    match nearest_depth(c, member(s)) {
        Some(d) => {
            assert(s.contains(up(c, d)));
        },
        None => {
            assert forall|k: nat| k <= c.z implies !s.contains(#[trigger] up(c, k)) by {
                assert(!member(s)(up(c, k)));
            }
        },
    }
}

/// A rendered tile takes the elevation of the closest tile towards the root that has some,
/// beginning with itself; tiles that are not rendered take none.
pub proof fn law_elevation_of(
    tiles: Seq<RenderableTile>,
    elevation: Set<TileCoord>,
    c: TileCoord,
    d: nat,
)
    requires
        d <= c.z,
        elevation.contains(up(c, d)),
        forall|k: nat| k < d ==> !elevation.contains(#[trigger] up(c, k)),
    ensures
        elevation_of(tiles, elevation).contains_key(c) <==> exists|i: int|
            0 <= i < tiles.len() && (#[trigger] tiles[i]).coord == c,
        elevation_of(tiles, elevation).contains_key(c) ==> elevation_of(tiles, elevation)[c] == up(
            c,
            d,
        ),
{
    lemma_some_above(elevation, c);
    law_nearest(c, member(elevation));
    let e = nearest_depth(c, member(elevation)).unwrap();
    if e < d {
        assert(member(elevation)(up(c, e)));
    } else if d < e {
        assert(!member(elevation)(up(c, d)));
    }
}

/// Tiles that left the view fade out with their own textures: drawn are those that have a
/// texture and of whose fade more than a hundredth is left, with what is left as their share.
pub proof fn law_departing_pass(
    listing: Seq<(TileCoord, i64)>,
    departing: Map<TileCoord, i64>,
    m: CacheModel,
    now: i64,
    duration: i64,
    c: TileCoord,
)
    requires
        duration > 0,
    ensures
        ({
            let p = departing_pass(listing, departing, m, now, duration);
            &&& p.name == "zoom-out-overlay"@
            &&& p.source == m.name
            &&& p.opacity.bits == 0x3f80_0000
            &&& is_rendered(p.tiles, c) <==> m.textures.contains(c) && exists|i: int|
                0 <= i < listing.len() && (#[trigger] listing[i]).0 == c && 100 * (duration - (now
                    - listing[i].1)) > duration
            &&& p.textures.contains(c) <==> is_rendered(p.tiles, c)
            &&& p.shares.contains_key(c) <==> is_rendered(p.tiles, c)
            &&& p.shares.contains_key(c) && now - departing[c] <= duration
                ==> p.shares[c].den == duration && p.shares[c].num == duration - (now
                - departing[c])
            &&& forall|k: int|
                0 <= k < p.tiles.len() ==> (#[trigger] p.tiles[k]).texture_coord == p.tiles[k].coord
                    && p.tiles[k].display_x == p.tiles[k].coord.x
        }),
{
    let rule = departing_at(listing, m.textures, now, duration);
    let p = departing_pass(listing, departing, m, now, duration);
    let src = lemma_gather_sources(listing.len(), rule);
    assert forall|k: int| 0 <= k < p.tiles.len() implies (#[trigger] p.tiles[k]).texture_coord
        == p.tiles[k].coord && p.tiles[k].display_x == p.tiles[k].coord.x by {
        assert(rule(src[k]) == Some(p.tiles[k]));
    }
    if is_rendered(p.tiles, c) {
        let k = choose|k: int| 0 <= k < p.tiles.len() && (#[trigger] p.tiles[k]).coord == c;
        assert(rule(src[k]) == Some(p.tiles[k]));
        assert(listing[src[k]].0 == c);
    }
    if m.textures.contains(c) && exists|i: int|
        0 <= i < listing.len() && (#[trigger] listing[i]).0 == c && 100 * (duration - (now
            - listing[i].1)) > duration {
        let i = choose|i: int|
            0 <= i < listing.len() && (#[trigger] listing[i]).0 == c && 100 * (duration - (now
                - listing[i].1)) > duration;
        let t = rule(i).unwrap();
        assert(rule(i) == Some(t));
        lemma_gather_contains(listing.len(), rule, t);
        let k = choose|k: int| 0 <= k < p.tiles.len() && p.tiles[k] == t;
        assert(p.tiles[k].coord == c);
    }
}

/// A frame is drawn from the layers that are shown, the imagery that terrain was switched on
/// with, and the fades that are running.
pub proof fn law_frame_of(
    c: MapController,
    views: Seq<CacheModel>,
    visible: Seq<VisibleTile>,
    now: i64,
)
    ensures
        ({
            let f = frame_of(c, views, visible, now);
            &&& forall|k: int|
                0 <= k < f.layers.len() ==> (#[trigger] f.layers[k]).config.visible
                    && c.engine.layers@.contains(f.layers[k])
            &&& f.views == views
            &&& f.imagery is Some <==> c.terrain is Some
            &&& c.terrain matches Some(t) ==> f.imagery == Some(t.imagery_layer_name@)
            &&& f.sight.visible == visible
            &&& f.sight.fades == c.anim.tile_fade_start@
            &&& f.sight.now == now
        }),
{
    let f = frame_of(c, views, visible, now);
    let at = crate::engine::law_shown(c.engine.layers@);
    assert forall|k: int| 0 <= k < f.layers.len() implies (
    #[trigger] f.layers[k]).config.visible && c.engine.layers@.contains(f.layers[k]) by {
        assert(f.layers[k] == c.engine.layers@[at[k]]);
    }
}

/// A snapshot of a cache shows each of its parts as what it is.
pub proof fn law_cache_parts(c: LayerCache)
    ensures
        c.model().name == c.name@,
        c.model().available == c.available@,
        c.model().textures == c.textures@,
        c.model().elevation == c.elevation@,
{
}

/// What a pass draws is what its data say: names, sources, opacity, tiles, textures and shares.
pub proof fn law_pass_parts(r: RenderLayerData, t: TerrainLayerData)
    ensures
        r@.name == r.name@,
        r@.source == r.source@,
        r@.opacity == r.opacity,
        r@.tiles == r.tiles@,
        r@.textures == r.texture_views@,
        r@.shares == r.tile_opacity_overrides@,
        t@.name == t.name@,
        t@.imagery_source == t.imagery_source@,
        t@.elevation_source == t.elevation_source@,
        t@.opacity == t.opacity,
        t@.tiles == t.tiles@,
        t@.textures == t.imagery_views@,
        t@.elevation == t.elevation_data@,
        t@.shares == t.tile_opacity_overrides@,
{
}

/// The lists of a frame hold one entry per pass, in order.
pub proof fn law_pass_lists(r: Seq<RenderLayerData>, t: Seq<TerrainLayerData>, k: int)
    ensures
        raster_views(r).len() == r.len(),
        terrain_views(t).len() == t.len(),
        0 <= k < r.len() ==> raster_views(r)[k] == r[k]@,
        0 <= k < t.len() ==> terrain_views(t)[k] == t[k]@,
{
}

/// Tiles that left the view are drawn from the first cache, over one fade, and only where some
/// of them is still seen.
pub proof fn law_departing_shown(c: MapController, views: Seq<CacheModel>, now: i64)
    ensures
        views.len() == 0 ==> departing_passes(c, views, now).len() == 0,
        views.len() > 0 ==> {
            let pass = departing_pass(
                c.departing_tiles.listing(),
                c.departing_tiles@,
                views[0],
                now,
                c.anim.config.fade_duration,
            );
            &&& departing_passes(c, views, now).len() == (if pass.tiles.len() > 0 {
                1int
            } else {
                0int
            })
            &&& pass.tiles.len() > 0 ==> departing_passes(c, views, now)[0] == pass
        },
{
}

} // verus!
