//! Per-layer loading state shared by all platforms.

use crate::collections::TileSet;
use crate::engine::LayerKind;
use crate::tile::TileCoord;
use crate::tile_load_planner::{LayerLoadState, LoadModel};
use vstd::prelude::*;

verus! {

/// Platform-independent layer state.
pub struct LayerStateBase {
    /// Layer name, the key for lookups.
    pub name: String,
    /// Rendering kind.
    pub kind: LayerKind,
    /// URL template of the tile source.
    pub url_template: String,
    /// Lowest zoom level served by the source.
    pub min_zoom: u8,
    /// Highest zoom level served by the source.
    pub max_zoom: u8,
    /// Maximum number of concurrent tile loads.
    pub max_concurrent: usize,
    /// Maximum number of concurrent elevation loads.
    pub max_elevation_concurrent: usize,
    /// Tiles being fetched.
    pub pending_coords: TileSet,
    /// Tiles whose elevation is being fetched.
    pub pending_elevation_coords: TileSet,
    /// Tiles with a texture, rebuilt each frame.
    pub available_coords_cache: TileSet,
}

impl LayerStateBase {
    /// State of a layer about which nothing has been loaded yet.
    pub fn new(
        name: String,
        kind: LayerKind,
        url_template: String,
        max_concurrent: usize,
    ) -> (s: LayerStateBase)
        ensures
            s.name == name,
            s.kind == kind,
            s.url_template == url_template,
            s.min_zoom == 0,
            s.max_zoom == 22,
            s.max_concurrent == max_concurrent,
            s.max_elevation_concurrent == (if max_concurrent < 4 {
                max_concurrent
            } else {
                4
            }),
            s.pending_coords@ == Set::<TileCoord>::empty(),
            s.pending_elevation_coords@ == Set::<TileCoord>::empty(),
            s.available_coords_cache@ == Set::<TileCoord>::empty(),
    {
        LayerStateBase {
            name,
            kind,
            url_template,
            min_zoom: 0,
            max_zoom: 22,
            max_concurrent,
            max_elevation_concurrent: if max_concurrent < 4 {
                max_concurrent
            } else {
                4
            },
            pending_coords: TileSet::new(),
            pending_elevation_coords: TileSet::new(),
            available_coords_cache: TileSet::new(),
        }
    }

    /// Replace the set of textured tiles by the given cache keys.
    pub fn refresh_available_cache(&mut self, keys: &[TileCoord])
        ensures
            forall|c: TileCoord| #[trigger]
                final(self).available_coords_cache@.contains(c) <==> keys@.contains(c),
            *final(self) == (LayerStateBase {
                available_coords_cache: final(self).available_coords_cache,
                ..*old(self)
            }),
    {
        let set = collect_tiles(keys);
        self.available_coords_cache = set;
    }
}

/// The set of the listed tiles.
pub fn collect_tiles(keys: &[TileCoord]) -> (set: TileSet)
    ensures
        forall|c: TileCoord| #[trigger] set@.contains(c) <==> keys@.contains(c),
{
    let mut set = TileSet::new();
    let mut i: usize = 0;
    while i < keys.len()
        invariant
            i <= keys@.len(),
            forall|c: TileCoord| #[trigger]
                set@.contains(c) <==> exists|j: int| 0 <= j < i && #[trigger] keys@[j] == c,
        decreases keys@.len() - i,
    {
        let ghost before = set@;
        set.insert(keys[i]);
        assert forall|c: TileCoord| #[trigger] set@.contains(c) <==> exists|j: int|
            0 <= j < i + 1 && #[trigger] keys@[j] == c by {
            if c != keys@[i as int] {
                assert(before.contains(c) == set@.contains(c));
            }
        }
        i = i + 1;
    }
    set
}

/// A layer's load state held in plain sets.
pub struct LayerSnapshot {
    pub base: LayerStateBase,
    /// Tiles whose fetch failed recently.
    pub failed: TileSet,
    /// Tiles with elevation data.
    pub elevation: TileSet,
    /// Whether the layer has an elevation source.
    pub has_elevation_source: bool,
}

impl LayerLoadState for LayerSnapshot {
    open spec fn model(&self) -> LoadModel {
        LoadModel {
            kind: self.base.kind,
            min_zoom: self.base.min_zoom,
            max_zoom: self.base.max_zoom,
            textured: self.base.available_coords_cache@,
            pending: self.base.pending_coords@,
            failed: self.failed@,
            elevated: self.elevation@,
            elevation_pending: self.base.pending_elevation_coords@,
            max_concurrent: self.base.max_concurrent,
            pending_count: self.base.pending_coords.listing().len() as usize,
            max_elevation_concurrent: self.base.max_elevation_concurrent,
            elevation_pending_count: self.base.pending_elevation_coords.listing().len() as usize,
            has_elevation_source: self.has_elevation_source,
        }
    }

    fn kind(&self) -> (r: &LayerKind) {
        &self.base.kind
    }

    fn min_zoom(&self) -> (r: u8) {
        self.base.min_zoom
    }

    fn max_zoom(&self) -> (r: u8) {
        self.base.max_zoom
    }

    fn has_texture(&self, coord: &TileCoord) -> (r: bool) {
        self.base.available_coords_cache.contains(coord)
    }

    fn is_pending(&self, coord: &TileCoord) -> (r: bool) {
        self.base.pending_coords.contains(coord)
    }

    fn is_failed_cooldown(&self, coord: &TileCoord) -> (r: bool) {
        self.failed.contains(coord)
    }

    fn has_terrain_data(&self, coord: &TileCoord) -> (r: bool) {
        self.elevation.contains(coord)
    }

    fn is_elevation_pending(&self, coord: &TileCoord) -> (r: bool) {
        self.base.pending_elevation_coords.contains(coord)
    }

    fn max_concurrent(&self) -> (r: usize) {
        self.base.max_concurrent
    }

    fn pending_count(&self) -> (r: usize) {
        self.base.pending_coords.len()
    }

    fn max_elevation_concurrent(&self) -> (r: usize) {
        self.base.max_elevation_concurrent
    }

    fn elevation_pending_count(&self) -> (r: usize) {
        self.base.pending_elevation_coords.len()
    }

    fn has_elevation_source(&self) -> (r: bool) {
        self.has_elevation_source
    }
}

/// A snapshot plans from what the layer holds: its textures, what it is fetching, what failed,
/// and its limits, each under its own name.
pub proof fn law_snapshot_model(s: LayerSnapshot)
    ensures
        s.model().kind == s.base.kind,
        s.model().min_zoom == s.base.min_zoom,
        s.model().max_zoom == s.base.max_zoom,
        s.model().textured == s.base.available_coords_cache@,
        s.model().pending == s.base.pending_coords@,
        s.model().failed == s.failed@,
        s.model().elevated == s.elevation@,
        s.model().elevation_pending == s.base.pending_elevation_coords@,
        s.model().max_concurrent == s.base.max_concurrent,
        s.model().max_elevation_concurrent == s.base.max_elevation_concurrent,
        s.model().has_elevation_source == s.has_elevation_source,
        s.model().pending_count == s.base.pending_coords.listing().len() as usize,
        s.model().elevation_pending_count
            == s.base.pending_elevation_coords.listing().len() as usize,
{
}

} // verus!
