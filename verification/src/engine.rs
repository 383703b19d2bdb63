//! The map engine: layer stack, viewport and redraw state.

use crate::ordering::{comes_before, is_stable_order, occurs, stable_order, stably_ordered};
use crate::scalar::{clamped_unit, Real32, Real64};
use vstd::prelude::*;

verus! {

/// How elevation is encoded in a terrain tile.
#[derive(Debug, Clone, Copy, PartialEq, Eq, Structural)]
pub enum TerrainEncoding {
    MapboxRgb,
    Terrarium,
}

/// How the map's surface is laid out for drawing.
#[derive(Debug, Clone, Copy, PartialEq, Eq, Structural)]
pub enum ProjectionMode {
    /// A plane centered on the view.
    Mercator,
    /// A sphere.
    Globe,
}

/// The kind of tile layer, determining which rendering pipeline to use.
#[derive(Debug, PartialEq, Eq)]
pub enum LayerKind {
    /// Flat imagery.
    Raster,
    /// Elevation rendered as displaced meshes, draped with the textures of `imagery_layer`.
    Terrain { imagery_layer: String, encoding: TerrainEncoding },
    /// 3D Tiles content.
    Tiles3d,
}

impl Default for LayerKind {
    fn default() -> (k: LayerKind)
        ensures
            k is Raster,
    {
        LayerKind::Raster
    }
}

impl Clone for LayerKind {
    fn clone(&self) -> (k: LayerKind)
        ensures
            k == *self,
    {
        match self {
            LayerKind::Raster => LayerKind::Raster,
            LayerKind::Terrain { imagery_layer, encoding } => LayerKind::Terrain {
                imagery_layer: imagery_layer.clone(),
                encoding: *encoding,
            },
            LayerKind::Tiles3d => LayerKind::Tiles3d,
        }
    }
}

/// Configuration for a single tile layer.
#[derive(Debug)]
pub struct LayerConfig {
    /// Layer name, the key for lookups.
    pub name: String,
    /// URL template of the tile source.
    pub tile_source_url: String,
    /// Opacity from 0 (transparent) to 1 (opaque).
    pub opacity: Real32,
    /// Whether this layer is rendered.
    pub visible: bool,
    /// Stacking order; lower values are drawn first.
    pub z_order: i32,
    /// Maximum number of cached tiles.
    pub max_cached_tiles: usize,
    /// Maximum number of concurrent tile loads.
    pub max_concurrent_loads: usize,
    /// Rendering kind.
    pub kind: LayerKind,
    /// Account token of a 3D Tiles source.
    pub cesium_ion_token: Option<String>,
    /// Asset id of a 3D Tiles source.
    pub cesium_ion_asset_id: Option<u64>,
    /// API key of a 3D Tiles source.
    pub google_api_key: Option<String>,
    /// Whether the terrain encoding was set explicitly, so that detection must not change it.
    pub terrain_encoding_explicit: bool,
}

/// Copy of an optional string.
fn copy_text(s: &Option<String>) -> (r: Option<String>)
    ensures
        r == *s,
{
    match s {
        Some(t) => Some(t.clone()),
        None => None,
    }
}

impl Clone for LayerConfig {
    fn clone(&self) -> (c: LayerConfig)
        ensures
            c == *self,
    {
        LayerConfig {
            name: self.name.clone(),
            tile_source_url: self.tile_source_url.clone(),
            opacity: self.opacity,
            visible: self.visible,
            z_order: self.z_order,
            max_cached_tiles: self.max_cached_tiles,
            max_concurrent_loads: self.max_concurrent_loads,
            kind: self.kind.clone(),
            cesium_ion_token: copy_text(&self.cesium_ion_token),
            cesium_ion_asset_id: self.cesium_ion_asset_id,
            google_api_key: copy_text(&self.google_api_key),
            terrain_encoding_explicit: self.terrain_encoding_explicit,
        }
    }
}

/// The default imagery source.
pub open spec fn default_url() -> Seq<char> {
    "https://tile.openstreetmap.org/{z}/{x}/{y}.png"@
}

/// `c` is a default layer: an opaque, visible raster layer with the given name, source and limits.
pub open spec fn plain_layer(
    c: LayerConfig,
    name: Seq<char>,
    url: Seq<char>,
    cached: usize,
    concurrent: usize,
) -> bool {
    &&& c.name@ == name
    &&& c.tile_source_url@ == url
    &&& c.opacity == Real32::one()
    &&& c.visible
    &&& c.z_order == 0
    &&& c.max_cached_tiles == cached
    &&& c.max_concurrent_loads == concurrent
    &&& c.kind is Raster
    &&& c.cesium_ion_token is None
    &&& c.cesium_ion_asset_id is None
    &&& c.google_api_key is None
    &&& !c.terrain_encoding_explicit
}

impl Default for LayerConfig {
    fn default() -> (c: LayerConfig)
        ensures
            plain_layer(c, "base"@, default_url(), 256, 6),
    {
        LayerConfig {
            name: "base".to_owned(),
            tile_source_url: "https://tile.openstreetmap.org/{z}/{x}/{y}.png".to_owned(),
            opacity: Real32::one(),
            visible: true,
            z_order: 0,
            max_cached_tiles: 256,
            max_concurrent_loads: 6,
            kind: LayerKind::Raster,
            cesium_ion_token: None,
            cesium_ion_asset_id: None,
            google_api_key: None,
            terrain_encoding_explicit: false,
        }
    }
}

/// A tile layer managed by the engine.
#[derive(Debug)]
pub struct TileLayer {
    pub config: LayerConfig,
}

impl Clone for TileLayer {
    fn clone(&self) -> (l: TileLayer)
        ensures
            l == *self,
    {
        TileLayer { config: self.config.clone() }
    }
}

/// Camera placement and surface size.
#[derive(Debug, Clone, Copy, PartialEq, Eq, Structural)]
pub struct Viewport {
    pub width: u32,
    pub height: u32,
    pub center_lat: Real64,
    pub center_lon: Real64,
    pub zoom: Real64,
    pub bearing: Real64,
    pub pitch: Real64,
    /// Extra border, as a fraction, within which tiles still count as visible.
    pub frustum_margin: Real64,
    /// Upper limit for the number of visible tiles.
    pub tile_budget: usize,
}

/// Limits of the camera.
#[derive(Debug, Clone, Copy, PartialEq, Eq, Structural)]
pub struct CameraLimits {
    pub min_zoom: Real64,
    pub max_zoom: Real64,
    pub max_pitch: Real64,
}

/// Configuration for the map engine.
#[derive(Debug)]
pub struct MapConfig {
    pub center_lat: Real64,
    pub center_lon: Real64,
    pub zoom: Real64,
    /// Name of the initial projection.
    pub projection: String,
    /// Source of the "base" layer that is created when `layers` is empty.
    pub tile_source_url: String,
    /// Concurrent loads of that layer.
    pub max_concurrent_loads: usize,
    /// Cached tiles of that layer.
    pub max_cached_tiles: usize,
    /// Explicit layer stack.
    pub layers: Vec<LayerConfig>,
    /// Terrain height exaggeration.
    pub terrain_exaggeration: Real64,
    /// Elevation source used when terrain is toggled on; empty for none.
    pub terrain_url: String,
    /// Encoding of that source.
    pub terrain_encoding: TerrainEncoding,
}

impl Default for MapConfig {
    fn default() -> (c: MapConfig)
        ensures
            c.center_lat == Real64::zero(),
            c.center_lon == Real64::zero(),
            c.zoom.bits == 0x4000_0000_0000_0000,
            c.projection@ == "Web Mercator"@,
            c.tile_source_url@ == default_url(),
            c.max_concurrent_loads == 6,
            c.max_cached_tiles == 256,
            c.layers@.len() == 0,
            c.terrain_exaggeration.bits == 0x3ff8_0000_0000_0000,
            c.terrain_url@.len() == 0,
            c.terrain_encoding is Terrarium,
    {
        MapConfig {
            center_lat: Real64::zero(),
            center_lon: Real64::zero(),
            zoom: Real64 { bits: 0x4000_0000_0000_0000 },
            projection: "Web Mercator".to_owned(),
            tile_source_url: "https://tile.openstreetmap.org/{z}/{x}/{y}.png".to_owned(),
            max_concurrent_loads: 6,
            max_cached_tiles: 256,
            layers: Vec::new(),
            terrain_exaggeration: Real64 { bits: 0x3ff8_0000_0000_0000 },
            terrain_url: String::new(),
            terrain_encoding: TerrainEncoding::Terrarium,
        }
    }
}

/// The engine's metadata: viewport, projections and layer stack.
pub struct MapEngine {
    pub viewport: Viewport,
    pub camera: CameraLimits,
    /// Names of the projections that can be selected.
    pub projections: Vec<String>,
    /// Layer stack, bottom to top.
    pub layers: Vec<TileLayer>,
    pub active_projection: String,
    /// Whether a redraw is pending.
    pub redraw: bool,
}

/// Sort keys of a layer stack.
pub open spec fn z_keys(layers: Seq<TileLayer>) -> Seq<u128> {
    layers.map_values(|l: TileLayer| (l.config.z_order + 0x8000_0000) as u128)
}

/// The stack is ordered bottom to top.
pub open spec fn z_sorted(layers: Seq<TileLayer>) -> bool {
    forall|i: int, j: int|
        0 <= i <= j < layers.len() ==> (#[trigger] layers[i]).config.z_order <= (
        #[trigger] layers[j]).config.z_order
}

/// Position of the first layer called `name`.
pub open spec fn layer_index(layers: Seq<TileLayer>, name: Seq<char>) -> Option<int>
    decreases layers.len(),
{
    if layers.len() == 0 {
        None
    } else {
        match layer_index(layers.drop_last(), name) {
            Some(i) => Some(i),
            None => if layers.last().config.name@ == name {
                Some(layers.len() - 1)
            } else {
                None
            },
        }
    }
}

/// The layer is rendered.
pub open spec fn is_shown() -> spec_fn(TileLayer) -> bool {
    |l: TileLayer| l.config.visible
}

/// The layer is not called `name`.
pub open spec fn is_other(name: Seq<char>) -> spec_fn(TileLayer) -> bool {
    |l: TileLayer| l.config.name@ != name
}

/// The layers that are rendered, bottom to top.
pub open spec fn shown(layers: Seq<TileLayer>) -> Seq<TileLayer> {
    layers.filter(is_shown())
}

/// The layers not called `name`.
pub open spec fn without(layers: Seq<TileLayer>, name: Seq<char>) -> Seq<TileLayer> {
    layers.filter(is_other(name))
}

/// `name` is one of the listed names.
pub open spec fn listed(names: Seq<String>, name: Seq<char>) -> bool {
    exists|i: int| 0 <= i < names.len() && (#[trigger] names[i])@ == name
}

/// The first layer called `name` is the one at `layer_index`; there is none where that is `None`.
pub proof fn law_layer_index(layers: Seq<TileLayer>, name: Seq<char>)
    ensures
        match layer_index(layers, name) {
            Some(i) => 0 <= i < layers.len() && layers[i].config.name@ == name && forall|j: int|
                0 <= j < i ==> (#[trigger] layers[j]).config.name@ != name,
            None => forall|j: int|
                0 <= j < layers.len() ==> (#[trigger] layers[j]).config.name@ != name,
        },
    decreases layers.len(),
{
    if layers.len() > 0 {
        let init = layers.drop_last();
        law_layer_index(init, name);
        assert forall|j: int| 0 <= j < init.len() implies layers[j] == #[trigger] init[j] by {}
        match layer_index(init, name) {
            Some(i) => {
                assert(layers[i] == init[i]);
                assert forall|j: int| 0 <= j < i implies (#[trigger] layers[j]).config.name@
                    != name by {
                    assert(layers[j] == init[j]);
                }
            },
            None => {
                assert forall|j: int| 0 <= j < layers.len() - 1 implies (
                #[trigger] layers[j]).config.name@ != name by {
                    assert(layers[j] == init[j]);
                }
            },
        }
    }
}

/// Position of the first layer called `name` in a stack.
fn find_layer(layers: &Vec<TileLayer>, name: &String) -> (r: Option<usize>)
    ensures
        match r {
            Some(i) => layer_index(layers@, name@) == Some(i as int) && i < layers@.len(),
            None => layer_index(layers@, name@) is None,
        },
{
    let mut i: usize = 0;
    while i < layers.len()
        invariant
            i <= layers@.len(),
            forall|j: int| 0 <= j < i ==> (#[trigger] layers@[j]).config.name@ != name@,
        decreases layers@.len() - i,
    {
        if layers[i].config.name == *name {
            proof {
                law_layer_index(layers@, name@);
            }
            return Some(i);
        }
        i = i + 1;
    }
    proof {
        law_layer_index(layers@, name@);
    }
    None
}

/// The stack rearranged by stacking order, ties in their present order.
fn sorted_layers(layers: &Vec<TileLayer>) -> (r: Vec<TileLayer>)
    ensures
        stably_ordered(layers@, z_keys(layers@), r@),
{
    let mut keys: Vec<u128> = Vec::new();
    let mut i: usize = 0;
    while i < layers.len()
        invariant
            i <= layers@.len(),
            keys@ == z_keys(layers@).take(i as int),
        decreases layers@.len() - i,
    {
        let z: i64 = layers[i].config.z_order as i64 + 0x8000_0000i64;
        keys.push(z as u128);
        assert(keys@ =~= z_keys(layers@).take(i + 1));
        i = i + 1;
    }
    assert(keys@ =~= z_keys(layers@));
    let p = stable_order(&keys);
    let mut r: Vec<TileLayer> = Vec::new();
    let ghost target = p@.map_values(|i: usize| layers@[i as int]);
    let mut k: usize = 0;
    while k < p.len()
        invariant
            k <= p@.len(),
            p@.len() == layers@.len(),
            forall|i: int| 0 <= i < p@.len() ==> 0 <= #[trigger] p@[i] < layers@.len(),
            target == p@.map_values(|i: usize| layers@[i as int]),
            r@ == target.take(k as int),
        decreases p@.len() - k,
    {
        r.push(layers[p[k]].clone());
        assert(r@ =~= target.take(k + 1));
        k = k + 1;
    }
    assert(r@ =~= target);
    r
}

impl MapEngine {
    /// An engine with the given configuration. `viewport` and `camera` are the surface's
    /// initial placement and limits; center and zoom come from the configuration. Without
    /// configured layers a "base" layer is made from the configured source.
    pub fn new(
        config: MapConfig,
        viewport: Viewport,
        camera: CameraLimits,
        projections: Vec<String>,
    ) -> (e: MapEngine)
        ensures
            e.viewport == (Viewport {
                center_lat: config.center_lat,
                center_lon: config.center_lon,
                zoom: config.zoom,
                ..viewport
            }),
            e.camera == camera,
            e.projections == projections,
            e.active_projection == config.projection,
            e.redraw,
            config.layers@.len() == 0 ==> e.layers@.len() == 1 && plain_layer(
                e.layers@[0].config,
                "base"@,
                config.tile_source_url@,
                config.max_cached_tiles,
                config.max_concurrent_loads,
            ),
            config.layers@.len() > 0 ==> ({
                let given = config.layers@.map_values(|c: LayerConfig| TileLayer { config: c });
                stably_ordered(given, z_keys(given), e.layers@)
            }),
    {
        let mut placed = viewport;
        placed.center_lat = config.center_lat;
        placed.center_lon = config.center_lon;
        placed.zoom = config.zoom;
        let layers: Vec<TileLayer> = if config.layers.len() == 0 {
            let mut only: Vec<TileLayer> = Vec::new();
            let mut base = LayerConfig::default();
            base.tile_source_url = config.tile_source_url.clone();
            base.max_cached_tiles = config.max_cached_tiles;
            base.max_concurrent_loads = config.max_concurrent_loads;
            only.push(TileLayer { config: base });
            only
        } else {
            let mut given: Vec<TileLayer> = Vec::new();
            let ghost target = config.layers@.map_values(
                |c: LayerConfig| TileLayer { config: c },
            );
            let mut i: usize = 0;
            while i < config.layers.len()
                invariant
                    i <= config.layers@.len(),
                    target == config.layers@.map_values(|c: LayerConfig| TileLayer { config: c }),
                    given@ == target.take(i as int),
                decreases config.layers@.len() - i,
            {
                given.push(TileLayer { config: config.layers[i].clone() });
                assert(given@ =~= target.take(i + 1));
                i = i + 1;
            }
            assert(given@ =~= target);
            sorted_layers(&given)
        };
        MapEngine {
            viewport: placed,
            camera,
            projections,
            layers,
            active_projection: config.projection,
            redraw: true,
        }
    }

    /// Resize the viewport.
    pub fn resize(&mut self, width: u32, height: u32)
        ensures
            *final(self) == (MapEngine {
                viewport: Viewport { width, height, ..old(self).viewport },
                redraw: true,
                ..*old(self)
            }),
    {
        self.viewport.width = width;
        self.viewport.height = height;
        self.redraw = true;
    }

    /// Place the camera: pan, zoom, pitch and rotation all end here.
    pub fn set_viewport(&mut self, viewport: Viewport)
        ensures
            *final(self) == (MapEngine { viewport, redraw: true, ..*old(self) }),
    {
        self.viewport = viewport;
        self.redraw = true;
    }

    /// Select a projection by name. Unknown names change nothing.
    pub fn set_projection(&mut self, name: &str) -> (found: bool)
        ensures
            found == listed(old(self).projections@, name@),
            !found ==> *final(self) == *old(self),
            found ==> final(self).active_projection@ == name@ && *final(self) == (MapEngine {
                active_projection: final(self).active_projection,
                redraw: true,
                ..*old(self)
            }),
    {
        let wanted: String = name.to_owned();
        let mut i: usize = 0;
        while i < self.projections.len()
            invariant
                i <= self.projections@.len(),
                *self == *old(self),
                wanted@ == name@,
                forall|j: int| 0 <= j < i ==> (#[trigger] self.projections@[j])@ != name@,
            decreases self.projections@.len() - i,
        {
            if self.projections[i] == wanted {
                self.active_projection = wanted;
                self.redraw = true;
                return true;
            }
            i = i + 1;
        }
        false
    }

    /// Whether the active projection is one of the known ones.
    pub fn has_active_projection(&self) -> (b: bool)
        ensures
            b == listed(self.projections@, self.active_projection@),
    {
        let mut i: usize = 0;
        while i < self.projections.len()
            invariant
                i <= self.projections@.len(),
                forall|j: int|
                    0 <= j < i ==> (#[trigger] self.projections@[j])@ != self.active_projection@,
            decreases self.projections@.len() - i,
        {
            if self.projections[i] == self.active_projection {
                return true;
            }
            i = i + 1;
        }
        false
    }

    pub fn needs_redraw(&self) -> (b: bool)
        ensures
            b == self.redraw,
    {
        self.redraw
    }

    /// Mark the frame as rendered.
    pub fn frame_rendered(&mut self)
        ensures
            *final(self) == (MapEngine { redraw: false, ..*old(self) }),
    {
        self.redraw = false;
    }

    pub fn request_redraw(&mut self)
        ensures
            *final(self) == (MapEngine { redraw: true, ..*old(self) }),
    {
        self.redraw = true;
    }

    /// Add a layer and restore the stacking order. Returns the position of the first layer
    /// that carries the new layer's name.
    pub fn add_layer(&mut self, config: LayerConfig) -> (at: usize)
        ensures
            ({
                let grown = old(self).layers@.push(TileLayer { config });
                stably_ordered(grown, z_keys(grown), final(self).layers@)
            }),
            layer_index(final(self).layers@, config.name@) == Some(at as int),
            *final(self) == (MapEngine {
                layers: final(self).layers,
                redraw: true,
                ..*old(self)
            }),
    {
        let name: String = config.name.clone();
        let ghost grown = self.layers@.push(TileLayer { config });
        self.layers.push(TileLayer { config });
        let sorted = sorted_layers(&self.layers);
        self.layers = sorted;
        self.redraw = true;
        proof {
            lemma_sorted_keeps_last(grown, self.layers@);
            law_layer_index(self.layers@, name@);
        }
        match find_layer(&self.layers, &name) {
            Some(i) => i,
            None => 0,
        }
    }

    /// Remove every layer called `name`. Tells whether there was one.
    pub fn remove_layer(&mut self, name: &str) -> (removed: bool)
        ensures
            final(self).layers@ == without(old(self).layers@, name@),
            removed == (layer_index(old(self).layers@, name@) is Some),
            *final(self) == (MapEngine {
                layers: final(self).layers,
                redraw: removed || old(self).redraw,
                ..*old(self)
            }),
    {
        let wanted: String = name.to_owned();
        let ghost stack = self.layers@;
        let ghost keep = is_other(name@);
        let mut kept: Vec<TileLayer> = Vec::new();
        let mut removed = false;
        let mut i: usize = 0;
        while i < self.layers.len()
            invariant
                i <= self.layers@.len(),
                *self == *old(self),
                stack == self.layers@,
                wanted@ == name@,
                keep == is_other(name@),
                kept@ == stack.take(i as int).filter(keep),
                removed == exists|j: int| 0 <= j < i && (#[trigger] stack[j]).config.name@ == name@,
            decreases self.layers@.len() - i,
        {
            proof {
                assert(stack.take(i + 1) =~= stack.take(i as int).push(stack[i as int]));
                stack.take(i as int).lemma_filter_push(stack[i as int], keep);
            }
            if self.layers[i].config.name == wanted {
                removed = true;
                assert(stack[i as int].config.name@ == name@);
            } else {
                kept.push(self.layers[i].clone());
            }
            i = i + 1;
        }
        assert(stack.take(stack.len() as int) =~= stack);
        proof {
            law_layer_index(stack, name@);
        }
        self.layers = kept;
        if removed {
            self.redraw = true;
        }
        removed
    }

    /// The first layer called `name`.
    pub fn get_layer(&self, name: &str) -> (r: Option<&TileLayer>)
        ensures
            match layer_index(self.layers@, name@) {
                Some(i) => r == Some(&self.layers@[i]),
                None => r is None,
            },
    {
        let wanted: String = name.to_owned();
        match find_layer(&self.layers, &wanted) {
            Some(i) => Some(&self.layers[i]),
            None => None,
        }
    }

    /// The first layer called `name`, for changes in place.
    pub fn get_layer_mut(&mut self, name: &str) -> (r: Option<&mut TileLayer>)
        ensures
            r is Some == (layer_index(old(self).layers@, name@) is Some),
            r is None ==> *final(self) == *old(self),
            r is Some ==> ({
                let i = layer_index(old(self).layers@, name@).unwrap();
                &&& *r.unwrap() == old(self).layers@[i]
                &&& final(self).layers@ == old(self).layers@.update(i, *final(r.unwrap()))
                &&& *final(self) == (MapEngine { layers: final(self).layers, ..*old(self) })
            }),
    {
        let wanted: String = name.to_owned();
        match find_layer(&self.layers, &wanted) {
            Some(i) => Some(&mut self.layers[i]),
            None => None,
        }
    }

    /// Set the opacity of the first layer called `name`, limited to `0..=1`.
    pub fn set_layer_opacity(&mut self, name: &str, opacity: Real32) -> (found: bool)
        ensures
            found == (layer_index(old(self).layers@, name@) is Some),
            !found ==> *final(self) == *old(self),
            found ==> ({
                let i = layer_index(old(self).layers@, name@).unwrap();
                let before = old(self).layers@[i].config;
                final(self).layers@ == old(self).layers@.update(
                    i,
                    TileLayer { config: LayerConfig { opacity: clamped_unit(opacity), ..before } },
                )
            }),
            found ==> *final(self) == (MapEngine {
                layers: final(self).layers,
                redraw: true,
                ..*old(self)
            }),
    {
        let wanted: String = name.to_owned();
        match find_layer(&self.layers, &wanted) {
            Some(i) => {
                let mut config = self.layers[i].config.clone();
                config.opacity = opacity.clamp_unit();
                self.layers.set(i, TileLayer { config });
                self.redraw = true;
                true
            },
            None => false,
        }
    }

    /// Show or hide the first layer called `name`.
    pub fn set_layer_visible(&mut self, name: &str, visible: bool) -> (found: bool)
        ensures
            found == (layer_index(old(self).layers@, name@) is Some),
            !found ==> *final(self) == *old(self),
            found ==> ({
                let i = layer_index(old(self).layers@, name@).unwrap();
                let before = old(self).layers@[i].config;
                final(self).layers@ == old(self).layers@.update(
                    i,
                    TileLayer { config: LayerConfig { visible, ..before } },
                )
            }),
            found ==> *final(self) == (MapEngine {
                layers: final(self).layers,
                redraw: true,
                ..*old(self)
            }),
    {
        let wanted: String = name.to_owned();
        match find_layer(&self.layers, &wanted) {
            Some(i) => {
                let mut config = self.layers[i].config.clone();
                config.visible = visible;
                self.layers.set(i, TileLayer { config });
                self.redraw = true;
                true
            },
            None => false,
        }
    }

    /// The visible layers, bottom to top.
    pub fn visible_layers(&self) -> (r: Vec<TileLayer>)
        ensures
            r@ == shown(self.layers@),
    {
        let ghost stack = self.layers@;
        let ghost keep = is_shown();
        let mut kept: Vec<TileLayer> = Vec::new();
        let mut i: usize = 0;
        while i < self.layers.len()
            invariant
                i <= self.layers@.len(),
                stack == self.layers@,
                keep == is_shown(),
                kept@ == stack.take(i as int).filter(keep),
            decreases self.layers@.len() - i,
        {
            proof {
                assert(stack.take(i + 1) =~= stack.take(i as int).push(stack[i as int]));
                stack.take(i as int).lemma_filter_push(stack[i as int], keep);
            }
            if self.layers[i].config.visible {
                kept.push(self.layers[i].clone());
            }
            i = i + 1;
        }
        assert(stack.take(stack.len() as int) =~= stack);
        kept
    }

    /// Total number of layers.
    pub fn layer_count(&self) -> (n: usize)
        ensures
            n == self.layers@.len(),
    {
        self.layers.len()
    }
}

/// A stack put in stacking order is ordered bottom to top, with nothing lost or added.
pub proof fn law_sorted_stack(given: Seq<TileLayer>, sorted: Seq<TileLayer>)
    requires
        stably_ordered(given, z_keys(given), sorted),
    ensures
        z_sorted(sorted),
        sorted.to_multiset() == given.to_multiset(),
{
    crate::ordering::law_stably_ordered(given, z_keys(given), sorted);
    let p = choose|p: Seq<usize>|
        {
            &&& #[trigger] is_stable_order(z_keys(given), p)
            &&& sorted == p.map_values(|i: usize| given[i as int])
            &&& forall|i: int, j: int|
                0 <= i <= j < p.len() ==> z_keys(given)[#[trigger] p[i] as int] <= z_keys(
                    given,
                )[#[trigger] p[j] as int]
        };
    assert forall|i: int, j: int| 0 <= i <= j < sorted.len() implies (
    #[trigger] sorted[i]).config.z_order <= (#[trigger] sorted[j]).config.z_order by {
        assert(z_keys(given)[p[i] as int] <= z_keys(given)[p[j] as int]);
    }
}

/// Adding to an ordered stack puts the new layer above every layer of the same or a lower
/// stacking order and below every higher one, and moves nothing else.
pub proof fn law_add_inserts(
    layers: Seq<TileLayer>,
    added: TileLayer,
    at: int,
    result: Seq<TileLayer>,
)
    requires
        z_sorted(layers),
        0 <= at <= layers.len() < usize::MAX,
        forall|i: int| 0 <= i < at ==> (#[trigger] layers[i]).config.z_order <= added.config.z_order,
        forall|i: int| at <= i < layers.len() ==> (#[trigger] layers[i]).config.z_order
            > added.config.z_order,
        stably_ordered(layers.push(added), z_keys(layers.push(added)), result),
    ensures
        result == layers.insert(at, added),
{
    let grown = layers.push(added);
    let n = layers.len() as int;
    let keys = z_keys(grown);
    let q: Seq<usize> = Seq::new(
        grown.len(),
        |i: int|
            if i < at {
                i as usize
            } else if i == at {
                n as usize
            } else {
                (i - 1) as usize
            },
    );
    assert(is_stable_order(keys, q)) by {
        assert forall|i: int, j: int| 0 <= i < j < q.len() implies comes_before(
            keys,
            #[trigger] q[i] as int,
            #[trigger] q[j] as int,
        ) by {
            let a = grown[q[i] as int];
            let b = grown[q[j] as int];
            assert(keys[q[i] as int] == a.config.z_order + 0x8000_0000);
            assert(keys[q[j] as int] == b.config.z_order + 0x8000_0000);
            if i == at {
                assert(layers[j - 1].config.z_order > added.config.z_order);
            } else if j == at {
                assert(layers[i].config.z_order <= added.config.z_order);
            } else {
                let i2 = if i < at { i } else { i - 1 };
                let j2 = if j < at { j } else { j - 1 };
                assert(layers[i2].config.z_order <= layers[j2].config.z_order);
            }
        }
        assert forall|v: int| 0 <= v < keys.len() implies #[trigger] occurs(q, v) by {
            if v < at {
                assert(q[v] == v);
            } else if v == n {
                assert(q[at] == v);
            } else {
                assert(q[v + 1] == v);
            }
        }
    }
    let p = choose|p: Seq<usize>| #[trigger]
        is_stable_order(keys, p) && result == p.map_values(|i: usize| grown[i as int]);
    crate::ordering::law_stable_order_unique(keys, p, q);
    assert(result =~= layers.insert(at, added));
}

/// A stack that is already ordered stays as it is when put in order again.
pub proof fn law_sorting_ordered_stack(layers: Seq<TileLayer>, result: Seq<TileLayer>)
    requires
        z_sorted(layers),
        layers.len() <= usize::MAX,
        stably_ordered(layers, z_keys(layers), result),
    ensures
        result == layers,
{
    let keys = z_keys(layers);
    let q: Seq<usize> = Seq::new(layers.len(), |i: int| i as usize);
    assert(is_stable_order(keys, q)) by {
        assert forall|i: int, j: int| 0 <= i < j < q.len() implies comes_before(
            keys,
            #[trigger] q[i] as int,
            #[trigger] q[j] as int,
        ) by {
            assert(layers[i].config.z_order <= layers[j].config.z_order);
        }
        assert forall|v: int| 0 <= v < keys.len() implies #[trigger] occurs(q, v) by {
            assert(q[v] == v);
        }
    }
    let p = choose|p: Seq<usize>| #[trigger]
        is_stable_order(keys, p) && result == p.map_values(|i: usize| layers[i as int]);
    crate::ordering::law_stable_order_unique(keys, p, q);
    assert(result =~= layers);
}

/// Removing a name leaves no layer of that name, every other name as present as before, and
/// an ordered stack ordered.
pub proof fn law_remove(layers: Seq<TileLayer>, name: Seq<char>, other: Seq<char>)
    ensures
        layer_index(without(layers, name), name) is None,
        other != name ==> (layer_index(without(layers, name), other) is Some) == (layer_index(
            layers,
            other,
        ) is Some),
        z_sorted(layers) ==> z_sorted(without(layers, name)),
    decreases layers.len(),
{
    let keep = is_other(name);
    reveal(Seq::filter);
    if layers.len() == 0 {
        assert(without(layers, name) =~= layers);
    } else {
        let init = layers.drop_last();
        law_remove(init, name, other);
        let kept = without(init, name);
        assert(layers =~= init.push(layers.last()));
        init.lemma_filter_push(layers.last(), keep);
        assert forall|i: int| 0 <= i < kept.len() implies init.contains(#[trigger] kept[i]) by {
            assert(init.filter(keep).contains(kept[i]));
            init.lemma_filter_contains_rev(keep, kept[i]);
        }
        if keep(layers.last()) {
            let grown = kept.push(layers.last());
            assert(without(layers, name) == grown);
            assert(grown.drop_last() =~= kept);
            if z_sorted(layers) {
                assert forall|i: int, j: int| 0 <= i <= j < init.len() implies (
                #[trigger] init[i]).config.z_order <= (#[trigger] init[j]).config.z_order by {
                    assert(layers[i].config.z_order <= layers[j].config.z_order);
                }
                assert forall|i: int, j: int| 0 <= i <= j < grown.len() implies (
                #[trigger] grown[i]).config.z_order <= (#[trigger] grown[j]).config.z_order by {
                    if j < kept.len() {
                        assert(kept[i].config.z_order <= kept[j].config.z_order);
                    } else if i < kept.len() {
                        assert(init.contains(kept[i]));
                        let m = choose|m: int| 0 <= m < init.len() && init[m] == kept[i];
                        assert(layers[m] == init[m]);
                        assert(layers[m].config.z_order <= layers[layers.len() - 1].config.z_order);
                    }
                }
            }
        } else {
            assert(without(layers, name) == kept);
            if z_sorted(layers) {
                assert forall|i: int, j: int| 0 <= i <= j < init.len() implies (
                #[trigger] init[i]).config.z_order <= (#[trigger] init[j]).config.z_order by {
                    assert(layers[i].config.z_order <= layers[j].config.z_order);
                }
            }
        }
    }
}

/// Names are keys: where no layer had the name of an added layer, the position reported for that
/// name is that of the added layer.
pub proof fn law_added_position(stack: Seq<TileLayer>, added: TileLayer, result: Seq<TileLayer>)
    requires
        layer_index(stack, added.config.name@) is None,
        ({
            let grown = stack.push(added);
            stably_ordered(grown, z_keys(grown), result)
        }),
    ensures
        layer_index(result, added.config.name@) matches Some(at) && result[at] == added,
{
    let name = added.config.name@;
    let grown = stack.push(added);
    lemma_sorted_keeps_last(grown, result);
    law_layer_index(stack, name);
    law_layer_index(result, name);
    match layer_index(result, name) {
        Some(at) => {
            let p = choose|p: Seq<usize>| #[trigger]
                is_stable_order(z_keys(grown), p) && result == p.map_values(
                    |i: usize| grown[i as int],
                );
            let from = p[at] as int;
            assert(result[at] == grown[from]);
            if from < stack.len() {
                assert(stack[from].config.name@ != name);
            }
        },
        None => {
            let i = choose|i: int| 0 <= i < result.len() && #[trigger] result[i] == grown.last();
            assert(result[i].config.name@ == name);
        },
    }
}

/// The element appended last is still somewhere in the reordered stack.
proof fn lemma_sorted_keeps_last(grown: Seq<TileLayer>, sorted: Seq<TileLayer>)
    requires
        grown.len() > 0,
        stably_ordered(grown, z_keys(grown), sorted),
    ensures
        exists|i: int| 0 <= i < sorted.len() && #[trigger] sorted[i] == grown.last(),
{
    let p = choose|p: Seq<usize>| #[trigger]
        is_stable_order(z_keys(grown), p) && sorted == p.map_values(
            |i: usize| grown[i as int],
        );
    assert(occurs(p, grown.len() - 1));
    let i = choose|i: int| 0 <= i < p.len() && p[i] == grown.len() - 1;
    assert(sorted[i] == grown.last());
}

/// The layers that are rendered are those marked visible, in the order of the stack.
pub proof fn law_shown(layers: Seq<TileLayer>) -> (at: Seq<int>)
    ensures
        at.len() == shown(layers).len(),
        forall|k: int|
            0 <= k < at.len() ==> 0 <= #[trigger] at[k] < layers.len() && shown(layers)[k]
                == layers[at[k]] && layers[at[k]].config.visible,
        forall|a: int, b: int| 0 <= a < b < at.len() ==> #[trigger] at[a] < #[trigger] at[b],
        forall|i: int|
            0 <= i < layers.len() && (#[trigger] layers[i]).config.visible ==> at.contains(i),
    decreases layers.len(),
{
    reveal(Seq::filter);
    if layers.len() == 0 {
        Seq::empty()
    } else {
        let init = layers.drop_last();
        let rest = law_shown(init);
        if layers.last().config.visible {
            let at = rest.push(layers.len() - 1);
            assert forall|k: int| 0 <= k < at.len() implies 0 <= #[trigger] at[k] < layers.len()
                && shown(layers)[k] == layers[at[k]] && layers[at[k]].config.visible by {
                if k < rest.len() {
                    assert(at[k] == rest[k]);
                    assert(init[rest[k]] == layers[rest[k]]);
                }
            }
            assert forall|i: int|
                0 <= i < layers.len() && (#[trigger] layers[i]).config.visible implies at.contains(
                i,
            ) by {
                if i < init.len() {
                    assert(init[i] == layers[i]);
                    let k = rest.index_of(i);
                    assert(at[k] == i);
                } else {
                    assert(at[rest.len() as int] == i);
                }
            }
            at
        } else {
            assert forall|k: int| 0 <= k < rest.len() implies 0 <= #[trigger] rest[k] < layers.len()
                && shown(layers)[k] == layers[rest[k]] && layers[rest[k]].config.visible by {
                assert(init[rest[k]] == layers[rest[k]]);
            }
            assert forall|i: int|
                0 <= i < layers.len() && (#[trigger] layers[i]).config.visible implies rest.contains(
                i,
            ) by {
                assert(init[i] == layers[i]);
            }
            rest
        }
    }
}

/// Taking out the layers of a name leaves exactly the others.
pub proof fn law_without(layers: Seq<TileLayer>, name: Seq<char>, l: TileLayer)
    ensures
        without(layers, name).contains(l) <==> layers.contains(l) && l.config.name@ != name,
        without(layers, name).len() <= layers.len(),
    decreases layers.len(),
{
    reveal(Seq::filter);
    if layers.len() > 0 {
        let init = layers.drop_last();
        law_without(init, name, l);
        assert(layers =~= init.push(layers.last()));
        lemma_push_member(init, layers.last(), l);
        if layers.last().config.name@ != name {
            assert(without(layers, name) =~= without(init, name).push(layers.last()));
            lemma_push_member(without(init, name), layers.last(), l);
        } else {
            assert(without(layers, name) =~= without(init, name));
        }
    }
}

proof fn lemma_push_member(s: Seq<TileLayer>, last: TileLayer, l: TileLayer)
    ensures
        s.push(last).contains(l) <==> s.contains(l) || l == last,
{
    let t = s.push(last);
    if t.contains(l) {
        let i = choose|i: int| 0 <= i < t.len() && t[i] == l;
        if i < s.len() {
            assert(s[i] == l);
        }
    }
    if s.contains(l) {
        let i = choose|i: int| 0 <= i < s.len() && s[i] == l;
        assert(t[i] == l);
    }
    assert(t[s.len() as int] == last);
}

/// A plain layer is a raster layer that is shown in full at the bottom of the stack and needs
/// no credentials.
pub proof fn law_plain_layer(
    c: LayerConfig,
    name: Seq<char>,
    url: Seq<char>,
    cached: usize,
    concurrent: usize,
)
    requires
        plain_layer(c, name, url, cached, concurrent),
    ensures
        c.name@ == name,
        c.tile_source_url@ == url,
        c.opacity.bits == 0x3f80_0000,
        c.visible,
        c.z_order == 0,
        c.max_cached_tiles == cached,
        c.max_concurrent_loads == concurrent,
        c.kind is Raster,
        c.cesium_ion_token is None,
        c.cesium_ion_asset_id is None,
        c.google_api_key is None,
        !c.terrain_encoding_explicit,
{
}

} // verus!
