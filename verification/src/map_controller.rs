//! Unified map controller: the high-level API for all platforms.
//!
//! [`MapController`] joins the engine, the animation state and the crossfade tracking. The
//! platform performs what the controller decides: it loads tiles, keeps the texture cache, and
//! computes with real numbers. Numbers that only travel through are carried as they are;
//! differences and magnitudes that decide something are handed in.

use crate::collections::{TileMap, TileSet};
use crate::engine::{
    layer_index, LayerConfig, LayerKind, MapConfig, MapEngine, TerrainEncoding, TileLayer, Viewport,
    CameraLimits, listed, plain_layer, without, z_keys,
};
use crate::interaction::animation::{
    fade_elapsed, limits_ordered, tickable, ticked, zoom_epsilon, AnimationController,
    CameraAnimation, DragSample, EasingMode, Release, ScreenPoint, TickStep, default_interaction,
    recent, release_of, still, younger, FADE_LINGER,
};
use crate::interaction::crossfade::{departed, is_visible, update_tile_visibility};
use crate::ordering::stably_ordered;
use crate::scalar::{clamped_between, clamped_unit, Real32, Real64};
use crate::text::{sort_names, sorted_texts, texts};
use crate::tile::{TileCoord, VisibleTile};
use vstd::prelude::*;

verus! {

/// Shortest camera transition: 10 ms.
pub const MIN_TRANSITION: i64 = 10_000;

/// Duration of a flight when none is given: 2 s.
pub const FLY_DURATION: i64 = 2_000_000;

/// Duration of a linear transition when none is given: 1 s.
pub const EASE_DURATION: i64 = 1_000_000;

/// What happened to the view.
#[derive(Debug, Clone, Copy, PartialEq, Eq, Structural)]
pub enum MapEvent {
    Move { lat: Real64, lon: Real64 },
    Zoom { zoom: Real64 },
    Pitch { pitch: Real64 },
    Bearing { bearing: Real64 },
    MoveEnd,
    ZoomEnd,
    Click { lat: Real64, lon: Real64, x: Real64, y: Real64 },
}

impl MapEvent {
    /// What listeners call the event.
    pub open spec fn label(self) -> Seq<char> {
        match self {
            MapEvent::Move { .. } => "move"@,
            MapEvent::Zoom { .. } => "zoom"@,
            MapEvent::Pitch { .. } => "pitch"@,
            MapEvent::Bearing { .. } => "bearing"@,
            MapEvent::MoveEnd => "moveend"@,
            MapEvent::ZoomEnd => "zoomend"@,
            MapEvent::Click { .. } => "click"@,
        }
    }

    /// Event name for dispatch.
    pub fn name(&self) -> (s: &'static str)
        ensures
            s@ == self.label(),
    {
        match self {
            MapEvent::Move { .. } => "move",
            MapEvent::Zoom { .. } => "zoom",
            MapEvent::Pitch { .. } => "pitch",
            MapEvent::Bearing { .. } => "bearing",
            MapEvent::MoveEnd => "moveend",
            MapEvent::ZoomEnd => "zoomend",
            MapEvent::Click { .. } => "click",
        }
    }
}

/// Read-only layer metadata.
#[derive(Debug)]
pub struct LayerInfo {
    pub name: String,
    pub url: String,
    pub opacity: Real32,
    pub visible: bool,
    pub z_order: i32,
    pub kind: String,
}

impl Clone for LayerInfo {
    fn clone(&self) -> (c: LayerInfo)
        ensures
            c == *self,
    {
        LayerInfo {
            name: self.name.clone(),
            url: self.url.clone(),
            opacity: self.opacity,
            visible: self.visible,
            z_order: self.z_order,
            kind: self.kind.clone(),
        }
    }
}

/// What a layer kind is called.
pub open spec fn kind_label(k: LayerKind) -> Seq<char> {
    match k {
        LayerKind::Raster => "raster"@,
        LayerKind::Terrain { .. } => "terrain"@,
        LayerKind::Tiles3d => "3dtiles"@,
    }
}

/// Terrain rendering configuration. Terrain is a property of the map, not a layer.
#[derive(Debug)]
pub struct TerrainState {
    /// Elevation tile URL template.
    pub url: String,
    /// Elevation encoding.
    pub encoding: TerrainEncoding,
    /// The raster layer whose imagery is draped onto the terrain.
    pub imagery_layer_name: String,
}

/// Where the camera stands.
#[derive(Debug, Clone, Copy, PartialEq, Eq, Structural)]
pub struct CameraPose {
    pub lat: Real64,
    pub lon: Real64,
    pub zoom: Real64,
    pub bearing: Real64,
    pub pitch: Real64,
}

/// How far the camera moved since the last frame: the magnitude of each difference.
#[derive(Debug, Clone, Copy, PartialEq, Eq, Structural)]
pub struct Motion {
    pub lat: Real64,
    pub lon: Real64,
    pub zoom: Real64,
    pub bearing: Real64,
    pub pitch: Real64,
}

/// The bearings that a turn can start from: `delta` is the target less the current bearing,
/// `raised` the current bearing plus a full turn and `lowered` the current one less a full turn.
#[derive(Debug, Clone, Copy, PartialEq, Eq, Structural)]
pub struct BearingPath {
    pub delta: Real64,
    pub raised: Real64,
    pub lowered: Real64,
}

/// Position changes above this count as movement: 1e-9.
pub open spec fn move_epsilon() -> Real64 {
    Real64 { bits: 0x3e11_2e0b_e826_d695 }
}

/// Changes of zoom, bearing and pitch above this count: 1e-6.
pub open spec fn turn_epsilon() -> Real64 {
    Real64 { bits: 0x3eb0_c6f7_a0b5_ed8d }
}

/// Border within which tiles count as visible on a flat map: 0.05.
pub open spec fn flat_margin() -> Real64 {
    Real64 { bits: 0x3fa9_9999_9999_999a }
}

/// Wider border for terrain, whose displacement can shift tiles into view: 0.15.
pub open spec fn terrain_margin() -> Real64 {
    Real64 { bits: 0x3fc3_3333_3333_3333 }
}

/// Where a turn starts so that it takes the shorter way.
pub open spec fn turn_start(current: Real64, path: BearingPath) -> Real64 {
    if (Real64 { bits: 0x4066_8000_0000_0000 }).below(path.delta) {
        path.raised
    } else if path.delta.below(Real64 { bits: 0xc066_8000_0000_0000 }) {
        path.lowered
    } else {
        current
    }
}

impl Motion {
    /// The center moved.
    pub open spec fn moves(self) -> bool {
        move_epsilon().below(self.lat) || move_epsilon().below(self.lon)
    }

    /// The zoom changed.
    pub open spec fn zooms(self) -> bool {
        turn_epsilon().below(self.zoom)
    }
}

/// The queue, with the event behind it if that applies.
pub open spec fn noted(queue: Seq<MapEvent>, applies: bool, e: MapEvent) -> Seq<MapEvent> {
    if applies {
        queue.push(e)
    } else {
        queue
    }
}

/// The queue after a frame in which the camera came to `pose` by `motion`, following a frame in
/// which it was moving or zooming.
pub open spec fn queue_after(
    queue: Seq<MapEvent>,
    pose: CameraPose,
    motion: Motion,
    was_moving: bool,
    was_zooming: bool,
) -> Seq<MapEvent> {
    let q1 = noted(queue, motion.moves(), MapEvent::Move { lat: pose.lat, lon: pose.lon });
    let q2 = noted(q1, motion.zooms(), MapEvent::Zoom { zoom: pose.zoom });
    let q3 = noted(
        q2,
        turn_epsilon().below(motion.bearing),
        MapEvent::Bearing { bearing: pose.bearing },
    );
    let q4 = noted(
        q3,
        turn_epsilon().below(motion.pitch),
        MapEvent::Pitch { pitch: pose.pitch },
    );
    let q5 = noted(q4, was_moving && !motion.moves(), MapEvent::MoveEnd);
    noted(q5, was_zooming && !motion.zooms(), MapEvent::ZoomEnd)
}

/// The events of such a frame.
pub open spec fn frame_events(
    pose: CameraPose,
    motion: Motion,
    was_moving: bool,
    was_zooming: bool,
) -> Seq<MapEvent> {
    queue_after(Seq::empty(), pose, motion, was_moving, was_zooming)
}

/// The pose of a viewport.
pub open spec fn pose_of(v: Viewport) -> CameraPose {
    CameraPose {
        lat: v.center_lat,
        lon: v.center_lon,
        zoom: v.zoom,
        bearing: v.bearing,
        pitch: v.pitch,
    }
}

/// Position of the first raster layer.
pub open spec fn first_raster(layers: Seq<TileLayer>) -> Option<int>
    decreases layers.len(),
{
    if layers.len() == 0 {
        None
    } else {
        match first_raster(layers.drop_last()) {
            Some(i) => Some(i),
            None => if layers.last().config.kind is Raster {
                Some(layers.len() - 1)
            } else {
                None
            },
        }
    }
}

/// The layer whose imagery terrain takes: the first raster layer, or one called "base".
pub open spec fn imagery_choice(layers: Seq<TileLayer>) -> Seq<char> {
    match first_raster(layers) {
        Some(i) => layers[i].config.name@,
        None => "base"@,
    }
}

/// One of the layers is a terrain layer.
pub open spec fn has_terrain_layer(layers: Seq<LayerConfig>) -> bool {
    exists|i: int| 0 <= i < layers.len() && (#[trigger] layers[i]).kind is Terrain
}

/// Position of the first occurrence of `name`, or 0.
pub open spec fn position_or_first(names: Seq<Seq<char>>, name: Seq<char>) -> int {
    if names.contains(name) {
        names.index_of_first(name).unwrap()
    } else {
        0
    }
}

/// The projection that follows `current` in dictionary order, around the end to the first.
pub open spec fn next_projection(names: Seq<Seq<char>>, current: Seq<char>) -> Seq<char> {
    let sorted = sorted_texts(names);
    sorted[(position_or_first(sorted, current) + 1) % (sorted.len() as int)]
}

/// Engine, animation and crossfade tracking of one map.
pub struct MapController {
    pub engine: MapEngine,
    pub anim: AnimationController,
    /// Tiles that were visible with a texture in the previous frame.
    pub prev_visible_available: TileSet,
    /// Tiles that recently left the view, with the time they left.
    pub departing_tiles: TileMap<i64>,
    /// Terrain, where it is on.
    pub terrain: Option<TerrainState>,
    /// Elevation source for the next time terrain is turned on.
    pub terrain_source_url: String,
    /// Its encoding.
    pub terrain_source_encoding: TerrainEncoding,
    /// Events since they were last drained.
    pub pending_events: Vec<MapEvent>,
    /// The pose of the previous frame.
    pub prev_pose: CameraPose,
    pub was_moving: bool,
    pub was_zooming: bool,
}

/// Toggling turns `before` into `after`, with terrain on or off: off where it was on; on where
/// it was off and has a source; nothing changes where it has none.
pub open spec fn toggled(before: MapController, after: MapController, on: bool) -> bool {
    &&& on == (before.terrain is None && before.terrain_source_url@.len() > 0)
    &&& before.terrain is None && !on ==> after == before
    &&& before.terrain is Some ==> after == (MapController {
        terrain: None,
        engine: MapEngine {
            viewport: Viewport { frustum_margin: flat_margin(), ..before.engine.viewport },
            redraw: true,
            ..before.engine
        },
        ..before
    })
    &&& on ==> {
        &&& after.terrain matches Some(t)
        &&& t.url@ == before.terrain_source_url@
        &&& t.encoding == before.terrain_source_encoding
        &&& t.imagery_layer_name@ == imagery_choice(before.engine.layers@)
        &&& after == (MapController {
            terrain: after.terrain,
            engine: MapEngine {
                viewport: Viewport { frustum_margin: terrain_margin(), ..before.engine.viewport },
                redraw: true,
                ..before.engine
            },
            ..before
        })
    }
}

impl MapController {
    /// A controller for a map with the given configuration; see [`MapEngine::new`].
    pub fn new(
        config: MapConfig,
        viewport: Viewport,
        camera: CameraLimits,
        projections: Vec<String>,
    ) -> (c: MapController)
        ensures
            c.engine.viewport == (Viewport {
                center_lat: config.center_lat,
                center_lon: config.center_lon,
                zoom: config.zoom,
                frustum_margin: if has_terrain_layer(config.layers@) {
                    terrain_margin()
                } else {
                    viewport.frustum_margin
                },
                ..viewport
            }),
            c.engine.camera == camera,
            c.engine.projections == projections,
            c.engine.active_projection == config.projection,
            c.engine.redraw,
            config.layers@.len() == 0 ==> c.engine.layers@.len() == 1 && plain_layer(
                c.engine.layers@[0].config,
                "base"@,
                config.tile_source_url@,
                config.max_cached_tiles,
                config.max_concurrent_loads,
            ),
            config.layers@.len() > 0 ==> ({
                let given = config.layers@.map_values(|c: LayerConfig| TileLayer { config: c });
                stably_ordered(given, z_keys(given), c.engine.layers@)
            }),
            c.anim.config == default_interaction(),
            c.anim.zoom_target == config.zoom,
            c.anim.zoom_anchor is None,
            c.anim.pan_velocity == still(),
            c.anim.drag_samples@.len() == 0,
            c.anim.last_click_time is None,
            c.anim.last_click_pos is None,
            c.anim.tile_fade_start@ == Map::<TileCoord, i64>::empty(),
            c.anim.tile_fade_start.listing().len() == 0,
            c.anim.camera_anim is None,
            c.anim.last_mouse_pos is None,
            c.prev_visible_available@ == Set::<TileCoord>::empty(),
            c.departing_tiles@ == Map::<TileCoord, i64>::empty(),
            c.departing_tiles.listing().len() == 0,
            c.terrain is None,
            c.terrain_source_url@ == config.terrain_url@,
            c.terrain_source_encoding == config.terrain_encoding,
            c.pending_events@.len() == 0,
            c.prev_pose == (CameraPose {
                lat: config.center_lat,
                lon: config.center_lon,
                zoom: config.zoom,
                bearing: Real64::zero(),
                pitch: Real64::zero(),
            }),
            !c.was_moving,
            !c.was_zooming,
    {
        let mut has_terrain = false;
        let mut i: usize = 0;
        while i < config.layers.len()
            invariant
                i <= config.layers@.len(),
                has_terrain == exists|j: int|
                    0 <= j < i && (#[trigger] config.layers@[j]).kind is Terrain,
            decreases config.layers@.len() - i,
        {
            match config.layers[i].kind {
                LayerKind::Terrain { .. } => {
                    assert(config.layers@[i as int].kind is Terrain);
                    has_terrain = true;
                },
                _ => {},
            }
            i = i + 1;
        }
        let zoom = config.zoom;
        let lat = config.center_lat;
        let lon = config.center_lon;
        let url: String = config.terrain_url.clone();
        let encoding = config.terrain_encoding;
        let mut engine = MapEngine::new(config, viewport, camera, projections);
        if has_terrain {
            engine.viewport.frustum_margin = Real64 { bits: 0x3fc3_3333_3333_3333 };
        }
        MapController {
            engine,
            anim: AnimationController::new(zoom),
            prev_visible_available: TileSet::new(),
            departing_tiles: TileMap::new(),
            terrain: None,
            terrain_source_url: url,
            terrain_source_encoding: encoding,
            pending_events: Vec::new(),
            prev_pose: CameraPose {
                lat,
                lon,
                zoom,
                bearing: Real64::zero(),
                pitch: Real64::zero(),
            },
            was_moving: false,
            was_zooming: false,
        }
    }

    /// `self` with another engine.
    pub open spec fn with_engine(self, engine: MapEngine) -> MapController {
        MapController { engine, ..self }
    }

    /// `self` with another animation state.
    pub open spec fn with_anim(self, anim: AnimationController) -> MapController {
        MapController { anim, ..self }
    }

    // -- Camera ---------------------------------------------------------------

    /// Place the camera where panning, rotating or tilting has brought it.
    pub fn move_camera(&mut self, viewport: Viewport)
        ensures
            *final(self) == old(self).with_engine(
                MapEngine { viewport, redraw: true, ..old(self).engine },
            ),
    {
        self.engine.set_viewport(viewport);
    }

    /// Place the camera where zooming has brought it; smooth zoom has nothing left to do.
    pub fn zoom_camera(&mut self, viewport: Viewport)
        ensures
            *final(self) == (MapController {
                engine: MapEngine { viewport, redraw: true, ..old(self).engine },
                anim: AnimationController { zoom_target: viewport.zoom, ..old(self).anim },
                ..*old(self)
            }),
    {
        self.engine.set_viewport(viewport);
        self.anim.settle_zoom(viewport.zoom);
    }

    pub fn set_center(&mut self, lat: Real64, lon: Real64)
        ensures
            *final(self) == old(self).with_engine(
                MapEngine {
                    viewport: Viewport {
                        center_lat: lat,
                        center_lon: lon,
                        ..old(self).engine.viewport
                    },
                    redraw: true,
                    ..old(self).engine
                },
            ),
    {
        self.engine.viewport.center_lat = lat;
        self.engine.viewport.center_lon = lon;
        self.engine.request_redraw();
    }

    /// Set the zoom, limited to what the camera allows.
    pub fn set_zoom(&mut self, zoom: Real64)
        requires
            limits_ordered(old(self).engine.camera),
        ensures
            ({
                let z = clamped_between(
                    zoom,
                    old(self).engine.camera.min_zoom,
                    old(self).engine.camera.max_zoom,
                );
                *final(self) == (MapController {
                    engine: MapEngine {
                        viewport: Viewport { zoom: z, ..old(self).engine.viewport },
                        redraw: true,
                        ..old(self).engine
                    },
                    anim: AnimationController { zoom_target: z, ..old(self).anim },
                    ..*old(self)
                })
            }),
    {
        let z = zoom.clamp_to(self.engine.camera.min_zoom, self.engine.camera.max_zoom);
        self.engine.viewport.zoom = z;
        self.anim.settle_zoom(z);
        self.engine.request_redraw();
    }

    pub fn center(&self) -> (c: (Real64, Real64))
        ensures
            c == (self.engine.viewport.center_lat, self.engine.viewport.center_lon),
    {
        (self.engine.viewport.center_lat, self.engine.viewport.center_lon)
    }

    pub fn zoom_level(&self) -> (z: Real64)
        ensures
            z == self.engine.viewport.zoom,
    {
        self.engine.viewport.zoom
    }

    pub fn bearing(&self) -> (b: Real64)
        ensures
            b == self.engine.viewport.bearing,
    {
        self.engine.viewport.bearing
    }

    pub fn pitch_angle(&self) -> (p: Real64)
        ensures
            p == self.engine.viewport.pitch,
    {
        self.engine.viewport.pitch
    }

    // -- Camera limits --------------------------------------------------------

    pub fn min_zoom(&self) -> (z: Real64)
        ensures
            z == self.engine.camera.min_zoom,
    {
        self.engine.camera.min_zoom
    }

    pub fn set_min_zoom(&mut self, zoom: Real64)
        ensures
            *final(self) == old(self).with_engine(
                MapEngine {
                    camera: CameraLimits { min_zoom: zoom, ..old(self).engine.camera },
                    ..old(self).engine
                },
            ),
    {
        self.engine.camera.min_zoom = zoom;
    }

    pub fn max_zoom(&self) -> (z: Real64)
        ensures
            z == self.engine.camera.max_zoom,
    {
        self.engine.camera.max_zoom
    }

    pub fn set_max_zoom(&mut self, zoom: Real64)
        ensures
            *final(self) == old(self).with_engine(
                MapEngine {
                    camera: CameraLimits { max_zoom: zoom, ..old(self).engine.camera },
                    ..old(self).engine
                },
            ),
    {
        self.engine.camera.max_zoom = zoom;
    }

    pub fn max_pitch(&self) -> (p: Real64)
        ensures
            p == self.engine.camera.max_pitch,
    {
        self.engine.camera.max_pitch
    }

    /// Set the largest pitch; a larger current pitch is lowered to it.
    pub fn set_max_pitch(&mut self, degrees: Real64)
        ensures
            *final(self) == old(self).with_engine(
                MapEngine {
                    camera: CameraLimits { max_pitch: degrees, ..old(self).engine.camera },
                    viewport: Viewport {
                        pitch: if degrees.below(old(self).engine.viewport.pitch) {
                            degrees
                        } else {
                            old(self).engine.viewport.pitch
                        },
                        ..old(self).engine.viewport
                    },
                    ..old(self).engine
                },
            ),
    {
        self.engine.camera.max_pitch = degrees;
        if degrees.less(self.engine.viewport.pitch) {
            self.engine.viewport.pitch = degrees;
        }
    }

    pub fn tile_budget(&self) -> (n: usize)
        ensures
            n == self.engine.viewport.tile_budget,
    {
        self.engine.viewport.tile_budget
    }

    pub fn set_tile_budget(&mut self, budget: usize)
        ensures
            *final(self) == old(self).with_engine(
                MapEngine {
                    viewport: Viewport { tile_budget: budget, ..old(self).engine.viewport },
                    ..old(self).engine
                },
            ),
    {
        self.engine.viewport.tile_budget = budget;
    }

    /// Set the bearing, already brought into the camera's range.
    pub fn set_bearing(&mut self, degrees: Real64)
        ensures
            *final(self) == old(self).with_engine(
                MapEngine {
                    viewport: Viewport { bearing: degrees, ..old(self).engine.viewport },
                    redraw: true,
                    ..old(self).engine
                },
            ),
    {
        self.engine.viewport.bearing = degrees;
        self.engine.request_redraw();
    }

    /// Set the pitch, already brought into the camera's range.
    pub fn set_pitch(&mut self, degrees: Real64)
        ensures
            *final(self) == old(self).with_engine(
                MapEngine {
                    viewport: Viewport { pitch: degrees, ..old(self).engine.viewport },
                    redraw: true,
                    ..old(self).engine
                },
            ),
    {
        self.engine.viewport.pitch = degrees;
        self.engine.request_redraw();
    }

    /// The transition from the current pose to the given one.
    pub open spec fn transition(
        self,
        lat: Real64,
        lon: Real64,
        zoom: Real64,
        duration: Option<i64>,
        bearing: Option<Real64>,
        pitch: Option<Real64>,
        path: BearingPath,
        easing: EasingMode,
    ) -> CameraAnimation {
        let v = self.engine.viewport;
        let wanted: i64 = match duration {
            Some(d) => d,
            None => if easing is FlyTo {
                FLY_DURATION
            } else {
                EASE_DURATION
            },
        };
        CameraAnimation {
            start_lat: v.center_lat,
            start_lon: v.center_lon,
            target_lat: lat,
            target_lon: lon,
            start_zoom: v.zoom,
            target_zoom: clamped_between(
                zoom,
                self.engine.camera.min_zoom,
                self.engine.camera.max_zoom,
            ),
            start_bearing: turn_start(v.bearing, path),
            target_bearing: match bearing {
                Some(b) => b,
                None => v.bearing,
            },
            start_pitch: v.pitch,
            target_pitch: match pitch {
                Some(p) => p,
                None => v.pitch,
            },
            duration: if wanted < MIN_TRANSITION {
                MIN_TRANSITION
            } else {
                wanted
            },
            elapsed: 0,
            easing,
        }
    }

    /// `self` with the transition begun; inertia ends.
    pub open spec fn departing_by(self, anim: CameraAnimation) -> MapController {
        self.with_anim(
            AnimationController {
                camera_anim: Some(anim),
                pan_velocity: still(),
                ..self.anim
            },
        )
    }

    fn start_camera_anim(
        &mut self,
        lat: Real64,
        lon: Real64,
        zoom: Real64,
        duration: Option<i64>,
        bearing: Option<Real64>,
        pitch: Option<Real64>,
        path: BearingPath,
        easing: EasingMode,
    )
        requires
            limits_ordered(old(self).engine.camera),
        ensures
            *final(self) == old(self).departing_by(
                old(self).transition(lat, lon, zoom, duration, bearing, pitch, path, easing),
            ),
    {
        let v = self.engine.viewport;
        let wanted: i64 = match duration {
            Some(d) => d,
            None => match easing {
                EasingMode::FlyTo => FLY_DURATION,
                EasingMode::EaseTo => EASE_DURATION,
            },
        };
        let start_bearing = if (Real64 { bits: 0x4066_8000_0000_0000 }).less(path.delta) {
            path.raised
        } else if path.delta.less(Real64 { bits: 0xc066_8000_0000_0000 }) {
            path.lowered
        } else {
            v.bearing
        };
        let anim = CameraAnimation {
            start_lat: v.center_lat,
            start_lon: v.center_lon,
            target_lat: lat,
            target_lon: lon,
            start_zoom: v.zoom,
            target_zoom: zoom.clamp_to(self.engine.camera.min_zoom, self.engine.camera.max_zoom),
            start_bearing,
            target_bearing: match bearing {
                Some(b) => b,
                None => v.bearing,
            },
            start_pitch: v.pitch,
            target_pitch: match pitch {
                Some(p) => p,
                None => v.pitch,
            },
            duration: if wanted < MIN_TRANSITION {
                MIN_TRANSITION
            } else {
                wanted
            },
            elapsed: 0,
            easing,
        };
        self.anim.start_camera_animation(anim);
    }

    /// Fly to a new pose, easing in and out.
    pub fn fly_to(
        &mut self,
        lat: Real64,
        lon: Real64,
        zoom: Real64,
        duration: Option<i64>,
        bearing: Option<Real64>,
        pitch: Option<Real64>,
        path: BearingPath,
    )
        requires
            limits_ordered(old(self).engine.camera),
        ensures
            *final(self) == old(self).departing_by(
                old(self).transition(
                    lat,
                    lon,
                    zoom,
                    duration,
                    bearing,
                    pitch,
                    path,
                    EasingMode::FlyTo,
                ),
            ),
    {
        self.start_camera_anim(lat, lon, zoom, duration, bearing, pitch, path, EasingMode::FlyTo);
    }

    /// Move to a new pose at constant speed.
    pub fn ease_to(
        &mut self,
        lat: Real64,
        lon: Real64,
        zoom: Real64,
        duration: Option<i64>,
        bearing: Option<Real64>,
        pitch: Option<Real64>,
        path: BearingPath,
    )
        requires
            limits_ordered(old(self).engine.camera),
        ensures
            *final(self) == old(self).departing_by(
                old(self).transition(
                    lat,
                    lon,
                    zoom,
                    duration,
                    bearing,
                    pitch,
                    path,
                    EasingMode::EaseTo,
                ),
            ),
    {
        self.start_camera_anim(lat, lon, zoom, duration, bearing, pitch, path, EasingMode::EaseTo);
    }

    /// Jump to a new pose; a running transition ends. Bearing and pitch are already in the
    /// camera's range, and stay as they are where none is given.
    pub fn jump_to(
        &mut self,
        lat: Real64,
        lon: Real64,
        zoom: Real64,
        bearing: Option<Real64>,
        pitch: Option<Real64>,
    )
        requires
            limits_ordered(old(self).engine.camera),
        ensures
            ({
                let z = clamped_between(
                    zoom,
                    old(self).engine.camera.min_zoom,
                    old(self).engine.camera.max_zoom,
                );
                let v = old(self).engine.viewport;
                *final(self) == (MapController {
                    engine: MapEngine {
                        viewport: Viewport {
                            center_lat: lat,
                            center_lon: lon,
                            zoom: z,
                            bearing: match bearing {
                                Some(b) => b,
                                None => v.bearing,
                            },
                            pitch: match pitch {
                                Some(p) => p,
                                None => v.pitch,
                            },
                            ..v
                        },
                        redraw: true,
                        ..old(self).engine
                    },
                    anim: AnimationController {
                        zoom_target: z,
                        camera_anim: None,
                        ..old(self).anim
                    },
                    ..*old(self)
                })
            }),
    {
        self.anim.stop_animation();
        self.set_center(lat, lon);
        self.set_zoom(zoom);
        match bearing {
            Some(b) => {
                self.set_bearing(b);
            },
            None => {},
        }
        match pitch {
            Some(p) => {
                self.set_pitch(p);
            },
            None => {},
        }
    }

    /// End a running camera transition where it is.
    pub fn stop_animation(&mut self)
        ensures
            *final(self) == old(self).with_anim(
                AnimationController { camera_anim: None, ..old(self).anim },
            ),
    {
        self.anim.stop_animation();
    }

    // -- Viewport -------------------------------------------------------------

    pub fn resize(&mut self, width: u32, height: u32)
        ensures
            *final(self) == old(self).with_engine(
                MapEngine {
                    viewport: Viewport { width, height, ..old(self).engine.viewport },
                    redraw: true,
                    ..old(self).engine
                },
            ),
    {
        self.engine.resize(width, height);
    }

    pub fn width(&self) -> (w: u32)
        ensures
            w == self.engine.viewport.width,
    {
        self.engine.viewport.width
    }

    pub fn height(&self) -> (h: u32)
        ensures
            h == self.engine.viewport.height,
    {
        self.engine.viewport.height
    }

    // -- Projection -----------------------------------------------------------

    /// Select a projection by name. Unknown names change nothing.
    pub fn set_projection(&mut self, name: &str) -> (found: bool)
        ensures
            found == listed(old(self).engine.projections@, name@),
            !found ==> *final(self) == *old(self),
            found ==> final(self).engine.active_projection@ == name@ && *final(self) == old(
                self,
            ).with_engine(
                MapEngine {
                    active_projection: final(self).engine.active_projection,
                    redraw: true,
                    ..old(self).engine
                },
            ),
    {
        self.engine.set_projection(name)
    }

    pub fn projection_name(&self) -> (s: &str)
        ensures
            s@ == self.engine.active_projection@,
    {
        self.engine.active_projection.as_str()
    }

    /// Select the projection that follows the active one in dictionary order, around the end
    /// to the first. Returns its name.
    pub fn cycle_projection(&mut self) -> (name: String)
        requires
            old(self).engine.projections@.len() > 0,
        ensures
            name@ == next_projection(
                texts(old(self).engine.projections@),
                old(self).engine.active_projection@,
            ),
            final(self).engine.active_projection@ == name@,
            *final(self) == old(self).with_engine(
                MapEngine {
                    active_projection: final(self).engine.active_projection,
                    redraw: true,
                    ..old(self).engine
                },
            ),
    {
        let names: Vec<String> = sort_names(self.engine.projections.as_slice());
        let ghost sorted = texts(names@);
        let ghost current = self.engine.active_projection@;
        let mut at: usize = 0;
        let mut i: usize = 0;
        while i < names.len()
            invariant_except_break
                at == 0,
                forall|j: int| 0 <= j < i ==> #[trigger] sorted[j] != current,
            invariant
                i <= names@.len(),
                sorted == texts(names@),
                current == self.engine.active_projection@,
            ensures
                at < names@.len() || names@.len() == 0,
                at == position_or_first(sorted, current),
            decreases names@.len() - i,
        {
            if names[i] == self.engine.active_projection {
                assert(sorted[i as int] == current);
                proof {
                    assert(sorted.contains(current));
                    sorted.index_of_first_ensures(current);
                }
                at = i;
                break;
            }
            i = i + 1;
        }
        let next: usize = if at + 1 == names.len() {
            0
        } else {
            at + 1
        };
        proof {
            lemma_wraps(at as int, sorted.len() as int);
            lemma_sorted_listed(self.engine.projections@, next as int);
        }
        self.engine.set_projection(&names[next]);
        self.engine.active_projection.clone()
    }

    // -- Layers ---------------------------------------------------------------

    /// Add a layer; see [`MapEngine::add_layer`].
    pub fn add_layer(&mut self, config: LayerConfig) -> (at: usize)
        ensures
            ({
                let grown = old(self).engine.layers@.push(TileLayer { config });
                stably_ordered(grown, z_keys(grown), final(self).engine.layers@)
            }),
            layer_index(final(self).engine.layers@, config.name@) == Some(at as int),
            *final(self) == old(self).with_engine(
                MapEngine {
                    layers: final(self).engine.layers,
                    redraw: true,
                    ..old(self).engine
                },
            ),
    {
        self.engine.add_layer(config)
    }

    /// Remove every layer called `name`. Tells whether there was one.
    pub fn remove_layer(&mut self, name: &str) -> (removed: bool)
        ensures
            final(self).engine.layers@ == without(old(self).engine.layers@, name@),
            removed == (layer_index(old(self).engine.layers@, name@) is Some),
            *final(self) == old(self).with_engine(
                MapEngine {
                    layers: final(self).engine.layers,
                    redraw: removed || old(self).engine.redraw,
                    ..old(self).engine
                },
            ),
    {
        self.engine.remove_layer(name)
    }

    /// Show or hide the first layer called `name`.
    pub fn set_layer_visible(&mut self, name: &str, visible: bool) -> (found: bool)
        ensures
            found == (layer_index(old(self).engine.layers@, name@) is Some),
            !found ==> *final(self) == *old(self),
            found ==> ({
                let i = layer_index(old(self).engine.layers@, name@).unwrap();
                let before = old(self).engine.layers@[i].config;
                final(self).engine.layers@ == old(self).engine.layers@.update(
                    i,
                    TileLayer { config: LayerConfig { visible, ..before } },
                )
            }),
            found ==> *final(self) == old(self).with_engine(
                MapEngine {
                    layers: final(self).engine.layers,
                    redraw: true,
                    ..old(self).engine
                },
            ),
    {
        self.engine.set_layer_visible(name, visible)
    }

    /// Set the opacity of the first layer called `name`, limited to `0..=1`.
    pub fn set_layer_opacity(&mut self, name: &str, opacity: Real32) -> (found: bool)
        ensures
            found == (layer_index(old(self).engine.layers@, name@) is Some),
            !found ==> *final(self) == *old(self),
            found ==> ({
                let i = layer_index(old(self).engine.layers@, name@).unwrap();
                let before = old(self).engine.layers@[i].config;
                final(self).engine.layers@ == old(self).engine.layers@.update(
                    i,
                    TileLayer { config: LayerConfig { opacity: clamped_unit(opacity), ..before } },
                )
            }),
            found ==> *final(self) == old(self).with_engine(
                MapEngine {
                    layers: final(self).engine.layers,
                    redraw: true,
                    ..old(self).engine
                },
            ),
    {
        self.engine.set_layer_opacity(name, opacity)
    }

    pub fn layer_count(&self) -> (n: usize)
        ensures
            n == self.engine.layers@.len(),
    {
        self.engine.layer_count()
    }

    /// Layer names, bottom to top.
    pub fn layer_names(&self) -> (names: Vec<String>)
        ensures
            texts(names@) == self.engine.layers@.map_values(|l: TileLayer| l.config.name@),
    {
        let mut names: Vec<String> = Vec::new();
        let ghost target = self.engine.layers@.map_values(|l: TileLayer| l.config.name@);
        let mut i: usize = 0;
        while i < self.engine.layers.len()
            invariant
                i <= self.engine.layers@.len(),
                target == self.engine.layers@.map_values(|l: TileLayer| l.config.name@),
                texts(names@) =~= target.take(i as int),
            decreases self.engine.layers@.len() - i,
        {
            let ghost before = names@;
            names.push(self.engine.layers[i].config.name.clone());
            assert(texts(names@) =~= texts(before).push(target[i as int]));
            i = i + 1;
        }
        assert(target.take(i as int) =~= target);
        names
    }

    /// Metadata of the first layer called `name`.
    pub fn get_layer_info(&self, name: &str) -> (r: Option<LayerInfo>)
        ensures
            match layer_index(self.engine.layers@, name@) {
                Some(i) => {
                    let c = self.engine.layers@[i].config;
                    &&& r matches Some(info)
                    &&& info.name@ == c.name@
                    &&& info.url@ == c.tile_source_url@
                    &&& info.opacity == c.opacity
                    &&& info.visible == c.visible
                    &&& info.z_order == c.z_order
                    &&& info.kind@ == kind_label(c.kind)
                },
                None => r is None,
            },
    {
        match self.engine.get_layer(name) {
            Some(l) => Some(
                LayerInfo {
                    name: l.config.name.clone(),
                    url: l.config.tile_source_url.clone(),
                    opacity: l.config.opacity,
                    visible: l.config.visible,
                    z_order: l.config.z_order,
                    kind: match &l.config.kind {
                        LayerKind::Raster => "raster".to_owned(),
                        LayerKind::Terrain { .. } => "terrain".to_owned(),
                        LayerKind::Tiles3d => "3dtiles".to_owned(),
                    },
                },
            ),
            None => None,
        }
    }

    // -- Terrain --------------------------------------------------------------

    /// Turn terrain on or off. Returns whether it is on now. It cannot be turned on without a
    /// source. No layer is added or removed.
    pub fn toggle_terrain(&mut self) -> (on: bool)
        ensures
            toggled(*old(self), *final(self), on),
    {
        match &self.terrain {
            Some(_) => {
                self.terrain = None;
                self.engine.viewport.frustum_margin = Real64 { bits: 0x3fa9_9999_9999_999a };
                self.engine.request_redraw();
                false
            },
            None => {
                if self.terrain_source_url.as_str().unicode_len() == 0 {
                    return false;
                }
                let imagery_layer_name: String = self.imagery_name();
                self.terrain = Some(
                    TerrainState {
                        url: self.terrain_source_url.clone(),
                        encoding: self.terrain_source_encoding,
                        imagery_layer_name,
                    },
                );
                self.engine.viewport.frustum_margin = Real64 { bits: 0x3fc3_3333_3333_3333 };
                self.engine.request_redraw();
                true
            },
        }
    }

    fn imagery_name(&self) -> (s: String)
        ensures
            s@ == imagery_choice(self.engine.layers@),
    {
        let ghost stack = self.engine.layers@;
        let mut i: usize = 0;
        while i < self.engine.layers.len()
            invariant
                i <= self.engine.layers@.len(),
                stack == self.engine.layers@,
                first_raster(stack.take(i as int)) is None,
            decreases self.engine.layers@.len() - i,
        {
            assert(stack.take(i + 1).drop_last() =~= stack.take(i as int));
            match self.engine.layers[i].config.kind {
                LayerKind::Raster => {
                    proof {
                        lemma_first_raster_prefix(stack, i + 1);
                    }
                    return self.engine.layers[i].config.name.clone();
                },
                _ => {},
            }
            i = i + 1;
        }
        assert(stack.take(i as int) =~= stack);
        "base".to_owned()
    }

    /// Set the elevation source. It takes effect the next time terrain is turned on.
    pub fn set_terrain_source(&mut self, url: &str, encoding: TerrainEncoding)
        ensures
            final(self).terrain_source_url@ == url@,
            *final(self) == (MapController {
                terrain_source_url: final(self).terrain_source_url,
                terrain_source_encoding: encoding,
                ..*old(self)
            }),
    {
        self.terrain_source_url = url.to_owned();
        self.terrain_source_encoding = encoding;
    }

    pub fn terrain_enabled(&self) -> (b: bool)
        ensures
            b == (self.terrain is Some),
    {
        self.terrain.is_some()
    }

    /// The elevation URL template, if terrain is on.
    pub fn terrain_url(&self) -> (r: Option<&str>)
        ensures
            match self.terrain {
                Some(t) => r matches Some(s) && s@ == t.url@,
                None => r is None,
            },
    {
        match &self.terrain {
            Some(t) => Some(t.url.as_str()),
            None => None,
        }
    }

    /// The imagery layer of terrain, if it is on.
    pub fn terrain_imagery_name(&self) -> (r: Option<&str>)
        ensures
            match self.terrain {
                Some(t) => r matches Some(s) && s@ == t.imagery_layer_name@,
                None => r is None,
            },
    {
        match &self.terrain {
            Some(t) => Some(t.imagery_layer_name.as_str()),
            None => None,
        }
    }

    /// The elevation encoding, if terrain is on.
    pub fn terrain_encoding(&self) -> (r: Option<TerrainEncoding>)
        ensures
            r == (match self.terrain {
                Some(t) => Some(t.encoding),
                None => None,
            }),
    {
        match &self.terrain {
            Some(t) => Some(t.encoding),
            None => None,
        }
    }

    // -- Frames ---------------------------------------------------------------

    /// Begin a frame of length `dt`: what there is to animate. `zoom_gap` is the distance
    /// between the zoom goal and the current zoom, `pan_speed` the magnitude of the pan
    /// velocity. The platform moves the camera accordingly and then calls
    /// [`MapController::tick`].
    pub fn advance(&mut self, dt: i64, zoom_gap: Real64, pan_speed: Real64) -> (step: TickStep)
        requires
            limits_ordered(old(self).engine.camera),
            tickable(old(self).anim, dt),
        ensures
            ticked(
                old(self).anim,
                old(self).engine.camera,
                dt,
                zoom_gap,
                pan_speed,
                step,
                final(self).anim,
            ),
            *final(self) == old(self).with_anim(final(self).anim),
    {
        self.anim.tick_with_mode(&self.engine.camera, dt, zoom_gap, pan_speed)
    }

    /// Take note of how the camera moved in this frame, and queue the events.
    pub fn tick(&mut self, motion: Motion)
        ensures
            final(self).pending_events@ == queue_after(
                old(self).pending_events@,
                pose_of(old(self).engine.viewport),
                motion,
                old(self).was_moving,
                old(self).was_zooming,
            ),
            *final(self) == (MapController {
                pending_events: final(self).pending_events,
                prev_pose: pose_of(old(self).engine.viewport),
                was_moving: motion.moves(),
                was_zooming: motion.zooms(),
                ..*old(self)
            }),
    {
        let v = self.engine.viewport;
        let small = Real64 { bits: 0x3e11_2e0b_e826_d695 };
        let step = Real64 { bits: 0x3eb0_c6f7_a0b5_ed8d };
        let moving: bool = small.less(motion.lat) || small.less(motion.lon);
        let zooming: bool = step.less(motion.zoom);
        if moving {
            self.pending_events.push(MapEvent::Move { lat: v.center_lat, lon: v.center_lon });
        }
        if zooming {
            self.pending_events.push(MapEvent::Zoom { zoom: v.zoom });
        }
        if step.less(motion.bearing) {
            self.pending_events.push(MapEvent::Bearing { bearing: v.bearing });
        }
        if step.less(motion.pitch) {
            self.pending_events.push(MapEvent::Pitch { pitch: v.pitch });
        }
        if self.was_moving && !moving {
            self.pending_events.push(MapEvent::MoveEnd);
        }
        if self.was_zooming && !zooming {
            self.pending_events.push(MapEvent::ZoomEnd);
        }
        self.prev_pose = CameraPose {
            lat: v.center_lat,
            lon: v.center_lon,
            zoom: v.zoom,
            bearing: v.bearing,
            pitch: v.pitch,
        };
        self.was_moving = moving;
        self.was_zooming = zooming;
    }

    /// Hand out the queued events.
    pub fn drain_events(&mut self) -> (events: Vec<MapEvent>)
        ensures
            events@ == old(self).pending_events@,
            final(self).pending_events@ == Seq::<MapEvent>::empty(),
            *final(self) == (MapController {
                pending_events: final(self).pending_events,
                ..*old(self)
            }),
    {
        let mut events: Vec<MapEvent> = Vec::new();
        std::mem::swap(&mut events, &mut self.pending_events);
        events
    }

    /// Queue a click.
    pub fn push_click(&mut self, lat: Real64, lon: Real64, x: Real64, y: Real64)
        ensures
            final(self).pending_events@ == old(self).pending_events@.push(
                MapEvent::Click { lat, lon, x, y },
            ),
            *final(self) == (MapController {
                pending_events: final(self).pending_events,
                ..*old(self)
            }),
    {
        self.pending_events.push(MapEvent::Click { lat, lon, x, y });
    }

    /// Whether a frame has to be drawn; see [`AnimationController::is_animating`].
    pub fn needs_redraw(&self, zoom_gap: Real64, pan_speed: Real64) -> (b: bool)
        ensures
            b == {
                ||| self.engine.redraw
                ||| zoom_epsilon().below(zoom_gap)
                ||| self.anim.config.inertia_min_speed.below(pan_speed)
                ||| self.anim.tile_fade_start.listing().len() > 0
                ||| self.anim.camera_anim matches Some(a) && a.elapsed < a.duration
            },
    {
        self.engine.needs_redraw() || self.anim.is_animating(zoom_gap, pan_speed)
    }

    pub fn frame_rendered(&mut self)
        ensures
            *final(self) == old(self).with_engine(
                MapEngine { redraw: false, ..old(self).engine },
            ),
    {
        self.engine.frame_rendered();
    }

    // -- Dragging and clicking ------------------------------------------------

    /// Begin a drag: inertia ends and old drag positions are forgotten.
    pub fn begin_drag(&mut self)
        ensures
            final(self).anim.drag_samples@.len() == 0,
            *final(self) == old(self).with_anim(
                AnimationController {
                    pan_velocity: still(),
                    drag_samples: final(self).anim.drag_samples,
                    ..old(self).anim
                },
            ),
    {
        self.anim.begin_drag();
    }

    /// Record a drag position.
    pub fn record_drag(&mut self, pos: ScreenPoint, time: i64)
        ensures
            final(self).anim.drag_samples@ == recent(
                old(self).anim.drag_samples@,
                time,
                old(self).anim.config.drag_sample_window,
            ).push(DragSample { pos, time }),
            *final(self) == old(self).with_anim(
                AnimationController {
                    drag_samples: final(self).anim.drag_samples,
                    ..old(self).anim
                },
            ),
    {
        self.anim.record_drag(pos, time);
    }

    /// End a drag; see [`AnimationController::compute_release_velocity`].
    pub fn end_drag(&mut self, time: i64) -> (r: Release)
        requires
            forall|i: int|
                0 <= i < old(self).anim.drag_samples@.len() ==> -0x4000_0000_0000_0000 <= (
                #[trigger] old(self).anim.drag_samples@[i]).time <= 0x3fff_ffff_ffff_ffff,
        ensures
            ({
                let kept = recent(
                    old(self).anim.drag_samples@,
                    time,
                    old(self).anim.config.drag_sample_window,
                );
                &&& r == release_of(kept)
                &&& final(self).anim.drag_samples@ == (if r is Still {
                    kept
                } else {
                    Seq::empty()
                })
                &&& *final(self) == old(self).with_anim(
                    AnimationController {
                        drag_samples: final(self).anim.drag_samples,
                        pan_velocity: if r is Still {
                            still()
                        } else {
                            old(self).anim.pan_velocity
                        },
                        ..old(self).anim
                    },
                )
            }),
    {
        self.anim.compute_release_velocity(time)
    }

    /// Whether a click completes a double click.
    pub fn check_double_click(&mut self, pos: ScreenPoint, time: i64) -> (double: bool)
        requires
            old(self).anim.config.double_click_dist <= 0x7fff_ffff_ffff,
        ensures
            double == old(self).anim.makes_double(pos, time),
            *final(self) == old(self).with_anim(
                AnimationController {
                    last_click_time: if double {
                        None
                    } else {
                        Some(time)
                    },
                    last_click_pos: if double {
                        None
                    } else {
                        Some(pos)
                    },
                    ..old(self).anim
                },
            ),
    {
        self.anim.check_double_click(pos, time)
    }

    // -- Tiles ----------------------------------------------------------------

    /// A tile's texture became available.
    pub fn register_tile_loaded(&mut self, coord: TileCoord, time: i64)
        ensures
            final(self).anim.tile_fade_start@ == old(self).anim.tile_fade_start@.insert(
                coord,
                time,
            ),
            *final(self) == old(self).with_anim(
                AnimationController {
                    tile_fade_start: final(self).anim.tile_fade_start,
                    ..old(self).anim
                },
            ),
    {
        self.anim.register_tile_loaded(coord, time);
    }

    /// Time since a tile was loaded, if it is still known.
    pub fn tile_fade_elapsed(&self, coord: &TileCoord, now: i64) -> (e: Option<i128>)
        ensures
            e == fade_elapsed(self.anim.tile_fade_start@, *coord, now),
    {
        self.anim.tile_fade_elapsed(coord, now)
    }

    /// Forget fades that have long finished.
    pub fn gc_fades(&mut self, now: i64)
        ensures
            final(self).anim.tile_fade_start@ == younger(
                old(self).anim.tile_fade_start@,
                now,
                old(self).anim.config.fade_duration + FADE_LINGER,
            ),
            *final(self) == old(self).with_anim(
                AnimationController {
                    tile_fade_start: final(self).anim.tile_fade_start,
                    ..old(self).anim
                },
            ),
    {
        self.anim.gc_fades(now);
    }

    /// Track which tiles entered and left the view. Returns those whose fade-in starts now;
    /// they are registered.
    pub fn update_visibility(
        &mut self,
        visible: &[VisibleTile],
        available: &TileSet,
        now: i64,
    ) -> (entering: Vec<TileCoord>)
        ensures
            entering@.no_duplicates(),
            forall|c: TileCoord| #[trigger]
                entering@.contains(c) <==> is_visible(visible@, c) && available@.contains(c)
                    && !old(self).prev_visible_available@.contains(c) && !old(
                    self,
                ).anim.tile_fade_start@.contains_key(c),
            forall|c: TileCoord| #[trigger]
                final(self).prev_visible_available@.contains(c) <==> is_visible(visible@, c)
                    && available@.contains(c),
            final(self).departing_tiles@ == departed(
                old(self).departing_tiles@,
                old(self).prev_visible_available@,
                visible@,
                now,
            ),
            final(self).anim.tile_fade_start@ == registered(
                old(self).anim.tile_fade_start@,
                entering@,
                entering@.len(),
                now,
            ),
            *final(self) == (MapController {
                prev_visible_available: final(self).prev_visible_available,
                departing_tiles: final(self).departing_tiles,
                anim: AnimationController {
                    tile_fade_start: final(self).anim.tile_fade_start,
                    ..old(self).anim
                },
                ..*old(self)
            }),
    {
        let (shown, entering) = update_tile_visibility(
            visible,
            available,
            &self.prev_visible_available,
            &self.anim.tile_fade_start,
            &mut self.departing_tiles,
            now,
        );
        let ghost after = *self;
        let mut i: usize = 0;
        while i < entering.len()
            invariant
                i <= entering@.len(),
                self.anim.tile_fade_start@ == registered(
                    after.anim.tile_fade_start@,
                    entering@,
                    i as nat,
                    now,
                ),
                *self == (MapController {
                    anim: AnimationController {
                        tile_fade_start: self.anim.tile_fade_start,
                        ..after.anim
                    },
                    ..after
                }),
            decreases entering@.len() - i,
        {
            self.anim.register_tile_loaded(entering[i], now);
            i = i + 1;
        }
        self.prev_visible_available = shown;
        entering
    }
}

/// The fades after the first `n` tiles were registered at `now`.
pub open spec fn registered(
    fades: Map<TileCoord, i64>,
    coords: Seq<TileCoord>,
    n: nat,
    now: i64,
) -> Map<TileCoord, i64>
    decreases n,
{
    if n == 0 {
        fades
    } else {
        registered(fades, coords, (n - 1) as nat, now).insert(coords[n - 1], now)
    }
}

proof fn lemma_wraps(at: int, n: int)
    requires
        0 <= at < n,
    ensures
        (at + 1) % n == (if at + 1 == n {
            0
        } else {
            at + 1
        }),
{
    if at + 1 == n {
        vstd::arithmetic::div_mod::lemma_mod_self_0(n);
    } else {
        vstd::arithmetic::div_mod::lemma_small_mod((at + 1) as nat, n as nat);
    }
}

/// What stands in the sorted list is one of the names.
proof fn lemma_sorted_listed(names: Seq<String>, i: int)
    requires
        0 <= i < sorted_texts(texts(names)).len(),
    ensures
        listed(names, sorted_texts(texts(names))[i]),
{
    let sorted = sorted_texts(texts(names));
    crate::text::law_text_order();
    texts(names).lemma_sort_by_ensures(crate::text::text_order());
    assert(sorted.contains(sorted[i]));
    assert(texts(names).contains(sorted[i]));
    let j = choose|j: int| 0 <= j < texts(names).len() && texts(names)[j] == sorted[i];
    assert(names[j]@ == sorted[i]);
}

proof fn lemma_first_raster_prefix(layers: Seq<TileLayer>, n: int)
    requires
        0 <= n <= layers.len(),
        first_raster(layers.take(n)) is Some,
    ensures
        first_raster(layers) == first_raster(layers.take(n)),
    decreases layers.len() - n,
{
    if n == layers.len() {
        assert(layers.take(n) =~= layers);
    } else {
        assert(layers.take(n + 1).drop_last() =~= layers.take(n));
        lemma_first_raster_prefix(layers, n + 1);
    }
}

/// Terrain is a property, not a layer: toggling it changes no layer, and toggling it twice
/// leaves it as it was.
pub proof fn law_toggle_twice(
    a: MapController,
    b: MapController,
    c: MapController,
    first: bool,
    second: bool,
)
    requires
        toggled(a, b, first),
        toggled(b, c, second),
    ensures
        b.engine.layers == a.engine.layers,
        first == (b.terrain is Some),
        a.terrain is None ==> c.terrain is None,
        a.terrain is Some && a.terrain_source_url@.len() > 0 ==> c.terrain is Some,
        first ==> c == (MapController {
            engine: MapEngine {
                viewport: Viewport { frustum_margin: flat_margin(), ..a.engine.viewport },
                redraw: true,
                ..a.engine
            },
            ..a
        }),
{
    if first {
        assert(c == (MapController {
            engine: MapEngine {
                viewport: Viewport { frustum_margin: flat_margin(), ..a.engine.viewport },
                redraw: true,
                ..a.engine
            },
            ..a
        }));
    }
}

proof fn lemma_noted(queue: Seq<MapEvent>, applies: bool, e: MapEvent, x: MapEvent)
    ensures
        noted(queue, applies, e).contains(x) == (queue.contains(x) || (applies && x == e)),
{
    let q = noted(queue, applies, e);
    if queue.contains(x) {
        let i = choose|i: int| 0 <= i < queue.len() && queue[i] == x;
        assert(q[i] == x);
    }
    if applies {
        assert(q[queue.len() as int] == e);
    }
    if q.contains(x) {
        let i = choose|i: int| 0 <= i < q.len() && q[i] == x;
        if i < queue.len() {
            assert(queue[i] == x);
        }
    }
}

/// The end of a movement is reported in the first frame that stands still after one that moved,
/// and only there; likewise for zooming. Movement itself is reported in every frame that moves.
pub proof fn law_end_events(
    pose: CameraPose,
    motion: Motion,
    was_moving: bool,
    was_zooming: bool,
    x: MapEvent,
)
    ensures
        frame_events(pose, motion, was_moving, was_zooming).contains(x) == (match x {
            MapEvent::Move { lat, lon } => motion.moves() && lat == pose.lat && lon == pose.lon,
            MapEvent::Zoom { zoom } => motion.zooms() && zoom == pose.zoom,
            MapEvent::Bearing { bearing } => turn_epsilon().below(motion.bearing) && bearing
                == pose.bearing,
            MapEvent::Pitch { pitch } => turn_epsilon().below(motion.pitch) && pitch
                == pose.pitch,
            MapEvent::MoveEnd => was_moving && !motion.moves(),
            MapEvent::ZoomEnd => was_zooming && !motion.zooms(),
            MapEvent::Click { .. } => false,
        }),
{
    let q0 = Seq::<MapEvent>::empty();
    let e1 = MapEvent::Move { lat: pose.lat, lon: pose.lon };
    let q1 = noted(q0, motion.moves(), e1);
    let e2 = MapEvent::Zoom { zoom: pose.zoom };
    let q2 = noted(q1, motion.zooms(), e2);
    let e3 = MapEvent::Bearing { bearing: pose.bearing };
    let q3 = noted(q2, turn_epsilon().below(motion.bearing), e3);
    let e4 = MapEvent::Pitch { pitch: pose.pitch };
    let q4 = noted(q3, turn_epsilon().below(motion.pitch), e4);
    let q5 = noted(q4, was_moving && !motion.moves(), MapEvent::MoveEnd);
    lemma_noted(q0, motion.moves(), e1, x);
    lemma_noted(q1, motion.zooms(), e2, x);
    lemma_noted(q2, turn_epsilon().below(motion.bearing), e3, x);
    lemma_noted(q3, turn_epsilon().below(motion.pitch), e4, x);
    lemma_noted(q4, was_moving && !motion.moves(), MapEvent::MoveEnd, x);
    lemma_noted(q5, was_zooming && !motion.zooms(), MapEvent::ZoomEnd, x);
}

/// Earlier events stay in the queue, ahead of those of the frame.
pub proof fn law_queue_grows(
    queue: Seq<MapEvent>,
    pose: CameraPose,
    motion: Motion,
    was_moving: bool,
    was_zooming: bool,
)
    ensures
        queue_after(queue, pose, motion, was_moving, was_zooming) == queue + frame_events(
            pose,
            motion,
            was_moving,
            was_zooming,
        ),
{
    let q0 = Seq::<MapEvent>::empty();
    let e1 = MapEvent::Move { lat: pose.lat, lon: pose.lon };
    let q1 = noted(q0, motion.moves(), e1);
    let e2 = MapEvent::Zoom { zoom: pose.zoom };
    let q2 = noted(q1, motion.zooms(), e2);
    let e3 = MapEvent::Bearing { bearing: pose.bearing };
    let q3 = noted(q2, turn_epsilon().below(motion.bearing), e3);
    let e4 = MapEvent::Pitch { pitch: pose.pitch };
    let q4 = noted(q3, turn_epsilon().below(motion.pitch), e4);
    let q5 = noted(q4, was_moving && !motion.moves(), MapEvent::MoveEnd);
    assert(queue + q0 =~= queue);
    lemma_noted_behind(queue, q0, motion.moves(), e1);
    lemma_noted_behind(queue, q1, motion.zooms(), e2);
    lemma_noted_behind(queue, q2, turn_epsilon().below(motion.bearing), e3);
    lemma_noted_behind(queue, q3, turn_epsilon().below(motion.pitch), e4);
    lemma_noted_behind(queue, q4, was_moving && !motion.moves(), MapEvent::MoveEnd);
    lemma_noted_behind(queue, q5, was_zooming && !motion.zooms(), MapEvent::ZoomEnd);
}

proof fn lemma_noted_behind(queue: Seq<MapEvent>, tail: Seq<MapEvent>, applies: bool, e: MapEvent)
    ensures
        noted(queue + tail, applies, e) == queue + noted(tail, applies, e),
{
    assert((queue + tail).push(e) =~= queue + tail.push(e));
}

/// While the camera rests, nothing is reported.
pub proof fn law_rest_is_silent(pose: CameraPose, motion: Motion)
    requires
        !motion.moves(),
        !motion.zooms(),
        !turn_epsilon().below(motion.bearing),
        !turn_epsilon().below(motion.pitch),
    ensures
        frame_events(pose, motion, false, false) == Seq::<MapEvent>::empty(),
{
    assert(frame_events(pose, motion, false, false) =~= Seq::<MapEvent>::empty());
}

/// The projection after `k` steps.
pub open spec fn cycled(names: Seq<Seq<char>>, current: Seq<char>, k: nat) -> Seq<char>
    decreases k,
{
    if k == 0 {
        current
    } else {
        next_projection(names, cycled(names, current, (k - 1) as nat))
    }
}

/// Cycling steps through the sorted projections in order and returns to the first one after
/// all of them.
pub proof fn law_cycle(names: Seq<Seq<char>>, at: int, k: nat)
    requires
        names.no_duplicates(),
        0 <= at < names.len(),
    ensures
        sorted_texts(names).len() == names.len(),
        cycled(names, sorted_texts(names)[at], k) == sorted_texts(names)[(at + k) % (
        names.len() as int)],
        cycled(names, sorted_texts(names)[at], names.len()) == sorted_texts(names)[at],
    decreases k,
{
    broadcast use vstd::seq_lib::to_multiset_len;

    let sorted = sorted_texts(names);
    let n = names.len() as int;
    crate::text::law_text_order();
    names.lemma_sort_by_ensures(crate::text::text_order());
    assert(names.to_multiset().len() == sorted.to_multiset().len());
    lemma_sorted_distinct(names);
    lemma_cycle_steps(names, at, k);
    lemma_cycle_steps(names, at, names.len());
    vstd::arithmetic::div_mod::lemma_mod_add_multiples_vanish(at, n);
    vstd::arithmetic::div_mod::lemma_small_mod(at as nat, n as nat);
    assert((at + n) % n == at) by {
        assert(n + at == at + n);
    }
}

proof fn lemma_sorted_distinct(names: Seq<Seq<char>>)
    requires
        names.no_duplicates(),
    ensures
        sorted_texts(names).no_duplicates(),
{
    broadcast use {vstd::multiset::group_multiset_axioms, vstd::seq_lib::to_multiset_len};

    let sorted = sorted_texts(names);
    crate::text::law_text_order();
    names.lemma_sort_by_ensures(crate::text::text_order());
    names.lemma_multiset_has_no_duplicates();
    sorted.lemma_multiset_has_no_duplicates_conv();
}

proof fn lemma_cycle_steps(names: Seq<Seq<char>>, at: int, k: nat)
    requires
        sorted_texts(names).no_duplicates(),
        sorted_texts(names).len() == names.len(),
        0 <= at < names.len(),
    ensures
        cycled(names, sorted_texts(names)[at], k) == sorted_texts(names)[(at + k) % (
        names.len() as int)],
    decreases k,
{
    let sorted = sorted_texts(names);
    let n = names.len() as int;
    if k == 0 {
        vstd::arithmetic::div_mod::lemma_small_mod(at as nat, n as nat);
    } else {
        let j = (k - 1) as nat;
        lemma_cycle_steps(names, at, j);
        let p = (at + j) % n;
        vstd::arithmetic::div_mod::lemma_mod_bound(at + j, n);
        assert(sorted.contains(sorted[p]));
        sorted.index_of_first_ensures(sorted[p]);
        assert(position_or_first(sorted, sorted[p]) == p);
        vstd::arithmetic::div_mod::lemma_add_mod_noop(at + j, 1, n);
        if n > 1 {
            vstd::arithmetic::div_mod::lemma_small_mod(1, n as nat);
            assert((p + 1) % n == (at + j + 1) % n);
        } else {
            vstd::arithmetic::div_mod::lemma_mod_bound(p + 1, n);
            vstd::arithmetic::div_mod::lemma_mod_bound(at + k, n);
        }
    }
}

/// A registered tile fades from now on; every other tile keeps its fade.
pub proof fn law_registered(
    fades: Map<TileCoord, i64>,
    coords: Seq<TileCoord>,
    n: nat,
    now: i64,
    c: TileCoord,
)
    requires
        n <= coords.len(),
    ensures
        ({
            let after = registered(fades, coords, n, now);
            if coords.take(n as int).contains(c) {
                after.contains_key(c) && after[c] == now
            } else {
                after.contains_key(c) == fades.contains_key(c) && (fades.contains_key(c)
                    ==> after[c] == fades[c])
            }
        }),
    decreases n,
{
    if n > 0 {
        let m = (n - 1) as nat;
        law_registered(fades, coords, m, now, c);
        let head = coords.take(m as int);
        assert(coords.take(n as int) =~= head.push(coords[m as int]));
        if head.contains(c) {
            let i = choose|i: int| 0 <= i < head.len() && head[i] == c;
            assert(coords.take(n as int)[i] == c);
        }
        if coords[m as int] == c {
            assert(coords.take(n as int)[m as int] == c);
        }
        if coords.take(n as int).contains(c) && coords[m as int] != c {
            let i = choose|i: int|
                0 <= i < coords.take(n as int).len() && coords.take(n as int)[i] == c;
            assert(head[i] == c);
        }
    }
}

/// A transition begins at its start, lasts at least the minimum and can be advanced; while it
/// runs it comes nearer to its end with every frame that takes time.
pub proof fn law_transition_ends(
    before: AnimationController,
    limits: CameraLimits,
    dt: i64,
    zoom_gap: Real64,
    pan_speed: Real64,
    step: TickStep,
    after: AnimationController,
)
    requires
        tickable(before, dt),
        before.camera_anim is Some,
        ticked(before, limits, dt, zoom_gap, pan_speed, step, after),
    ensures
        tickable(after, dt),
        after.camera_anim matches Some(b) ==> ({
            let a = before.camera_anim.unwrap();
            b.duration == a.duration && b.duration - b.elapsed == a.duration - a.elapsed - dt
                && b.elapsed < b.duration
        }),
        after.camera_anim is None <==> before.camera_anim.unwrap().elapsed + dt
            >= before.camera_anim.unwrap().duration,
{
}

/// A camera transition leads from where the camera stands to the given latitude and longitude,
/// to the given zoom as far as the limits allow, and to the given bearing and pitch, which stay
/// where none is given: to the pose that a jump with the same arguments takes at once. It lasts
/// as long as given but at least ten milliseconds, and otherwise two seconds for a flight and
/// one for a linear move.
pub proof fn law_transition_pose(
    c: MapController,
    lat: Real64,
    lon: Real64,
    zoom: Real64,
    duration: Option<i64>,
    bearing: Option<Real64>,
    pitch: Option<Real64>,
    path: BearingPath,
    easing: EasingMode,
)
    requires
        limits_ordered(c.engine.camera),
        !zoom.is_nan_spec(),
    ensures
        ({
            let a = c.transition(lat, lon, zoom, duration, bearing, pitch, path, easing);
            let v = c.engine.viewport;
            let lo = c.engine.camera.min_zoom;
            let hi = c.engine.camera.max_zoom;
            &&& a.target_lat == lat && a.target_lon == lon
            &&& a.start_lat == v.center_lat && a.start_lon == v.center_lon
            &&& a.start_zoom == v.zoom && a.start_pitch == v.pitch
            &&& lo.rank() <= a.target_zoom.rank() <= hi.rank()
            &&& lo.rank() <= zoom.rank() <= hi.rank() ==> a.target_zoom == zoom
            &&& zoom.rank() < lo.rank() ==> a.target_zoom == lo
            &&& zoom.rank() > hi.rank() ==> a.target_zoom == hi
            &&& bearing matches Some(b) ==> a.target_bearing == b
            &&& bearing is None ==> a.target_bearing == v.bearing
            &&& pitch matches Some(p) ==> a.target_pitch == p
            &&& pitch is None ==> a.target_pitch == v.pitch
            &&& duration matches Some(d) ==> a.duration >= 10_000 && a.duration >= d && (a.duration
                == d || a.duration == 10_000)
            &&& duration is None ==> a.duration == (if easing is FlyTo {
                2_000_000i64
            } else {
                1_000_000i64
            })
            &&& a.elapsed == 0
            &&& a.easing == easing
            &&& c.departing_by(a).anim.camera_anim == Some(a)
        }),
{
}

/// A turn of more than half a circle starts a full turn off, so that it takes the shorter way
/// round; a shorter turn starts where the camera stands.
pub proof fn law_shorter_turn(current: Real64, path: BearingPath)
    requires
        !path.delta.is_nan_spec(),
    ensures
        ({
            let half = (Real64 { bits: 0x4066_8000_0000_0000 }).rank();
            &&& path.delta.rank() > half ==> turn_start(current, path) == path.raised
            &&& path.delta.rank() < -half ==> turn_start(current, path) == path.lowered
            &&& -half <= path.delta.rank() <= half ==> turn_start(current, path) == current
        }),
{
}

/// Departing changes nothing but the running transition, and ends inertia.
pub proof fn law_departure(c: MapController, a: CameraAnimation)
    ensures
        ({
            let d = c.departing_by(a);
            &&& d.anim.camera_anim == Some(a)
            &&& d.anim.pan_velocity.0.bits == 0 && d.anim.pan_velocity.1.bits == 0
            &&& d.anim == (AnimationController {
                camera_anim: d.anim.camera_anim,
                pan_velocity: d.anim.pan_velocity,
                ..c.anim
            })
            &&& d == (MapController { anim: d.anim, ..c })
        }),
{
}

/// Where an event stands in a frame.
pub open spec fn event_rank(e: MapEvent) -> int {
    match e {
        MapEvent::Move { .. } => 0,
        MapEvent::Zoom { .. } => 1,
        MapEvent::Bearing { .. } => 2,
        MapEvent::Pitch { .. } => 3,
        MapEvent::MoveEnd => 4,
        MapEvent::ZoomEnd => 5,
        MapEvent::Click { .. } => 6,
    }
}

/// A frame tells of each change that is large enough, with the values that the viewport has
/// now: position from a billionth of a degree, the rest from a millionth. It tells of an end
/// where a movement or zoom of the frame before did not go on. Each is told once, movement
/// first, ends last.
pub proof fn law_frame_tells(
    v: Viewport,
    motion: Motion,
    was_moving: bool,
    was_zooming: bool,
    x: MapEvent,
)
    ensures
        ({
            let told = frame_events(pose_of(v), motion, was_moving, was_zooming);
            let tiny = Real64 { bits: 0x3e11_2e0b_e826_d695 };
            let small = Real64 { bits: 0x3eb0_c6f7_a0b5_ed8d };
            let moves = tiny.below(motion.lat) || tiny.below(motion.lon);
            let zooms = small.below(motion.zoom);
            &&& told.contains(x) <==> match x {
                MapEvent::Move { lat, lon } => moves && lat == v.center_lat && lon == v.center_lon,
                MapEvent::Zoom { zoom } => zooms && zoom == v.zoom,
                MapEvent::Bearing { bearing } => small.below(motion.bearing) && bearing
                    == v.bearing,
                MapEvent::Pitch { pitch } => small.below(motion.pitch) && pitch == v.pitch,
                MapEvent::MoveEnd => was_moving && !moves,
                MapEvent::ZoomEnd => was_zooming && !zooms,
                MapEvent::Click { .. } => false,
            }
            &&& forall|i: int, j: int|
                0 <= i < j < told.len() ==> event_rank(#[trigger] told[i]) < event_rank(
                    #[trigger] told[j],
                )
        }),
{
    law_end_events(pose_of(v), motion, was_moving, was_zooming, x);
}

/// Listeners find every event under its own name.
pub proof fn law_event_names(e: MapEvent)
    ensures
        e is Move <==> e.label() == "move"@,
        e is Zoom <==> e.label() == "zoom"@,
        e is Pitch <==> e.label() == "pitch"@,
        e is Bearing <==> e.label() == "bearing"@,
        e is MoveEnd <==> e.label() == "moveend"@,
        e is ZoomEnd <==> e.label() == "zoomend"@,
        e is Click <==> e.label() == "click"@,
{
    reveal_strlit("move");
    reveal_strlit("zoom");
    reveal_strlit("pitch");
    reveal_strlit("bearing");
    reveal_strlit("moveend");
    reveal_strlit("zoomend");
    reveal_strlit("click");
    assert("move"@[0] == 'm' && "zoom"@[0] == 'z' && "pitch"@[0] == 'p' && "bearing"@[0] == 'b'
        && "moveend"@[0] == 'm' && "zoomend"@[0] == 'z' && "click"@[0] == 'c');
    assert("move"@.len() == 4 && "zoom"@.len() == 4 && "moveend"@.len() == 7 && "zoomend"@.len()
        == 7);
}

/// Layer kinds are told apart by what they are called.
pub proof fn law_kind_names(k: LayerKind)
    ensures
        k is Raster <==> kind_label(k) == "raster"@,
        k is Terrain <==> kind_label(k) == "terrain"@,
        k is Tiles3d <==> kind_label(k) == "3dtiles"@,
{
    reveal_strlit("raster");
    reveal_strlit("terrain");
    reveal_strlit("3dtiles");
    assert("raster"@[0] == 'r' && "terrain"@[0] == 't' && "3dtiles"@[0] == '3');
}

/// Terrain takes the imagery of the lowest raster layer; without one it takes that of the
/// default layer.
pub proof fn law_imagery_choice(layers: Seq<TileLayer>)
    ensures
        (forall|i: int| 0 <= i < layers.len() ==> !((#[trigger] layers[i]).config.kind is Raster))
            ==> imagery_choice(layers) == "base"@,
        forall|i: int|
            0 <= i < layers.len() && (#[trigger] layers[i]).config.kind is Raster && (forall|j: int|
                0 <= j < i ==> !((#[trigger] layers[j]).config.kind is Raster)) ==> imagery_choice(
                layers,
            ) == layers[i].config.name@,
{
    lemma_first_raster(layers);
}

proof fn lemma_first_raster(layers: Seq<TileLayer>)
    ensures
        match first_raster(layers) {
            Some(i) => 0 <= i < layers.len() && layers[i].config.kind is Raster && forall|j: int|
                0 <= j < i ==> !((#[trigger] layers[j]).config.kind is Raster),
            None => forall|j: int|
                0 <= j < layers.len() ==> !((#[trigger] layers[j]).config.kind is Raster),
        },
    decreases layers.len(),
{
    if layers.len() > 0 {
        let init = layers.drop_last();
        lemma_first_raster(init);
        assert forall|j: int| 0 <= j < init.len() implies layers[j] == #[trigger] init[j] by {}
        match first_raster(init) {
            Some(i) => {
                assert(layers[i] == init[i]);
                assert forall|j: int| 0 <= j < i implies !((
                #[trigger] layers[j]).config.kind is Raster) by {
                    assert(layers[j] == init[j]);
                }
            },
            None => {
                assert forall|j: int| 0 <= j < layers.len() - 1 implies !((
                #[trigger] layers[j]).config.kind is Raster) by {
                    assert(layers[j] == init[j]);
                }
            },
        }
    }
}

/// Toggling turns terrain off where it is on, and on where it is off and has a source, with that
/// source and the imagery that terrain takes. On, tiles count as visible within a wider border.
/// Where the camera stands and which layers there are stays the same.
pub proof fn law_toggle(before: MapController, after: MapController, on: bool)
    requires
        toggled(before, after, on),
    ensures
        on == (after.terrain is Some),
        before.terrain is Some ==> !on && after.engine.viewport.frustum_margin.bits
            == 0x3fa9_9999_9999_999a,
        before.terrain is None && before.terrain_source_url@.len() == 0 ==> after == before,
        before.terrain is None && before.terrain_source_url@.len() > 0 ==> {
            &&& after.terrain matches Some(t)
            &&& t.url@ == before.terrain_source_url@
            &&& t.encoding == before.terrain_source_encoding
            &&& t.imagery_layer_name@ == imagery_choice(before.engine.layers@)
            &&& after.engine.viewport.frustum_margin.bits == 0x3fc3_3333_3333_3333
            &&& after.engine.redraw
        },
        before.terrain is Some ==> after.engine.redraw,
        after.engine.layers == before.engine.layers,
        after.engine.viewport == (Viewport {
            frustum_margin: after.engine.viewport.frustum_margin,
            ..before.engine.viewport
        }),
        after.anim == before.anim,
        after.pending_events == before.pending_events,
        after.departing_tiles == before.departing_tiles,
{
}

/// From a projection that is not registered, cycling goes to the one behind the first.
pub proof fn law_next_from_unknown(names: Seq<Seq<char>>, current: Seq<char>)
    requires
        !sorted_texts(names).contains(current),
    ensures
        sorted_texts(names).len() >= 2 ==> next_projection(names, current) == sorted_texts(names)[1],
        sorted_texts(names).len() == 1 ==> next_projection(names, current) == sorted_texts(names)[0],
{
    let n = sorted_texts(names).len() as int;
    if n >= 2 {
        vstd::arithmetic::div_mod::lemma_small_mod(1, n as nat);
    }
}

/// Replacing the engine or the animation state replaces nothing else.
pub proof fn law_replaced(c: MapController, engine: MapEngine, anim: AnimationController)
    ensures
        c.with_engine(engine).engine == engine,
        c.with_engine(engine).with_engine(c.engine) == c,
        c.with_anim(anim).anim == anim,
        c.with_anim(anim).with_anim(c.anim) == c,
{
}

/// A list of layers has terrain exactly where one of them is a terrain layer.
pub proof fn law_has_terrain(layers: Seq<LayerConfig>)
    ensures
        !has_terrain_layer(layers) <==> forall|i: int|
            0 <= i < layers.len() ==> !((#[trigger] layers[i]).kind is Terrain),
{
}

} // verus!
