use x_planets_core::collections::TileSet;
use x_planets_core::engine::{
    CameraLimits, LayerConfig, LayerKind, MapConfig, TerrainEncoding, Viewport,
};
use x_planets_core::interaction::animation::{EasingMode, Release, ScreenPoint, TickStep, ZoomStep};
use x_planets_core::map_controller::{BearingPath, MapController, MapEvent, Motion};
use x_planets_core::render_data::{split_by_elevation, LayerCache};
use x_planets_core::scalar::{Real32, Real64};
use x_planets_core::text::{is_ordered, sort_names};
use x_planets_core::tile::{TileCoord, VisibleTile};

fn r64(v: f64) -> Real64 {
    Real64 { bits: v.to_bits() }
}

fn f(v: Real64) -> f64 {
    f64::from_bits(v.bits)
}

fn us(seconds: f64) -> i64 {
    (seconds * 1e6).round() as i64
}

fn px(x: f64, y: f64) -> ScreenPoint {
    ScreenPoint { x: (x * 1024.0).round() as i32, y: (y * 1024.0).round() as i32 }
}

fn viewport() -> Viewport {
    Viewport {
        width: 800,
        height: 600,
        center_lat: r64(0.0),
        center_lon: r64(0.0),
        zoom: r64(0.0),
        bearing: r64(0.0),
        pitch: r64(0.0),
        frustum_margin: r64(0.05),
        tile_budget: 256,
    }
}

fn with(config: MapConfig) -> MapController {
    let limits = CameraLimits { min_zoom: r64(0.0), max_zoom: r64(22.0), max_pitch: r64(85.0) };
    let names = vec!["Web Mercator".to_string(), "Equirectangular".to_string(), "Globe".to_string()];
    MapController::new(config, viewport(), limits, names)
}

fn controller() -> MapController {
    with(MapConfig::default())
}

fn needs_redraw(c: &MapController) -> bool {
    let gap = (f(c.anim.zoom_target) - f(c.engine.viewport.zoom)).abs();
    let speed = f(c.anim.pan_velocity.0).hypot(f(c.anim.pan_velocity.1));
    c.needs_redraw(r64(gap), r64(speed))
}

fn motion(c: &MapController) -> Motion {
    let v = &c.engine.viewport;
    let p = &c.prev_pose;
    Motion {
        lat: r64((f(v.center_lat) - f(p.lat)).abs()),
        lon: r64((f(v.center_lon) - f(p.lon)).abs()),
        zoom: r64((f(v.zoom) - f(p.zoom)).abs()),
        bearing: r64((f(v.bearing) - f(p.bearing)).abs()),
        pitch: r64((f(v.pitch) - f(p.pitch)).abs()),
    }
}

fn straight() -> BearingPath {
    BearingPath { delta: r64(0.0), raised: r64(360.0), lowered: r64(-360.0) }
}

#[test]
fn test_controller_creation() {
    let ctrl = controller();
    assert!(needs_redraw(&ctrl));
    assert!(!ctrl.terrain_enabled());
    assert_eq!(ctrl.layer_count(), 1);
}

#[test]
fn test_controller_camera() {
    let mut ctrl = controller();
    ctrl.set_center(r64(37.5665), r64(126.9780));
    let (lat, lon) = ctrl.center();
    assert!((f(lat) - 37.5665).abs() < 0.001);
    assert!((f(lon) - 126.9780).abs() < 0.001);
}

#[test]
fn test_controller_zoom() {
    let mut ctrl = controller();
    ctrl.set_zoom(r64(5.0));
    assert!((f(ctrl.zoom_level()) - 5.0).abs() < 0.001);
}

#[test]
fn test_controller_projection() {
    let mut ctrl = controller();
    assert!(ctrl.set_projection("Globe"));
    assert_eq!(ctrl.projection_name(), "Globe");
    assert!(!ctrl.set_projection("NonExistent"));
}

#[test]
fn test_controller_cycle_projection() {
    let mut ctrl = controller();
    let name = ctrl.cycle_projection();
    assert!(!name.is_empty());
}

#[test]
fn test_controller_terrain_toggle() {
    let mut ctrl = controller();

    assert!(!ctrl.terrain_enabled());
    assert_eq!(ctrl.layer_count(), 1);

    ctrl.set_terrain_source("https://example.com/{z}/{x}/{y}.png", TerrainEncoding::Terrarium);

    let on = ctrl.toggle_terrain();
    assert!(on);
    assert!(ctrl.terrain_enabled());
    assert_eq!(ctrl.layer_count(), 1);
    assert!(ctrl.terrain_imagery_name().is_some());
    assert!(ctrl.terrain_url().is_some());
    assert_eq!(ctrl.terrain_encoding(), Some(TerrainEncoding::Terrarium));

    let off = ctrl.toggle_terrain();
    assert!(!off);
    assert!(!ctrl.terrain_enabled());
    assert_eq!(ctrl.layer_count(), 1);
}

#[test]
fn test_controller_terrain_toggle_without_url() {
    let mut ctrl = controller();
    let on = ctrl.toggle_terrain();
    assert!(!on);
    assert!(!ctrl.terrain_enabled());
}

#[test]
fn test_controller_tick() {
    let mut ctrl = controller();
    ctrl.anim.zoom_target = r64(5.0);
    let gap = (5.0 - f(ctrl.zoom_level())).abs();
    match ctrl.advance(us(0.016), r64(gap), r64(0.0)) {
        TickStep::Free { zoom: ZoomStep::Glide { goal, .. }, .. } => {
            let z = f(ctrl.zoom_level());
            let k = 1.0 - (-f(ctrl.anim.config.zoom_anim_speed) * 0.016).exp();
            let mut v = ctrl.engine.viewport;
            v.zoom = r64(z + (f(goal) - z) * k);
            ctrl.move_camera(v);
        }
        _ => panic!("zoom should move"),
    }
    let m = motion(&ctrl);
    ctrl.tick(m);
    assert!(f(ctrl.zoom_level()) > 2.0);
}

#[test]
fn test_controller_drag() {
    let mut ctrl = controller();
    ctrl.begin_drag();
    ctrl.record_drag(px(100.0, 100.0), us(1.0));
    ctrl.record_drag(px(200.0, 100.0), us(1.05));
    match ctrl.end_drag(us(1.05)) {
        Release::Fling { dx, dt, .. } => {
            let vx = dx as f64 / 1024.0 / (dt as f64 / 1e6);
            ctrl.anim.pan_velocity = (r64(vx), r64(0.0));
        }
        Release::Still => panic!("expected inertia"),
    }
    assert!(f(ctrl.anim.pan_velocity.0).abs() > 0.0);
}

#[test]
fn test_controller_resize() {
    let mut ctrl = controller();
    ctrl.resize(1920, 1080);
    assert_eq!(ctrl.width(), 1920);
    assert_eq!(ctrl.height(), 1080);
}

#[test]
fn event_names() {
    let zero = r64(0.0);
    let events = [
        (MapEvent::Move { lat: zero, lon: zero }, "move"),
        (MapEvent::Zoom { zoom: zero }, "zoom"),
        (MapEvent::Pitch { pitch: zero }, "pitch"),
        (MapEvent::Bearing { bearing: zero }, "bearing"),
        (MapEvent::MoveEnd, "moveend"),
        (MapEvent::ZoomEnd, "zoomend"),
        (MapEvent::Click { lat: zero, lon: zero, x: zero, y: zero }, "click"),
    ];
    for (e, name) in events {
        assert_eq!(e.name(), name);
    }
}

#[test]
fn events_follow_the_camera() {
    let mut c = controller();
    c.set_center(r64(1.0), r64(2.0));
    c.set_zoom(r64(3.0));
    c.set_bearing(r64(40.0));
    c.set_pitch(r64(20.0));
    let m = motion(&c);
    c.tick(m);
    assert_eq!(
        c.drain_events(),
        vec![
            MapEvent::Move { lat: r64(1.0), lon: r64(2.0) },
            MapEvent::Zoom { zoom: r64(3.0) },
            MapEvent::Bearing { bearing: r64(40.0) },
            MapEvent::Pitch { pitch: r64(20.0) },
        ]
    );
    // The first frame at rest reports the ends, the next one nothing.
    let m = motion(&c);
    c.tick(m);
    assert_eq!(c.drain_events(), vec![MapEvent::MoveEnd, MapEvent::ZoomEnd]);
    let m = motion(&c);
    c.tick(m);
    assert!(c.drain_events().is_empty());
}

#[test]
fn queued_events_stay_in_order() {
    let mut c = controller();
    c.push_click(r64(1.0), r64(2.0), r64(3.0), r64(4.0));
    c.set_center(r64(5.0), r64(6.0));
    let m = motion(&c);
    c.tick(m);
    let events = c.drain_events();
    assert_eq!(events.len(), 2);
    assert_eq!(events[0].name(), "click");
    assert_eq!(events[1].name(), "move");
    assert!(c.drain_events().is_empty());
}

#[test]
fn tiny_changes_are_no_events() {
    let mut c = controller();
    let mut v = c.engine.viewport;
    v.center_lat = r64(1e-10);
    v.zoom = r64(2.0 + 1e-7);
    c.move_camera(v);
    let m = motion(&c);
    c.tick(m);
    assert!(c.drain_events().is_empty());
}

#[test]
fn zoom_is_limited() {
    let mut c = controller();
    c.set_zoom(r64(40.0));
    assert_eq!(c.zoom_level(), r64(22.0));
    assert_eq!(c.anim.zoom_target, r64(22.0));
    c.set_min_zoom(r64(3.0));
    c.set_zoom(r64(-1.0));
    assert_eq!(c.zoom_level(), r64(3.0));
    c.set_max_zoom(r64(10.0));
    assert_eq!(c.max_zoom(), r64(10.0));
    assert_eq!(c.min_zoom(), r64(3.0));
}

#[test]
fn lowering_the_largest_pitch_lowers_the_pitch() {
    let mut c = controller();
    c.set_pitch(r64(60.0));
    c.set_max_pitch(r64(70.0));
    assert_eq!(c.pitch_angle(), r64(60.0));
    c.set_max_pitch(r64(45.0));
    assert_eq!(c.pitch_angle(), r64(45.0));
    assert_eq!(c.max_pitch(), r64(45.0));
}

#[test]
fn jumping_ends_a_transition() {
    let mut c = controller();
    c.fly_to(r64(1.0), r64(2.0), r64(3.0), None, None, None, straight());
    assert!(c.anim.camera_anim.is_some());
    c.jump_to(r64(7.0), r64(8.0), r64(9.0), Some(r64(10.0)), None);
    assert!(c.anim.camera_anim.is_none());
    assert_eq!(c.center(), (r64(7.0), r64(8.0)));
    assert_eq!(c.zoom_level(), r64(9.0));
    assert_eq!(c.bearing(), r64(10.0));
    assert_eq!(c.pitch_angle(), r64(0.0));
}

#[test]
fn transitions_have_default_durations() {
    let mut c = controller();
    c.fly_to(r64(1.0), r64(2.0), r64(3.0), None, None, None, straight());
    let a = c.anim.camera_anim.unwrap();
    assert_eq!(a.duration, 2_000_000);
    assert_eq!(a.easing, EasingMode::FlyTo);
    c.ease_to(r64(1.0), r64(2.0), r64(99.0), None, None, Some(r64(5.0)), straight());
    let a = c.anim.camera_anim.unwrap();
    assert_eq!(a.duration, 1_000_000);
    assert_eq!(a.easing, EasingMode::EaseTo);
    assert_eq!(a.target_zoom, r64(22.0));
    assert_eq!(a.target_pitch, r64(5.0));
    c.ease_to(r64(1.0), r64(2.0), r64(3.0), Some(0), None, None, straight());
    assert_eq!(c.anim.camera_anim.unwrap().duration, 10_000);
    c.stop_animation();
    assert!(c.anim.camera_anim.is_none());
}

#[test]
fn turns_take_the_shorter_way() {
    let start = |current: f64, target: f64| {
        let mut c = controller();
        c.set_bearing(r64(current));
        let path = BearingPath {
            delta: r64(target - current),
            raised: r64(current + 360.0),
            lowered: r64(current - 360.0),
        };
        c.fly_to(r64(0.0), r64(0.0), r64(2.0), None, Some(r64(target)), None, path);
        f(c.anim.camera_anim.unwrap().start_bearing)
    };
    assert_eq!(start(10.0, 350.0), 370.0);
    assert_eq!(start(350.0, 10.0), -10.0);
    assert_eq!(start(10.0, 190.0), 10.0);
    assert_eq!(start(0.0, 90.0), 0.0);
}

#[test]
fn cycling_visits_all_projections() {
    let mut c = controller();
    assert_eq!(c.cycle_projection(), "Equirectangular");
    assert_eq!(c.cycle_projection(), "Globe");
    assert_eq!(c.cycle_projection(), "Web Mercator");
    c.engine.active_projection = "unknown".to_string();
    assert_eq!(c.cycle_projection(), "Globe");
}

#[test]
fn names_sort_like_in_a_dictionary() {
    let names: Vec<String> =
        ["b", "ab", "a", "", "aé", "az"].iter().map(|s| s.to_string()).collect();
    let mut expected = names.clone();
    expected.sort();
    assert_eq!(sort_names(&names), expected);
    assert!(is_ordered("a", "a"));
    assert!(is_ordered("a", "ab"));
    assert!(!is_ordered("ab", "a"));
    assert!(is_ordered("", "x"));
}

fn layer(name: &str, kind: LayerKind, z: i32) -> LayerConfig {
    let mut c = LayerConfig::default();
    c.name = name.to_string();
    c.kind = kind;
    c.z_order = z;
    c
}

fn terrain(imagery: &str) -> LayerKind {
    LayerKind::Terrain { imagery_layer: imagery.to_string(), encoding: TerrainEncoding::MapboxRgb }
}

#[test]
fn layer_metadata() {
    let mut c = controller();
    c.add_layer(layer("hills", terrain("base"), 5));
    c.add_layer(layer("city", LayerKind::Tiles3d, 6));
    assert_eq!(c.layer_names(), vec!["base", "hills", "city"]);
    assert_eq!(c.get_layer_info("base").unwrap().kind, "raster");
    assert_eq!(c.get_layer_info("hills").unwrap().kind, "terrain");
    let city = c.get_layer_info("city").unwrap();
    assert_eq!(city.kind, "3dtiles");
    assert_eq!(city.z_order, 6);
    assert!(city.visible);
    assert!(c.get_layer_info("none").is_none());
    assert!(c.set_layer_opacity("city", Real32 { bits: 0.25f32.to_bits() }));
    assert!(c.set_layer_visible("city", false));
    let city = c.get_layer_info("city").unwrap();
    assert_eq!(city.opacity.bits, 0.25f32.to_bits());
    assert!(!city.visible);
    assert!(c.remove_layer("city"));
    assert!(!c.remove_layer("city"));
}

#[test]
fn terrain_takes_the_first_raster_layer() {
    let mut config = MapConfig::default();
    config.layers = vec![
        layer("hills", terrain("sat"), 0),
        layer("sat", LayerKind::Raster, 1),
        layer("roads", LayerKind::Raster, 2),
    ];
    let mut c = with(config);
    assert_eq!(c.engine.viewport.frustum_margin, r64(0.15));
    c.set_terrain_source("https://e/{z}", TerrainEncoding::MapboxRgb);
    assert!(c.toggle_terrain());
    assert_eq!(c.terrain_imagery_name(), Some("sat"));
    assert_eq!(c.terrain_url(), Some("https://e/{z}"));
    assert!(!c.toggle_terrain());
    assert_eq!(c.engine.viewport.frustum_margin, r64(0.05));
    assert_eq!(c.terrain_url(), None);
    c.remove_layer("sat");
    c.remove_layer("roads");
    assert!(c.toggle_terrain());
    assert_eq!(c.terrain_imagery_name(), Some("base"));
}

#[test]
fn a_configured_terrain_source_is_used() {
    let mut config = MapConfig::default();
    config.terrain_url = "https://terrain".to_string();
    config.terrain_encoding = TerrainEncoding::MapboxRgb;
    let mut c = with(config);
    assert_eq!(c.engine.viewport.frustum_margin, r64(0.05));
    assert!(c.toggle_terrain());
    assert_eq!(c.engine.viewport.frustum_margin, r64(0.15));
    assert_eq!(c.terrain_encoding(), Some(TerrainEncoding::MapboxRgb));
}

#[test]
fn redraw_follows_animation() {
    let mut c = controller();
    c.frame_rendered();
    assert!(!needs_redraw(&c));
    c.register_tile_loaded(TileCoord::new(1, 0, 0), us(1.0));
    assert!(needs_redraw(&c));
    c.gc_fades(us(9.0));
    assert!(!needs_redraw(&c));
    let mut v = c.engine.viewport;
    v.zoom = r64(4.0);
    c.zoom_camera(v);
    assert_eq!(c.anim.zoom_target, r64(4.0));
    assert!(needs_redraw(&c));
}

#[test]
fn budget_and_double_clicks() {
    let mut c = controller();
    c.set_tile_budget(7);
    assert_eq!(c.tile_budget(), 7);
    assert!(!c.check_double_click(px(1.0, 1.0), us(1.0)));
    assert!(c.check_double_click(px(2.0, 1.0), us(1.1)));
    assert!(!c.check_double_click(px(2.0, 1.0), us(1.2)));
}

fn set(coords: &[TileCoord]) -> TileSet {
    let mut s = TileSet::new();
    for c in coords {
        s.insert(*c);
    }
    s
}

fn cache(name: &str, textures: &[TileCoord], elevation: &[TileCoord]) -> LayerCache {
    LayerCache {
        name: name.to_string(),
        available: set(textures),
        textures: set(textures),
        elevation: set(elevation),
    }
}

fn visible(coords: &[TileCoord]) -> Vec<VisibleTile> {
    coords.iter().map(|c| VisibleTile::canonical(*c)).collect()
}

#[test]
fn entering_tiles_start_to_fade() {
    let a = TileCoord::new(2, 1, 1);
    let mut c = controller();
    assert_eq!(c.update_visibility(&visible(&[a]), &set(&[a]), us(1.0)), vec![a]);
    assert_eq!(c.tile_fade_elapsed(&a, us(1.5)), Some(us(0.5) as i128));
    assert!(c.update_visibility(&visible(&[a]), &set(&[a]), us(1.1)).is_empty());
    c.update_visibility(&[], &set(&[a]), us(2.0));
    assert_eq!(c.departing_tiles.get(&a), Some(us(2.0)));
}

#[test]
fn flat_layers_are_drawn_bottom_to_top() {
    let a = TileCoord::new(2, 1, 1);
    let mut config = MapConfig::default();
    config.layers = vec![
        layer("top", LayerKind::Raster, 9),
        layer("low", LayerKind::Raster, 1),
        layer("unknown", LayerKind::Raster, 2),
        layer("city", LayerKind::Tiles3d, 3),
    ];
    let c = with(config);
    let views = [cache("top", &[a], &[]), cache("low", &[a], &[]), cache("city", &[a], &[])];
    let out = c.build_render_data(&views, &visible(&[a]), us(1.0));
    let names: Vec<&str> = out.raster_layers.iter().map(|l| l.name.as_str()).collect();
    assert_eq!(names, vec!["low", "top"]);
    assert!(out.terrain_layers.is_empty());
    assert!(out.terrain_overlay_layers.is_empty());
}

#[test]
fn hidden_layers_are_not_drawn() {
    let a = TileCoord::new(2, 1, 1);
    let mut c = controller();
    c.set_layer_visible("base", false);
    let out = c.build_render_data(&[cache("base", &[a], &[])], &visible(&[a]), us(1.0));
    assert!(out.raster_layers.is_empty());
}

#[test]
fn fading_tiles_add_an_overlay() {
    let child = TileCoord::new(2, 1, 1);
    let parent = TileCoord::new(1, 0, 0);
    let mut c = controller();
    c.register_tile_loaded(child, us(1.0));
    let views = [cache("base", &[child, parent], &[])];
    let out = c.build_render_data(&views, &visible(&[child]), us(1.25));
    assert_eq!(out.raster_layers.len(), 2);
    assert_eq!(out.raster_layers[0].tiles[0].texture_coord, parent);
    let over = &out.raster_layers[1];
    assert_eq!(over.name, "crossfade-overlay");
    assert_eq!(over.source, "base");
    assert_eq!(over.tiles[0].texture_coord, child);
    let share = over.tile_opacity_overrides.get(&child).unwrap();
    assert_eq!(2 * share.num, share.den);
    let out = c.build_render_data(&views, &visible(&[child]), us(1.5));
    assert_eq!(out.raster_layers.len(), 1);
    assert_eq!(out.raster_layers[0].tiles[0].texture_coord, child);
}

#[test]
fn terrain_layers_consume_their_imagery() {
    let a = TileCoord::new(3, 1, 1);
    let up = TileCoord::new(2, 0, 0);
    let mut config = MapConfig::default();
    config.layers =
        vec![layer("sat", LayerKind::Raster, 0), layer("hills", terrain("sat"), 1)];
    let mut c = with(config);
    let views = [cache("sat", &[a], &[]), cache("hills", &[], &[up])];
    let out = c.build_render_data(&views, &visible(&[a]), us(1.0));
    assert!(out.raster_layers.is_empty());
    assert_eq!(out.terrain_layers.len(), 1);
    let t = &out.terrain_layers[0];
    assert_eq!(t.name, "hills");
    assert_eq!(t.imagery_source, "sat");
    assert_eq!(t.elevation_source, "hills");
    assert_eq!(t.elevation_data.get(&a), Some(up));
    // Without the terrain layer the imagery is drawn flat again.
    c.set_layer_visible("hills", false);
    let out = c.build_render_data(&views, &visible(&[a]), us(1.0));
    assert_eq!(out.raster_layers.len(), 1);
    assert!(out.terrain_layers.is_empty());
}

#[test]
fn toggled_terrain_lies_over_the_flat_layer() {
    let a = TileCoord::new(2, 1, 1);
    let b = TileCoord::new(2, 3, 3);
    let root = TileCoord::new(0, 0, 0);
    let mut c = controller();
    c.set_terrain_source("https://e", TerrainEncoding::Terrarium);
    c.toggle_terrain();
    // `b` has elevation, but no imagery; `a` has both.
    let views = [cache("base", &[a], &[a, b])];
    let out = c.build_render_data(&views, &visible(&[a, b]), us(1.0));
    assert_eq!(out.raster_layers.len(), 1);
    assert_eq!(out.terrain_layers.len(), 1);
    assert_eq!(out.terrain_layers[0].tiles.len(), 1);
    assert_eq!(out.terrain_layers[0].tiles[0].coord, a);
    // An ancestor's imagery and elevation serve both.
    let views = [cache("base", &[root], &[root])];
    let out = c.build_render_data(&views, &visible(&[a, b]), us(1.0));
    assert_eq!(out.terrain_layers[0].tiles.len(), 2);
    assert_eq!(out.terrain_layers[0].elevation_data.get(&b), Some(root));
    // Without elevation there is no terrain pass.
    let views = [cache("base", &[root], &[])];
    let out = c.build_render_data(&views, &visible(&[a, b]), us(1.0));
    assert!(out.terrain_layers.is_empty());
    assert_eq!(out.raster_layers[0].tiles.len(), 2);
}

#[test]
fn tiles_split_by_elevation() {
    let a = TileCoord::new(2, 1, 1);
    let b = TileCoord::new(2, 3, 3);
    let v = cache("base", &[a, b], &[a]);
    let (flat, over) = split_by_elevation(&visible(&[a, b]), &v, &v);
    assert_eq!(flat, visible(&[b]));
    assert_eq!(over, visible(&[a]));
}

#[test]
fn a_fade_without_length_ends_at_once() {
    let a = TileCoord::new(2, 1, 1);
    let gone = TileCoord::new(3, 2, 2);
    let mut c = controller();
    c.anim.config.fade_duration = 0;
    c.departing_tiles.insert(gone, us(1.0));
    let views = [cache("base", &[a, gone], &[])];
    for now in [1.0, 1.25] {
        assert_eq!(c.build_render_data(&views, &visible(&[a]), us(now)).raster_layers.len(), 1);
    }
    // Before its departure the tile is drawn, with an opacity without bound.
    let out = c.build_render_data(&views, &visible(&[a]), us(0.75));
    let over = &out.raster_layers[1];
    assert_eq!(over.tiles[0].coord, gone);
    let share = over.tile_opacity_overrides.get(&gone).unwrap();
    assert_eq!((share.num, share.den), (1, 0));
    assert_eq!(share.num as f64 / share.den as f64, f64::INFINITY);
}

#[test]
fn departed_tiles_fade_out() {
    let a = TileCoord::new(2, 1, 1);
    let gone = TileCoord::new(3, 2, 2);
    let mut c = controller();
    c.departing_tiles.insert(gone, us(1.0));
    let views = [cache("base", &[a, gone], &[])];
    let out = c.build_render_data(&views, &visible(&[a]), us(1.25));
    assert_eq!(out.raster_layers.len(), 2);
    let over = &out.raster_layers[1];
    assert_eq!(over.name, "zoom-out-overlay");
    assert_eq!(over.opacity, Real32::one());
    assert_eq!(over.tiles[0].coord, gone);
    assert_eq!(over.tiles[0].display_x, 2);
    assert!(over.texture_views.contains(&gone));
    let share = over.tile_opacity_overrides.get(&gone).unwrap();
    assert_eq!((share.num, share.den), (250_000, 500_000));
    // A hundredth can no longer be seen.
    let out = c.build_render_data(&views, &visible(&[a]), us(1.495));
    assert_eq!(out.raster_layers.len(), 1);
    let out = c.build_render_data(&views, &visible(&[a]), us(1.494));
    assert_eq!(out.raster_layers.len(), 2);
    // Before its departure there is more than all of it.
    let out = c.build_render_data(&views, &visible(&[a]), us(0.5));
    let share = out.raster_layers[1].tile_opacity_overrides.get(&gone).unwrap();
    assert_eq!((share.num, share.den), (1_000_000, 500_000));
    // Without its texture the tile is not drawn.
    let views = [cache("base", &[a], &[])];
    let out = c.build_render_data(&views, &visible(&[a]), us(1.25));
    assert_eq!(out.raster_layers.len(), 1);
}
