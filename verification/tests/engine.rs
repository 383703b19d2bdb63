use x_planets_core::engine::{
    CameraLimits, LayerConfig, LayerKind, MapConfig, MapEngine, TerrainEncoding, Viewport,
};
use x_planets_core::scalar::{Real32, Real64};

fn r32(v: f32) -> Real32 {
    Real32 { bits: v.to_bits() }
}

fn r64(v: f64) -> Real64 {
    Real64 { bits: v.to_bits() }
}

fn viewport(width: u32, height: u32) -> Viewport {
    Viewport {
        width,
        height,
        center_lat: r64(0.0),
        center_lon: r64(0.0),
        zoom: r64(0.0),
        bearing: r64(0.0),
        pitch: r64(0.0),
        frustum_margin: r64(0.05),
        tile_budget: 256,
    }
}

fn limits() -> CameraLimits {
    CameraLimits { min_zoom: r64(0.0), max_zoom: r64(22.0), max_pitch: r64(85.0) }
}

fn projections() -> Vec<String> {
    vec!["Web Mercator".to_string(), "Equirectangular".to_string(), "Globe".to_string()]
}

fn engine(config: MapConfig) -> MapEngine {
    MapEngine::new(config, viewport(800, 600), limits(), projections())
}

fn layer(name: &str, z_order: i32) -> LayerConfig {
    let mut c = LayerConfig::default();
    c.name = name.to_string();
    c.z_order = z_order;
    c
}

fn names(e: &MapEngine) -> Vec<&str> {
    e.layers.iter().map(|l| l.config.name.as_str()).collect()
}

#[test]
fn test_engine_creation() {
    let engine = engine(MapConfig::default());
    assert!(engine.needs_redraw());
    assert!(engine.has_active_projection());
}

#[test]
fn test_engine_resize() {
    let mut engine = engine(MapConfig::default());
    engine.frame_rendered();
    assert!(!engine.needs_redraw());

    engine.resize(1920, 1080);
    assert!(engine.needs_redraw());
    assert_eq!(engine.viewport.width, 1920);
}

#[test]
fn test_engine_set_projection() {
    let mut engine = engine(MapConfig::default());
    assert!(engine.set_projection("Equirectangular"));
    assert!(!engine.set_projection("NonExistent"));
}

#[test]
fn test_default_config_creates_base_layer() {
    let engine = engine(MapConfig::default());
    assert_eq!(engine.layer_count(), 1);
    let base = engine.get_layer("base").unwrap();
    assert_eq!(base.config.opacity, r32(1.0));
    assert!(base.config.visible);
    assert_eq!(base.config.z_order, 0);
}

#[test]
fn test_engine_add_layer() {
    let mut engine = engine(MapConfig::default());
    engine.frame_rendered();

    let mut sat = layer("satellite", 10);
    sat.tile_source_url = "https://example.com/{z}/{x}/{y}.png".to_string();
    sat.opacity = r32(0.8);
    engine.add_layer(sat);

    assert_eq!(engine.layer_count(), 2);
    assert!(engine.needs_redraw());
    let sat = engine.get_layer("satellite").unwrap();
    assert_eq!(sat.config.opacity, r32(0.8));
}

#[test]
fn test_engine_remove_layer() {
    let mut engine = engine(MapConfig::default());
    engine.add_layer(layer("overlay", 5));
    assert_eq!(engine.layer_count(), 2);
    assert!(engine.remove_layer("overlay"));
    assert_eq!(engine.layer_count(), 1);
    assert!(!engine.remove_layer("nonexistent"));
}

#[test]
fn test_engine_layer_opacity() {
    let mut engine = engine(MapConfig::default());
    engine.frame_rendered();
    assert!(engine.set_layer_opacity("base", r32(0.5)));
    assert_eq!(engine.get_layer("base").unwrap().config.opacity, r32(0.5));
    assert!(engine.needs_redraw());

    engine.set_layer_opacity("base", r32(2.0));
    assert_eq!(engine.get_layer("base").unwrap().config.opacity, r32(1.0));
    engine.set_layer_opacity("base", r32(-1.0));
    assert_eq!(engine.get_layer("base").unwrap().config.opacity, r32(0.0));

    assert!(!engine.set_layer_opacity("nonexistent", r32(0.5)));
}

#[test]
fn test_engine_layer_visibility() {
    let mut engine = engine(MapConfig::default());
    engine.frame_rendered();
    assert!(engine.set_layer_visible("base", false));
    assert!(!engine.get_layer("base").unwrap().config.visible);
    assert!(engine.needs_redraw());
    assert_eq!(engine.visible_layers().len(), 0);

    engine.set_layer_visible("base", true);
    assert_eq!(engine.visible_layers().len(), 1);
}

#[test]
fn test_engine_layer_z_order() {
    let mut config = MapConfig::default();
    config.layers = vec![layer("top", 100), layer("mid", 50), layer("bottom", 0)];
    let engine = engine(config);
    assert_eq!(names(&engine), vec!["bottom", "mid", "top"]);
}

#[test]
fn equal_z_orders_keep_their_sequence() {
    let mut config = MapConfig::default();
    config.layers = vec![layer("a", 1), layer("b", 0), layer("c", 1), layer("d", -5)];
    let mut engine = engine(config);
    assert_eq!(names(&engine), vec!["d", "b", "a", "c"]);
    assert_eq!(engine.add_layer(layer("e", 1)), 4);
    assert_eq!(engine.add_layer(layer("f", i32::MIN)), 0);
    assert_eq!(names(&engine), vec!["f", "d", "b", "a", "c", "e"]);
}

#[test]
fn adding_reports_the_first_layer_of_that_name() {
    let mut engine = engine(MapConfig::default());
    assert_eq!(engine.add_layer(layer("base", 7)), 0);
    assert_eq!(engine.layer_count(), 2);
    assert!(engine.remove_layer("base"));
    assert_eq!(engine.layer_count(), 0);
}

#[test]
fn removing_an_unknown_layer_asks_for_no_redraw() {
    let mut engine = engine(MapConfig::default());
    engine.frame_rendered();
    assert!(!engine.remove_layer("nothing"));
    assert!(!engine.needs_redraw());
    assert!(engine.remove_layer("base"));
    assert!(engine.needs_redraw());
}

#[test]
fn removing_keeps_the_others_in_order() {
    let mut engine = engine(MapConfig::default());
    engine.add_layer(layer("x", 1));
    engine.add_layer(layer("y", 2));
    engine.add_layer(layer("x", 3));
    engine.remove_layer("x");
    assert_eq!(names(&engine), vec!["base", "y"]);
}

#[test]
fn unknown_projection_changes_nothing() {
    let mut engine = engine(MapConfig::default());
    engine.frame_rendered();
    assert!(!engine.set_projection("NonExistent"));
    assert!(!engine.needs_redraw());
    assert_eq!(engine.active_projection, "Web Mercator");
    engine.active_projection = "gone".to_string();
    assert!(!engine.has_active_projection());
}

#[test]
fn default_configuration() {
    let c = MapConfig::default();
    assert_eq!(c.zoom, r64(2.0));
    assert_eq!(c.projection, "Web Mercator");
    assert_eq!(c.terrain_exaggeration, r64(1.5));
    assert_eq!(c.max_concurrent_loads, 6);
    assert_eq!(c.max_cached_tiles, 256);
    assert!(c.terrain_url.is_empty());
    assert_eq!(LayerKind::default(), LayerKind::Raster);
}

#[test]
fn base_layer_takes_source_and_limits_from_the_configuration() {
    let mut c = MapConfig::default();
    c.tile_source_url = "https://tiles.example/{z}".to_string();
    c.max_cached_tiles = 12;
    c.max_concurrent_loads = 3;
    let e = engine(c);
    let base = e.get_layer("base").unwrap();
    assert_eq!(base.config.tile_source_url, "https://tiles.example/{z}");
    assert_eq!(base.config.max_cached_tiles, 12);
    assert_eq!(base.config.max_concurrent_loads, 3);
}

#[test]
fn layers_can_be_changed_in_place() {
    let mut e = engine(MapConfig::default());
    assert!(e.get_layer_mut("none").is_none());
    e.get_layer_mut("base").unwrap().config.kind =
        LayerKind::Terrain { imagery_layer: "sat".to_string(), encoding: TerrainEncoding::MapboxRgb };
    match &e.get_layer("base").unwrap().config.kind {
        LayerKind::Terrain { imagery_layer, encoding } => {
            assert_eq!(imagery_layer, "sat");
            assert_eq!(*encoding, TerrainEncoding::MapboxRgb);
        }
        _ => panic!("kind was not changed"),
    }
}

#[test]
fn opacity_clamp_passes_nan() {
    let mut e = engine(MapConfig::default());
    e.set_layer_opacity("base", r32(f32::NAN));
    assert!(f32::from_bits(e.get_layer("base").unwrap().config.opacity.bits).is_nan());
    e.set_layer_opacity("base", r32(f32::NEG_INFINITY));
    assert_eq!(e.get_layer("base").unwrap().config.opacity, r32(0.0));
}

#[test]
fn real_numbers_compare_as_numbers() {
    assert!(r64(-1.0).less(r64(1.0)));
    assert!(r64(1.0).less(r64(2.0)));
    assert!(r64(-2.0).less(r64(-1.0)));
    assert!(!r64(0.0).less(r64(-0.0)));
    assert!(!r64(-0.0).less(r64(0.0)));
    assert!(!r64(f64::NAN).less(r64(1.0)));
    assert!(!r64(1.0).less(r64(f64::NAN)));
    assert!(r64(f64::NEG_INFINITY).less(r64(f64::MIN)));
    assert_eq!(r64(30.0).clamp_to(r64(0.0), r64(22.0)), r64(22.0));
    assert_eq!(r64(-3.0).clamp_to(r64(0.0), r64(22.0)), r64(0.0));
    assert_eq!(r64(4.5).clamp_to(r64(0.0), r64(22.0)), r64(4.5));
    assert_eq!(r64(0.001).at_least(r64(0.01)), r64(0.01));
    assert_eq!(r64(f64::NAN).at_least(r64(0.01)), r64(0.01));
}
