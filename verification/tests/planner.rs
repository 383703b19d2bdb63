use x_planets_core::collections::TileSet;
use x_planets_core::engine::{LayerKind, TerrainEncoding};
use x_planets_core::layer_state::{LayerSnapshot, LayerStateBase};
use x_planets_core::mercator::MercatorPoint;
use x_planets_core::tile::{TileCoord, VisibleTile};
use x_planets_core::tile_load_planner::{plan_tile_loads, PlannedRequest, PlannedRequestKind};

fn raster() -> LayerSnapshot {
    let mut base =
        LayerStateBase::new("base".to_string(), LayerKind::Raster, "u".to_string(), 6);
    base.max_zoom = 18;
    LayerSnapshot {
        base,
        failed: TileSet::new(),
        elevation: TileSet::new(),
        has_elevation_source: false,
    }
}

fn cache_base(layer: &mut LayerSnapshot) {
    layer.base.available_coords_cache.insert(TileCoord::new(0, 0, 0));
    for y in 0..2 {
        for x in 0..2 {
            layer.base.available_coords_cache.insert(TileCoord::new(1, x, y));
        }
    }
}

fn middle() -> MercatorPoint {
    MercatorPoint { x: 1 << 31, y: 1 << 31 }
}

fn plan(layer: &LayerSnapshot, visible: &[VisibleTile]) -> Vec<PlannedRequest> {
    let mut set = TileSet::new();
    for v in visible {
        set.insert(v.coord);
    }
    let (_, requests) = plan_tile_loads(layer, visible, &set, middle());
    requests
}

fn tile(z: u8, x: u32, y: u32) -> VisibleTile {
    VisibleTile { coord: TileCoord::new(z, x, y), display_x: x as i64 }
}

#[test]
fn base_tiles_always_planned() {
    let layer = raster();
    let requests = plan(&layer, &[]);
    let base_coords: Vec<_> = requests.iter().filter(|r| r.priority == 0).collect();
    assert_eq!(base_coords.len(), 5);
}

#[test]
fn parent_first_loading_enqueues_ancestors() {
    let mut layer = raster();
    cache_base(&mut layer);
    let requests = plan(&layer, &[tile(5, 10, 10)]);
    let ancestor_reqs: Vec<_> = requests
        .iter()
        .filter(|r| r.coord.z < 5 && r.coord.z > 1 && r.priority > 0)
        .collect();
    assert!(!ancestor_reqs.is_empty(), "should plan ancestor loads");
}

#[test]
fn overzoom_clamping() {
    let mut layer = raster();
    layer.base.max_zoom = 10;
    cache_base(&mut layer);
    let requests = plan(&layer, &[tile(12, 40, 40), tile(12, 41, 40)]);
    let clamped = TileCoord::new(12, 40, 40).clamp_to_zoom(10);
    let z10_reqs: Vec<_> = requests.iter().filter(|r| r.coord == clamped).collect();
    assert!(!z10_reqs.is_empty(), "should request the clamped z=10 tile");
    let z12_reqs: Vec<_> = requests.iter().filter(|r| r.coord.z == 12).collect();
    assert!(z12_reqs.is_empty(), "should NOT request tiles beyond max_zoom");
}

#[test]
fn fallback_depth_priority() {
    let mut layer = raster();
    cache_base(&mut layer);
    layer.base.available_coords_cache.insert(TileCoord::new(4, 0, 0));
    let requests = plan(&layer, &[tile(5, 0, 0), tile(5, 10, 10)]);
    let req_with = requests.iter().find(|r| r.coord == TileCoord::new(5, 0, 0));
    let req_without = requests.iter().find(|r| r.coord == TileCoord::new(5, 10, 10));
    if let (Some(rw), Some(rwo)) = (req_with, req_without) {
        assert!(rw.priority > 0);
        assert!(rwo.priority > 0);
    }
}

#[test]
fn elevation_base_tile_planned() {
    let mut layer = raster();
    layer.has_elevation_source = true;
    let requests = plan(&layer, &[]);
    let elev_base: Vec<_> = requests
        .iter()
        .filter(|r| r.kind == PlannedRequestKind::Elevation && r.coord.z == 0)
        .collect();
    assert_eq!(elev_base.len(), 1, "should plan elevation base tile");
}

#[test]
fn urgent_requests_come_first() {
    let mut layer = raster();
    layer.base.max_concurrent = 40;
    let requests = plan(&layer, &[tile(4, 15, 0), tile(4, 8, 8), tile(4, 3, 4)]);
    assert!(requests.windows(2).all(|w| w[0].priority <= w[1].priority));
    assert_eq!(requests.iter().take(5).filter(|r| r.coord.z <= 1).count(), 5);
}

#[test]
fn nothing_loaded_is_requested_again() {
    let mut layer = raster();
    cache_base(&mut layer);
    let shown = tile(2, 1, 1);
    layer.base.available_coords_cache.insert(shown.coord);
    assert!(plan(&layer, &[shown]).is_empty());
    let mut layer = raster();
    cache_base(&mut layer);
    layer.base.pending_coords.insert(shown.coord);
    assert!(plan(&layer, &[shown]).iter().all(|r| r.coord != shown.coord));
    let mut layer = raster();
    cache_base(&mut layer);
    layer.failed.insert(shown.coord);
    assert!(plan(&layer, &[shown]).iter().all(|r| r.coord != shown.coord));
}

#[test]
fn terrain_layers_request_terrain() {
    let mut layer = raster();
    layer.base.kind = LayerKind::Terrain {
        imagery_layer: "sat".to_string(),
        encoding: TerrainEncoding::Terrarium,
    };
    let requests = plan(&layer, &[]);
    assert!(requests.iter().any(|r| r.kind == PlannedRequestKind::Terrain));
}

#[test]
fn needed_tiles_hold_the_paths_to_the_root() {
    let layer = raster();
    let v = tile(3, 5, 6);
    let mut set = TileSet::new();
    set.insert(v.coord);
    let (needed, _) = plan_tile_loads(&layer, &[v], &set, middle());
    assert!(needed.raster.contains(&v.coord));
    assert!(needed.raster.contains(&TileCoord::new(2, 2, 3)));
    assert!(needed.raster.contains(&TileCoord::new(0, 0, 0)));
    assert!(needed.elevation.contains(&v.coord));
    assert!(!needed.elevation.contains(&TileCoord::new(2, 2, 3)));
}

#[test]
fn elevation_is_measured_where_the_copy_is_shown() {
    // The same tile one world to the left is farther from the middle; imagery is measured at
    // the tile's own place.
    let mut layer = raster();
    cache_base(&mut layer);
    layer.has_elevation_source = true;
    let near = VisibleTile { coord: TileCoord::new(2, 2, 2), display_x: 2 };
    let far = VisibleTile { coord: TileCoord::new(2, 2, 2), display_x: -2 };
    let a = plan(&layer, &[near]);
    let b = plan(&layer, &[far]);
    let find = |r: &Vec<PlannedRequest>, k: PlannedRequestKind| {
        r.iter().find(|q| q.coord == near.coord && q.kind == k).unwrap().priority
    };
    let elevation = PlannedRequestKind::Elevation;
    assert!(find(&a, elevation) < find(&b, elevation));
    let raster = PlannedRequestKind::Raster;
    assert_eq!(find(&a, raster), find(&b, raster));
    // An eighth of the world away along both axes, weighted with 100.
    let eighth: u128 = 1 << 29;
    assert_eq!(find(&a, elevation), 100 * 2 * eighth * eighth);
}

#[test]
fn nearer_elevation_is_requested_first() {
    let mut layer = raster();
    cache_base(&mut layer);
    layer.has_elevation_source = true;
    let far = tile(2, 0, 0);
    let near = tile(2, 2, 2);
    let beside = tile(2, 1, 1);
    let order: Vec<TileCoord> = plan(&layer, &[far, near, beside])
        .iter()
        .filter(|r| r.kind == PlannedRequestKind::Elevation)
        .map(|r| r.coord)
        .collect();
    // The root comes first; tiles at the same distance stay in order.
    assert_eq!(order, vec![TileCoord::new(0, 0, 0), near.coord, beside.coord, far.coord]);
}

#[test]
fn layer_state_defaults() {
    let mut s = LayerStateBase::new("n".to_string(), LayerKind::Raster, "u".to_string(), 2);
    assert_eq!((s.min_zoom, s.max_zoom), (0, 22));
    assert_eq!(s.max_elevation_concurrent, 2);
    assert_eq!(
        LayerStateBase::new("n".to_string(), LayerKind::Raster, "u".to_string(), 9)
            .max_elevation_concurrent,
        4
    );
    let a = TileCoord::new(1, 0, 0);
    let b = TileCoord::new(1, 1, 0);
    s.refresh_available_cache(&[a, a]);
    assert!(s.available_coords_cache.contains(&a));
    s.refresh_available_cache(&[b]);
    assert!(!s.available_coords_cache.contains(&a));
    assert_eq!(s.available_coords_cache.len(), 1);
}

#[test]
fn tile_addresses() {
    let t = TileCoord::new(3, 5, 6);
    assert_eq!(t.parent(), Some(TileCoord::new(2, 2, 3)));
    assert_eq!(TileCoord::new(0, 0, 0).parent(), None);
    assert_eq!(t.extent(), 8);
    assert_eq!(t.clamp_to_zoom(1), TileCoord::new(1, 1, 1));
    assert_eq!(t.clamp_to_zoom(9), t);
    let children = t.children();
    assert_eq!(children[3], TileCoord::new(4, 11, 13));
    assert!(children.iter().all(|c| c.parent() == Some(t)));
    assert_eq!(VisibleTile::canonical(t).display_x, 5);
}
