use x_planets_core::collections::TileSet;
use x_planets_core::pipeline::gaps::fill_gaps;
use x_planets_core::pipeline::sampling::{
    normal_stencil, sample_elevation_bilinear, Neighbour, Stencil,
};
use x_planets_core::pipeline::terrain_mesh::{
    build_terrain_mesh, build_terrain_mesh_centered, build_terrain_mesh_from_qm,
    build_terrain_mesh_globe, choose_source, valid_triangles, ElevationGrid, QuantizedMesh,
    TerrainMesh, TERRAIN_GRID_SIZE,
};
use x_planets_core::pipeline::tile_mesh::{
    build_centered_tile_mesh, build_globe_tile_mesh, build_polar_caps, build_tile_mesh,
    polar_cap_mesh, LatticeVertex,
};
use x_planets_core::pipeline::tile_uniforms::{
    fallback_uv_rect, resolve_fallbacks, RenderableTile, UvRect,
};
use x_planets_core::pipeline::visible_tiles::compute_load_requests;
use x_planets_core::render::tile::{centered_subdivisions, TileVertex};
use x_planets_core::scalar::{Frac, Real32};
use x_planets_core::tile::{TileCoord, VisibleTile};

fn r32(v: f32) -> Real32 {
    Real32 { bits: v.to_bits() }
}

fn uv(r: UvRect) -> [f32; 4] {
    let s = r.scale as f32;
    [r.u_min as f32 / s, r.v_min as f32 / s, r.u_max as f32 / s, r.v_max as f32 / s]
}

fn position(v: &TileVertex) -> [f32; 2] {
    let size = 2.0 * v.extent as f32;
    [v.dx as f32 / size, v.dy as f32 / size]
}

fn mercator_lat(y: f64) -> f64 {
    (std::f64::consts::PI * (1.0 - 2.0 * y)).sinh().atan()
}

/// Distance in degrees between the center of a tile and a coordinate.
fn distance(t: &TileCoord, lat: f64, lon: f64) -> f32 {
    let n = (1u64 << t.z) as f64;
    let west = t.x as f64 / n * 360.0 - 180.0;
    let east = (t.x + 1) as f64 / n * 360.0 - 180.0;
    let north = mercator_lat(t.y as f64 / n).to_degrees();
    let south = mercator_lat((t.y + 1) as f64 / n).to_degrees();
    ((west + east) / 2.0 - lon).hypot((north + south) / 2.0 - lat) as f32
}

fn distances(tiles: &[TileCoord]) -> Vec<Real32> {
    tiles.iter().map(|t| r32(distance(t, 0.0, 0.0))).collect()
}

fn set(coords: &[TileCoord]) -> TileSet {
    let mut s = TileSet::new();
    for c in coords {
        s.insert(*c);
    }
    s
}

fn whole() -> UvRect {
    UvRect { u_min: 0, v_min: 0, u_max: 1, v_max: 1, scale: 1 }
}

fn grid(len: usize, width: u32, height: u32, rect: UvRect) -> ElevationGrid {
    ElevationGrid { len, width, height, rect }
}

fn value(s: &Stencil, elev: &[f32]) -> f32 {
    match s {
        Stencil::Quad { i00, i10, i01, i11, fx, fy } => {
            let x = fx.num as f32 / fx.den as f32;
            let y = fy.num as f32 / fy.den as f32;
            let top = elev[*i00] * (1.0 - x) + elev[*i10] * x;
            let bottom = elev[*i01] * (1.0 - x) + elev[*i11] * x;
            top * (1.0 - y) + bottom * y
        }
        Stencil::Single { index } => elev[*index],
        Stencil::Zero => 0.0,
    }
}

fn heights(m: &TerrainMesh, elev: &[f32]) -> Vec<f32> {
    m.samples.iter().map(|s| value(s, elev)).collect()
}

fn sample(elev: &[f32], w: u32, h: u32, u: f64, v: f64) -> f32 {
    let q = |t: f64| Frac { num: (t * 4.0).round() as i128, den: 4 };
    value(&sample_elevation_bilinear(elev.len(), w, h, q(u), q(v)), elev)
}

fn renderable(z: u8, x: u32, y: u32) -> RenderableTile {
    let coord = TileCoord::new(z, x, y);
    RenderableTile { coord, texture_coord: coord, uv_rect: whole(), display_x: x as i64 }
}

/// Mercator around a center: turn the sphere so that the center comes to the origin.
fn oblique(lat: f64, lon: f64, clat: f64, clon: f64) -> (f64, f64) {
    let l = lon - clon;
    let (x, y, z) = (lat.cos() * l.cos(), lat.cos() * l.sin(), lat.sin());
    let (x2, z2) = (x * clat.cos() + z * clat.sin(), z * clat.cos() - x * clat.sin());
    let lat2 = z2.clamp(-1.0, 1.0).asin();
    let lon2 = y.atan2(x2);
    let my = (1.0 - (lat2.tan() + 1.0 / lat2.cos()).ln() / std::f64::consts::PI) / 2.0;
    ((lon2 / std::f64::consts::PI + 1.0) / 2.0, my)
}

fn vertex(t: &RenderableTile, v: &LatticeVertex, clat: f64, clon: f64) -> (f64, f64) {
    let n = (1u64 << t.coord.z) as f64;
    let mx = (t.coord.x as f64 + v.i as f64 / v.steps as f64) / n;
    let my = (t.coord.y as f64 + v.j as f64 / v.steps as f64) / n;
    oblique(mercator_lat(my), (mx * 2.0 - 1.0) * std::f64::consts::PI, clat, clon)
}

/// Which triangles of a tile keep their orientation.
fn front(t: &RenderableTile, clat: f64, clon: f64) -> Vec<bool> {
    let steps = centered_subdivisions(t.coord.z);
    let at = |i: u32, j: u32| vertex(t, &LatticeVertex { tile: 0, i, j, steps }, clat, clon);
    let mut flags = Vec::new();
    for j in 0..steps {
        for i in 0..steps {
            let (tl, tr) = (at(i, j), at(i + 1, j));
            let (bl, br) = (at(i, j + 1), at(i + 1, j + 1));
            let cross = |o: (f64, f64), a: (f64, f64), b: (f64, f64)| {
                (a.0 - o.0) * (b.1 - o.1) - (a.1 - o.1) * (b.0 - o.0)
            };
            flags.push(cross(tl, tr, bl) > 0.0);
            flags.push(cross(bl, tr, br) > 0.0);
        }
    }
    flags
}

fn centered(tiles: &[RenderableTile], clat: f64, clon: f64) -> (Vec<LatticeVertex>, Vec<u32>, Vec<u32>) {
    let flags: Vec<Vec<bool>> = tiles.iter().map(|t| front(t, clat, clon)).collect();
    build_centered_tile_mesh(tiles, &flags)
}

fn check_load_requests_excludes_cached() {
    let visible = vec![TileCoord::new(2, 0, 0), TileCoord::new(2, 1, 0), TileCoord::new(2, 2, 0)];
    let cached = set(&[TileCoord::new(2, 1, 0)]);
    let requests = compute_load_requests(&visible, &cached, &distances(&visible));
    assert_eq!(requests.len(), 2);
    assert!(requests.iter().all(|r| r.coord != TileCoord::new(2, 1, 0)));
}

fn check_load_requests_sorted_by_distance() {
    let visible = vec![TileCoord::new(3, 0, 0), TileCoord::new(3, 4, 4)];
    let requests = compute_load_requests(&visible, &TileSet::new(), &distances(&visible));
    assert_eq!(requests.len(), 2);
    let p = |i: usize| f32::from_bits(requests[i].priority.bits);
    assert!(p(0) <= p(1), "should be sorted by distance: {:.2} <= {:.2}", p(0), p(1));
    assert_eq!(requests[0].coord, TileCoord::new(3, 4, 4));
}

fn check_load_requests_empty_when_all_cached() {
    let visible = vec![TileCoord::new(1, 0, 0), TileCoord::new(1, 1, 0)];
    let requests = compute_load_requests(&visible, &set(&visible), &distances(&visible));
    assert!(requests.is_empty());
}

fn check_build_tile_mesh_single_quad() {
    let (verts, indices) = build_tile_mesh(&[TileCoord::new(0, 0, 0)]);
    assert_eq!(verts.len(), 4, "1 tile = 4 vertices");
    assert_eq!(indices.len(), 6, "1 tile = 6 indices");
}

fn level_one() -> Vec<TileCoord> {
    vec![
        TileCoord::new(1, 0, 0),
        TileCoord::new(1, 1, 0),
        TileCoord::new(1, 0, 1),
        TileCoord::new(1, 1, 1),
    ]
}

fn check_build_tile_mesh_multiple() {
    let (verts, indices) = build_tile_mesh(&level_one());
    assert_eq!(verts.len(), 16);
    assert_eq!(indices.len(), 24);
}

fn check_build_tile_mesh_no_degenerate_triangles() {
    for z in 0..=4u8 {
        let n = 1u32 << z;
        for x in 0..n {
            for y in 0..n {
                let (verts, _) = build_tile_mesh(&[TileCoord::new(z, x, y)]);
                let w = position(&verts[1])[0] - position(&verts[0])[0];
                let h = position(&verts[2])[1] - position(&verts[0])[1];
                let area = w * h;
                assert!(area.abs() > 1e-10, "degenerate quad at z={} x={} y={}", z, x, y);
            }
        }
    }
}

fn extent_of(verts: &[TileVertex], axis: usize) -> (f32, f32) {
    let values: Vec<f32> = verts.iter().map(|v| position(v)[axis]).collect();
    (
        values.iter().copied().fold(f32::MAX, f32::min),
        values.iter().copied().fold(f32::MIN, f32::max),
    )
}

fn check_build_tile_mesh_rte_centered() {
    let (verts, _) = build_tile_mesh(&[TileCoord::new(0, 0, 0)]);
    for axis in 0..2 {
        let (min, max) = extent_of(&verts, axis);
        assert!((min - (-0.5)).abs() < 1e-6);
        assert!((max - 0.5).abs() < 1e-6);
    }
}

fn check_build_tile_mesh_rte_all_same_size_per_zoom() {
    let (verts, _) = build_tile_mesh(&level_one());
    for chunk in verts.chunks(4) {
        let (min, max) = extent_of(chunk, 0);
        assert!((min - (-0.25)).abs() < 1e-6);
        assert!((max - 0.25).abs() < 1e-6);
    }
}

fn near_rect(r: [f32; 4], expected: [f32; 4]) {
    for k in 0..4 {
        assert!((r[k] - expected[k]).abs() < 1e-6, "{:?} should be {:?}", r, expected);
    }
}

fn check_fallback_uv_same_tile() {
    let tile = TileCoord::new(5, 10, 15);
    near_rect(uv(fallback_uv_rect(&tile, &tile)), [0.0, 0.0, 1.0, 1.0]);
}

fn check_fallback_uv_one_level_up() {
    let parent = TileCoord::new(2, 0, 0);
    let child = TileCoord::new(3, 1, 0);
    near_rect(uv(fallback_uv_rect(&child, &parent)), [0.5, 0.0, 1.0, 0.5]);
}

fn check_fallback_uv_two_levels_up() {
    let ancestor = TileCoord::new(1, 0, 0);
    let tile = TileCoord::new(3, 1, 1);
    near_rect(uv(fallback_uv_rect(&tile, &ancestor)), [0.25, 0.25, 0.5, 0.5]);
}

fn check_resolve_fallbacks_complete_coverage() {
    let coords = [TileCoord::new(2, 0, 0), TileCoord::new(2, 1, 0), TileCoord::new(2, 0, 1)];
    let visible: Vec<VisibleTile> = coords.iter().map(|c| VisibleTile::canonical(*c)).collect();
    let result = resolve_fallbacks(&visible, &set(&coords));
    assert_eq!(result.len(), 3);
    for r in &result {
        assert_eq!(r.coord, r.texture_coord);
        assert!((uv(r.uv_rect)[0] - 0.0).abs() < 1e-6);
        assert!((uv(r.uv_rect)[2] - 1.0).abs() < 1e-6);
    }
}

fn check_resolve_fallbacks_uses_parent() {
    let child = TileCoord::new(3, 2, 3);
    let parent = child.parent().unwrap();
    let visible = vec![VisibleTile::canonical(child)];
    let result = resolve_fallbacks(&visible, &set(&[parent]));
    assert_eq!(result.len(), 1);
    assert_eq!(result[0].coord, child);
    assert_eq!(result[0].texture_coord, parent);
    assert!(uv(result[0].uv_rect) != [0.0, 0.0, 1.0, 1.0]);
}

fn check_resolve_fallbacks_missing_all_returns_empty() {
    let visible = vec![VisibleTile::canonical(TileCoord::new(5, 10, 10))];
    assert!(resolve_fallbacks(&visible, &TileSet::new()).is_empty());
}

fn check_build_terrain_mesh_dimensions() {
    let m = build_terrain_mesh(grid(256 * 256, 256, 256, whole()));
    let g = TERRAIN_GRID_SIZE;
    let surface_verts = (g + 1) * (g + 1);
    let skirt_verts = 4 * g * 2;
    assert_eq!(m.vertices.len(), (surface_verts + skirt_verts) as usize);
    let surface_indices = g * g * 6;
    let skirt_indices = 4 * g * 6;
    assert_eq!(m.indices.len(), (surface_indices + skirt_indices) as usize);
}

fn check_build_terrain_mesh_flat_has_zero_z() {
    let m = build_terrain_mesh(grid(4, 2, 2, whole()));
    for h in heights(&m, &[0.0; 4]) {
        assert!((h * 1e-5).abs() < 1e-10);
    }
}

fn check_build_terrain_mesh_elevated() {
    let scale = 1e-5f32;
    let m = build_terrain_mesh(grid(4, 2, 2, whole()));
    let expected_z = 1000.0 * scale;
    for h in heights(&m, &[1000.0; 4]) {
        assert!((h * scale - expected_z).abs() < 1e-6);
    }
}

fn corners(m: &TerrainMesh, elev: &[f32]) -> (f32, f32) {
    let h = heights(m, elev);
    let g = TERRAIN_GRID_SIZE as usize;
    (h[0], h[g * (g + 1) + g])
}

fn check_build_terrain_mesh_parent_fallback_uv() {
    let parent = TileCoord::new(1, 0, 0);
    let child = TileCoord::new(2, 1, 1);
    let elevation = [0.0, 1000.0, 2000.0, 3000.0];
    let rect = fallback_uv_rect(&child, &parent);
    assert!((uv(rect)[0] - 0.5).abs() < 1e-4);
    assert!((uv(rect)[1] - 0.5).abs() < 1e-4);
    let (tl, br) = corners(&build_terrain_mesh(grid(4, 2, 2, rect)), &elevation);
    assert!((br - 3000.0).abs() < 50.0, "bottom-right should be ~3000m, got {}m", br);
    assert!((tl - 1500.0).abs() < 100.0, "top-left should be ~1500m, got {}m", tl);
}

/// Normal of a surface vertex of a tile of level 5, heights scaled by 1e-5.
fn normal(h: &[f32], gx: usize, gy: usize) -> [f32; 3] {
    let side = TERRAIN_GRID_SIZE as usize + 1;
    let s = normal_stencil(gx, gy, side);
    let own = h[gy * side + gx];
    let read = |n: Neighbour| match n {
        Neighbour::At { index } => h[index],
        Neighbour::Mirrored { index } => 2.0 * own - h[index],
    };
    let cell = 1.0 / 32.0 / TERRAIN_GRID_SIZE as f32;
    let dx = (read(s.right) - read(s.left)) * 1e-5 / (2.0 * cell);
    let dy = (read(s.down) - read(s.up)) * 1e-5 / (2.0 * cell);
    let len = (dx * dx + dy * dy + 1.0).sqrt();
    [-dx / len, -dy / len, 1.0 / len]
}

fn check_build_terrain_mesh_edge_normals_smooth() {
    let grid_size = 33u32;
    let mut elevation = vec![0.0f32; (grid_size * grid_size) as usize];
    for row in 0..grid_size {
        for col in 0..grid_size {
            let v = row as f32 / (grid_size - 1) as f32;
            elevation[(row * grid_size + col) as usize] = v * 1000.0;
        }
    }
    let m = build_terrain_mesh(grid(elevation.len(), grid_size, grid_size, whole()));
    let h = heights(&m, &elevation);
    let vs = TERRAIN_GRID_SIZE as usize + 1;
    let mid = vs / 2;
    let dot = |a: [f32; 3], b: [f32; 3]| a[0] * b[0] + a[1] * b[1] + a[2] * b[2];
    let top = dot(normal(&h, mid, 0), normal(&h, mid, 1));
    assert!(top > 0.99, "Top edge normal should match interior (dot={:.4})", top);
    let bottom = dot(normal(&h, mid, vs - 1), normal(&h, mid, vs - 2));
    assert!(bottom > 0.99, "Bottom edge normal should match interior (dot={:.4})", bottom);
}

fn check_bilinear_corners() {
    let elev = [0.0, 100.0, 200.0, 300.0];
    assert!((sample(&elev, 2, 2, 0.0, 0.0) - 0.0).abs() < 1e-3);
    assert!((sample(&elev, 2, 2, 1.0, 0.0) - 100.0).abs() < 1e-3);
    assert!((sample(&elev, 2, 2, 0.0, 1.0) - 200.0).abs() < 1e-3);
    assert!((sample(&elev, 2, 2, 1.0, 1.0) - 300.0).abs() < 1e-3);
}

fn check_bilinear_center() {
    let elev = [0.0, 100.0, 200.0, 300.0];
    let center = sample(&elev, 2, 2, 0.5, 0.5);
    assert!((center - 150.0).abs() < 1e-3, "center should be 150, got {}", center);
}

fn check_bilinear_edge_midpoint() {
    let elev = [0.0, 100.0, 200.0, 300.0];
    let mid_top = sample(&elev, 2, 2, 0.5, 0.0);
    assert!((mid_top - 50.0).abs() < 1e-3, "top edge midpoint should be 50, got {}", mid_top);
}

fn check_bilinear_constant_surface() {
    let h = 777.0f32;
    let elev = vec![h; 65 * 65];
    for u in [0.0, 0.25, 0.5, 0.75, 1.0] {
        for v in [0.0, 0.25, 0.5, 0.75, 1.0] {
            let val = sample(&elev, 65, 65, u, v);
            assert!((val - h).abs() < 1e-3, "constant surface at ({}, {}): got {}", u, v, val);
        }
    }
}

fn check_bilinear_larger_grid() {
    let elev = [0.0, 100.0, 200.0, 300.0, 400.0, 500.0, 600.0, 700.0, 800.0];
    let center = sample(&elev, 3, 3, 0.5, 0.5);
    assert!((center - 400.0).abs() < 1e-3, "3x3 center should be 400, got {}", center);
}

fn check_overzoom_fallback_heightmap_workflow() {
    let gs = 33u32;
    let mut hm = vec![0.0f32; (gs * gs) as usize];
    for row in 0..gs {
        for col in 0..gs {
            let u = col as f32 / (gs - 1) as f32;
            let v = row as f32 / (gs - 1) as f32;
            hm[(row * gs + col) as usize] = (u + v) * 500.0;
        }
    }
    let parent = TileCoord::new(13, 4096, 3072);
    let child = TileCoord::new(14, 8192, 6144);
    let rect = fallback_uv_rect(&child, &parent);
    near_rect(uv(rect), [0.0, 0.0, 0.5, 0.5]);
    let (tl, br) = corners(&build_terrain_mesh(grid(hm.len(), gs, gs, rect)), &hm);
    assert!(tl.abs() < 20.0, "child TL should be ~0m, got {}m", tl);
    assert!((br - 500.0).abs() < 50.0, "child BR should be ~500m, got {}m", br);
}

fn check_overzoom_multiple_levels() {
    let ancestor = TileCoord::new(13, 4096, 3072);
    let grandchild = TileCoord::new(15, 16384, 12288);
    near_rect(uv(fallback_uv_rect(&grandchild, &ancestor)), [0.0, 0.0, 0.25, 0.25]);
}

fn quad_mesh() -> QuantizedMesh {
    QuantizedMesh {
        u: vec![0, 32767, 32767, 0],
        v: vec![0, 0, 32767, 32767],
        height: vec![16383, 16383, 16383, 16383],
        indices: vec![0, 1, 2, 0, 2, 3],
        west_indices: vec![0, 3],
        south_indices: vec![0, 1],
        east_indices: vec![1, 2],
        north_indices: vec![3, 2],
    }
}

fn check_build_terrain_mesh_from_qm_surface_vs_total_indices() {
    let qm = quad_mesh();
    let surface_idx_count = qm.indices.len();
    assert_eq!(surface_idx_count, 6, "surface should have 6 indices (2 triangles)");
    let m = build_terrain_mesh_from_qm(&qm);
    assert!(m.indices.len() > surface_idx_count);
    let surface_only = &m.indices[..surface_idx_count];
    assert_eq!(surface_only.len(), 6);
    for &idx in surface_only {
        assert!(idx < 4, "surface index {} should be < 4", idx);
    }
}

fn check_build_globe_tile_mesh_count_matches_tiles() {
    let tiles = vec![renderable(2, 0, 0), renderable(2, 1, 1), renderable(2, 3, 2)];
    let (_, _, counts) = build_globe_tile_mesh(&tiles);
    assert_eq!(counts.len(), tiles.len());
    assert!(counts.iter().all(|c| *c > 0));
}

fn check_build_centered_tile_mesh_count_matches_tiles() {
    let tiles = vec![renderable(3, 7, 3), renderable(3, 7, 4)];
    let (_, _, counts) = centered(&tiles, 37.5f64.to_radians(), 127.0f64.to_radians());
    assert_eq!(counts.len(), tiles.len());
    assert!(counts.iter().all(|c| *c > 0));
}

fn check_globe_mesh_index_offsets_are_contiguous() {
    let tiles: Vec<RenderableTile> = (0..4).map(|i| renderable(2, i, 0)).collect();
    let (_, indices, counts) = build_globe_tile_mesh(&tiles);
    let total: u32 = counts.iter().sum();
    assert_eq!(total, indices.len() as u32);
}

fn check_centered_mesh_index_offsets_are_contiguous() {
    let tiles: Vec<RenderableTile> = (0..4).map(|i| renderable(2, i, 1)).collect();
    let (_, indices, counts) = centered(&tiles, 0.0, 0.0);
    let total: u32 = counts.iter().sum();
    assert_eq!(total, indices.len() as u32);
}

fn check_centered_mesh_center_tile_always_has_indices() {
    let (_, _, counts) =
        centered(&[renderable(5, 27, 12)], 37.5f64.to_radians(), 127.0f64.to_radians());
    assert_eq!(counts.len(), 1);
    assert!(counts[0] > 0);
}

fn check_centered_mesh_no_degenerate_triangles_near_center() {
    let t = renderable(2, 2, 2);
    let (verts, idxs, _) = centered(&[t], 0.0, 0.0);
    for tri in idxs.chunks(3) {
        let p: Vec<(f64, f64)> =
            tri.iter().map(|i| vertex(&t, &verts[*i as usize], 0.0, 0.0)).collect();
        let cross = (p[1].0 - p[0].0) * (p[2].1 - p[0].1) - (p[1].1 - p[0].1) * (p[2].0 - p[0].0);
        assert!(cross.abs() > 1e-12, "degenerate triangle found: area {:.2e}", cross.abs());
    }
}

#[test]
fn pipeline_test_load_requests_excludes_cached() {
    check_load_requests_excludes_cached();
}

#[test]
fn mod_test_load_requests_excludes_cached() {
    check_load_requests_excludes_cached();
}

#[test]
fn pipeline_test_load_requests_sorted_by_distance() {
    check_load_requests_sorted_by_distance();
}

#[test]
fn mod_test_load_requests_sorted_by_distance() {
    check_load_requests_sorted_by_distance();
}

#[test]
fn pipeline_test_load_requests_empty_when_all_cached() {
    check_load_requests_empty_when_all_cached();
}

#[test]
fn mod_test_load_requests_empty_when_all_cached() {
    check_load_requests_empty_when_all_cached();
}

#[test]
fn pipeline_test_build_tile_mesh_single_quad() {
    check_build_tile_mesh_single_quad();
}

#[test]
fn mod_test_build_tile_mesh_single_quad() {
    check_build_tile_mesh_single_quad();
}

#[test]
fn pipeline_test_build_tile_mesh_multiple() {
    check_build_tile_mesh_multiple();
}

#[test]
fn mod_test_build_tile_mesh_multiple() {
    check_build_tile_mesh_multiple();
}

#[test]
fn pipeline_test_build_tile_mesh_no_degenerate_triangles() {
    check_build_tile_mesh_no_degenerate_triangles();
}

#[test]
fn mod_test_build_tile_mesh_no_degenerate_triangles() {
    check_build_tile_mesh_no_degenerate_triangles();
}

#[test]
fn pipeline_test_build_tile_mesh_rte_centered() {
    check_build_tile_mesh_rte_centered();
}

#[test]
fn mod_test_build_tile_mesh_rte_centered() {
    check_build_tile_mesh_rte_centered();
}

#[test]
fn pipeline_test_build_tile_mesh_rte_all_same_size_per_zoom() {
    check_build_tile_mesh_rte_all_same_size_per_zoom();
}

#[test]
fn mod_test_build_tile_mesh_rte_all_same_size_per_zoom() {
    check_build_tile_mesh_rte_all_same_size_per_zoom();
}

#[test]
fn pipeline_test_fallback_uv_same_tile() {
    check_fallback_uv_same_tile();
}

#[test]
fn mod_test_fallback_uv_same_tile() {
    check_fallback_uv_same_tile();
}

#[test]
fn pipeline_test_fallback_uv_one_level_up() {
    check_fallback_uv_one_level_up();
}

#[test]
fn mod_test_fallback_uv_one_level_up() {
    check_fallback_uv_one_level_up();
}

#[test]
fn pipeline_test_fallback_uv_two_levels_up() {
    check_fallback_uv_two_levels_up();
}

#[test]
fn mod_test_fallback_uv_two_levels_up() {
    check_fallback_uv_two_levels_up();
}

#[test]
fn pipeline_test_resolve_fallbacks_complete_coverage() {
    check_resolve_fallbacks_complete_coverage();
}

#[test]
fn mod_test_resolve_fallbacks_complete_coverage() {
    check_resolve_fallbacks_complete_coverage();
}

#[test]
fn pipeline_test_resolve_fallbacks_uses_parent() {
    check_resolve_fallbacks_uses_parent();
}

#[test]
fn mod_test_resolve_fallbacks_uses_parent() {
    check_resolve_fallbacks_uses_parent();
}

#[test]
fn pipeline_test_resolve_fallbacks_missing_all_returns_empty() {
    check_resolve_fallbacks_missing_all_returns_empty();
}

#[test]
fn mod_test_resolve_fallbacks_missing_all_returns_empty() {
    check_resolve_fallbacks_missing_all_returns_empty();
}

#[test]
fn pipeline_test_build_terrain_mesh_dimensions() {
    check_build_terrain_mesh_dimensions();
}

#[test]
fn mod_test_build_terrain_mesh_dimensions() {
    check_build_terrain_mesh_dimensions();
}

#[test]
fn pipeline_test_build_terrain_mesh_flat_has_zero_z() {
    check_build_terrain_mesh_flat_has_zero_z();
}

#[test]
fn mod_test_build_terrain_mesh_flat_has_zero_z() {
    check_build_terrain_mesh_flat_has_zero_z();
}

#[test]
fn pipeline_test_build_terrain_mesh_elevated() {
    check_build_terrain_mesh_elevated();
}

#[test]
fn mod_test_build_terrain_mesh_elevated() {
    check_build_terrain_mesh_elevated();
}

#[test]
fn pipeline_test_build_terrain_mesh_parent_fallback_uv() {
    check_build_terrain_mesh_parent_fallback_uv();
}

#[test]
fn mod_test_build_terrain_mesh_parent_fallback_uv() {
    check_build_terrain_mesh_parent_fallback_uv();
}

#[test]
fn pipeline_test_build_terrain_mesh_edge_normals_smooth() {
    check_build_terrain_mesh_edge_normals_smooth();
}

#[test]
fn mod_test_build_terrain_mesh_edge_normals_smooth() {
    check_build_terrain_mesh_edge_normals_smooth();
}

#[test]
fn pipeline_test_bilinear_corners() {
    check_bilinear_corners();
}

#[test]
fn mod_test_bilinear_corners() {
    check_bilinear_corners();
}

#[test]
fn pipeline_test_bilinear_center() {
    check_bilinear_center();
}

#[test]
fn mod_test_bilinear_center() {
    check_bilinear_center();
}

#[test]
fn pipeline_test_bilinear_edge_midpoint() {
    check_bilinear_edge_midpoint();
}

#[test]
fn mod_test_bilinear_edge_midpoint() {
    check_bilinear_edge_midpoint();
}

#[test]
fn pipeline_test_bilinear_constant_surface() {
    check_bilinear_constant_surface();
}

#[test]
fn mod_test_bilinear_constant_surface() {
    check_bilinear_constant_surface();
}

#[test]
fn pipeline_test_bilinear_larger_grid() {
    check_bilinear_larger_grid();
}

#[test]
fn mod_test_bilinear_larger_grid() {
    check_bilinear_larger_grid();
}

#[test]
fn pipeline_test_overzoom_fallback_heightmap_workflow() {
    check_overzoom_fallback_heightmap_workflow();
}

#[test]
fn mod_test_overzoom_fallback_heightmap_workflow() {
    check_overzoom_fallback_heightmap_workflow();
}

#[test]
fn pipeline_test_overzoom_multiple_levels() {
    check_overzoom_multiple_levels();
}

#[test]
fn mod_test_overzoom_multiple_levels() {
    check_overzoom_multiple_levels();
}

#[test]
fn pipeline_test_build_terrain_mesh_from_qm_surface_vs_total_indices() {
    check_build_terrain_mesh_from_qm_surface_vs_total_indices();
}

#[test]
fn mod_test_build_terrain_mesh_from_qm_surface_vs_total_indices() {
    check_build_terrain_mesh_from_qm_surface_vs_total_indices();
}

#[test]
fn pipeline_test_build_globe_tile_mesh_count_matches_tiles() {
    check_build_globe_tile_mesh_count_matches_tiles();
}

#[test]
fn mod_test_build_globe_tile_mesh_count_matches_tiles() {
    check_build_globe_tile_mesh_count_matches_tiles();
}

#[test]
fn pipeline_test_build_centered_tile_mesh_count_matches_tiles() {
    check_build_centered_tile_mesh_count_matches_tiles();
}

#[test]
fn mod_test_build_centered_tile_mesh_count_matches_tiles() {
    check_build_centered_tile_mesh_count_matches_tiles();
}

#[test]
fn pipeline_test_globe_mesh_index_offsets_are_contiguous() {
    check_globe_mesh_index_offsets_are_contiguous();
}

#[test]
fn mod_test_globe_mesh_index_offsets_are_contiguous() {
    check_globe_mesh_index_offsets_are_contiguous();
}

#[test]
fn pipeline_test_centered_mesh_index_offsets_are_contiguous() {
    check_centered_mesh_index_offsets_are_contiguous();
}

#[test]
fn mod_test_centered_mesh_index_offsets_are_contiguous() {
    check_centered_mesh_index_offsets_are_contiguous();
}

#[test]
fn pipeline_test_centered_mesh_center_tile_always_has_indices() {
    check_centered_mesh_center_tile_always_has_indices();
}

#[test]
fn mod_test_centered_mesh_center_tile_always_has_indices() {
    check_centered_mesh_center_tile_always_has_indices();
}

#[test]
fn pipeline_test_centered_mesh_no_degenerate_triangles_near_center() {
    check_centered_mesh_no_degenerate_triangles_near_center();
}

#[test]
fn mod_test_centered_mesh_no_degenerate_triangles_near_center() {
    check_centered_mesh_no_degenerate_triangles_near_center();
}

#[test]
fn test_centered_mesh_far_tile_has_fewer_indices() {
    let (clat, clon) = (37.5f64.to_radians(), 127.0f64.to_radians());
    let (_, _, near) = centered(&[renderable(2, 3, 1)], clat, clon);
    let (_, _, far) = centered(&[renderable(2, 1, 1)], clat, clon);
    assert!(near[0] > 0, "near tile must produce indices");
    assert!(far[0] <= near[0], "far tile should have <= indices than near tile");
}

#[test]
fn test_centered_mesh_far_tile_produces_indices() {
    let (clat, clon) = (37.5f64.to_radians(), 127.0f64.to_radians());
    let (_, _, near) = centered(&[renderable(2, 3, 1)], clat, clon);
    let (_, _, far) = centered(&[renderable(2, 1, 1)], clat, clon);
    assert!(near[0] > 0, "near tile must produce indices");
    assert!(far[0] > 0, "far tile must produce indices");
}

#[test]
fn test_build_globe_tile_mesh_produces_geometry() {
    let (verts, idxs, counts) = build_globe_tile_mesh(&[renderable(2, 1, 1)]);
    assert!(!verts.is_empty());
    assert!(!idxs.is_empty());
    assert_eq!(counts.len(), 1);
    assert_eq!(counts[0] as usize, idxs.len());
}

#[test]
fn test_build_globe_tile_mesh_vertices_reasonable_size() {
    let t = renderable(4, 8, 5);
    let (verts, _, _) = build_globe_tile_mesh(&[t]);
    let n = 16.0f64;
    let sphere = |mx: f64, my: f64| {
        let (lat, lon) = (mercator_lat(my), (mx * 2.0 - 1.0) * std::f64::consts::PI);
        [lat.cos() * lon.cos(), lat.sin(), lat.cos() * lon.sin()]
    };
    let center = sphere((t.display_x as f64 + 0.5) / n, (t.coord.y as f64 + 0.5) / n);
    for v in &verts {
        let mx = (t.coord.x as f64 + v.i as f64 / v.steps as f64) / n;
        let my = (t.coord.y as f64 + v.j as f64 / v.steps as f64) / n;
        let p = sphere(mx, my);
        let len = (0..3).map(|k| (p[k] - center[k]).powi(2)).sum::<f64>().sqrt();
        assert!(len < 0.5, "vertex at zoom 4 should be near the center, got length {}", len);
    }
}

#[test]
fn test_build_polar_caps_has_geometry() {
    let (verts, idxs) = build_polar_caps();
    assert!(!verts.is_empty());
    assert!(!idxs.is_empty());
    assert!(idxs.len() > 10);
}

#[test]
fn test_build_centered_tile_mesh_produces_geometry() {
    let (verts, idxs, counts) =
        centered(&[renderable(3, 4, 3)], 37.5f64.to_radians(), 127.0f64.to_radians());
    assert!(!verts.is_empty());
    assert!(!idxs.is_empty());
    assert_eq!(counts.len(), 1);
}

#[test]
fn flat_tile_triangles() {
    let (_, indices) = build_tile_mesh(&[TileCoord::new(1, 0, 0), TileCoord::new(1, 1, 0)]);
    assert_eq!(&indices[6..], &indices[..6].iter().map(|i| i + 4).collect::<Vec<u32>>()[..]);
    assert!(indices.iter().all(|i| *i < 8));
}

#[test]
fn meshes_of_tiles_do_not_share_vertices() {
    let tiles = vec![renderable(2, 0, 0), renderable(12, 0, 0)];
    let (verts, indices, counts) = build_globe_tile_mesh(&tiles);
    assert_eq!(verts.len(), 33 * 33 + 5 * 5);
    assert_eq!(counts, vec![6 * 32 * 32, 6 * 4 * 4]);
    let first = counts[0] as usize;
    assert!(indices[..first].iter().all(|i| *i < 33 * 33));
    assert!(indices[first..].iter().all(|i| *i >= 33 * 33 && (*i as usize) < verts.len()));
    assert_eq!(&indices[..6], &[0, 33, 1, 1, 33, 34]);
}

#[test]
fn hidden_triangles_are_left_out() {
    let t = renderable(12, 0, 0);
    let flags = vec![vec![true, false, false, false, false, false, false, true]];
    let (_, indices, counts) = build_centered_tile_mesh(&[t], &flags);
    assert_eq!(counts, vec![6]);
    assert_eq!(indices, vec![0, 1, 3, 7, 5, 8]);
    let (_, indices, counts) = build_centered_tile_mesh(&[t], &vec![vec![false; 8]]);
    assert!(indices.is_empty());
    assert_eq!(counts, vec![0]);
}

#[test]
fn polar_caps_are_fans() {
    let (verts, north) = polar_cap_mesh(true);
    assert_eq!(verts.len(), 66);
    assert_eq!(verts[0].ring, None);
    assert_eq!(&north[..3], &[0, 2, 1]);
    let (_, south) = polar_cap_mesh(false);
    assert_eq!(&south[..3], &[0, 1, 2]);
    let (verts, both) = build_polar_caps();
    assert_eq!(verts.len(), 132);
    assert_eq!(&both[192..195], &[66, 67, 68]);
}

#[test]
fn terrain_skirts_hang_below_the_border() {
    let m = build_terrain_mesh(grid(4, 2, 2, whole()));
    let surface = 33 * 33;
    assert!(m.vertices[..surface].iter().all(|v| !v.skirt));
    assert!(m.vertices[surface..].iter().all(|v| v.skirt));
    assert_eq!(m.vertices[surface].source, 32 * 33);
    assert!(m.indices.iter().all(|i| (*i as usize) < m.vertices.len()));
    let flat = build_terrain_mesh_centered(grid(4, 2, 2, whole()), false);
    assert_eq!(flat.indices, m.indices);
    let flipped = build_terrain_mesh_centered(grid(4, 2, 2, whole()), true);
    for (a, b) in flat.indices.chunks(3).zip(flipped.indices.chunks(3)).take(2 * 32 * 32) {
        let mut turned = vec![a[0], a[2], a[1]];
        while turned[0] != b[0] {
            turned.rotate_left(1);
        }
        assert_eq!(turned, b);
    }
    let globe = build_terrain_mesh_globe(grid(4, 2, 2, whole()));
    assert_eq!(globe.indices.len(), m.indices.len());
}

#[test]
fn empty_and_short_grids() {
    let t = |n: i128| Frac { num: n, den: 4 };
    assert_eq!(sample_elevation_bilinear(0, 2, 2, t(2), t(2)), Stencil::Zero);
    match sample_elevation_bilinear(3, 2, 2, t(4), t(4)) {
        Stencil::Single { index } => assert!(index < 3),
        s => panic!("unexpected {:?}", s),
    }
}

#[test]
fn neighbours_beyond_the_border_are_mirrored() {
    let s = normal_stencil(0, 0, 33);
    assert_eq!(s.left, Neighbour::Mirrored { index: 1 });
    assert_eq!(s.right, Neighbour::At { index: 1 });
    assert_eq!(s.up, Neighbour::Mirrored { index: 33 });
    assert_eq!(s.down, Neighbour::At { index: 33 });
    let s = normal_stencil(5, 7, 33);
    assert_eq!(s.left, Neighbour::At { index: 7 * 33 + 4 });
    assert_eq!(s.down, Neighbour::At { index: 8 * 33 + 5 });
}

#[test]
fn gaps_are_filled_from_neighbours() {
    let filled = [true, false, false, false, false, false, false, false, false];
    // Three rounds from a corner reach all but the opposite one.
    let plan = fill_gaps(&filled, 3);
    assert_eq!(plan.len(), 7);
    assert!(plan.iter().all(|g| g.cell != 8));
    assert_eq!(plan[0].cell, 1);
    assert_eq!(plan[0].left, Some(0));
    assert_eq!(plan[0].right, None);
    assert!(fill_gaps(&[false; 9], 3).is_empty());
    assert!(fill_gaps(&[true; 9], 3).is_empty());
}

#[test]
fn quantized_meshes_get_a_skirt_per_side() {
    let m = build_terrain_mesh_from_qm(&quad_mesh());
    assert_eq!(m.points.len(), 4);
    assert_eq!(m.points[0].v_down, 32767);
    assert_eq!(m.points[2].v_down, 0);
    assert_eq!(m.vertices.len(), 4 + 8);
    assert_eq!(m.indices.len(), 6 + 24);
    let mut broken = quad_mesh();
    broken.west_indices = vec![0, 9];
    assert_eq!(build_terrain_mesh_from_qm(&broken).vertices.len(), 4 + 6);
}

/// The heights of a square grid once its gaps are filled.
fn filled_heights(heights: &[Option<f32>], gs: usize) -> Vec<f32> {
    let known: Vec<bool> = heights.iter().map(|h| h.is_some()).collect();
    let mut out: Vec<f32> = heights.iter().map(|h| h.unwrap_or(0.0)).collect();
    for f in fill_gaps(&known, gs) {
        let around: Vec<f32> =
            [f.above, f.below, f.left, f.right].iter().flatten().map(|&k| out[k]).collect();
        out[f.cell] = around.iter().sum::<f32>() / around.len() as f32;
    }
    out
}

#[test]
fn gaps_take_the_value_of_the_nearest_cell() {
    let mut heights = [None; 25];
    heights[0] = Some(1.0);
    heights[4] = Some(9.0);
    let out = filled_heights(&heights, 5);
    for row in 0..5 {
        assert_eq!(out[5 * row], 1.0);
        assert_eq!(out[5 * row + 4], 9.0);
    }
    assert_eq!((out[1], out[3]), (1.0, 9.0));
    // As near to both, a cell takes the average.
    assert_eq!(out[2], 5.0);
}

#[test]
fn gaps_beyond_the_passes_stay_open() {
    let mut heights = [None; 9];
    heights[0] = Some(7.0);
    let out = filled_heights(&heights, 3);
    assert_eq!(out, vec![7.0, 7.0, 7.0, 7.0, 7.0, 7.0, 7.0, 7.0, 0.0]);
}

#[test]
fn triangles_outside_the_mesh_are_skipped() {
    assert_eq!(valid_triangles(&[0, 1, 2, 0, 1, 9, 2, 1, 0, 7], 3), vec![(0, 1, 2), (2, 1, 0)]);
}

#[test]
fn elevation_comes_from_the_first_covering_source() {
    assert_eq!(choose_source(&[false, true, true], &[0, 5, 0]), Some(1));
    assert_eq!(choose_source(&[], &[]), None);
}

#[test]
fn elevation_comes_from_the_nearest_source_where_none_covers() {
    assert_eq!(choose_source(&[false, false], &[9, 4]), Some(1));
    assert_eq!(choose_source(&[false, false], &[4, 9]), Some(0));
    assert_eq!(choose_source(&[false, false, false], &[9, 4, 4]), Some(1));
}

#[test]
fn nearer_tiles_are_requested_first() {
    let tiles = [TileCoord::new(1, 0, 0), TileCoord::new(1, 1, 0), TileCoord::new(1, 0, 1)];
    let d = [r32(3.0), r32(0.5), r32(3.0)];
    let r = compute_load_requests(&tiles, &TileSet::new(), &d);
    let order: Vec<TileCoord> = r.iter().map(|q| q.coord).collect();
    assert_eq!(order, vec![tiles[1], tiles[0], tiles[2]]);
}

#[test]
fn a_texture_of_a_finer_level_covers_more_than_itself() {
    let child = TileCoord::new(3, 5, 6);
    let parent = TileCoord::new(2, 2, 3);
    let r = fallback_uv_rect(&parent, &child);
    assert_eq!(r, UvRect { u_min: -1, v_min: 0, u_max: 1, v_max: 2, scale: 1 });
}
