use x_planets_core::pipeline::rasterize::{
    rasterize_qm_to_heightmap, Blend, HeightmapPlan, PlanePoint, TILE_UNITS,
};
use x_planets_core::pipeline::resample::{
    resample_geographic_to_mercator, resample_geographic_to_mercator_multi, GeoHeightmapSource,
    GeoSample,
};
use x_planets_core::pipeline::sampling::Stencil;
use x_planets_core::pipeline::terrain_mesh::{grid_place, GridPlace};
use x_planets_core::pipeline::tile_mesh::{
    angular_filter_points, centered_angular_threshold_deg, tile_passes_angular_filter, HalfStep,
};
use x_planets_core::pipeline::tile_uniforms::{
    tile_uniforms, tile_uniforms_for_visible, tile_uniforms_with_uv, RenderableTile, TileBounds,
    UvRect,
};
use x_planets_core::scalar::{Frac, Real32, Real64};
use x_planets_core::tile::TileCoord;

fn r64(v: f64) -> Real64 {
    Real64 { bits: v.to_bits() }
}

fn f64_of(v: Real64) -> f64 {
    f64::from_bits(v.bits)
}

fn ratio(f: Frac) -> f32 {
    (f.num as f64 / f.den as f64) as f32
}

fn read(stencil: &Stencil, heights: &[f32]) -> f32 {
    match *stencil {
        Stencil::Quad { i00, i10, i01, i11, fx, fy } => {
            let (fx, fy) = (ratio(fx), ratio(fy));
            heights[i00] * (1.0 - fx) * (1.0 - fy)
                + heights[i10] * fx * (1.0 - fy)
                + heights[i01] * (1.0 - fx) * fy
                + heights[i11] * fx * fy
        }
        Stencil::Single { index } => heights[index],
        Stencil::Zero => 0.0,
    }
}

// -- Rasterizing --------------------------------------------------------------

/// A vertex: place in the tile and height.
type Vertex = ([f32; 2], f32);

fn points(vertices: &[Vertex]) -> Vec<PlanePoint> {
    let unit = |s: f32| (s as f64 * TILE_UNITS as f64).round() as i64;
    vertices.iter().map(|(t, _)| PlanePoint { u: unit(t[0]), v: unit(t[1]) }).collect()
}

fn apply(plan: &HeightmapPlan, vertices: &[Vertex]) -> Vec<f32> {
    let mut out: Vec<f32> = plan
        .cells
        .iter()
        .map(|cell| match cell {
            Some(b) => {
                let share = |w: i128| (w as f64 / b.total as f64) as f32;
                share(b.wa) * vertices[b.a as usize].1
                    + share(b.wb) * vertices[b.b as usize].1
                    + share(b.wc) * vertices[b.c as usize].1
            }
            None => 0.0,
        })
        .collect();
    for gap in &plan.fills {
        let around = [gap.above, gap.below, gap.left, gap.right];
        let heights: Vec<f32> = around.iter().flatten().map(|&k| out[k]).collect();
        out[gap.cell] = heights.iter().sum::<f32>() / heights.len() as f32;
    }
    out
}

fn rasterize(vertices: &[Vertex], indices: &[u32], gs: u32) -> Vec<f32> {
    apply(&rasterize_qm_to_heightmap(&points(vertices), indices, gs), vertices)
}

fn check_rasterize_flat_triangle() {
    let height = 500.0f32;
    let vertices = vec![([0.0, 0.0], height), ([1.0, 0.0], height), ([0.0, 1.0], height)];
    let hm = rasterize(&vertices, &[0, 1, 2], 5);
    let inside_count = hm.iter().filter(|&&h| (h - height).abs() < 1.0).count();
    assert!(inside_count >= 6, "at least 6 of 25 cells should be inside triangle, got {}", inside_count);
}

#[test]
fn pipeline_test_rasterize_flat_triangle() {
    check_rasterize_flat_triangle();
}

#[test]
fn mod_test_rasterize_flat_triangle() {
    check_rasterize_flat_triangle();
}

fn check_rasterize_two_triangles_full_coverage() {
    let h = 1000.0f32;
    let vertices = vec![([0.0, 0.0], h), ([1.0, 0.0], h), ([0.0, 1.0], h), ([1.0, 1.0], h)];
    let hm = rasterize(&vertices, &[0, 1, 2, 1, 3, 2], 9);
    for (i, &val) in hm.iter().enumerate() {
        assert!((val - h).abs() < 1.0, "cell {} should be {}m, got {}m", i, h, val);
    }
}

#[test]
fn pipeline_test_rasterize_two_triangles_full_coverage() {
    check_rasterize_two_triangles_full_coverage();
}

#[test]
fn mod_test_rasterize_two_triangles_full_coverage() {
    check_rasterize_two_triangles_full_coverage();
}

fn check_rasterize_sloped_surface() {
    let vertices =
        vec![([0.0, 0.0], 0.0), ([1.0, 0.0], 1000.0), ([0.0, 1.0], 0.0), ([1.0, 1.0], 1000.0)];
    let gs = 5u32;
    let hm = rasterize(&vertices, &[0, 1, 2, 1, 3, 2], gs);
    for col in 0..gs as usize {
        let u = col as f32 / (gs - 1) as f32;
        let expected = u * 1000.0;
        let actual = hm[col];
        assert!(
            (actual - expected).abs() < 50.0,
            "col {} (u={:.2}): expected ~{:.0}m, got {:.0}m",
            col,
            u,
            expected,
            actual
        );
    }
}

#[test]
fn pipeline_test_rasterize_sloped_surface() {
    check_rasterize_sloped_surface();
}

#[test]
fn mod_test_rasterize_sloped_surface() {
    check_rasterize_sloped_surface();
}

fn check_rasterize_grid_size_matches() {
    let h = 100.0f32;
    let vertices = vec![([0.0, 0.0], h), ([1.0, 0.0], h), ([1.0, 1.0], h), ([0.0, 1.0], h)];
    for gs in [5u32, 17, 33, 65] {
        let hm = rasterize(&vertices, &[0, 1, 2, 0, 2, 3], gs);
        assert_eq!(
            hm.len(),
            (gs * gs) as usize,
            "grid_size={}: expected {} cells, got {}",
            gs,
            gs * gs,
            hm.len()
        );
    }
}

#[test]
fn pipeline_test_rasterize_grid_size_matches() {
    check_rasterize_grid_size_matches();
}

#[test]
fn mod_test_rasterize_grid_size_matches() {
    check_rasterize_grid_size_matches();
}

fn check_rasterize_skirt_excluded_preserves_edge_heights() {
    let h = 500.0f32;
    let skirt_depth = 300.0f32;
    let mut all_verts = vec![([0.0, 0.0], h), ([1.0, 0.0], h), ([1.0, 1.0], h), ([0.0, 1.0], h)];
    let surface_indices: Vec<u32> = vec![0, 1, 2, 0, 2, 3];
    let surface_idx_count = surface_indices.len();
    let skirt_a_idx = all_verts.len() as u32;
    all_verts.push(([0.3, 0.0], h - skirt_depth));
    let skirt_b_idx = all_verts.len() as u32;
    all_verts.push(([0.3, 1.0], h - skirt_depth));
    let mut all_indices = surface_indices.clone();
    all_indices.extend_from_slice(&[0, skirt_a_idx, 3, 3, skirt_a_idx, skirt_b_idx]);

    let gs = 17u32;
    let without_skirts = rasterize(&all_verts, &all_indices[..surface_idx_count], gs);
    for row in 0..gs {
        for col in 0..gs {
            let idx = (row * gs + col) as usize;
            assert!(
                (without_skirts[idx] - h).abs() < 1.0,
                "skirt-excluded: ({},{}) should be ~{}m, got {}m",
                row,
                col,
                h,
                without_skirts[idx]
            );
        }
    }

    let with_skirts = rasterize(&all_verts, &all_indices, gs);
    let corrupted_col = 2usize;
    let found_corruption = (0..gs as usize)
        .any(|row| (with_skirts[row * gs as usize + corrupted_col] - h).abs() > 10.0);
    assert!(
        found_corruption,
        "inset-UV skirts (u=0.3) should corrupt cells near col=2 (u=0.125)",
    );
}

#[test]
fn pipeline_test_rasterize_skirt_excluded_preserves_edge_heights() {
    check_rasterize_skirt_excluded_preserves_edge_heights();
}

#[test]
fn mod_test_rasterize_skirt_excluded_preserves_edge_heights() {
    check_rasterize_skirt_excluded_preserves_edge_heights();
}

fn corner_triangle() -> Vec<PlanePoint> {
    vec![
        PlanePoint { u: 0, v: 0 },
        PlanePoint { u: TILE_UNITS, v: 0 },
        PlanePoint { u: 0, v: TILE_UNITS },
    ]
}

#[test]
fn a_cell_is_blended_by_area() {
    let plan = rasterize_qm_to_heightmap(&corner_triangle(), &[0, 1, 2], 5);
    // Row 1, column 2: a quarter down and half across.
    let b = plan.cells[7].unwrap();
    assert_eq!((b.a, b.b, b.c), (0, 1, 2));
    assert_eq!(b.wa + b.wb + b.wc, b.total);
    assert_eq!((4 * b.wa, 2 * b.wb, 4 * b.wc), (b.total, b.total, b.total));
    // The corners take their own heights.
    let at = |k: usize| plan.cells[k].map(|b: Blend| (b.wa == b.total, b.wb == b.total, b.wc == b.total));
    assert_eq!(at(0), Some((true, false, false)));
    assert_eq!(at(4), Some((false, true, false)));
    assert_eq!(at(20), Some((false, false, true)));
    // The cells beyond the diagonal are filled from their neighbours.
    assert!(plan.cells[24].is_none());
    assert_eq!(plan.cells.iter().filter(|c| c.is_some()).count(), 15);
    assert_eq!(plan.fills.len(), 10);
}

#[test]
fn a_reversed_triangle_blends_the_same() {
    let forward = rasterize_qm_to_heightmap(&corner_triangle(), &[0, 1, 2], 5);
    let reversed = rasterize_qm_to_heightmap(&corner_triangle(), &[0, 2, 1], 5);
    for (f, r) in forward.cells.iter().zip(&reversed.cells) {
        assert_eq!(f.map(|b| (b.wa, b.wb, b.wc, b.total)), r.map(|b| (b.wa, b.wc, b.wb, b.total)));
    }
}

#[test]
fn later_triangles_win() {
    let plan = rasterize_qm_to_heightmap(&corner_triangle(), &[0, 1, 2, 1, 2, 0], 3);
    assert_eq!(plan.cells[0].map(|b| (b.a, b.b, b.c)), Some((1, 2, 0)));
}

#[test]
fn triangles_without_area_or_corner_cover_nothing() {
    let mut flat = corner_triangle();
    flat[2] = PlanePoint { u: TILE_UNITS / 2, v: 0 };
    let plan = rasterize_qm_to_heightmap(&flat, &[0, 1, 2], 3);
    assert!(plan.cells.iter().all(|c| c.is_none()));
    assert!(plan.fills.is_empty());
    let plan = rasterize_qm_to_heightmap(&corner_triangle(), &[0, 1, 3, 0, 1], 3);
    assert!(plan.cells.iter().all(|c| c.is_none()));
}

#[test]
fn a_single_cell_is_never_covered() {
    let plan = rasterize_qm_to_heightmap(&corner_triangle(), &[0, 1, 2], 1);
    assert_eq!(plan.cells.len(), 1);
    assert!(plan.cells[0].is_none());
}

#[test]
fn meshes_may_reach_beyond_the_tile() {
    let wide = vec![
        PlanePoint { u: -TILE_UNITS, v: -TILE_UNITS },
        PlanePoint { u: 4 * TILE_UNITS, v: -TILE_UNITS },
        PlanePoint { u: -TILE_UNITS, v: 4 * TILE_UNITS },
    ];
    let plan = rasterize_qm_to_heightmap(&wide, &[0, 1, 2], 4);
    assert!(plan.cells.iter().all(|c| c.is_some()));
    let aside: Vec<PlanePoint> =
        corner_triangle().iter().map(|p| PlanePoint { u: p.u + 2 * TILE_UNITS, v: p.v }).collect();
    let plan = rasterize_qm_to_heightmap(&aside, &[0, 1, 2], 4);
    assert!(plan.cells.iter().all(|c| c.is_none()));
}

// -- Resampling ---------------------------------------------------------------

fn angle(degrees: f64) -> i64 {
    (degrees * 4_294_967_296.0).round() as i64
}

fn source(len: usize, gs: u32, west: f64, east: f64, north: f64, south: f64) -> GeoHeightmapSource {
    GeoHeightmapSource {
        len,
        grid_size: gs,
        west: angle(west),
        east: angle(east),
        north: angle(north),
        south: angle(south),
    }
}

/// Longitudes of the columns and latitudes of the rows of a grid over a Mercator tile.
fn grid(t: &TileCoord, side: u32) -> (Vec<i64>, Vec<i64>) {
    let n = (1u64 << t.z) as f64;
    let step = 1.0 / (side - 1) as f64;
    let lons = (0..side)
        .map(|c| angle((t.x as f64 + c as f64 * step) / n * 360.0 - 180.0))
        .collect();
    let lats = (0..side)
        .map(|r| {
            let y = std::f64::consts::PI * (1.0 - 2.0 * (t.y as f64 + r as f64 * step) / n);
            angle(y.sinh().atan().to_degrees())
        })
        .collect();
    (lons, lats)
}

fn resample(heights: &[f32], s: &GeoHeightmapSource, t: &TileCoord, side: u32) -> Vec<f32> {
    let (lons, lats) = grid(t, side);
    resample_geographic_to_mercator(s, &lons, &lats).iter().map(|st| read(st, heights)).collect()
}

fn resample_multi(maps: &[&[f32]], sources: &[GeoHeightmapSource], t: &TileCoord, side: u32) -> Vec<f32> {
    let (lons, lats) = grid(t, side);
    resample_geographic_to_mercator_multi(sources, &lons, &lats)
        .iter()
        .map(|s| match s {
            Some(s) => read(&s.stencil, maps[s.source]),
            None => 0.0,
        })
        .collect()
}

fn check_resample_constant_height() {
    let h = 2500.0f32;
    let gs = 9u32;
    let src = vec![h; (gs * gs) as usize];
    let merc = TileCoord::new(6, 33, 31);
    let out = resample(&src, &source(src.len(), gs, 0.0, 5.625, 5.625, 0.0), &merc, gs);
    assert_eq!(out.len(), (gs * gs) as usize);
    for (i, &val) in out.iter().enumerate() {
        assert!((val - h).abs() < 1.0, "cell {}: expected {}m, got {}m", i, h, val);
    }
}

#[test]
fn pipeline_test_resample_constant_height() {
    check_resample_constant_height();
}

#[test]
fn mod_test_resample_constant_height() {
    check_resample_constant_height();
}

fn check_resample_output_size() {
    let gs = 17u32;
    let src = vec![0.0f32; (gs * gs) as usize];
    let merc = TileCoord::new(5, 16, 15);
    for out_gs in [5u32, 17, 33, 65] {
        let out = resample(&src, &source(src.len(), gs, -5.625, 0.0, 5.625, 0.0), &merc, out_gs);
        assert_eq!(
            out.len(),
            (out_gs * out_gs) as usize,
            "out_grid_size={}: expected {} cells",
            out_gs,
            out_gs * out_gs
        );
    }
}

#[test]
fn pipeline_test_resample_output_size() {
    check_resample_output_size();
}

#[test]
fn mod_test_resample_output_size() {
    check_resample_output_size();
}

fn check_resample_north_south_gradient() {
    let gs = 33u32;
    let mut src = vec![0.0f32; (gs * gs) as usize];
    for row in 0..gs {
        for col in 0..gs {
            src[(row * gs + col) as usize] = row as f32 / (gs - 1) as f32 * 1000.0;
        }
    }
    let merc = TileCoord::new(6, 31, 31);
    let out_gs = 17u32;
    let out = resample(&src, &source(src.len(), gs, -5.625, 0.0, 5.625, 0.0), &merc, out_gs);
    let top_avg: f32 = (0..out_gs).map(|c| out[c as usize]).sum::<f32>() / out_gs as f32;
    let bot_avg: f32 = (0..out_gs).map(|c| out[((out_gs - 1) * out_gs + c) as usize]).sum::<f32>()
        / out_gs as f32;
    assert!(
        bot_avg > top_avg,
        "bottom average ({:.1}) should be > top average ({:.1})",
        bot_avg,
        top_avg
    );
}

#[test]
fn pipeline_test_resample_north_south_gradient() {
    check_resample_north_south_gradient();
}

#[test]
fn mod_test_resample_north_south_gradient() {
    check_resample_north_south_gradient();
}

fn check_resample_equatorial_symmetry() {
    let gs = 33u32;
    let mut src = vec![0.0f32; (gs * gs) as usize];
    let mid = (gs - 1) as f32 / 2.0;
    for row in 0..gs {
        for col in 0..gs {
            let v = (row as f32 - mid).abs() / mid;
            src[(row * gs + col) as usize] = (1.0 - v) * 1000.0;
        }
    }
    let merc = TileCoord::new(7, 64, 63);
    let out = resample(&src, &source(src.len(), gs, -2.8125, 2.8125, 2.8125, -2.8125), &merc, 17);
    let mid_row = 8;
    let center_h = out[mid_row * 17 + 8];
    let edge_h = out[8];
    assert!(center_h > edge_h, "center ({:.1}) should be higher than edge ({:.1})", center_h, edge_h);
}

#[test]
fn pipeline_test_resample_equatorial_symmetry() {
    check_resample_equatorial_symmetry();
}

#[test]
fn mod_test_resample_equatorial_symmetry() {
    check_resample_equatorial_symmetry();
}

fn check_multi_source_single_source_matches_original() {
    let grid_size = 5u32;
    let heightmap: Vec<f32> = (0..(grid_size * grid_size)).map(|i| 100.0 + i as f32 * 10.0).collect();
    let merc_coord = TileCoord::new(3, 4, 3);
    let s = source(heightmap.len(), grid_size, -45.0, -22.5, 45.0, 33.75);
    let out_grid_size = 5u32;
    let single = resample(&heightmap, &s, &merc_coord, out_grid_size);
    let multi = resample_multi(&[&heightmap[..]], &[s], &merc_coord, out_grid_size);
    for (i, (s, m)) in single.iter().zip(multi.iter()).enumerate() {
        assert!((s - m).abs() < 1e-4, "Mismatch at index {}: single={}, multi={}", i, s, m);
    }
}

#[test]
fn pipeline_test_multi_source_single_source_matches_original() {
    check_multi_source_single_source_matches_original();
}

#[test]
fn mod_test_multi_source_single_source_matches_original() {
    check_multi_source_single_source_matches_original();
}

fn check_multi_source_two_tiles_no_clamping() {
    let grid_size = 5u32;
    let heightmap_a: Vec<f32> = vec![1000.0; (grid_size * grid_size) as usize];
    let heightmap_b: Vec<f32> = vec![500.0; (grid_size * grid_size) as usize];
    let source_a = source(heightmap_a.len(), grid_size, 123.75, 135.0, 45.0, 33.75);
    let source_b = source(heightmap_b.len(), grid_size, 123.75, 135.0, 33.75, 22.5);
    let merc_coord = TileCoord::new(5, 27, 12);
    let out_grid_size = 9u32;
    let multi = resample_multi(
        &[&heightmap_a[..], &heightmap_b[..]],
        &[source_a, source_b],
        &merc_coord,
        out_grid_size,
    );
    let single = resample(&heightmap_a, &source_a, &merc_coord, out_grid_size);
    let has_500 = multi.iter().any(|&h| (h - 500.0).abs() < 1.0);
    let single_all_1000 = single.iter().all(|&h| (h - 1000.0).abs() < 1.0);
    assert!(has_500, "Multi-source should sample from tile B (500m) for southern pixels");
    assert!(single_all_1000, "Single-source should clamp all to tile A (1000m)");
}

#[test]
fn pipeline_test_multi_source_two_tiles_no_clamping() {
    check_multi_source_two_tiles_no_clamping();
}

#[test]
fn mod_test_multi_source_two_tiles_no_clamping() {
    check_multi_source_two_tiles_no_clamping();
}

fn check_multi_source_smooth_boundary() {
    let grid_size = 33u32;
    let gs = grid_size as usize;
    let sloped = |top: f32| -> Vec<f32> {
        (0..gs * gs)
            .map(|i| {
                let row = i / gs;
                let t = row as f32 / (gs - 1) as f32;
                top - 500.0 * t
            })
            .collect()
    };
    let heightmap_a = sloped(1000.0);
    let heightmap_b = sloped(500.0);
    assert!(
        (heightmap_a[gs * (gs - 1)] - heightmap_b[0]).abs() < 1.0,
        "Tile edge heights should match"
    );
    let source_a = source(heightmap_a.len(), grid_size, 0.0, 11.25, 45.0, 33.75);
    let source_b = source(heightmap_b.len(), grid_size, 0.0, 11.25, 33.75, 22.5);
    let merc_coord = TileCoord::new(5, 16, 12);
    let out_grid_size = 33u32;
    let multi = resample_multi(
        &[&heightmap_a[..], &heightmap_b[..]],
        &[source_a, source_b],
        &merc_coord,
        out_grid_size,
    );
    let ogs = out_grid_size as usize;
    let mut max_jump = 0.0f32;
    for row in 1..ogs {
        for col in 0..ogs {
            let jump = (multi[row * ogs + col] - multi[(row - 1) * ogs + col]).abs();
            if jump > max_jump {
                max_jump = jump;
            }
        }
    }
    assert!(
        max_jump < 100.0,
        "Max row-to-row height jump {:.1}m exceeds 100m — cliff wall detected!",
        max_jump,
    );
}

#[test]
fn pipeline_test_multi_source_smooth_boundary() {
    check_multi_source_smooth_boundary();
}

#[test]
fn mod_test_multi_source_smooth_boundary() {
    check_multi_source_smooth_boundary();
}

#[test]
fn points_are_read_where_they_lie() {
    let s = source(9, 3, 0.0, 8.0, 8.0, 0.0);
    // Three eighths across and one quarter down a grid of two by two cells.
    let r = resample_geographic_to_mercator(&s, &[angle(3.0)], &[angle(6.0)]);
    assert_eq!(r.len(), 1);
    match r[0] {
        Stencil::Quad { i00, i10, i01, i11, fx, fy } => {
            assert_eq!((i00, i10, i01, i11), (0, 1, 3, 4));
            assert_eq!((ratio(fx), ratio(fy)), (0.75, 0.5));
        }
        _ => panic!("the grid is complete"),
    }
}

#[test]
fn points_outside_are_read_at_the_edge() {
    let s = source(4, 2, 0.0, 1.0, 1.0, 0.0);
    let heights = [1.0, 2.0, 3.0, 4.0];
    let lons = [angle(-5.0), angle(5.0)];
    let lats = [angle(5.0), angle(-5.0)];
    let r = resample_geographic_to_mercator(&s, &lons, &lats);
    let values: Vec<f32> = r.iter().map(|st| read(st, &heights)).collect();
    assert_eq!(values, vec![1.0, 2.0, 3.0, 4.0]);
}

#[test]
fn a_source_without_width_is_read_in_its_middle() {
    let s = source(4, 2, 3.0, 3.0, 1.0, 0.0);
    let r = resample_geographic_to_mercator(&s, &[angle(77.0)], &[angle(1.0)]);
    assert_eq!(read(&r[0], &[1.0, 3.0, 0.0, 0.0]), 2.0);
}

#[test]
fn the_first_covering_source_is_read() {
    let a = source(1, 1, 0.0, 1.0, 1.0, 0.0);
    let b = source(1, 1, 0.0, 2.0, 2.0, 0.0);
    let at = |lon: f64, lat: f64| {
        resample_geographic_to_mercator_multi(&[a, b], &[angle(lon)], &[angle(lat)])[0]
            .map(|s: GeoSample| s.source)
    };
    assert_eq!(at(0.5, 0.5), Some(0));
    assert_eq!(at(1.5, 0.5), Some(1));
    assert_eq!(at(9.0, 9.0), Some(1));
    // Up to a millionth outside still counts as covered.
    assert_eq!(at(1.0000009, 0.5), Some(0));
    assert_eq!(at(1.0000011, 0.5), Some(1));
}

#[test]
fn where_no_source_covers_the_nearest_is_read() {
    let far = vec![1000.0f32; 4];
    let near = vec![500.0f32; 4];
    let sources = [source(4, 2, -170.0, -160.0, 10.0, 0.0), source(4, 2, 1.0, 5.0, 5.0, 1.0)];
    let out = resample_multi(&[&far, &near], &sources, &TileCoord::new(1, 1, 0), 2);
    // The lower left corner of the tile lies at longitude 0 and latitude 0.
    assert_eq!(out[2], 500.0);

    // At the same distance from both, the first is read.
    let a = source(1, 1, 0.0, 1.0, 1.0, 0.0);
    let b = source(1, 1, 3.0, 4.0, 1.0, 0.0);
    let at = |sources: &[GeoHeightmapSource]| {
        resample_geographic_to_mercator_multi(sources, &[angle(2.0)], &[angle(5.0)])[0]
            .map(|s: GeoSample| s.source)
    };
    assert_eq!(at(&[a, b]), Some(0));
    assert_eq!(at(&[b, a]), Some(0));
    // Both axes count.
    let low = source(1, 1, 2.0, 3.0, 1.0, 0.0);
    assert_eq!(at(&[a, low]), Some(1));
}

#[test]
fn points_outside_are_read_at_the_nearest_edge() {
    let s = source(4, 2, 0.0, 1.0, 1.0, 0.0);
    let heights = [10.0, 20.0, 30.0, 40.0];
    let at = |lon: f64, lat: f64| {
        read(&resample_geographic_to_mercator(&s, &[angle(lon)], &[angle(lat)])[0], &heights)
    };
    assert_eq!(at(-7.0, 1.0), 10.0);
    assert_eq!(at(7.0, 9.0), 20.0);
    assert_eq!(at(0.0, -3.0), 30.0);
    assert_eq!(at(8.0, -0.5), 40.0);
    assert_eq!(at(8.0, 0.5), at(1.0, 0.5));
}

#[test]
fn without_sources_nothing_is_read() {
    let r = resample_geographic_to_mercator_multi(&[], &[0, 1, 2], &[0, 1]);
    assert_eq!(r.len(), 6);
    assert!(r.iter().all(|s| s.is_none()));
}

#[test]
fn samples_run_row_by_row() {
    let s = source(4, 2, 0.0, 1.0, 1.0, 0.0);
    let lons = [angle(0.0), angle(1.0)];
    let lats = [angle(1.0), angle(0.0), angle(0.5)];
    let heights = [10.0, 20.0, 30.0, 40.0];
    let r = resample_geographic_to_mercator_multi(&[s], &lons, &lats);
    let values: Vec<f32> = r.iter().map(|s| read(&s.unwrap().stencil, &heights)).collect();
    assert_eq!(values, vec![10.0, 20.0, 30.0, 40.0, 20.0, 30.0]);
}

// -- Tile uniforms ------------------------------------------------------------

fn r32(v: f32) -> Real32 {
    Real32 { bits: v.to_bits() }
}

fn corners(b: TileBounds) -> [f32; 4] {
    [b.min_x, b.min_y, b.max_x, b.max_y].map(|c| c as f32 / b.extent as f32)
}

fn check_tile_uniforms_bounds() {
    let u = tile_uniforms(&TileCoord::new(1, 0, 0), r32(1.0));
    let bounds = corners(u.bounds);
    assert!((bounds[0] - 0.0).abs() < 1e-6);
    assert!((bounds[1] - 0.0).abs() < 1e-6);
    assert!((bounds[2] - 0.5).abs() < 1e-6);
    assert!((bounds[3] - 0.5).abs() < 1e-6);
}

#[test]
fn pipeline_test_tile_uniforms_bounds() {
    check_tile_uniforms_bounds();
}

#[test]
fn mod_test_tile_uniforms_bounds() {
    check_tile_uniforms_bounds();
}

fn check_tile_uniforms_opacity() {
    let u = tile_uniforms(&TileCoord::new(0, 0, 0), r32(0.75));
    assert!((f32::from_bits(u.opacity.bits) - 0.75).abs() < 1e-6);
}

#[test]
fn pipeline_test_tile_uniforms_opacity() {
    check_tile_uniforms_opacity();
}

#[test]
fn mod_test_tile_uniforms_opacity() {
    check_tile_uniforms_opacity();
}

#[test]
fn tile_uniforms_keep_the_texture_area() {
    let t = TileCoord::new(4, 9, 5);
    let rect = UvRect { u_min: 1, v_min: 0, u_max: 2, v_max: 1, scale: 4 };
    let u = tile_uniforms_with_uv(&t, r32(0.5), rect);
    assert_eq!(u.bounds, TileBounds { min_x: 9, min_y: 5, max_x: 10, max_y: 6, extent: 16 });
    assert_eq!((u.zoom, u.uv_rect), (4, rect));
    assert_eq!(tile_uniforms(&t, r32(0.5)).uv_rect, UvRect::full());
}

#[test]
fn copies_across_the_antimeridian_are_drawn_aside() {
    let t = TileCoord::new(3, 7, 2);
    let rt = RenderableTile { coord: t, texture_coord: t, uv_rect: UvRect::full(), display_x: -1 };
    let u = tile_uniforms_for_visible(&rt, r32(1.0));
    assert_eq!(u.bounds, TileBounds { min_x: -1, min_y: 2, max_x: 0, max_y: 3, extent: 8 });
}

#[test]
fn children_are_drawn_on_quarters() {
    let t = TileCoord::new(2, 1, 3);
    let parent = corners(tile_uniforms(&t, r32(1.0)).bounds);
    let parts: Vec<[f32; 4]> =
        t.children().iter().map(|c| corners(tile_uniforms(c, r32(1.0)).bounds)).collect();
    assert_eq!([parts[0][0], parts[0][1]], [parent[0], parent[1]]);
    assert_eq!([parts[3][2], parts[3][3]], [parent[2], parent[3]]);
    assert_eq!(parts[0][2], parts[1][0]);
    assert_eq!(parts[0][3], parts[2][1]);
}

// -- Angular filter -----------------------------------------------------------

#[test]
fn test_angular_threshold_floor() {
    assert!(f64_of(centered_angular_threshold_deg(r64(0.0))) >= 85.0);
    assert!(f64_of(centered_angular_threshold_deg(r64(10.0))) >= 85.0);
    assert!(f64_of(centered_angular_threshold_deg(r64(0.0))) < 90.0);
}

fn on_sphere(lat: f64, lon: f64) -> [f64; 3] {
    [lat.cos() * lon.cos(), lat.cos() * lon.sin(), lat.sin()]
}

fn passes(tile: &RenderableTile, lat_deg: f64, lon_deg: f64) -> bool {
    let view = on_sphere(lat_deg.to_radians(), lon_deg.to_radians());
    let width = 2.0 * tile.coord.extent() as f64;
    let pi = std::f64::consts::PI;
    let cosines: Vec<Real64> = angular_filter_points(tile)
        .iter()
        .map(|p| {
            let lon = (p.x as f64 / width * 2.0 - 1.0) * pi;
            let lat = (pi * (1.0 - 2.0 * p.y as f64 / width)).sinh().atan();
            let at = on_sphere(lat, lon);
            r64(view[0] * at[0] + view[1] * at[1] + view[2] * at[2])
        })
        .collect();
    let threshold = f64_of(centered_angular_threshold_deg(r64(3.0))).to_radians().cos();
    tile_passes_angular_filter(&cosines, r64(threshold))
}

fn shown(z: u8, x: u32, y: u32) -> RenderableTile {
    let coord = TileCoord::new(z, x, y);
    RenderableTile { coord, texture_coord: coord, uv_rect: UvRect::full(), display_x: x as i64 }
}

fn tile_of(lat_deg: f64, lon_deg: f64, z: u8) -> RenderableTile {
    let n = (1u64 << z) as f64;
    let lat = lat_deg.to_radians();
    let x = (lon_deg + 180.0) / 360.0;
    let y = 0.5 - (lat.tan() + 1.0 / lat.cos()).ln() / (2.0 * std::f64::consts::PI);
    shown(z, (x * n) as u32, (y * n) as u32)
}

#[test]
fn test_tile_passes_angular_filter_near_center() {
    assert!(passes(&tile_of(37.5, 127.0, 5), 37.5, 127.0));
}

#[test]
fn test_tile_passes_angular_filter_far_away() {
    assert!(!passes(&tile_of(-37.5, -53.0, 5), 37.5, 127.0));
}

#[test]
fn large_tiles_count_as_near_by_a_corner() {
    // The center of this tile lies beyond the threshold, a corner of it does not.
    assert!(passes(&shown(1, 0, 0), 0.0, 0.0));
    assert!(!passes(&shown(5, 0, 15), 0.0, 0.0));
    assert!(!tile_passes_angular_filter(&[], r64(0.0)));
    assert!(!tile_passes_angular_filter(&[r64(0.5), r64(-1.0)], r64(0.5)));
    assert!(tile_passes_angular_filter(&[r64(0.5), r64(0.75)], r64(0.5)));
}

#[test]
fn tiles_are_judged_by_center_and_corners() {
    let points = angular_filter_points(&shown(3, 2, 5));
    let expected: Vec<HalfStep> = [(5, 11), (4, 10), (6, 10), (4, 12), (6, 12)]
        .iter()
        .map(|&(x, y)| HalfStep { x, y })
        .collect();
    assert_eq!(points, expected);
}

#[test]
fn terrain_vertices_span_the_tile() {
    assert_eq!(grid_place(0), GridPlace { column: 0, row: 0, dx: -32, dy: -32 });
    assert_eq!(grid_place(1088), GridPlace { column: 32, row: 32, dx: 32, dy: 32 });
    assert_eq!(grid_place(16 * 33 + 16), GridPlace { column: 16, row: 16, dx: 0, dy: 0 });
    assert_eq!(grid_place(40), GridPlace { column: 7, row: 1, dx: -18, dy: -30 });
}
