use x_planets_core::collections::{TileMap, TileSet};
use x_planets_core::engine::ProjectionMode;
use x_planets_core::named::NamedMap;
use x_planets_core::pipeline::tile_uniforms::{RenderableTile, UvRect};
use x_planets_core::render::grid::{grid_surface, Winding};
use x_planets_core::render::layer::{LayerStack, TileRenderLayer};
use x_planets_core::render::skirt::{append_skirt, MeshVertex, SkirtWinding};
use x_planets_core::render::tile::{
    centered_subdivisions, globe_subdivisions, tile_quad_vertices, TileVertex,
};
use x_planets_core::render_data::{RenderLayerData, TerrainLayerData};
use x_planets_core::scalar::{Frac, Real32, Real64};
use x_planets_core::shared_render_resources::SharedRenderResources;
use x_planets_core::terrain_data::{MeshSource, TerrainTileData};
use x_planets_core::terrain_renderer::TerrainRenderer;
use x_planets_core::tile::TileCoord;
use x_planets_core::tile_renderer::{
    draw_ranges, render_frame_layered_projected, sort_coords, FramePass, TileRenderer,
};
use x_planets_core::tiles3d_state::{Center, DecodedMesh, TextureInfo, Tiles3dGpuState};

fn r64(v: f64) -> Real64 {
    Real64 { bits: v.to_bits() }
}

fn position(v: &TileVertex) -> [f32; 2] {
    let size = 2.0 * v.extent as f32;
    [v.dx as f32 / size, v.dy as f32 / size]
}

#[test]
fn test_tile_quad_vertices_rte() {
    let verts = tile_quad_vertices(&TileCoord::new(1, 0, 0));
    assert!((position(&verts[0])[0] - (-0.25)).abs() < 1e-6);
    assert!((position(&verts[0])[1] - (-0.25)).abs() < 1e-6);
    assert!((position(&verts[3])[0] - 0.25).abs() < 1e-6);
    assert!((position(&verts[3])[1] - 0.25).abs() < 1e-6);
}

#[test]
fn test_tile_quad_vertices_zoom0() {
    let verts = tile_quad_vertices(&TileCoord::new(0, 0, 0));
    assert!((position(&verts[0])[0] - (-0.5)).abs() < 1e-6);
    assert!((position(&verts[3])[0] - 0.5).abs() < 1e-6);
}

#[test]
fn test_tile_quad_vertices_area() {
    for z in 0..=4u8 {
        let n = 1u32 << z;
        for x in 0..n {
            for y in 0..n {
                let verts = tile_quad_vertices(&TileCoord::new(z, x, y));
                let w = position(&verts[1])[0] - position(&verts[0])[0];
                let h = position(&verts[2])[1] - position(&verts[0])[1];
                let expected_size = 1.0 / n as f32;
                assert!((w - expected_size).abs() < 1e-6);
                assert!((h - expected_size).abs() < 1e-6);
            }
        }
    }
}

#[test]
fn test_tile_quad_vertices_centered_at_origin() {
    for z in 1..=3u8 {
        let n = 1u32 << z;
        for x in 0..n {
            for y in 0..n {
                let verts = tile_quad_vertices(&TileCoord::new(z, x, y));
                let cx = (position(&verts[0])[0] + position(&verts[3])[0]) / 2.0;
                let cy = (position(&verts[0])[1] + position(&verts[3])[1]) / 2.0;
                assert!(cx.abs() < 1e-6 && cy.abs() < 1e-6);
            }
        }
    }
}

fn check_layer_stack() {
    let mut stack = LayerStack::new();
    stack.add_layer(TileRenderLayer::new("base"));
    stack.add_layer(TileRenderLayer::new("overlay"));

    assert_eq!(stack.layer_count(), 2);
    assert!(stack.get_layer("base").is_some());

    stack.remove_layer("base");
    assert_eq!(stack.layer_count(), 1);
}

#[test]
fn render_test_layer_stack() {
    check_layer_stack();
}

#[test]
fn layer_test_layer_stack() {
    check_layer_stack();
}

#[test]
fn stacks_show_visible_layers() {
    let mut stack = LayerStack::default();
    stack.add_layer(TileRenderLayer::new("a"));
    stack.add_layer(TileRenderLayer::new("b"));
    stack.get_layer_mut("a").unwrap().visible = false;
    let names: Vec<&str> = stack.visible_layers().iter().map(|l| l.name.as_str()).collect();
    assert_eq!(names, vec!["b"]);
    assert!(stack.get_layer_mut("c").is_none());
    assert_eq!(stack.get_layer("b").unwrap().opacity, Real32::one());
}

#[test]
fn subdivisions_by_level() {
    for (z, globe, centered) in
        [(0, 32, 16), (2, 32, 16), (3, 16, 8), (5, 16, 8), (6, 8, 4), (9, 8, 4), (10, 4, 2), (13, 4, 2), (14, 2, 2), (255, 2, 2)]
    {
        assert_eq!(globe_subdivisions(z), globe);
        assert_eq!(centered_subdivisions(z), centered);
    }
}

#[test]
fn surface_triangles() {
    assert_eq!(grid_surface(1, Winding::Down), vec![0, 2, 1, 1, 2, 3]);
    assert_eq!(grid_surface(1, Winding::Across), vec![0, 1, 2, 2, 1, 3]);
    let all = grid_surface(4, Winding::Down);
    assert_eq!(all.len(), 6 * 16);
    for v in 0..25 {
        assert!(all.contains(&v));
    }
}

#[test]
fn skirts_add_two_triangles_per_segment() {
    let mut vertices: Vec<MeshVertex> =
        (0..2).map(|i| MeshVertex { source: i, skirt: false }).collect();
    let mut indices = vec![];
    append_skirt(&vec![(0, 1)], SkirtWinding::Strip, &mut vertices, &mut indices);
    assert_eq!(vertices.len(), 4);
    assert_eq!(vertices[2], MeshVertex { source: 0, skirt: true });
    assert_eq!(vertices[3], MeshVertex { source: 1, skirt: true });
    assert_eq!(indices.len(), 6);
    let mut seen = indices.clone();
    seen.sort();
    seen.dedup();
    assert_eq!(seen, vec![0, 1, 2, 3]);
}

#[test]
fn surface_sizes() {
    let mut s = SharedRenderResources::new(None);
    assert_eq!(s.depth_extent(), (800, 600));
    assert!(!s.resize(800, 600));
    assert!(s.resize(0, 7));
    assert_eq!((s.surface_width, s.surface_height), (0, 7));
    assert_eq!(s.depth_extent(), (1, 7));
    assert_eq!(SharedRenderResources::new(Some((5, 6))).depth_extent(), (5, 6));
}

fn set(coords: &[TileCoord]) -> TileSet {
    let mut s = TileSet::new();
    for c in coords {
        s.insert(*c);
    }
    s
}

fn tile(z: u8, x: u32, y: u32) -> RenderableTile {
    let coord = TileCoord::new(z, x, y);
    RenderableTile { coord, texture_coord: coord, uv_rect: UvRect::full(), display_x: x as i64 }
}

fn flat(name: &str, tiles: Vec<RenderableTile>) -> RenderLayerData {
    let bound: Vec<TileCoord> = tiles.iter().map(|t| t.texture_coord).collect();
    RenderLayerData {
        name: name.to_string(),
        source: name.to_string(),
        opacity: Real32::one(),
        tiles,
        texture_views: set(&bound),
        tile_opacity_overrides: TileMap::new(),
    }
}

#[test]
fn tiles_without_texture_are_not_drawn() {
    let mut r = TileRenderer::new();
    let mut layer = flat("base", vec![tile(2, 0, 0), tile(2, 1, 0)]);
    layer.texture_views = set(&[TileCoord::new(2, 1, 0)]);
    let share = Frac { num: 1, den: 4 };
    layer.tile_opacity_overrides.insert(TileCoord::new(2, 1, 0), share);
    let tiles = r.prepare_layer(&layer, ProjectionMode::Globe, &[], (0, 0), &vec![]).unwrap();
    assert_eq!(tiles.len(), 1);
    assert_eq!(tiles[0].tile.coord, TileCoord::new(2, 1, 0));
    assert_eq!(tiles[0].share, Some(share));
    layer.texture_views = TileSet::new();
    assert!(r.prepare_layer(&layer, ProjectionMode::Globe, &[], (0, 0), &vec![]).is_none());
}

#[test]
fn meshes_are_kept_while_they_fit() {
    let mut r = TileRenderer::new();
    let a = flat("base", vec![tile(12, 0, 0), tile(12, 1, 0)]);
    assert!(r.prepare_layer(&a, ProjectionMode::Globe, &[], (0, 0), &vec![]).is_some());
    let tiles = r.select_tiles(&a, ProjectionMode::Globe, &[]);
    let name = "base".to_string();
    assert!(r.is_cached(&name, &tiles, ProjectionMode::Globe, (5, 5)));
    // Neither order nor, on the globe, the center matters.
    let swapped = vec![tiles[1], tiles[0]];
    assert!(r.is_cached(&name, &swapped, ProjectionMode::Globe, (9, 9)));
    assert!(!r.is_cached(&name, &vec![tiles[0]], ProjectionMode::Globe, (0, 0)));
    assert!(!r.is_cached(&name, &tiles, ProjectionMode::Mercator, (0, 0)));
    assert!(!r.is_cached(&"other".to_string(), &tiles, ProjectionMode::Globe, (0, 0)));
    let mesh = &r.cached_meshes.get(&name).unwrap().mesh;
    assert_eq!(mesh.counts, vec![96, 96]);
    assert_eq!(mesh.vertices.len(), 50);
}

#[test]
fn a_kept_mesh_is_that_of_the_same_addresses() {
    let mut r = TileRenderer::new();
    let name = "base".to_string();
    let globe = ProjectionMode::Globe;
    r.prepare_layer(&flat("base", vec![tile(12, 0, 0), tile(2, 1, 0)]), globe, &[], (0, 0), &vec![]);
    let counts = r.cached_meshes.get(&name).unwrap().mesh.counts.clone();
    assert_eq!(counts.len(), 2);
    assert!(counts[0] < counts[1]);
    // The same tiles shown elsewhere: the mesh stays.
    let mut moved = tile(12, 0, 0);
    moved.display_x = -4096;
    r.prepare_layer(&flat("base", vec![moved, tile(2, 1, 0)]), globe, &[], (0, 0), &vec![]);
    assert_eq!(r.cached_meshes.get(&name).unwrap().mesh.counts, counts);
    // Other tiles, and another layer: each has its own.
    r.prepare_layer(&flat("over", vec![tile(12, 5, 0)]), globe, &[], (0, 0), &vec![]);
    assert_eq!(r.cached_meshes.get(&name).unwrap().mesh.counts, counts);
    r.prepare_layer(&flat("base", vec![tile(12, 0, 0)]), globe, &[], (0, 0), &vec![]);
    assert_eq!(r.cached_meshes.get(&name).unwrap().mesh.counts, vec![counts[0]]);
}

#[test]
fn centered_meshes_depend_on_the_center() {
    let mut r = TileRenderer::new();
    let a = flat("base", vec![tile(12, 0, 0), tile(12, 1, 0)]);
    let front = vec![vec![true; 8]];
    // The second tile is too far from the center.
    let near = [true, false];
    let tiles = r.prepare_layer(&a, ProjectionMode::Mercator, &near, (1, 2), &front).unwrap();
    assert_eq!(tiles.len(), 1);
    let chosen = r.select_tiles(&a, ProjectionMode::Mercator, &near);
    let name = "base".to_string();
    assert!(r.is_cached(&name, &chosen, ProjectionMode::Mercator, (1, 2)));
    assert!(!r.is_cached(&name, &chosen, ProjectionMode::Mercator, (1, 3)));
    assert_eq!(r.cached_meshes.get(&name).unwrap().mesh.counts, vec![24]);
    // A fitting mesh needs no flags.
    assert!(r.prepare_layer(&a, ProjectionMode::Mercator, &near, (1, 2), &vec![]).is_some());
}

#[test]
fn addresses_sort_by_level_column_row() {
    let coords = vec![
        TileCoord::new(3, 1, 1),
        TileCoord::new(2, 3, 0),
        TileCoord::new(3, 0, 7),
        TileCoord::new(3, 1, 0),
    ];
    assert_eq!(
        sort_coords(&coords),
        vec![
            TileCoord::new(2, 3, 0),
            TileCoord::new(3, 0, 7),
            TileCoord::new(3, 1, 0),
            TileCoord::new(3, 1, 1),
        ]
    );
}

#[test]
fn ranges_follow_each_other() {
    assert_eq!(draw_ranges(&vec![6, 0, 9]), vec![(0, 6), (6, 6), (6, 15)]);
    assert!(draw_ranges(&vec![]).is_empty());
}

#[test]
fn the_first_pass_clears() {
    let mode = ProjectionMode::Mercator;
    assert_eq!(render_frame_layered_projected(&[], mode), vec![FramePass::Clear]);
    assert_eq!(
        render_frame_layered_projected(&[false, true, false, true], mode),
        vec![
            FramePass::Clear,
            FramePass::Draw { layer: 1, clear: false, polar_caps: false },
            FramePass::Draw { layer: 3, clear: false, polar_caps: false },
        ]
    );
    assert_eq!(
        render_frame_layered_projected(&[true], ProjectionMode::Globe),
        vec![FramePass::Draw { layer: 0, clear: true, polar_caps: true }]
    );
}

fn terrain(tiles: Vec<RenderableTile>, source: TileCoord) -> TerrainLayerData {
    let bound: Vec<TileCoord> = tiles.iter().map(|t| t.texture_coord).collect();
    let mut elevation_data: TileMap<TileCoord> = TileMap::new();
    for t in &tiles {
        elevation_data.insert(t.coord, source);
    }
    TerrainLayerData {
        name: "hills".to_string(),
        imagery_source: "sat".to_string(),
        elevation_source: "hills".to_string(),
        opacity: Real32::one(),
        tiles,
        imagery_views: set(&bound),
        elevation_data,
        tile_opacity_overrides: TileMap::new(),
    }
}

#[test]
fn terrain_meshes_are_made_once() {
    let mut r = TerrainRenderer::new(Some((10, 10)));
    let globe = ProjectionMode::Globe;
    let root = TileCoord::new(0, 0, 0);
    let layers = [terrain(vec![tile(1, 0, 0), tile(1, 1, 0)], root)];
    let near = vec![vec![]];
    let first = r.render_terrain_layered(&layers, globe, r64(0.0), &near);
    assert_eq!(first[0].len(), 2);
    assert!(first[0].iter().all(|d| d.build_mesh && d.build_bind_group));
    let d = first[0][1];
    assert_eq!(d.elev_source, root);
    assert_eq!(d.elev_uv, UvRect { u_min: 1, v_min: 0, u_max: 2, v_max: 1, scale: 2 });
    let again = r.render_terrain_layered(&layers, globe, r64(0.0), &near);
    assert!(again[0].iter().all(|d| !d.build_mesh && !d.build_bind_group));
    // Another elevation source, another texture, a dropped mesh.
    let other = [terrain(vec![tile(1, 0, 0), tile(1, 1, 0)], TileCoord::new(1, 0, 0))];
    let r2 = r.render_terrain_layered(&other, globe, r64(0.0), &near);
    assert!(r2[0].iter().all(|d| d.build_mesh));
    let mut swapped = terrain(vec![tile(1, 0, 0), tile(1, 1, 0)], TileCoord::new(1, 0, 0));
    swapped.tiles[0].texture_coord = root;
    swapped.imagery_views.insert(root);
    let r3 = r.render_terrain_layered(&[swapped], globe, r64(0.0), &near);
    assert!(r3[0][0].build_bind_group && !r3[0][0].build_mesh);
    assert!(!r3[0][1].build_bind_group);
    r.invalidate_mesh(&TileCoord::new(1, 1, 0));
    let r4 = r.render_terrain_layered(&other, globe, r64(0.0), &near);
    assert!(r4[0][1].build_mesh && !r4[0][0].build_mesh);
}

#[test]
fn changes_of_the_whole_map_drop_all_terrain_meshes() {
    let mut r = TerrainRenderer::new(None);
    let globe = ProjectionMode::Globe;
    let layers = [terrain(vec![tile(1, 0, 0)], TileCoord::new(0, 0, 0))];
    let near = vec![vec![true]];
    r.render_terrain_layered(&layers, globe, r64(0.0), &near);
    r.exaggeration = r64(2.0);
    let gap = r64(0.5);
    let d = r.render_terrain_layered(&layers, globe, gap, &near);
    assert!(d[0][0].build_mesh);
    assert_eq!(r.cached_exaggeration, r64(2.0));
    // A map centered on the view makes them in every frame.
    for _ in 0..2 {
        let d = r.render_terrain_layered(&layers, ProjectionMode::Mercator, r64(0.0), &near);
        assert!(d[0][0].build_mesh);
    }
    // Without layers nothing happens.
    assert!(r.render_terrain_layered(&[], globe, r64(0.0), &vec![]).is_empty());
    assert_eq!(r.cached_projection_mode, ProjectionMode::Mercator);
    assert!(r.resize(3, 4));
    assert!(!r.resize(3, 4));
}

#[test]
fn terrain_tiles_need_texture_and_elevation() {
    let mut r = TerrainRenderer::new(None);
    let mut layer = terrain(vec![tile(3, 0, 0), tile(3, 1, 0), tile(3, 2, 0)], TileCoord::new(0, 0, 0));
    layer.imagery_views = set(&[TileCoord::new(3, 0, 0), TileCoord::new(3, 1, 0)]);
    layer.elevation_data.remove(&TileCoord::new(3, 1, 0));
    let d = r.plan_layer(&layer, ProjectionMode::Globe, &[]);
    assert_eq!(d.len(), 1);
    assert_eq!(d[0].tile, 0);
    let d = r.plan_layer(&layer, ProjectionMode::Mercator, &[false, true, true]);
    assert!(d.is_empty());
}

#[test]
fn terrain_tiles_keep_their_share_of_the_opacity() {
    let mut r = TerrainRenderer::new(None);
    let half = Frac { num: 1, den: 2 };
    let mut layer = terrain(vec![tile(3, 0, 0), tile(3, 1, 0)], TileCoord::new(0, 0, 0));
    layer.tile_opacity_overrides.insert(TileCoord::new(3, 1, 0), half);
    layer.tile_opacity_overrides.insert(TileCoord::new(3, 7, 7), half);
    for _ in 0..2 {
        let d = r.plan_layer(&layer, ProjectionMode::Globe, &[]);
        assert_eq!(d.iter().map(|d| d.share).collect::<Vec<_>>(), vec![None, Some(half)]);
    }
}

#[test]
fn old_terrain_meshes_are_dropped() {
    let mut r = TerrainRenderer::new(None);
    let globe = ProjectionMode::Globe;
    let many: Vec<RenderableTile> = (0..66).map(|x| tile(8, x, 0)).collect();
    let root = TileCoord::new(0, 0, 0);
    r.render_terrain_layered(&[terrain(many, root)], globe, r64(0.0), &vec![vec![]]);
    assert_eq!(r.mesh_cache.len(), 66);
    // 66 kept, one rendered: within the margin only while at most 64 more are kept.
    r.render_terrain_layered(&[terrain(vec![tile(8, 0, 0), tile(8, 1, 0)], root)], globe, r64(0.0), &vec![vec![]]);
    assert_eq!(r.mesh_cache.len(), 66);
    r.render_terrain_layered(&[terrain(vec![tile(8, 0, 0)], root)], globe, r64(0.0), &vec![vec![]]);
    assert_eq!(r.mesh_cache.len(), 1);
    assert!(r.mesh_cache.contains(&TileCoord::new(8, 0, 0)));
}

#[test]
fn mesh_sources() {
    let coord = TileCoord::new(3, 1, 1);
    let up = TileCoord::new(2, 0, 0);
    let grid = TerrainTileData::Heightmap { elevation: vec![Real32::zero(); 6], width: 3, height: 2 };
    match grid.mesh_source(true, coord, coord, UvRect::full()) {
        MeshSource::Grid { grid } => assert_eq!((grid.len, grid.width, grid.height), (6, 3, 2)),
        MeshSource::Prebuilt => panic!("a grid has no finished mesh"),
    }
    let ready = TerrainTileData::PrebuiltMesh {
        vertex_count: 9,
        indices: vec![0, 1, 2],
        fallback_heightmap: vec![Real32::zero(); 4],
        fallback_grid_size: 2,
    };
    assert_eq!(ready.mesh_source(true, coord, coord, UvRect::full()), MeshSource::Prebuilt);
    for (flat, source) in [(true, up), (false, coord)] {
        match ready.mesh_source(flat, coord, source, UvRect::full()) {
            MeshSource::Grid { grid } => assert_eq!((grid.len, grid.width, grid.height), (4, 2, 2)),
            MeshSource::Prebuilt => panic!("needs the grid"),
        }
    }
}

fn decoded(positions: usize, indices: usize, texture: Option<TextureInfo>) -> DecodedMesh {
    DecodedMesh { positions, normals: 2, tex_coords: 9, indices, texture, rtc_center: None }
}

#[test]
fn uploads_of_3d_content() {
    let mut s = Tiles3dGpuState::default();
    assert_eq!(s.max_concurrent, 6);
    let full = TextureInfo { width: 2, height: 3, len: 24 };
    let short = TextureInfo { width: 2, height: 3, len: 23 };
    let empty = TextureInfo { width: 0, height: 3, len: 0 };
    let mut centered = decoded(4, 3, Some(full));
    centered.rtc_center = Some(Center { x: r64(1.0), y: r64(2.0), z: r64(3.0) });
    let meshes = [
        decoded(0, 3, None),
        centered,
        decoded(4, 0, None),
        decoded(5, 6, Some(short)),
        decoded(6, 9, Some(empty)),
    ];
    let u = s.upload_decoded_tile("a.b3dm", &meshes);
    assert_eq!(u.len(), 3);
    assert_eq!((u[0].mesh, u[0].vertices, u[0].own_normals, u[0].own_tex_coords), (1, 4, 2, 4));
    assert!(u[0].textured);
    assert_eq!(u[0].rtc_center, centered.rtc_center);
    assert!(!u[1].textured && !u[2].textured);
    assert!(s.loaded_uris.contains(&"a.b3dm".to_string()));
    assert!(s.upload_decoded_tile("empty", &[decoded(0, 0, None)]).is_empty());
    assert!(!s.loaded_uris.contains(&"empty".to_string()));
}

#[test]
fn render_models_in_order() {
    let mut s = Tiles3dGpuState::new();
    s.upload_decoded_tile("x", &[decoded(3, 3, None), decoded(4, 3, None)]);
    s.upload_decoded_tile("y", &[decoded(5, 3, None)]);
    let order = ["y".to_string(), "gone".to_string(), "x".to_string()];
    let m: Vec<(usize, usize)> =
        s.collect_render_models(&order).iter().map(|(i, u)| (*i, u.vertices)).collect();
    assert_eq!(m, vec![(0, 5), (2, 3), (2, 4)]);
    s.unload_tiles(&["x".to_string(), "other".to_string()]);
    assert_eq!(s.collect_render_models(&order).len(), 1);
    assert!(!s.loaded_uris.contains(&"x".to_string()));
    assert!(s.loaded_uris.contains(&"y".to_string()));
}

#[test]
fn named_values() {
    let mut m: NamedMap<u32> = NamedMap::new();
    m.insert("a".to_string(), 1);
    m.insert("b".to_string(), 2);
    m.insert("a".to_string(), 3);
    assert_eq!(m.get(&"a".to_string()), Some(&3));
    assert_eq!(m.get(&"c".to_string()), None);
    assert!(m.remove(&"a".to_string()));
    assert!(!m.remove(&"a".to_string()));
    assert_eq!(m.get(&"b".to_string()), Some(&2));
}

#[test]
fn tile_maps() {
    let a = TileCoord::new(1, 0, 0);
    let b = TileCoord::new(1, 1, 0);
    let mut m: TileMap<u8> = TileMap::new();
    assert!(m.insert(a, 1));
    assert!(m.insert(b, 2));
    assert!(!m.insert(a, 3));
    assert_eq!(m.get(&a), Some(3));
    assert_eq!(m.entry_at(0), (a, 3));
    assert!(m.remove(&a));
    assert!(!m.remove(&a));
    assert_eq!(m.len(), 1);
    m.insert(a, 4);
    m.retain(&set(&[a]));
    assert_eq!(m.get(&a), Some(4));
    assert_eq!(m.get(&b), None);
}
