//! Wiring of terrain meshes: surface grids with skirts, quantized meshes, and the triangle
//! lists that normals and heightmaps are computed from.

use crate::pipeline::sampling::{
    grid_stencils, law_grid_reads, rect_u, rect_v, sample_grid, stencil_at, Stencil,
};
use crate::pipeline::tile_uniforms::UvRect;
use crate::render::grid::{
    corner, grid_surface, law_surface_in_range, surface_indices, Winding,
};
use crate::render::skirt::{
    append_skirt, law_skirt_in_range, skirt_indices, skirt_vertices,
    surface_vertices, MeshVertex, SkirtWinding,
};
use crate::sequences::gather;
use vstd::prelude::*;

verus! {

/// Cells per side of a terrain mesh.
pub const TERRAIN_GRID_SIZE: u32 = 32;

/// Vertices per side of a terrain mesh.
pub const TERRAIN_SIDE: u32 = 33;

/// Vertices of the surface of a terrain mesh.
pub const TERRAIN_SURFACE: u32 = 1089;

/// One side of the surface, and the direction in which its vertices are listed.
#[derive(Debug, Clone, Copy, PartialEq, Eq, Structural)]
pub enum Edge {
    /// Bottom row, left to right.
    Bottom,
    /// Top row, left to right.
    Top,
    /// Top row, right to left.
    TopReversed,
    /// Left column, top to bottom.
    Left,
    /// Right column, top to bottom.
    Right,
    /// Right column, bottom to top.
    RightReversed,
}

/// The `i`-th vertex along an edge of the terrain surface.
pub open spec fn edge_vertex(e: Edge, i: int) -> int {
    match e {
        Edge::Bottom => 32 * 33 + i,
        Edge::Top => i,
        Edge::TopReversed => 32 - i,
        Edge::Left => i * 33,
        Edge::Right => i * 33 + 32,
        Edge::RightReversed => (32 - i) * 33 + 32,
    }
}

/// The border segments along four edges, one edge after the other.
pub open spec fn border(edges: [Edge; 4]) -> Seq<(u32, u32)> {
    Seq::new(
        128,
        |s: int|
            (
                edge_vertex(edges[s / 32], s % 32) as u32,
                edge_vertex(edges[s / 32], s % 32 + 1) as u32,
            ),
    )
}

/// The edges in the order in which flat terrain hangs its skirt: a closed loop.
pub open spec fn flat_edges() -> [Edge; 4] {
    [Edge::Bottom, Edge::TopReversed, Edge::RightReversed, Edge::Left]
}

/// The edges in the order in which globe terrain hangs its skirt.
pub open spec fn globe_edges() -> [Edge; 4] {
    [Edge::Top, Edge::Bottom, Edge::Left, Edge::Right]
}

/// A terrain mesh: vertices, triangle list, and how each surface vertex reads the elevation.
pub struct TerrainMesh {
    pub vertices: Vec<MeshVertex>,
    pub indices: Vec<u32>,
    pub samples: Vec<Stencil>,
}

/// Where a surface vertex of a terrain tile lies: its texture coordinates are `(column, row)`
/// divided by the number of cells along an edge, and its place on a flat tile is `(dx, dy)` from
/// the tile's center, in units of half a cell.
#[derive(Debug, Clone, Copy, PartialEq, Eq, Structural)]
pub struct GridPlace {
    pub column: u32,
    pub row: u32,
    pub dx: i32,
    pub dy: i32,
}

/// Where surface vertex `k` lies; vertices are numbered row by row.
pub open spec fn place_of(k: int) -> GridPlace {
    GridPlace {
        column: (k % 33) as u32,
        row: (k / 33) as u32,
        dx: (2 * (k % 33) - 32) as i32,
        dy: (2 * (k / 33) - 32) as i32,
    }
}

/// Where a surface vertex lies.
pub fn grid_place(k: u32) -> (p: GridPlace)
    requires
        k < TERRAIN_SURFACE,
    ensures
        p == place_of(k as int),
{
    let column: u32 = k % TERRAIN_SIDE;
    let row: u32 = k / TERRAIN_SIDE;
    GridPlace { column, row, dx: 2 * column as i32 - 32, dy: 2 * row as i32 - 32 }
}

/// The surface reaches from edge to edge: no vertex lies outside the tile, the corners are
/// those of the tile, and opposite vertices lie at opposite places.
pub proof fn law_places_span(k: int)
    requires
        0 <= k < TERRAIN_SURFACE,
    ensures
        -32 <= place_of(k).dx <= 32,
        -32 <= place_of(k).dy <= 32,
        place_of(0).dx == -32 && place_of(0).dy == -32,
        place_of(1088).dx == 32 && place_of(1088).dy == 32,
        place_of(1088 - k).dx == -place_of(k).dx,
        place_of(1088 - k).dy == -place_of(k).dy,
{
}

/// Elevation grid that a mesh reads: the number of samples that are there, its nominal size,
/// and the part that the tile covers.
#[derive(Debug, Clone, Copy, PartialEq, Eq, Structural)]
pub struct ElevationGrid {
    pub len: usize,
    pub width: u32,
    pub height: u32,
    pub rect: UvRect,
}

impl ElevationGrid {
    /// The grid has a size, and its samples can be numbered.
    pub open spec fn readable(self) -> bool {
        self.width >= 1 && self.height >= 1 && self.width * self.height <= u32::MAX
            && self.rect.scale >= 1
    }
}

/// `m` is the surface grid with a skirt along the given edges.
pub open spec fn is_terrain_mesh(
    m: TerrainMesh,
    g: ElevationGrid,
    w: Winding,
    sw: SkirtWinding,
    edges: [Edge; 4],
) -> bool {
    &&& m.vertices@ == surface_vertices(1089) + skirt_vertices(border(edges))
    &&& m.indices@ == surface_indices(32, w) + skirt_indices(border(edges), 1089, sw)
    &&& m.samples@ == grid_stencils(g.len, g.width, g.height, g.rect, 32)
}

/// The `i`-th vertex along an edge.
fn vertex_on_edge(e: Edge, i: u32) -> (v: u32)
    requires
        i <= 32,
    ensures
        v == edge_vertex(e, i as int),
        v < 1089,
{
    match e {
        Edge::Bottom => 32 * 33 + i,
        Edge::Top => i,
        Edge::TopReversed => 32 - i,
        Edge::Left => i * 33,
        Edge::Right => i * 33 + 32,
        Edge::RightReversed => (32 - i) * 33 + 32,
    }
}

/// The border segments along four edges.
fn border_segments(edges: [Edge; 4]) -> (segments: Vec<(u32, u32)>)
    ensures
        segments@ == border(edges),
{
    let mut segments: Vec<(u32, u32)> = Vec::new();
    let mut e: usize = 0;
    while e < 4
        invariant
            e <= 4,
            segments@ == border(edges).take(32 * e),
        decreases 4 - e,
    {
        let edge = edges[e];
        let mut i: u32 = 0;
        while i < 32
            invariant
                e < 4,
                i <= 32,
                edge == edges[e as int],
                segments@ == border(edges).take(32 * e + i),
            decreases 32 - i,
        {
            segments.push((vertex_on_edge(edge, i), vertex_on_edge(edge, i + 1)));
            proof {
                let s = 32 * e + i;
                assert(s / 32 == e && s % 32 == i);
                assert(segments@ =~= border(edges).take(s + 1));
            }
            i = i + 1;
        }
        e = e + 1;
    }
    assert(segments@ =~= border(edges));
    segments
}

/// The plain vertices of a surface.
fn plain_vertices(n: usize) -> (v: Vec<MeshVertex>)
    requires
        n <= u32::MAX,
    ensures
        v@ == surface_vertices(n as nat),
{
    let mut v: Vec<MeshVertex> = Vec::new();
    let mut i: usize = 0;
    while i < n
        invariant
            i <= n,
            n <= u32::MAX,
            v@ == surface_vertices(n as nat).take(i as int),
        decreases n - i,
    {
        v.push(MeshVertex { source: i as u32, skirt: false });
        assert(v@ =~= surface_vertices(n as nat).take(i + 1));
        i = i + 1;
    }
    assert(v@ =~= surface_vertices(n as nat));
    v
}

/// A surface grid with a skirt along the given edges.
fn surface_with_skirt(g: ElevationGrid, w: Winding, sw: SkirtWinding, edges: [Edge; 4]) -> (m:
    TerrainMesh)
    requires
        g.readable(),
    ensures
        is_terrain_mesh(m, g, w, sw, edges),
{
    let mut vertices = plain_vertices(1089);
    let mut indices = grid_surface(32, w);
    let segments = border_segments(edges);
    append_skirt(&segments, sw, &mut vertices, &mut indices);
    let samples = sample_grid(g.len, g.width, g.height, g.rect, 32);
    TerrainMesh { vertices, indices, samples }
}

/// Mesh of a flat terrain tile.
pub fn build_terrain_mesh(g: ElevationGrid) -> (m: TerrainMesh)
    requires
        g.readable(),
    ensures
        is_terrain_mesh(m, g, Winding::Down, SkirtWinding::Wall, flat_edges()),
{
    surface_with_skirt(
        g,
        Winding::Down,
        SkirtWinding::Wall,
        [Edge::Bottom, Edge::TopReversed, Edge::RightReversed, Edge::Left],
    )
}

/// Mesh of a terrain tile under a projection centered on the viewport. `flipped` tells that
/// the projection turns the tile over; all triangles are then listed the other way round.
pub fn build_terrain_mesh_centered(g: ElevationGrid, flipped: bool) -> (m: TerrainMesh)
    requires
        g.readable(),
    ensures
        flipped ==> is_terrain_mesh(
            m,
            g,
            Winding::DownReversed,
            SkirtWinding::WallReversed,
            flat_edges(),
        ),
        !flipped ==> is_terrain_mesh(m, g, Winding::Down, SkirtWinding::Wall, flat_edges()),
{
    if flipped {
        surface_with_skirt(
            g,
            Winding::DownReversed,
            SkirtWinding::WallReversed,
            [Edge::Bottom, Edge::TopReversed, Edge::RightReversed, Edge::Left],
        )
    } else {
        build_terrain_mesh(g)
    }
}

/// Mesh of a terrain tile on the globe.
pub fn build_terrain_mesh_globe(g: ElevationGrid) -> (m: TerrainMesh)
    requires
        g.readable(),
    ensures
        is_terrain_mesh(m, g, Winding::Down, SkirtWinding::Strip, globe_edges()),
{
    surface_with_skirt(
        g,
        Winding::Down,
        SkirtWinding::Strip,
        [Edge::Top, Edge::Bottom, Edge::Left, Edge::Right],
    )
}

/// A decoded quantized mesh: vertex attributes, triangles, and the vertices on each side.
pub struct QuantizedMesh {
    pub u: Vec<u16>,
    pub v: Vec<u16>,
    pub height: Vec<u16>,
    pub indices: Vec<u32>,
    pub west_indices: Vec<u32>,
    pub south_indices: Vec<u32>,
    pub east_indices: Vec<u32>,
    pub north_indices: Vec<u32>,
}

/// A quantized vertex with rows counted downwards; full scale is 32767.
#[derive(Debug, Clone, Copy, PartialEq, Eq, Structural)]
pub struct QuantizedPoint {
    pub u: u16,
    pub v_down: i32,
    pub height: u16,
}

/// A quantized mesh with its skirt.
pub struct QuantizedTerrainMesh {
    pub points: Vec<QuantizedPoint>,
    pub vertices: Vec<MeshVertex>,
    pub indices: Vec<u32>,
}

/// The `i`-th segment of a side, if both its ends exist.
pub open spec fn side_segment(side: Seq<u32>, n: int) -> spec_fn(int) -> Option<(u32, u32)> {
    |i: int|
        if side[i] < n && side[i + 1] < n {
            Some((side[i], side[i + 1]))
        } else {
            None
        }
}

/// The segments of one side of a mesh with `n` vertices.
pub open spec fn side_segments(side: Seq<u32>, n: int) -> Seq<(u32, u32)> {
    gather(
        if side.len() < 2 {
            0
        } else {
            (side.len() - 1) as nat
        },
        side_segment(side, n),
    )
}

/// The border segments of a quantized mesh: west, south, east, north.
pub open spec fn quantized_border(m: QuantizedMesh) -> Seq<(u32, u32)> {
    let n = m.u@.len() as int;
    side_segments(m.west_indices@, n) + side_segments(m.south_indices@, n) + side_segments(
        m.east_indices@,
        n,
    ) + side_segments(m.north_indices@, n)
}

/// The vertex attributes with the row direction turned round.
pub open spec fn quantized_points(m: QuantizedMesh) -> Seq<QuantizedPoint> {
    Seq::new(
        m.u@.len(),
        |i: int|
            QuantizedPoint {
                u: m.u@[i],
                v_down: (32767 - m.v@[i]) as i32,
                height: m.height@[i],
            },
    )
}

/// Every vertex has all its attributes, and the mesh with its skirt can be numbered.
pub open spec fn quantized_ok(m: QuantizedMesh) -> bool {
    &&& m.v@.len() >= m.u@.len()
    &&& m.height@.len() >= m.u@.len()
    &&& m.u@.len() + 2 * (m.west_indices@.len() + m.south_indices@.len() + m.east_indices@.len()
        + m.north_indices@.len()) <= u32::MAX
}

proof fn lemma_gather_len<T>(n: nat, f: spec_fn(int) -> Option<T>)
    ensures
        gather(n, f).len() <= n,
    decreases n,
{
    if n > 0 {
        lemma_gather_len((n - 1) as nat, f);
    }
}

/// Append the segments of one side.
fn add_side(side: &Vec<u32>, n: usize, segments: &mut Vec<(u32, u32)>)
    requires
        n <= u32::MAX,
    ensures
        final(segments)@ == old(segments)@ + side_segments(side@, n as int),
        final(segments)@.len() <= old(segments)@.len() + side@.len(),
{
    let ghost before = segments@;
    let ghost rule = side_segment(side@, n as int);
    if side.len() < 2 {
        assert(segments@ =~= before + side_segments(side@, n as int));
        return ;
    }
    let count: usize = side.len() - 1;
    let mut i: usize = 0;
    assert(segments@ =~= before + gather(0, rule));
    while i < count
        invariant
            i <= count,
            count == side@.len() - 1,
            n <= u32::MAX,
            rule == side_segment(side@, n as int),
            segments@ == before + gather(i as nat, rule),
        decreases count - i,
    {
        let a: u32 = side[i];
        let b: u32 = side[i + 1];
        if (a as usize) < n && (b as usize) < n {
            segments.push((a, b));
        }
        assert(segments@ =~= before + gather((i + 1) as nat, rule));
        i = i + 1;
    }
    proof {
        lemma_gather_len(count as nat, rule);
    }
}

/// Mesh of a quantized terrain tile, with a skirt below each side.
pub fn build_terrain_mesh_from_qm(m: &QuantizedMesh) -> (r: QuantizedTerrainMesh)
    requires
        quantized_ok(*m),
    ensures
        r.points@ == quantized_points(*m),
        r.vertices@ == surface_vertices(m.u@.len()) + skirt_vertices(quantized_border(*m)),
        r.indices@ == m.indices@ + skirt_indices(
            quantized_border(*m),
            m.u@.len() as int,
            SkirtWinding::Strip,
        ),
{
    let n: usize = m.u.len();
    let mut points: Vec<QuantizedPoint> = Vec::new();
    let mut i: usize = 0;
    while i < n
        invariant
            i <= n,
            n == m.u@.len(),
            m.v@.len() >= n,
            m.height@.len() >= n,
            points@ == quantized_points(*m).take(i as int),
        decreases n - i,
    {
        points.push(
            QuantizedPoint { u: m.u[i], v_down: 32767 - m.v[i] as i32, height: m.height[i] },
        );
        assert(points@ =~= quantized_points(*m).take(i + 1));
        i = i + 1;
    }
    assert(points@ =~= quantized_points(*m));
    let mut segments: Vec<(u32, u32)> = Vec::new();
    add_side(&m.west_indices, n, &mut segments);
    add_side(&m.south_indices, n, &mut segments);
    add_side(&m.east_indices, n, &mut segments);
    add_side(&m.north_indices, n, &mut segments);
    assert(segments@ =~= quantized_border(*m));
    let mut vertices = plain_vertices(n);
    let mut indices: Vec<u32> = m.indices.clone();
    assert(indices@ =~= m.indices@);
    append_skirt(&segments, SkirtWinding::Strip, &mut vertices, &mut indices);
    QuantizedTerrainMesh { points, vertices, indices }
}

/// Triangle `t` of an index list, if all its corners exist.
pub open spec fn triangle_at(indices: Seq<u32>, n: int) -> spec_fn(int) -> Option<(u32, u32, u32)> {
    |t: int|
        {
            let a = indices[3 * t];
            let b = indices[3 * t + 1];
            let c = indices[3 * t + 2];
            if a < n && b < n && c < n {
                Some((a, b, c))
            } else {
                None
            }
        }
}

/// The triangles of an index list over `n` vertices; an incomplete one at the end and those
/// with a missing corner are left out.
pub open spec fn triangles(indices: Seq<u32>, n: int) -> Seq<(u32, u32, u32)> {
    gather(indices.len() / 3, triangle_at(indices, n))
}

/// The triangles over which normals are accumulated and heights are rasterized.
pub fn valid_triangles(indices: &[u32], n: usize) -> (r: Vec<(u32, u32, u32)>)
    ensures
        r@ == triangles(indices@, n as int),
{
    let ghost rule = triangle_at(indices@, n as int);
    let mut r: Vec<(u32, u32, u32)> = Vec::new();
    let total: usize = indices.len();
    let count: usize = total / 3;
    let mut t: usize = 0;
    while t < count
        invariant
            t <= count,
            total == indices@.len(),
            count == total / 3,
            rule == triangle_at(indices@, n as int),
            r@ == gather(t as nat, rule),
        decreases count - t,
    {
        let a: u32 = indices[3 * t];
        let b: u32 = indices[3 * t + 1];
        let c: u32 = indices[3 * t + 2];
        if (a as u64) < n as u64 && (b as u64) < n as u64 && (c as u64) < n as u64 {
            r.push((a, b, c));
        }
        assert(r@ =~= gather((t + 1) as nat, rule));
        t = t + 1;
    }
    r
}

/// The elevation source to read: the first that covers the point, else the nearest. `gaps` are
/// the sources' distances from the point, squared or not.
pub open spec fn source_for(covers: Seq<bool>, gaps: Seq<u128>) -> Option<int> {
    if covers.len() == 0 {
        None
    } else if exists|i: int| 0 <= i < covers.len() && #[trigger] covers[i] {
        Some(first_covering(covers))
    } else {
        Some(nearest_source(gaps))
    }
}

/// Position of the smallest gap, the first of equal ones.
pub open spec fn nearest_source(gaps: Seq<u128>) -> int
    decreases gaps.len(),
{
    if gaps.len() <= 1 {
        0
    } else {
        let best = nearest_source(gaps.drop_last());
        if gaps.last() < gaps[best] {
            gaps.len() - 1
        } else {
            best
        }
    }
}

/// Position of the first source that covers the point.
pub open spec fn first_covering(covers: Seq<bool>) -> int
    decreases covers.len(),
{
    if covers.len() == 0 || covers[0] {
        0
    } else {
        1 + first_covering(covers.drop_first())
    }
}

proof fn lemma_first_covering(covers: Seq<bool>, i: int)
    requires
        0 <= i < covers.len(),
        covers[i],
        forall|j: int| 0 <= j < i ==> !(#[trigger] covers[j]),
    ensures
        first_covering(covers) == i,
    decreases i,
{
    if i > 0 {
        let rest = covers.drop_first();
        assert(!covers[0]);
        assert forall|j: int| 0 <= j < i - 1 implies !(#[trigger] rest[j]) by {
            assert(!covers[j + 1]);
        }
        lemma_first_covering(rest, i - 1);
    }
}

/// The nearest source has the smallest gap, and every earlier one has a larger gap.
pub proof fn lemma_nearest_source(gaps: Seq<u128>)
    requires
        gaps.len() > 0,
    ensures
        0 <= nearest_source(gaps) < gaps.len(),
        forall|j: int|
            0 <= j < gaps.len() ==> gaps[nearest_source(gaps)] <= #[trigger] gaps[j],
        forall|j: int|
            0 <= j < nearest_source(gaps) ==> gaps[nearest_source(gaps)] < #[trigger] gaps[j],
    decreases gaps.len(),
{
    if gaps.len() > 1 {
        let rest = gaps.drop_last();
        lemma_nearest_source(rest);
        let best = nearest_source(rest);
        assert forall|j: int| 0 <= j < gaps.len() implies gaps[nearest_source(gaps)]
            <= #[trigger] gaps[j] by {
            if j < rest.len() {
                assert(rest[best] <= rest[j]);
            }
        }
        assert forall|j: int| 0 <= j < nearest_source(gaps) implies gaps[nearest_source(gaps)]
            < #[trigger] gaps[j] by {
            assert(rest[best] <= rest[j]);
            if j < best {
                assert(rest[best] < rest[j]);
            }
        }
    }
}

/// Choose the elevation source for a point from which sources cover it and how far away they
/// are.
pub fn choose_source(covers: &[bool], gaps: &[u128]) -> (r: Option<usize>)
    requires
        gaps@.len() == covers@.len(),
    ensures
        match r {
            Some(i) => source_for(covers@, gaps@) == Some(i as int) && i < covers@.len(),
            None => source_for(covers@, gaps@) is None,
        },
{
    if covers.len() == 0 {
        return None;
    }
    let mut i: usize = 0;
    while i < covers.len()
        invariant
            i <= covers@.len(),
            forall|j: int| 0 <= j < i ==> !(#[trigger] covers@[j]),
        decreases covers@.len() - i,
    {
        if covers[i] {
            proof {
                lemma_first_covering(covers@, i as int);
            }
            return Some(i);
        }
        i = i + 1;
    }
    let mut best: usize = 0;
    let mut k: usize = 1;
    assert(gaps@.take(1).len() == 1);
    while k < gaps.len()
        invariant
            1 <= k <= gaps@.len(),
            best < k,
            best == nearest_source(gaps@.take(k as int)),
        decreases gaps@.len() - k,
    {
        assert(gaps@.take(k + 1).drop_last() =~= gaps@.take(k as int));
        if gaps[k] < gaps[best] {
            best = k;
        }
        k = k + 1;
    }
    assert(gaps@.take(gaps@.len() as int) =~= gaps@);
    Some(best)
}

// ---------------------------------------------------------------------------
// Laws
// ---------------------------------------------------------------------------
/// A terrain mesh has one surface of 33 by 33 vertices with two triangles per cell, two
/// lowered vertices and two triangles per border segment, and an index list that names only
/// vertices of the mesh.
pub proof fn law_terrain_mesh(
    m: TerrainMesh,
    g: ElevationGrid,
    w: Winding,
    sw: SkirtWinding,
    edges: [Edge; 4],
)
    requires
        is_terrain_mesh(m, g, w, sw, edges),
    ensures
        m.vertices@.len() == 33 * 33 + 2 * 4 * 32,
        m.indices@.len() == 6 * 32 * 32 + 6 * 4 * 32,
        m.samples@.len() == 33 * 33,
        forall|i: int| 0 <= i < m.indices@.len() ==> (#[trigger] m.indices@[i]) < m.vertices@.len(),
        forall|i: int|
            0 <= i < m.vertices@.len() ==> (#[trigger] m.vertices@[i]).source < 33 * 33
                && m.vertices@[i].skirt == (i >= 33 * 33),
        forall|i: int| 0 <= i < 6 * 32 * 32 ==> (#[trigger] m.indices@[i]) < 33 * 33,
{
    let b = border(edges);
    lemma_border_range(edges);
    law_surface_in_range(32, w);
    law_skirt_in_range(b, 1089, sw);
    let s = surface_indices(32, w);
    let k = skirt_indices(b, 1089, sw);
    assert(32int * 32int == 1024 && 33int * 33int == 1089) by (nonlinear_arith);
    assert(s.len() == 6144);
    assert forall|i: int| 0 <= i < m.indices@.len() implies (#[trigger] m.indices@[i])
        < m.vertices@.len() by {
        if i < s.len() {
            assert(m.indices@[i] == s[i]);
        } else {
            assert(m.indices@[i] == k[i - s.len()]);
        }
    }
    assert forall|i: int| 0 <= i < m.vertices@.len() implies (#[trigger] m.vertices@[i]).source < 33
        * 33 && m.vertices@[i].skirt == (i >= 33 * 33) by {
        if i >= 1089 {
            assert(m.vertices@[i] == skirt_vertices(b)[i - 1089]);
            assert(b[(i - 1089) / 2].0 < 1089);
        }
    }
}

proof fn lemma_border_range(edges: [Edge; 4])
    ensures
        border(edges).len() == 128,
        forall|s: int|
            0 <= s < 128 ==> (#[trigger] border(edges)[s]).0 < 1089 && border(edges)[s].1 < 1089
                && border(edges)[s].0 != border(edges)[s].1,
{
    assert forall|s: int| 0 <= s < 128 implies (#[trigger] border(edges)[s]).0 < 1089
        && border(edges)[s].1 < 1089 && border(edges)[s].0 != border(edges)[s].1 by {
        let e = edges[s / 32];
        let i = s % 32;
        assert(0 <= edge_vertex(e, i) < 1089 && 0 <= edge_vertex(e, i + 1) < 1089);
        assert(edge_vertex(e, i) != edge_vertex(e, i + 1));
    }
}

/// The skirt of flat terrain runs once round the surface: each edge starts where another one
/// ends, and consecutive segments of an edge share a vertex.
pub proof fn law_flat_border_closed()
    ensures
        ({
            let b = border(flat_edges());
            // bottom, then up the right side, along the top, and down the left side
            &&& b[31].1 == b[64].0
            &&& b[95].1 == b[32].0
            &&& b[63].1 == b[96].0
            &&& b[127].1 == b[0].0
            &&& forall|s: int|
                0 <= s < 128 && s % 32 != 31 ==> (#[trigger] b[s]).1 == b[s + 1].0
        }),
{
    let b = border(flat_edges());
    assert forall|s: int| 0 <= s < 128 && s % 32 != 31 implies (#[trigger] b[s]).1 == b[s
        + 1].0 by {
        assert((s + 1) / 32 == s / 32 && (s + 1) % 32 == s % 32 + 1);
    }
}

/// The flipped mesh has the same vertices, and the same triangles listed the other way round.
pub proof fn law_flipped_reverses(a: TerrainMesh, b: TerrainMesh, g: ElevationGrid, t: int)
    requires
        is_terrain_mesh(a, g, Winding::Down, SkirtWinding::Wall, flat_edges()),
        is_terrain_mesh(b, g, Winding::DownReversed, SkirtWinding::WallReversed, flat_edges()),
        0 <= t,
        3 * t + 2 < a.indices@.len(),
    ensures
        a.vertices@ == b.vertices@,
        a.indices@.len() == b.indices@.len(),
        b.indices@[3 * t] == a.indices@[3 * t],
        b.indices@[3 * t + 1] == a.indices@[3 * t + 2],
        b.indices@[3 * t + 2] == a.indices@[3 * t + 1],
{
    assert(32int * 32int == 1024) by (nonlinear_arith);
    let d = flat_edges();
    let sa = surface_indices(32, Winding::Down);
    let sb = surface_indices(32, Winding::DownReversed);
    let ka = skirt_indices(border(d), 1089, SkirtWinding::Wall);
    let kb = skirt_indices(border(d), 1089, SkirtWinding::WallReversed);
    assert(sa.len() == 6144 && sb.len() == 6144);
    if t < 2048 {
        let q = t / 2;
        let h = 3 * (t % 2);
        assert((3 * t) / 6 == q && (3 * t) % 6 == h);
        assert((3 * t + 1) / 6 == q && (3 * t + 1) % 6 == h + 1);
        assert((3 * t + 2) / 6 == q && (3 * t + 2) % 6 == h + 2);
        assert(h == 0 || h == 3);
        assert(corner(Winding::Down, h) == corner(Winding::DownReversed, h));
        assert(corner(Winding::Down, h + 2) == corner(Winding::DownReversed, h + 1));
        assert(corner(Winding::Down, h + 1) == corner(Winding::DownReversed, h + 2));
        assert(a.indices@[3 * t] == sa[3 * t] && b.indices@[3 * t] == sb[3 * t]);
        assert(a.indices@[3 * t + 1] == sa[3 * t + 1] && b.indices@[3 * t + 1] == sb[3 * t + 1]);
        assert(a.indices@[3 * t + 2] == sa[3 * t + 2] && b.indices@[3 * t + 2] == sb[3 * t + 2]);
    } else {
        let r = 3 * t - 6144;
        let q = r / 6;
        let h = r % 6;
        assert(h == 0 || h == 3);
        assert((r + 1) / 6 == q && (r + 1) % 6 == h + 1);
        assert((r + 2) / 6 == q && (r + 2) % 6 == h + 2);
        assert(a.indices@[3 * t] == ka[r] && b.indices@[3 * t] == kb[r]);
        assert(a.indices@[3 * t + 1] == ka[r + 1] && b.indices@[3 * t + 1] == kb[r + 1]);
        assert(a.indices@[3 * t + 2] == ka[r + 2] && b.indices@[3 * t + 2] == kb[r + 2]);
    }
}

/// The skirt of a quantized mesh leaves its own triangles in front, unchanged, and adds only
/// triangles over existing vertices; so a mesh with valid triangles stays valid.
pub proof fn law_quantized_mesh(m: QuantizedMesh, r: QuantizedTerrainMesh)
    requires
        quantized_ok(m),
        r.vertices@ == surface_vertices(m.u@.len()) + skirt_vertices(quantized_border(m)),
        r.indices@ == m.indices@ + skirt_indices(
            quantized_border(m),
            m.u@.len() as int,
            SkirtWinding::Strip,
        ),
    ensures
        r.indices@.take(m.indices@.len() as int) == m.indices@,
        r.vertices@.len() == m.u@.len() + 2 * quantized_border(m).len(),
        r.indices@.len() == m.indices@.len() + 6 * quantized_border(m).len(),
        forall|i: int|
            m.indices@.len() <= i < r.indices@.len() ==> (#[trigger] r.indices@[i])
                < r.vertices@.len(),
        (forall|i: int| 0 <= i < m.indices@.len() ==> (#[trigger] m.indices@[i]) < m.u@.len()) ==> (
        forall|i: int| 0 <= i < r.indices@.len() ==> (#[trigger] r.indices@[i]) < r.vertices@.len()),
{
    let n = m.u@.len() as int;
    let b = quantized_border(m);
    lemma_side_range(m.west_indices@, n);
    lemma_side_range(m.south_indices@, n);
    lemma_side_range(m.east_indices@, n);
    lemma_side_range(m.north_indices@, n);
    let w = side_segments(m.west_indices@, n);
    let s = side_segments(m.south_indices@, n);
    let e = side_segments(m.east_indices@, n);
    let o = side_segments(m.north_indices@, n);
    assert forall|k: int| 0 <= k < b.len() implies (#[trigger] b[k]).0 < n && b[k].1 < n by {
        if k < w.len() {
            assert(b[k] == w[k]);
        } else if k < w.len() + s.len() {
            assert(b[k] == s[k - w.len()]);
        } else if k < w.len() + s.len() + e.len() {
            assert(b[k] == e[k - w.len() - s.len()]);
        } else {
            assert(b[k] == o[k - w.len() - s.len() - e.len()]);
        }
    }
    law_skirt_in_range(b, n, SkirtWinding::Strip);
    let k = skirt_indices(b, n, SkirtWinding::Strip);
    assert(r.indices@.take(m.indices@.len() as int) =~= m.indices@);
    assert forall|i: int| m.indices@.len() <= i < r.indices@.len() implies (#[trigger] r.indices@[i])
        < r.vertices@.len() by {
        assert(r.indices@[i] == k[i - m.indices@.len()]);
    }
    if forall|i: int| 0 <= i < m.indices@.len() ==> (#[trigger] m.indices@[i]) < m.u@.len() {
        assert forall|i: int| 0 <= i < r.indices@.len() implies (#[trigger] r.indices@[i])
            < r.vertices@.len() by {
            if i < m.indices@.len() {
                assert(r.indices@[i] == m.indices@[i]);
            }
        }
    }
}

proof fn lemma_side_range(side: Seq<u32>, n: int)
    ensures
        side_segments(side, n).len() <= side.len(),
        forall|k: int|
            0 <= k < side_segments(side, n).len() ==> (#[trigger] side_segments(side, n)[k]).0 < n
                && side_segments(side, n)[k].1 < n,
{
    let count: nat = if side.len() < 2 {
        0
    } else {
        (side.len() - 1) as nat
    };
    let rule = side_segment(side, n);
    lemma_gather_len(count, rule);
    let src = crate::sequences::lemma_gather_sources(count, rule);
    assert forall|k: int| 0 <= k < side_segments(side, n).len() implies (#[trigger] side_segments(
        side,
        n,
    )[k]).0 < n && side_segments(side, n)[k].1 < n by {
        assert(rule(src[k]) == Some(side_segments(side, n)[k]));
    }
}

/// Every vertex of a quantized mesh keeps its place across and its height, and its place down is
/// counted from the other end of the full scale.
pub proof fn law_quantized_points(m: QuantizedMesh, i: int)
    requires
        quantized_ok(m),
        0 <= i < m.u@.len(),
    ensures
        quantized_points(m).len() == m.u@.len(),
        quantized_points(m)[i].u == m.u@[i],
        quantized_points(m)[i].height == m.height@[i],
        quantized_points(m)[i].v_down + m.v@[i] == 32767,
{
}

/// Flat terrain stays flat: where all heights of a quantized mesh are the same, so are those of
/// the built one, whatever lies where.
pub proof fn law_quantized_flat(m: QuantizedMesh, h: u16)
    requires
        quantized_ok(m),
        forall|i: int| 0 <= i < m.u@.len() ==> #[trigger] m.height@[i] == h,
    ensures
        forall|i: int|
            0 <= i < quantized_points(m).len() ==> (#[trigger] quantized_points(m)[i]).height == h,
{
    assert forall|i: int| 0 <= i < quantized_points(m).len() implies (
    #[trigger] quantized_points(m)[i]).height == h by {
        assert(m.height@[i] == h);
    }
}

/// Where the vertices of the surface grid lie: row by row, columns across, measured in half
/// cells from the middle.
pub proof fn law_grid_places(col: int, row: int)
    requires
        0 <= col <= 32,
        0 <= row <= 32,
    ensures
        ({
            let p = place_of(33 * row + col);
            &&& p.column == col && p.row == row
            &&& p.dx == 2 * (col - 16) && p.dy == 2 * (row - 16)
        }),
{
}

/// Where the edges run.
pub proof fn law_edge_places(e: Edge, i: int)
    requires
        0 <= i <= 32,
    ensures
        ({
            let p = place_of(edge_vertex(e, i));
            match e {
                Edge::Bottom => p.row == 32 && p.column == i,
                Edge::Top => p.row == 0 && p.column == i,
                Edge::TopReversed => p.row == 0 && p.column == 32 - i,
                Edge::Left => p.column == 0 && p.row == i,
                Edge::Right => p.column == 32 && p.row == i,
                Edge::RightReversed => p.column == 32 && p.row == 32 - i,
            }
        }),
{
}

/// A border follows its four edges one after the other, each from end to end.
pub proof fn law_border(edges: [Edge; 4], k: int, i: int)
    requires
        0 <= k < 4,
        0 <= i < 32,
    ensures
        border(edges).len() == 4 * 32,
        border(edges)[32 * k + i].0 == edge_vertex(edges[k], i),
        border(edges)[32 * k + i].1 == edge_vertex(edges[k], i + 1),
{
    assert((32 * k + i) / 32 == k && (32 * k + i) % 32 == i);
}

/// The skirts of both kinds of terrain hang from all four sides. On the globe each side runs
/// from left to right or from top to bottom; on the flat map they run round the tile, the lower
/// side from left to right.
pub proof fn law_skirt_sides(i: int)
    requires
        0 <= i < 32,
    ensures
        ({
            let g = border(globe_edges());
            let f = border(flat_edges());
            &&& g[i].0 == i && g[i].1 == i + 1
            &&& g[32 + i].0 == 33 * 32 + i && g[32 + i].1 == 33 * 32 + i + 1
            &&& g[64 + i].0 == 33 * i && g[64 + i].1 == 33 * (i + 1)
            &&& g[96 + i].0 == 33 * i + 32 && g[96 + i].1 == 33 * (i + 1) + 32
            &&& f[i].0 == 33 * 32 + i && f[i].1 == 33 * 32 + i + 1
            &&& f[32 + i].0 == 32 - i && f[32 + i].1 == 31 - i
            &&& f[64 + i].0 == 33 * (32 - i) + 32 && f[64 + i].1 == 33 * (31 - i) + 32
            &&& f[96 + i].0 == 33 * i && f[96 + i].1 == 33 * (i + 1)
        }),
{
    law_border(globe_edges(), 0, i);
    law_border(globe_edges(), 1, i);
    law_border(globe_edges(), 2, i);
    law_border(globe_edges(), 3, i);
    law_border(flat_edges(), 0, i);
    law_border(flat_edges(), 1, i);
    law_border(flat_edges(), 2, i);
    law_border(flat_edges(), 3, i);
    assert(globe_edges()[0] == Edge::Top && globe_edges()[1] == Edge::Bottom && globe_edges()[2]
        == Edge::Left && globe_edges()[3] == Edge::Right);
    assert(flat_edges()[0] == Edge::Bottom && flat_edges()[1] == Edge::TopReversed
        && flat_edges()[2] == Edge::RightReversed && flat_edges()[3] == Edge::Left);
}

/// A skirt hangs below two vertices that follow each other on a side of a quantized mesh, if
/// both exist, and nowhere else; sides come in the order west, south, east, north.
pub proof fn law_side_segments(side: Seq<u32>, n: int, a: u32, b: u32)
    ensures
        side_segments(side, n).contains((a, b)) <==> a < n && b < n && exists|i: int|
            0 <= i && i + 1 < side.len() && #[trigger] side[i] == a && side[i + 1] == b,
{
    let count: nat = if side.len() < 2 {
        0
    } else {
        (side.len() - 1) as nat
    };
    let rule = side_segment(side, n);
    crate::sequences::lemma_gather_contains(count, rule, (a, b));
    if side_segments(side, n).contains((a, b)) {
        let i = choose|i: int| 0 <= i < count && #[trigger] rule(i) == Some((a, b));
        assert(side[i] == a);
    }
    if a < n && b < n && exists|i: int|
        0 <= i && i + 1 < side.len() && #[trigger] side[i] == a && side[i + 1] == b {
        let i = choose|i: int|
            0 <= i && i + 1 < side.len() && #[trigger] side[i] == a && side[i + 1] == b;
        assert(rule(i) == Some((a, b)));
    }
}

/// The border of a quantized mesh is made of its four sides, west first and north last.
pub proof fn law_quantized_sides(m: QuantizedMesh)
    ensures
        ({
            let n = m.u@.len() as int;
            let w = side_segments(m.west_indices@, n);
            let s = side_segments(m.south_indices@, n);
            let e = side_segments(m.east_indices@, n);
            let north = side_segments(m.north_indices@, n);
            let b = quantized_border(m);
            &&& b.len() == w.len() + s.len() + e.len() + north.len()
            &&& b.take(w.len() as int) == w
            &&& b.skip(w.len() as int).take(s.len() as int) == s
            &&& b.skip((w.len() + s.len()) as int).take(e.len() as int) == e
            &&& b.skip((w.len() + s.len() + e.len()) as int) == north
        }),
{
    let n = m.u@.len() as int;
    let w = side_segments(m.west_indices@, n);
    let s = side_segments(m.south_indices@, n);
    let e = side_segments(m.east_indices@, n);
    let north = side_segments(m.north_indices@, n);
    let b = quantized_border(m);
    assert(b.take(w.len() as int) =~= w);
    assert(b.skip(w.len() as int).take(s.len() as int) =~= s);
    assert(b.skip((w.len() + s.len()) as int).take(e.len() as int) =~= e);
    assert(b.skip((w.len() + s.len() + e.len()) as int) =~= north);
}

/// A triangle counts where its three entries are complete and all its corners exist.
pub proof fn law_valid_triangles(indices: Seq<u32>, n: int, a: u32, b: u32, c: u32)
    ensures
        triangles(indices, n).contains((a, b, c)) <==> a < n && b < n && c < n && exists|t: int|
            0 <= t && 3 * t + 2 < indices.len() && #[trigger] indices[3 * t] == a && indices[3 * t + 1]
                == b && indices[3 * t + 2] == c,
{
    let rule = triangle_at(indices, n);
    let count = indices.len() / 3;
    crate::sequences::lemma_gather_contains(count, rule, (a, b, c));
    if triangles(indices, n).contains((a, b, c)) {
        let t = choose|t: int| 0 <= t < count && #[trigger] rule(t) == Some((a, b, c));
        assert(indices[3 * t] == a);
    }
    if a < n && b < n && c < n && exists|t: int|
        0 <= t && 3 * t + 2 < indices.len() && #[trigger] indices[3 * t] == a && indices[3 * t + 1]
            == b && indices[3 * t + 2] == c {
        let t = choose|t: int|
            0 <= t && 3 * t + 2 < indices.len() && #[trigger] indices[3 * t] == a && indices[3 * t
                + 1] == b && indices[3 * t + 2] == c;
        assert(rule(t) == Some((a, b, c)));
    }
}

/// A surface vertex of a mesh built from a quantized one stands for the vertex of the same
/// number: same place across, same height, and a place down that makes up the full scale with
/// the given one.
pub proof fn law_built_vertices(m: QuantizedMesh, r: QuantizedTerrainMesh, i: int)
    requires
        quantized_ok(m),
        m.u@.len() <= u32::MAX,
        r.points@ == quantized_points(m),
        r.vertices@ == surface_vertices(m.u@.len()) + skirt_vertices(quantized_border(m)),
        0 <= i < m.u@.len(),
    ensures
        !r.vertices@[i].skirt,
        r.points@[r.vertices@[i].source as int].height == m.height@[i],
        r.points@[r.vertices@[i].source as int].u == m.u@[i],
        r.points@[r.vertices@[i].source as int].v_down + m.v@[i] == 32767,
{
}

/// A mesh over a grid of elevations has a surface of 33 by 33 vertices in order, and behind
/// them two skirt vertices for each of the 128 border segments, which repeat the segment's ends.
pub proof fn law_terrain_mesh_parts(
    m: TerrainMesh,
    g: ElevationGrid,
    w: Winding,
    sw: SkirtWinding,
    edges: [Edge; 4],
    i: int,
    s: int,
)
    requires
        is_terrain_mesh(m, g, w, sw, edges),
        0 <= i < 33 * 33,
        0 <= s < 128,
    ensures
        m.vertices@.len() == 33 * 33 + 256,
        m.samples@.len() == 33 * 33,
        m.indices@.len() == 6 * (32 * 32) + 6 * 128,
        m.vertices@[i].source == i && !m.vertices@[i].skirt,
        m.vertices@[33 * 33 + 2 * s].skirt && m.vertices@[33 * 33 + 2 * s + 1].skirt,
        m.vertices@[33 * 33 + 2 * s].source == border(edges)[s].0,
        m.vertices@[33 * 33 + 2 * s + 1].source == border(edges)[s].1,
        m.samples@[i] == stencil_at(
            g.len,
            g.width,
            g.height,
            rect_u(g.rect, i % 33, 32),
            rect_v(g.rect, i / 33, 32),
        ),
        forall|k: int| 0 <= k < 6 * (32 * 32) ==> m.indices@[k] == #[trigger] surface_indices(32, w)[k],
        forall|k: int|
            0 <= k < 6 * 128 ==> m.indices@[6 * (32 * 32) + k] == #[trigger] skirt_indices(
                border(edges),
                1089,
                sw,
            )[k],
{
    law_surface_in_range(32, w);
    law_border(edges, 0, 0);
    law_grid_reads(g.len, g.width, g.height, g.rect, 32, i % 33, i / 33);
    assert(surface_indices(32, w).len() == 6 * (32 * 32));
    assert((2 * s) / 2 == s && (2 * s + 1) / 2 == s && (2 * s) % 2 == 0 && (2 * s + 1) % 2 == 1);
}

} // verus!
