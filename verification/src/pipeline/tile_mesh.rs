//! Vertex and index lists for sets of tiles: flat quads, globe tiles, tiles under a
//! viewport-centered projection, and the polar caps of the globe.

use crate::pipeline::tile_uniforms::RenderableTile;
use crate::render::grid::{grid_surface, law_surface_in_range, surface_indices, Winding};
use crate::render::tile::{
    centered_steps, centered_subdivisions, globe_steps, globe_subdivisions, law_subdivisions,
    quad_index, quad_vertex, tile_quad_vertices, TileVertex,
};
use crate::scalar::Real64;
use crate::sequences::{gather, lemma_gather_sources};
use crate::tile::TileCoord;
use vstd::prelude::*;

verus! {

/// The vertices of a list of flat tiles: four per tile.
pub open spec fn quad_vertices(tiles: Seq<TileCoord>) -> Seq<TileVertex> {
    Seq::new(4 * tiles.len(), |i: int| quad_vertex(tiles[i / 4], i % 4))
}

/// The triangles of `n` flat tiles: six entries per tile.
pub open spec fn quad_indices(n: nat) -> Seq<u32> {
    Seq::new(6 * n, |i: int| (4 * (i / 6) + quad_index(i % 6)) as u32)
}

/// Mesh of a set of flat tiles.
pub fn build_tile_mesh(tiles: &[TileCoord]) -> (r: (Vec<TileVertex>, Vec<u32>))
    requires
        4 * tiles@.len() <= u32::MAX,
        forall|i: int| 0 <= i < tiles@.len() ==> (#[trigger] tiles@[i]).z < 32,
    ensures
        r.0@ == quad_vertices(tiles@),
        r.1@ == quad_indices(tiles@.len()),
{
    let ghost tv = quad_vertices(tiles@);
    let ghost ti = quad_indices(tiles@.len());
    let mut vertices: Vec<TileVertex> = Vec::new();
    let mut indices: Vec<u32> = Vec::new();
    let mut i: usize = 0;
    while i < tiles.len()
        invariant
            i <= tiles@.len(),
            4 * tiles@.len() <= u32::MAX,
            forall|i: int| 0 <= i < tiles@.len() ==> (#[trigger] tiles@[i]).z < 32,
            tv == quad_vertices(tiles@),
            ti == quad_indices(tiles@.len()),
            vertices@ == tv.take(4 * i),
            indices@ == ti.take(6 * i),
        decreases tiles@.len() - i,
    {
        let base: u32 = 4 * (i as u32);
        let quad = tile_quad_vertices(&tiles[i]);
        vertices.push(quad[0]);
        vertices.push(quad[1]);
        vertices.push(quad[2]);
        vertices.push(quad[3]);
        indices.push(base);
        indices.push(base + 1);
        indices.push(base + 2);
        indices.push(base + 2);
        indices.push(base + 1);
        indices.push(base + 3);
        proof {
            assert forall|k: int| 0 <= k < 4 implies #[trigger] tv[4 * i + k] == quad_vertex(
                tiles@[i as int],
                k,
            ) by {
                assert((4 * i + k) / 4 == i && (4 * i + k) % 4 == k);
            }
            assert(tv[4 * i + 0] == quad[0] && tv[4 * i + 1] == quad[1] && tv[4 * i + 2] == quad[2]
                && tv[4 * i + 3] == quad[3]);
            assert(vertices@ =~= tv.take(4 * (i + 1)));
            assert forall|k: int| 0 <= k < 6 implies #[trigger] ti[6 * i + k] == (4 * i
                + quad_index(k)) as u32 by {
                assert((6 * i + k) / 6 == i && (6 * i + k) % 6 == k);
            }
            assert(ti[6 * i + 0] == base && ti[6 * i + 1] == base + 1 && ti[6 * i + 2] == base + 2);
            assert(ti[6 * i + 3] == base + 2 && ti[6 * i + 4] == base + 1 && ti[6 * i + 5] == base
                + 3);
            assert(indices@ =~= ti.take(6 * (i + 1)));
        }
        i = i + 1;
    }
    assert(tv.take(4 * i) =~= tv);
    assert(ti.take(6 * i) =~= ti);
    (vertices, indices)
}

/// Every tile's triangles use that tile's own four vertices.
pub proof fn law_quads_separate(n: nat, i: int)
    requires
        0 <= i < 6 * n,
        4 * n <= u32::MAX,
    ensures
        4 * (i / 6) <= quad_indices(n)[i] < 4 * (i / 6) + 4,
        quad_indices(n)[i] < 4 * n,
{
}

/// A vertex of a curved tile: column `i` and row `j` of `steps` cells of the tile at position
/// `tile` of the list.
#[derive(Debug, Clone, Copy, PartialEq, Eq, Structural)]
pub struct LatticeVertex {
    pub tile: usize,
    pub i: u32,
    pub j: u32,
    pub steps: u32,
}

/// The lattice vertices of one tile, row by row.
pub open spec fn lattice(tile: usize, steps: u32) -> Seq<LatticeVertex> {
    Seq::new(
        ((steps + 1) * (steps + 1)) as nat,
        |k: int|
            LatticeVertex {
                tile,
                i: (k % (steps + 1)) as u32,
                j: (k / (steps + 1)) as u32,
                steps,
            },
    )
}

/// The lattices of the first `n` tiles, one after the other.
pub open spec fn merged_vertices(steps: Seq<u32>, n: nat) -> Seq<LatticeVertex>
    decreases n,
{
    if n == 0 {
        Seq::empty()
    } else {
        merged_vertices(steps, (n - 1) as nat) + lattice((n - 1) as usize, steps[n - 1])
    }
}

/// An index list moved up by `base`.
pub open spec fn shifted(indices: Seq<u32>, base: int) -> Seq<u32> {
    Seq::new(indices.len(), |i: int| (indices[i] + base) as u32)
}

/// The triangles of the first `n` tiles, each tile's numbered from where its vertices start.
pub open spec fn merged_indices(steps: Seq<u32>, local: Seq<Seq<u32>>, n: nat) -> Seq<u32>
    decreases n,
{
    if n == 0 {
        Seq::empty()
    } else {
        merged_indices(steps, local, (n - 1) as nat) + shifted(
            local[n - 1],
            merged_vertices(steps, (n - 1) as nat).len() as int,
        )
    }
}

/// Number of index entries of each tile.
pub open spec fn local_counts(local: Seq<Seq<u32>>) -> Seq<u32> {
    local.map_values(|s: Seq<u32>| s.len() as u32)
}

/// Cells per side of each tile on the globe.
pub open spec fn globe_density(tiles: Seq<RenderableTile>) -> Seq<u32> {
    tiles.map_values(|t: RenderableTile| globe_steps(t.coord.z))
}

/// Cells per side of each tile under a viewport-centered projection.
pub open spec fn centered_density(tiles: Seq<RenderableTile>) -> Seq<u32> {
    tiles.map_values(|t: RenderableTile| centered_steps(t.coord.z))
}

/// The triangles of each tile on the globe.
pub open spec fn globe_local(steps: Seq<u32>) -> Seq<Seq<u32>> {
    steps.map_values(|s: u32| surface_indices(s, Winding::Down))
}

/// Triangle `t`, if it faces the viewer.
pub open spec fn facing(front: Seq<bool>) -> spec_fn(int) -> Option<int> {
    |t: int|
        if front[t] {
            Some(t)
        } else {
            None
        }
}

/// The triangles of one tile that face the viewer.
pub open spec fn facing_indices(steps: u32, front: Seq<bool>) -> Seq<u32> {
    let kept = gather((2 * (steps * steps)) as nat, facing(front));
    Seq::new(
        3 * kept.len(),
        |i: int| surface_indices(steps, Winding::Across)[3 * kept[i / 3] + i % 3],
    )
}

/// The triangles of each tile that face the viewer.
pub open spec fn centered_local(steps: Seq<u32>, front: Seq<Vec<bool>>) -> Seq<Seq<u32>> {
    Seq::new(steps.len(), |k: int| facing_indices(steps[k], front[k]@))
}

proof fn lemma_density_small(steps: u32)
    requires
        2 <= steps <= 32,
    ensures
        9 <= (steps + 1) * (steps + 1) <= 1089,
        4 <= steps * steps <= 1024,
{
    assert(9 <= (steps + 1) * (steps + 1) <= 1089 && 4 <= steps * steps <= 1024) by (nonlinear_arith)
        requires
            2 <= steps <= 32,
    ;
}

/// Append the lattice of one tile.
fn push_lattice(tile: usize, steps: u32, vertices: &mut Vec<LatticeVertex>)
    requires
        2 <= steps <= 32,
    ensures
        final(vertices)@ == old(vertices)@ + lattice(tile, steps),
{
    let ghost start = vertices@;
    let ghost target = lattice(tile, steps);
    let side: u32 = steps + 1;
    let mut j: u32 = 0;
    let ghost mut k: int = 0;
    assert(vertices@ =~= start + target.take(0));
    proof {
        lemma_density_small(steps);
    }
    while j < side
        invariant
            2 <= steps <= 32,
            side == steps + 1,
            j <= side,
            k == j * side,
            target == lattice(tile, steps),
            vertices@ == start + target.take(k),
        decreases side - j,
    {
        proof {
            assert((j + 1) * side <= side * side && (j + 1) * side == j * side + side) by (nonlinear_arith)
                requires
                    j + 1 <= side,
            ;
        }
        let mut i: u32 = 0;
        while i < side
            invariant
                2 <= steps <= 32,
                side == steps + 1,
                j < side,
                i <= side,
                k == j * side + i,
                j * side + side <= side * side,
                target == lattice(tile, steps),
                vertices@ == start + target.take(k),
            decreases side - i,
        {
            vertices.push(LatticeVertex { tile, i, j, steps });
            proof {
                vstd::arithmetic::div_mod::lemma_fundamental_div_mod_converse(
                    k,
                    side as int,
                    j as int,
                    i as int,
                );
                assert(0 <= k) by (nonlinear_arith)
                    requires
                        k == j * side + i,
                        j >= 0,
                        i >= 0,
                        side >= 0,
                ;
                assert(k < target.len());
                assert(target[k] == vertices@[start.len() + k]);
                assert(vertices@ =~= start + target.take(k + 1));
                k = k + 1;
            }
            i = i + 1;
        }
        j = j + 1;
    }
    assert(target.take(k) =~= target);
}

/// Append an index list moved up by `base`.
fn push_shifted(local: &Vec<u32>, base: u32, indices: &mut Vec<u32>)
    requires
        forall|i: int| 0 <= i < local@.len() ==> (#[trigger] local@[i]) + base <= u32::MAX,
    ensures
        final(indices)@ == old(indices)@ + shifted(local@, base as int),
{
    let ghost start = indices@;
    let ghost target = shifted(local@, base as int);
    let mut i: usize = 0;
    assert(indices@ =~= start + target.take(0));
    while i < local.len()
        invariant
            i <= local@.len(),
            forall|i: int| 0 <= i < local@.len() ==> (#[trigger] local@[i]) + base <= u32::MAX,
            target == shifted(local@, base as int),
            indices@ == start + target.take(i as int),
        decreases local@.len() - i,
    {
        indices.push(local[i] + base);
        assert(indices@ =~= start + target.take(i + 1));
        i = i + 1;
    }
    assert(target.take(i as int) =~= target);
}

/// Lattices of at most 33 by 33 vertices add up to a number that stays in range.
proof fn lemma_merged_bound(steps: Seq<u32>, n: nat)
    requires
        n <= steps.len(),
        forall|k: int| 0 <= k < steps.len() ==> 2 <= #[trigger] steps[k] <= 32,
    ensures
        merged_vertices(steps, n).len() <= 1089 * n,
    decreases n,
{
    if n > 0 {
        lemma_merged_bound(steps, (n - 1) as nat);
        lemma_density_small(steps[n - 1]);
    }
}

/// Meshes of tiles on the globe: vertices, triangles, and the number of index entries of
/// each tile.
pub fn build_globe_tile_mesh(tiles: &[RenderableTile]) -> (r: (
    Vec<LatticeVertex>,
    Vec<u32>,
    Vec<u32>,
))
    requires
        1089 * tiles@.len() <= u32::MAX,
    ensures
        ({
            let steps = globe_density(tiles@);
            let local = globe_local(steps);
            &&& r.0@ == merged_vertices(steps, tiles@.len())
            &&& r.1@ == merged_indices(steps, local, tiles@.len())
            &&& r.2@ == local_counts(local)
        }),
{
    let ghost steps = globe_density(tiles@);
    let ghost local = globe_local(steps);
    proof {
        assert forall|k: int| 0 <= k < steps.len() implies 2 <= #[trigger] steps[k] <= 32 by {
            law_subdivisions(tiles@[k].coord.z, tiles@[k].coord.z);
        }
    }
    let mut vertices: Vec<LatticeVertex> = Vec::new();
    let mut indices: Vec<u32> = Vec::new();
    let mut counts: Vec<u32> = Vec::new();
    let mut t: usize = 0;
    while t < tiles.len()
        invariant
            t <= tiles@.len(),
            1089 * tiles@.len() <= u32::MAX,
            steps == globe_density(tiles@),
            local == globe_local(steps),
            forall|k: int| 0 <= k < steps.len() ==> 2 <= #[trigger] steps[k] <= 32,
            vertices@ == merged_vertices(steps, t as nat),
            indices@ == merged_indices(steps, local, t as nat),
            counts@ == local_counts(local).take(t as int),
        decreases tiles@.len() - t,
    {
        let s: u32 = globe_subdivisions(tiles[t].coord.z);
        assert(s == steps[t as int]);
        proof {
            lemma_merged_bound(steps, t as nat);
            lemma_density_small(s);
            law_surface_in_range(s, Winding::Down);
        }
        let base: u32 = vertices.len() as u32;
        let one = grid_surface(s, Winding::Down);
        push_lattice(t, s, &mut vertices);
        push_shifted(&one, base, &mut indices);
        counts.push(one.len() as u32);
        assert(local[t as int] == one@);
        assert(vertices@ == merged_vertices(steps, (t + 1) as nat));
        assert(indices@ == merged_indices(steps, local, (t + 1) as nat));
        assert(counts@ =~= local_counts(local).take(t + 1));
        t = t + 1;
    }
    assert(counts@ =~= local_counts(local));
    (vertices, indices, counts)
}

/// The triangles of one tile that face the viewer.
fn tile_centered_indices(steps: u32, front: &Vec<bool>) -> (r: Vec<u32>)
    requires
        2 <= steps <= 32,
        front@.len() == 2 * (steps * steps),
    ensures
        r@ == facing_indices(steps, front@),
{
    proof {
        lemma_density_small(steps);
        law_surface_in_range(steps, Winding::Across);
    }
    let all = grid_surface(steps, Winding::Across);
    let ghost rule = facing(front@);
    let ghost surface = surface_indices(steps, Winding::Across);
    let mut r: Vec<u32> = Vec::new();
    let mut t: usize = 0;
    let ghost mut kept = gather(0, rule);
    assert(r@ =~= Seq::new(3 * kept.len(), |i: int| surface[3 * kept[i / 3] + i % 3]));
    while t < front.len()
        invariant
            t <= front@.len(),
            front@.len() == 2 * (steps * steps),
            steps * steps <= 1024,
            all@ == surface,
            surface.len() == 6 * (steps * steps),
            rule == facing(front@),
            kept == gather(t as nat, rule),
            r@ == Seq::new(3 * kept.len(), |i: int| surface[3 * kept[i / 3] + i % 3]),
        decreases front@.len() - t,
    {
        let ghost before = kept;
        if front[t] {
            r.push(all[3 * t]);
            r.push(all[3 * t + 1]);
            r.push(all[3 * t + 2]);
        }
        proof {
            kept = gather((t + 1) as nat, rule);
            let next = Seq::new(3 * kept.len(), |i: int| surface[3 * kept[i / 3] + i % 3]);
            if front@[t as int] {
                assert(kept == before.push(t as int));
                let m = before.len() as int;
                assert forall|i: int| 0 <= i < 3 * kept.len() implies r@[i] == next[i] by {
                    if i < 3 * m {
                        assert(kept[i / 3] == before[i / 3]);
                    } else {
                        assert(i / 3 == m && kept[m] == t);
                        assert(i % 3 == i - 3 * m);
                    }
                }
            }
            assert(r@ =~= next);
        }
        t = t + 1;
    }
    r
}

/// Meshes of tiles under a viewport-centered projection. `front[k]` tells for each triangle
/// of tile `k` whether the projection keeps it facing the viewer; the others are dropped.
pub fn build_centered_tile_mesh(tiles: &[RenderableTile], front: &Vec<Vec<bool>>) -> (r: (
    Vec<LatticeVertex>,
    Vec<u32>,
    Vec<u32>,
))
    requires
        1089 * tiles@.len() <= u32::MAX,
        front@.len() == tiles@.len(),
        forall|k: int|
            0 <= k < tiles@.len() ==> (#[trigger] front@[k])@.len() == 2 * (centered_steps(
                tiles@[k].coord.z,
            ) * centered_steps(tiles@[k].coord.z)),
    ensures
        ({
            let steps = centered_density(tiles@);
            let local = centered_local(steps, front@);
            &&& r.0@ == merged_vertices(steps, tiles@.len())
            &&& r.1@ == merged_indices(steps, local, tiles@.len())
            &&& r.2@ == local_counts(local)
        }),
{
    let ghost steps = centered_density(tiles@);
    let ghost local = centered_local(steps, front@);
    proof {
        assert forall|k: int| 0 <= k < steps.len() implies 2 <= #[trigger] steps[k] <= 32 by {
            law_subdivisions(tiles@[k].coord.z, tiles@[k].coord.z);
        }
    }
    let mut vertices: Vec<LatticeVertex> = Vec::new();
    let mut indices: Vec<u32> = Vec::new();
    let mut counts: Vec<u32> = Vec::new();
    let mut t: usize = 0;
    while t < tiles.len()
        invariant
            t <= tiles@.len(),
            1089 * tiles@.len() <= u32::MAX,
            front@.len() == tiles@.len(),
            forall|k: int|
                0 <= k < tiles@.len() ==> (#[trigger] front@[k])@.len() == 2 * (centered_steps(
                    tiles@[k].coord.z,
                ) * centered_steps(tiles@[k].coord.z)),
            steps == centered_density(tiles@),
            local == centered_local(steps, front@),
            forall|k: int| 0 <= k < steps.len() ==> 2 <= #[trigger] steps[k] <= 32,
            vertices@ == merged_vertices(steps, t as nat),
            indices@ == merged_indices(steps, local, t as nat),
            counts@ == local_counts(local).take(t as int),
        decreases tiles@.len() - t,
    {
        let s: u32 = centered_subdivisions(tiles[t].coord.z);
        assert(s == steps[t as int]);
        proof {
            lemma_merged_bound(steps, t as nat);
            lemma_density_small(s);
            lemma_facing_range(s, front@[t as int]@);
        }
        let base: u32 = vertices.len() as u32;
        let one = tile_centered_indices(s, &front[t]);
        push_lattice(t, s, &mut vertices);
        push_shifted(&one, base, &mut indices);
        counts.push(one.len() as u32);
        assert(local[t as int] == one@);
        assert(vertices@ == merged_vertices(steps, (t + 1) as nat));
        assert(indices@ == merged_indices(steps, local, (t + 1) as nat));
        assert(counts@ =~= local_counts(local).take(t + 1));
        t = t + 1;
    }
    assert(counts@ =~= local_counts(local));
    (vertices, indices, counts)
}

/// The kept triangles use only the tile's own vertices.
proof fn lemma_facing_range(steps: u32, front: Seq<bool>)
    requires
        2 <= steps <= 32,
        front.len() == 2 * (steps * steps),
    ensures
        facing_indices(steps, front).len() <= 6 * (steps * steps),
        forall|i: int|
            0 <= i < facing_indices(steps, front).len() ==> (#[trigger] facing_indices(
                steps,
                front,
            )[i]) < (steps + 1) * (steps + 1),
{
    lemma_density_small(steps);
    law_surface_in_range(steps, Winding::Across);
    let n = (2 * (steps * steps)) as nat;
    let kept = gather(n, facing(front));
    let src = lemma_gather_sources(n, facing(front));
    lemma_increasing_len(src, n as int);
    assert forall|i: int| 0 <= i < facing_indices(steps, front).len() implies (
    #[trigger] facing_indices(steps, front)[i]) < (steps + 1) * (steps + 1) by {
        let k = i / 3;
        assert(facing(front)(src[k]) == Some(kept[k]));
        assert(0 <= kept[k] < n);
        let j = 3 * kept[k] + i % 3;
        assert(surface_indices(steps, Winding::Across)[j] < (steps + 1) * (steps + 1));
    }
}

/// A strictly increasing list of numbers below `n` has at most `n` entries.
proof fn lemma_increasing_len(s: Seq<int>, n: int)
    requires
        n >= 0,
        forall|k: int| 0 <= k < s.len() ==> 0 <= #[trigger] s[k] < n,
        forall|a: int, b: int| 0 <= a < b < s.len() ==> #[trigger] s[a] < #[trigger] s[b],
    ensures
        s.len() <= n,
    decreases n,
{
    if s.len() > 0 {
        let t = s.drop_last();
        assert(n > 0) by {
            assert(0 <= s[0] < n);
        }
        assert forall|k: int| 0 <= k < t.len() implies 0 <= #[trigger] t[k] < n - 1 by {
            assert(s[k] < s[s.len() - 1]);
            assert(s[s.len() - 1] < n);
            assert(0 <= s[k]);
        }
        assert forall|a: int, b: int| 0 <= a < b < t.len() implies #[trigger] t[a] < #[trigger] t[b] by {
            assert(s[a] < s[b]);
        }
        lemma_increasing_len(t, n - 1);
    }
}

/// Sum of the first `n` counts.
pub open spec fn count_sum(counts: Seq<u32>, n: nat) -> int
    decreases n,
{
    if n == 0 {
        0
    } else {
        count_sum(counts, (n - 1) as nat) + counts[n - 1]
    }
}

/// The counts of the tiles add up to the whole index list: the tiles' ranges follow each
/// other without gap or overlap.
pub proof fn law_counts_contiguous(steps: Seq<u32>, local: Seq<Seq<u32>>, n: nat)
    requires
        n <= local.len(),
        forall|k: int| 0 <= k < local.len() ==> (#[trigger] local[k]).len() <= u32::MAX,
    ensures
        count_sum(local_counts(local), n) == merged_indices(steps, local, n).len(),
    decreases n,
{
    if n > 0 {
        law_counts_contiguous(steps, local, (n - 1) as nat);
        assert(local[n - 1].len() <= u32::MAX);
    }
}

/// Where tile `k` of a merged mesh has its entries, they name only that tile's own vertices.
pub proof fn law_merged_separate(steps: Seq<u32>, local: Seq<Seq<u32>>, n: nat, k: int, i: int)
    requires
        n <= steps.len(),
        local.len() == steps.len(),
        0 <= k < n,
        0 <= i < local[k].len(),
        1089 * n <= u32::MAX,
        forall|a: int| 0 <= a < steps.len() ==> 2 <= #[trigger] steps[a] <= 32,
        forall|a: int, b: int|
            0 <= a < local.len() && 0 <= b < local[a].len() ==> (#[trigger] local[a][b]) < (
            steps[a] + 1) * (steps[a] + 1),
    ensures
        ({
            let at = merged_indices(steps, local, k as nat).len() + i;
            &&& at < merged_indices(steps, local, n).len()
            &&& merged_vertices(steps, k as nat).len() <= merged_indices(steps, local, n)[at]
            &&& merged_indices(steps, local, n)[at] < merged_vertices(steps, (k + 1) as nat).len()
            &&& merged_vertices(steps, (k + 1) as nat).len() <= merged_vertices(steps, n).len()
        }),
    decreases n,
{
    let m = (n - 1) as nat;
    let prev = merged_indices(steps, local, m);
    let base = merged_vertices(steps, m).len() as int;
    lemma_density_small(steps[n - 1]);
    if k < m {
        law_merged_separate(steps, local, m, k, i);
        let at = merged_indices(steps, local, k as nat).len() + i;
        assert(merged_indices(steps, local, n)[at] == prev[at]);
    } else {
        lemma_merged_bound(steps, m);
        let at = prev.len() + i;
        assert(merged_indices(steps, local, n)[at] == shifted(local[n - 1], base)[i]);
        assert(local[k][i] < (steps[k] + 1) * (steps[k] + 1));
    }
}

/// Segments of each polar cap.
pub const POLAR_CAP_SEGMENTS: u32 = 64;

/// A vertex of a polar cap: the pole, or step `ring` of the ring around it.
#[derive(Debug, Clone, Copy, PartialEq, Eq, Structural)]
pub struct CapVertex {
    pub north: bool,
    pub ring: Option<u32>,
}

/// The vertices of one cap: the pole, then the ring, whose last vertex closes it.
pub open spec fn cap_vertices(north: bool) -> Seq<CapVertex> {
    Seq::new(
        66,
        |i: int|
            CapVertex {
                north,
                ring: if i == 0 {
                    None
                } else {
                    Some((i - 1) as u32)
                },
            },
    )
}

/// The triangle fan of one cap, turned so that it faces outwards.
pub open spec fn cap_indices(north: bool) -> Seq<u32> {
    Seq::new(
        192,
        |i: int|
            if i % 3 == 0 {
                0u32
            } else if (i % 3 == 1) == north {
                (i / 3 + 2) as u32
            } else {
                (i / 3 + 1) as u32
            },
    )
}

/// Mesh of one polar cap.
pub fn polar_cap_mesh(north: bool) -> (r: (Vec<CapVertex>, Vec<u32>))
    ensures
        r.0@ == cap_vertices(north),
        r.1@ == cap_indices(north),
{
    let mut vertices: Vec<CapVertex> = Vec::new();
    vertices.push(CapVertex { north, ring: None });
    let mut i: u32 = 0;
    assert(vertices@ =~= cap_vertices(north).take(1));
    while i <= 64
        invariant
            i <= 65,
            vertices@ == cap_vertices(north).take(i + 1),
        decreases 65 - i,
    {
        vertices.push(CapVertex { north, ring: Some(i) });
        assert(vertices@ =~= cap_vertices(north).take(i + 2));
        i = i + 1;
    }
    assert(vertices@ =~= cap_vertices(north));
    let mut indices: Vec<u32> = Vec::new();
    let mut s: u32 = 0;
    while s < 64
        invariant
            s <= 64,
            indices@ == cap_indices(north).take(3 * s),
        decreases 64 - s,
    {
        indices.push(0);
        if north {
            indices.push(s + 2);
            indices.push(s + 1);
        } else {
            indices.push(s + 1);
            indices.push(s + 2);
        }
        proof {
            assert((3 * s) / 3 == s && (3 * s) % 3 == 0);
            assert((3 * s + 1) / 3 == s && (3 * s + 1) % 3 == 1);
            assert((3 * s + 2) / 3 == s && (3 * s + 2) % 3 == 2);
            assert(indices@ =~= cap_indices(north).take(3 * (s + 1)));
        }
        s = s + 1;
    }
    assert(indices@ =~= cap_indices(north));
    (vertices, indices)
}

/// Meshes of both polar caps, north first.
pub fn build_polar_caps() -> (r: (Vec<CapVertex>, Vec<u32>))
    ensures
        r.0@ == cap_vertices(true) + cap_vertices(false),
        r.1@ == cap_indices(true) + shifted(cap_indices(false), 66),
{
    let (mut vertices, mut indices) = polar_cap_mesh(true);
    let (mut south_vertices, south_indices) = polar_cap_mesh(false);
    let base: u32 = vertices.len() as u32;
    vertices.append(&mut south_vertices);
    proof {
        assert forall|i: int| 0 <= i < south_indices@.len() implies (#[trigger] south_indices@[i])
            + base <= u32::MAX by {
            assert(cap_indices(false)[i] <= 66);
        }
    }
    push_shifted(&south_indices, base, &mut indices);
    (vertices, indices)
}

/// Each cap's fan covers its ring: segment `s` is the triangle of the pole and ring steps `s`
/// and `s + 1`, and the two caps turn opposite ways.
pub proof fn law_cap_fan(s: int)
    requires
        0 <= s < 64,
    ensures
        cap_indices(true)[3 * s] == 0,
        cap_indices(true)[3 * s + 1] == s + 2,
        cap_indices(true)[3 * s + 2] == s + 1,
        cap_indices(false)[3 * s] == 0,
        cap_indices(false)[3 * s + 1] == s + 1,
        cap_indices(false)[3 * s + 2] == s + 2,
        cap_vertices(true)[s + 1].ring == Some(s as u32),
        cap_vertices(true)[s + 2].ring == Some((s + 1) as u32),
{
}

/// A point of the Mercator plane at half the spacing of a tile's level: `(x, y)` divided by
/// twice the number of tiles along the level.
#[derive(Debug, Clone, Copy, PartialEq, Eq, Structural)]
pub struct HalfStep {
    pub x: i128,
    pub y: i128,
}

/// The points by which a tile is judged near or far: its center, then its corners, so that a
/// large tile counts as near where any of them is.
pub open spec fn judged_points(tile: RenderableTile) -> Seq<HalfStep> {
    let x = 2 * tile.display_x;
    let y = 2 * tile.coord.y;
    seq![
        HalfStep { x: (x + 1) as i128, y: (y + 1) as i128 },
        HalfStep { x: x as i128, y: y as i128 },
        HalfStep { x: (x + 2) as i128, y: y as i128 },
        HalfStep { x: x as i128, y: (y + 2) as i128 },
        HalfStep { x: (x + 2) as i128, y: (y + 2) as i128 },
    ]
}

/// The points by which a tile is judged near or far.
pub fn angular_filter_points(tile: &RenderableTile) -> (r: Vec<HalfStep>)
    ensures
        r@ == judged_points(*tile),
{
    let x: i128 = 2 * tile.display_x as i128;
    let y: i128 = 2 * tile.coord.y as i128;
    let mut r: Vec<HalfStep> = Vec::new();
    r.push(HalfStep { x: x + 1, y: y + 1 });
    r.push(HalfStep { x, y });
    r.push(HalfStep { x: x + 2, y });
    r.push(HalfStep { x, y: y + 2 });
    r.push(HalfStep { x: x + 2, y: y + 2 });
    assert(r@ =~= judged_points(*tile));
    r
}

/// Angle in degrees from the center of the view beyond which tiles are left out: 85, where the
/// fragment shader clips too.
pub fn centered_angular_threshold_deg(_zoom: Real64) -> (d: Real64)
    ensures
        d == (Real64 { bits: 0x4055_4000_0000_0000 }),
{
    Real64 { bits: 0x4055_4000_0000_0000 }
}

/// Whether a tile is near the center of the view. `cosines` are those of the angles between the
/// center and each of the points by which the tile is judged, `threshold` that of the largest
/// angle.
pub fn tile_passes_angular_filter(cosines: &[Real64], threshold: Real64) -> (near: bool)
    ensures
        near <==> exists|i: int| 0 <= i < cosines@.len() && threshold.below(#[trigger] cosines@[i]),
{
    let mut i: usize = 0;
    while i < cosines.len()
        invariant
            i <= cosines@.len(),
            forall|k: int| 0 <= k < i ==> !threshold.below(#[trigger] cosines@[k]),
        decreases cosines@.len() - i,
    {
        if threshold.less(cosines[i]) {
            return true;
        }
        i = i + 1;
    }
    false
}

/// A tile that is near by one of its points stays near under every wider threshold.
pub proof fn law_wider_threshold(cosines: Seq<Real64>, narrow: Real64, wide: Real64, i: int)
    requires
        0 <= i < cosines.len(),
        narrow.below(cosines[i]),
        !wide.is_nan_spec(),
        !narrow.below(wide),
    ensures
        wide.below(cosines[i]),
{
}

/// Every flat tile has its four corners and two triangles of its own, in the order of the tiles.
pub proof fn law_quad_lists(tiles: Seq<TileCoord>, t: int, k: int)
    requires
        0 <= t < tiles.len(),
        4 * tiles.len() <= u32::MAX,
        0 <= k < 6,
    ensures
        quad_vertices(tiles).len() == 4 * tiles.len(),
        quad_indices(tiles.len()).len() == 6 * tiles.len(),
        k < 4 ==> quad_vertices(tiles)[4 * t + k] == quad_vertex(tiles[t], k),
        quad_indices(tiles.len())[6 * t + k] == 4 * t + quad_index(k),
{
    assert((6 * t + k) / 6 == t && (6 * t + k) % 6 == k);
    if k < 4 {
        assert((4 * t + k) / 4 == t && (4 * t + k) % 4 == k);
    }
}

/// The vertices of a tile stand row by row, columns across.
pub proof fn law_lattice(tile: usize, steps: u32, col: int, row: int)
    requires
        0 <= col <= steps,
        0 <= row <= steps,
    ensures
        lattice(tile, steps).len() == (steps + 1) * (steps + 1),
        ({
            let v = lattice(tile, steps)[row * (steps + 1) + col];
            v.tile == tile && v.i == col && v.j == row && v.steps == steps
        }),
{
    let side = steps + 1;
    vstd::arithmetic::div_mod::lemma_fundamental_div_mod_converse(row * side + col, side, row, col);
    assert(0 <= row * side + col < side * side) by (nonlinear_arith)
        requires
            0 <= col < side,
            0 <= row < side,
    ;
}

/// In a mesh of several tiles each keeps its own vertices and triangles, one tile after the
/// other: the triangles point to the tile's vertices, which start behind those of the tiles
/// before it.
pub proof fn law_merged_places(steps: Seq<u32>, local: Seq<Seq<u32>>, n: nat, k: int)
    requires
        n <= steps.len(),
        local.len() == steps.len(),
        0 <= k < n,
    ensures
        ({
            let base = merged_vertices(steps, k as nat).len() as int;
            let start = merged_indices(steps, local, k as nat).len() as int;
            let own = lattice(k as usize, steps[k]);
            &&& base + own.len() <= merged_vertices(steps, n).len()
            &&& start + local[k].len() <= merged_indices(steps, local, n).len()
            &&& forall|j: int|
                0 <= j < own.len() ==> merged_vertices(steps, n)[base + j] == #[trigger] own[j]
            &&& forall|i: int|
                0 <= i < local[k].len() && (#[trigger] local[k][i]) + base <= u32::MAX
                    ==> merged_indices(steps, local, n)[start + i] == local[k][i] + base
        }),
    decreases n,
{
    if n > k + 1 {
        law_merged_places(steps, local, (n - 1) as nat, k);
    }
}

/// Of a tile around the center of the view exactly the triangles that face the viewer are kept,
/// in order and as they are listed.
pub proof fn law_facing(steps: u32, front: Seq<bool>, t: int) -> (at: int)
    requires
        front.len() == 2 * (steps * steps),
        0 <= t < front.len(),
        front[t],
    ensures
        0 <= at,
        3 * at + 2 < facing_indices(steps, front).len(),
        forall|c: int|
            0 <= c < 3 ==> facing_indices(steps, front)[3 * at + c] == #[trigger] surface_indices(
                steps,
                Winding::Across,
            )[3 * t + c],
        facing_indices(steps, front).len() % 3 == 0,
        facing_indices(steps, front).len() <= 3 * front.len(),
{
    let n = (2 * (steps * steps)) as nat;
    let kept = gather(n, facing(front));
    let src = lemma_gather_sources(n, facing(front));
    crate::sequences::lemma_gather_contains(n, facing(front), t);
    assert(facing(front)(t) == Some(t));
    let at = choose|at: int| 0 <= at < kept.len() && kept[at] == t;
    lemma_gather_shorter(n, facing(front));
    assert forall|c: int| 0 <= c < 3 implies facing_indices(steps, front)[3 * at + c]
        == #[trigger] surface_indices(steps, Winding::Across)[3 * t + c] by {
        assert((3 * at + c) / 3 == at && (3 * at + c) % 3 == c);
    }
    at
}

proof fn lemma_gather_shorter(n: nat, f: spec_fn(int) -> Option<int>)
    ensures
        gather(n, f).len() <= n,
    decreases n,
{
    if n > 0 {
        lemma_gather_shorter((n - 1) as nat, f);
    }
}

/// No triangle that faces away is kept.
pub proof fn law_facing_only(steps: u32, front: Seq<bool>, at: int) -> (t: int)
    requires
        front.len() == 2 * (steps * steps),
        0 <= at,
        3 * at + 2 < facing_indices(steps, front).len(),
    ensures
        0 <= t < front.len(),
        front[t],
        forall|c: int|
            0 <= c < 3 ==> facing_indices(steps, front)[3 * at + c] == #[trigger] surface_indices(
                steps,
                Winding::Across,
            )[3 * t + c],
{
    let n = (2 * (steps * steps)) as nat;
    let kept = gather(n, facing(front));
    let src = lemma_gather_sources(n, facing(front));
    assert(facing(front)(src[at]) == Some(kept[at]));
    let t = kept[at];
    assert forall|c: int| 0 <= c < 3 implies facing_indices(steps, front)[3 * at + c]
        == #[trigger] surface_indices(steps, Winding::Across)[3 * t + c] by {
        assert((3 * at + c) / 3 == at && (3 * at + c) % 3 == c);
    }
    t
}

/// A cap consists of its pole and a ring that closes on itself, all on the cap's side.
pub proof fn law_cap_vertices(north: bool, i: int)
    requires
        0 <= i < cap_vertices(north).len(),
    ensures
        cap_vertices(north).len() == 1 + 65,
        cap_indices(north).len() == 3 * 64,
        cap_vertices(north)[i].north == north,
        i == 0 <==> cap_vertices(north)[i].ring is None,
        cap_vertices(north)[i].ring matches Some(r) ==> r + 1 == i,
{
}

/// A tile is judged by its middle and its four corners, where it is shown, in half tiles.
pub proof fn law_judged_points(tile: RenderableTile)
    ensures
        ({
            let p = judged_points(tile);
            let x = tile.display_x as int;
            let y = tile.coord.y as int;
            &&& p.len() == 5
            &&& p[0].x == p[1].x + 1 && p[0].y == p[1].y + 1
            &&& p[1].x == 2 * x && p[1].y == 2 * y
            &&& p[2].x == 2 * (x + 1) && p[2].y == 2 * y
            &&& p[3].x == 2 * x && p[3].y == 2 * (y + 1)
            &&& p[4].x == 2 * (x + 1) && p[4].y == 2 * (y + 1)
        }),
{
}

} // verus!
