//! Skirts: walls hung from the border of a surface to hide cracks between tiles.

use vstd::prelude::*;

verus! {

/// A mesh vertex: the surface vertex it takes its place from, and whether it is lowered.
#[derive(Debug, Clone, Copy, PartialEq, Eq, Structural)]
pub struct MeshVertex {
    pub source: u32,
    pub skirt: bool,
}

/// Corner order of the two triangles below a border segment `a, b` with the lowered copies
/// `sa, sb`.
#[derive(Debug, Clone, Copy, PartialEq, Eq, Structural)]
pub enum SkirtWinding {
    /// `a, sa, b` and `sa, sb, b`.
    Wall,
    /// `a, b, sa` and `sa, b, sb`.
    WallReversed,
    /// `a, sa, b` and `b, sa, sb`.
    Strip,
}

/// The plain vertices of a surface with `n` vertices.
pub open spec fn surface_vertices(n: nat) -> Seq<MeshVertex> {
    Seq::new(n, |i: int| MeshVertex { source: i as u32, skirt: false })
}

/// Two lowered vertices for each border segment.
pub open spec fn skirt_vertices(segments: Seq<(u32, u32)>) -> Seq<MeshVertex> {
    Seq::new(
        2 * segments.len(),
        |i: int|
            MeshVertex {
                source: if i % 2 == 0 {
                    segments[i / 2].0
                } else {
                    segments[i / 2].1
                },
                skirt: true,
            },
    )
}

/// The `k`-th listed corner below segment `s`, whose lowered copies are `sa` and `sa + 1`.
pub open spec fn skirt_corner(w: SkirtWinding, s: (u32, u32), sa: int, k: int) -> int {
    let a = s.0 as int;
    let b = s.1 as int;
    let sb = sa + 1;
    match w {
        SkirtWinding::Wall => if k == 0 {
            a
        } else if k == 1 || k == 3 {
            sa
        } else if k == 4 {
            sb
        } else {
            b
        },
        SkirtWinding::WallReversed => if k == 0 {
            a
        } else if k == 1 || k == 4 {
            b
        } else if k == 2 || k == 3 {
            sa
        } else {
            sb
        },
        SkirtWinding::Strip => if k == 0 {
            a
        } else if k == 1 || k == 4 {
            sa
        } else if k == 2 || k == 3 {
            b
        } else {
            sb
        },
    }
}

/// Index list of a skirt whose lowered vertices are numbered from `first`.
pub open spec fn skirt_indices(segments: Seq<(u32, u32)>, first: int, w: SkirtWinding) -> Seq<u32> {
    Seq::new(
        6 * segments.len(),
        |i: int| skirt_corner(w, segments[i / 6], first + 2 * (i / 6), i % 6) as u32,
    )
}

/// Hang a skirt from the given border segments.
pub fn append_skirt(
    segments: &Vec<(u32, u32)>,
    w: SkirtWinding,
    vertices: &mut Vec<MeshVertex>,
    indices: &mut Vec<u32>,
)
    requires
        old(vertices)@.len() + 2 * segments@.len() <= u32::MAX,
    ensures
        final(vertices)@ == old(vertices)@ + skirt_vertices(segments@),
        final(indices)@ == old(indices)@ + skirt_indices(
            segments@,
            old(vertices)@.len() as int,
            w,
        ),
{
    let ghost v0 = vertices@;
    let ghost i0 = indices@;
    let ghost sv = skirt_vertices(segments@);
    let ghost si = skirt_indices(segments@, v0.len() as int, w);
    let mut s: usize = 0;
    assert(v0 + sv.take(0) =~= v0);
    assert(i0 + si.take(0) =~= i0);
    while s < segments.len()
        invariant
            s <= segments@.len(),
            v0.len() + 2 * segments@.len() <= u32::MAX,
            sv == skirt_vertices(segments@),
            si == skirt_indices(segments@, v0.len() as int, w),
            vertices@ == v0 + sv.take(2 * s),
            indices@ == i0 + si.take(6 * s),
        decreases segments@.len() - s,
    {
        let (a, b) = segments[s];
        let sa: u32 = vertices.len() as u32;
        let sb: u32 = sa + 1;
        vertices.push(MeshVertex { source: a, skirt: true });
        vertices.push(MeshVertex { source: b, skirt: true });
        match w {
            SkirtWinding::Wall => {
                indices.push(a);
                indices.push(sa);
                indices.push(b);
                indices.push(sa);
                indices.push(sb);
                indices.push(b);
            },
            SkirtWinding::WallReversed => {
                indices.push(a);
                indices.push(b);
                indices.push(sa);
                indices.push(sa);
                indices.push(b);
                indices.push(sb);
            },
            SkirtWinding::Strip => {
                indices.push(a);
                indices.push(sa);
                indices.push(b);
                indices.push(b);
                indices.push(sa);
                indices.push(sb);
            },
        }
        proof {
            assert(sv[2 * s].source == a && sv[2 * s + 1].source == b);
            assert(vertices@ =~= v0 + sv.take(2 * (s + 1)));
            assert(forall|k: int|
                0 <= k < 6 ==> #[trigger] si[6 * s + k] == skirt_corner(
                    w,
                    segments@[s as int],
                    v0.len() + 2 * s,
                    k,
                ) as u32) by {
                assert forall|k: int| 0 <= k < 6 implies #[trigger] si[6 * s + k] == skirt_corner(
                    w,
                    segments@[s as int],
                    v0.len() + 2 * s,
                    k,
                ) as u32 by {
                    assert((6 * s + k) / 6 == s && (6 * s + k) % 6 == k);
                }
            }
            assert(si[6 * s + 0] == a);
            assert(si[6 * s + 1] == indices@[i0.len() + 6 * s + 1]);
            assert(si[6 * s + 2] == indices@[i0.len() + 6 * s + 2]);
            assert(si[6 * s + 3] == indices@[i0.len() + 6 * s + 3]);
            assert(si[6 * s + 4] == indices@[i0.len() + 6 * s + 4]);
            assert(si[6 * s + 5] == indices@[i0.len() + 6 * s + 5]);
            assert(indices@ =~= i0 + si.take(6 * (s + 1)));
        }
        s = s + 1;
    }
    assert(sv.take(2 * s) =~= sv);
    assert(si.take(6 * s) =~= si);
}

/// A skirt only uses its own lowered vertices and the border they hang from.
pub proof fn law_skirt_in_range(segments: Seq<(u32, u32)>, first: int, w: SkirtWinding)
    requires
        0 <= first,
        first + 2 * segments.len() <= u32::MAX,
        forall|s: int|
            0 <= s < segments.len() ==> (#[trigger] segments[s]).0 < first && segments[s].1 < first,
    ensures
        forall|i: int|
            0 <= i < skirt_indices(segments, first, w).len() ==> (#[trigger] skirt_indices(
                segments,
                first,
                w,
            )[i]) < first + skirt_vertices(segments).len(),
{
    assert forall|i: int| 0 <= i < skirt_indices(segments, first, w).len() implies (
    #[trigger] skirt_indices(segments, first, w)[i]) < first + skirt_vertices(segments).len() by {
        assert(segments[i / 6].0 < first);
    }
}

/// Below every border segment stand two triangles with three different corners each, on the
/// same four vertices: the segment's ends and their lowered copies.
pub proof fn law_skirt_quads(segments: Seq<(u32, u32)>, first: int, w: SkirtWinding, s: int)
    requires
        0 <= first,
        first + 2 * segments.len() <= u32::MAX,
        0 <= s < segments.len(),
        segments[s].0 < first,
        segments[s].1 < first,
        segments[s].0 != segments[s].1,
    ensures
        ({
            let idx = skirt_indices(segments, first, w);
            let i = 6 * s;
            &&& idx[i] != idx[i + 1] && idx[i + 1] != idx[i + 2] && idx[i] != idx[i + 2]
            &&& idx[i + 3] != idx[i + 4] && idx[i + 4] != idx[i + 5] && idx[i + 3] != idx[i + 5]
            &&& skirt_vertices(segments)[2 * s] == (MeshVertex {
                source: segments[s].0,
                skirt: true,
            })
            &&& skirt_vertices(segments)[2 * s + 1] == (MeshVertex {
                source: segments[s].1,
                skirt: true,
            })
        }),
{
    let idx = skirt_indices(segments, first, w);
    assert forall|k: int| 0 <= k < 6 implies #[trigger] idx[6 * s + k] == skirt_corner(
        w,
        segments[s],
        first + 2 * s,
        k,
    ) as u32 by {
        assert((6 * s + k) / 6 == s && (6 * s + k) % 6 == k);
    }
    assert(idx[6 * s + 0] == segments[s].0);
    assert(idx[6 * s + 1] == skirt_corner(w, segments[s], first + 2 * s, 1) as u32);
    assert(idx[6 * s + 2] == skirt_corner(w, segments[s], first + 2 * s, 2) as u32);
    assert(idx[6 * s + 3] == skirt_corner(w, segments[s], first + 2 * s, 3) as u32);
    assert(idx[6 * s + 4] == skirt_corner(w, segments[s], first + 2 * s, 4) as u32);
    assert(idx[6 * s + 5] == skirt_corner(w, segments[s], first + 2 * s, 5) as u32);
}

/// Below a border segment from `a` to `b` hangs a quad whose lowered corners are copies of both,
/// numbered in the order of the segments. Walls and strips list it from `a` over the copy of `a`,
/// reversed walls the other way round.
pub proof fn law_skirt_triangles(segments: Seq<(u32, u32)>, first: int, w: SkirtWinding, s: int)
    requires
        0 <= first,
        first + 2 * segments.len() <= u32::MAX,
        0 <= s < segments.len(),
    ensures
        ({
            let idx = skirt_indices(segments, first, w);
            let i = 6 * s;
            let a = segments[s].0;
            let b = segments[s].1;
            let sa = first + 2 * s;
            let sb = first + 2 * s + 1;
            &&& idx.len() == 6 * segments.len()
            &&& w is Wall ==> idx[i] == a && idx[i + 1] == sa && idx[i + 2] == b && idx[i + 3] == sa
                && idx[i + 4] == sb && idx[i + 5] == b
            &&& w is WallReversed ==> idx[i] == a && idx[i + 1] == b && idx[i + 2] == sa && idx[i
                + 3] == sa && idx[i + 4] == b && idx[i + 5] == sb
            &&& w is Strip ==> idx[i] == a && idx[i + 1] == sa && idx[i + 2] == b && idx[i + 3] == b
                && idx[i + 4] == sa && idx[i + 5] == sb
        }),
{
    let idx = skirt_indices(segments, first, w);
    assert forall|k: int| 0 <= k < 6 implies #[trigger] idx[6 * s + k] == skirt_corner(
        w,
        segments[s],
        first + 2 * s,
        k,
    ) by {
        assert((6 * s + k) / 6 == s && (6 * s + k) % 6 == k);
    }
    assert(idx[6 * s + 0] == skirt_corner(w, segments[s], first + 2 * s, 0));
    assert(idx[6 * s + 1] == skirt_corner(w, segments[s], first + 2 * s, 1));
    assert(idx[6 * s + 2] == skirt_corner(w, segments[s], first + 2 * s, 2));
    assert(idx[6 * s + 3] == skirt_corner(w, segments[s], first + 2 * s, 3));
    assert(idx[6 * s + 4] == skirt_corner(w, segments[s], first + 2 * s, 4));
    assert(idx[6 * s + 5] == skirt_corner(w, segments[s], first + 2 * s, 5));
}

/// The surface of a mesh consists of its vertices in order, none of them lowered.
pub proof fn law_surface_vertices(n: nat, i: int)
    requires
        0 <= i < n <= u32::MAX,
    ensures
        surface_vertices(n).len() == n,
        surface_vertices(n)[i].source == i,
        !surface_vertices(n)[i].skirt,
{
}

} // verus!
