//! Reading heightmaps that are laid out in geographic coordinates, point by point.

use crate::pipeline::rasterize::magnitude;
use crate::pipeline::sampling::{sample_elevation_bilinear, stencil_at, Stencil};
use crate::pipeline::terrain_mesh::{
    choose_source, first_covering, lemma_nearest_source, nearest_source, source_for,
};
use crate::scalar::Frac;
use vstd::prelude::*;

verus! {

/// A square heightmap in geographic coordinates: rows run from north to south, columns from
/// west to east, from edge to edge. `len` samples are there; bounds are in units of 2^-32
/// degree.
#[derive(Debug, Clone, Copy, PartialEq, Eq, Structural)]
pub struct GeoHeightmapSource {
    pub len: usize,
    pub grid_size: u32,
    pub west: i64,
    pub east: i64,
    pub north: i64,
    pub south: i64,
}

/// A coordinate within a few turns of the globe.
pub open spec fn is_angle(x: i64) -> bool {
    -0x400_0000_0000 <= x <= 0x400_0000_0000
}

impl GeoHeightmapSource {
    /// There are samples along both axes, and they and the bounds can be numbered.
    pub open spec fn readable(self) -> bool {
        &&& self.grid_size >= 1
        &&& self.grid_size * self.grid_size <= u32::MAX
        &&& is_angle(self.west) && is_angle(self.east) && is_angle(self.north) && is_angle(
            self.south,
        )
    }
}

/// Which heightmap a point is read from, and how.
#[derive(Debug, Clone, Copy, PartialEq, Eq, Structural)]
pub struct GeoSample {
    pub source: usize,
    pub stencil: Stencil,
}

/// `part` as a share of `whole`; one half where there is no whole.
pub open spec fn share_of(part: int, whole: int) -> (int, int) {
    if whole == 0 {
        (1, 2)
    } else if whole > 0 {
        (part, whole)
    } else {
        (-part, -whole)
    }
}

/// A share from 0 to 1, up to a millionth.
pub open spec fn is_within(s: (int, int)) -> bool {
    -s.1 <= s.0 * 1_000_000 <= s.1 * 1_000_001
}

/// A share, or the nearer end of `0..=1`.
pub open spec fn clamped_share(s: (int, int)) -> Frac {
    Frac {
        num: if s.0 < 0 {
            0
        } else if s.0 > s.1 {
            s.1 as i128
        } else {
            s.0 as i128
        },
        den: s.1 as i128,
    }
}

/// How far across the source a longitude lies.
pub open spec fn across(g: GeoHeightmapSource, lon: i64) -> (int, int) {
    share_of(lon - g.west, g.east - g.west)
}

/// How far down the source a latitude lies.
pub open spec fn down(g: GeoHeightmapSource, lat: i64) -> (int, int) {
    share_of(g.north - lat, g.north - g.south)
}

/// The source covers a point.
pub open spec fn covers_point(g: GeoHeightmapSource, lon: i64, lat: i64) -> bool {
    is_within(across(g, lon)) && is_within(down(g, lat))
}

/// How a source is read at a point; at the nearest edge where the point lies outside.
pub open spec fn geo_stencil(g: GeoHeightmapSource, lon: i64, lat: i64) -> Stencil {
    stencil_at(
        g.len,
        g.grid_size,
        g.grid_size,
        clamped_share(across(g, lon)),
        clamped_share(down(g, lat)),
    )
}

/// Which of several sources cover a point.
pub open spec fn coverage(sources: Seq<GeoHeightmapSource>, lon: i64, lat: i64) -> Seq<bool> {
    sources.map_values(|g: GeoHeightmapSource| covers_point(g, lon, lat))
}

/// How far `x` lies outside the interval between two ends.
pub open spec fn gap_along(x: int, one: int, other: int) -> int {
    let low = if one <= other {
        one
    } else {
        other
    };
    let high = if one <= other {
        other
    } else {
        one
    };
    if x < low {
        low - x
    } else if x > high {
        x - high
    } else {
        0
    }
}

/// Square of the distance in degree units from a point to the rectangle of a source.
pub open spec fn gap_squared(g: GeoHeightmapSource, lon: i64, lat: i64) -> int {
    let dx = gap_along(lon as int, g.west as int, g.east as int);
    let dy = gap_along(lat as int, g.south as int, g.north as int);
    dx * dx + dy * dy
}

/// The squared distances of several sources from a point.
pub open spec fn gaps_to(sources: Seq<GeoHeightmapSource>, lon: i64, lat: i64) -> Seq<u128> {
    sources.map_values(|g: GeoHeightmapSource| gap_squared(g, lon, lat) as u128)
}

/// How a point is read: from the first source that covers it, else from the nearest.
pub open spec fn geo_sample(sources: Seq<GeoHeightmapSource>, lon: i64, lat: i64) -> Option<
    GeoSample,
> {
    match source_for(coverage(sources, lon, lat), gaps_to(sources, lon, lat)) {
        Some(k) => Some(
            GeoSample { source: k as usize, stencil: geo_stencil(sources[k], lon, lat) },
        ),
        None => None,
    }
}

/// `part` as a share of `whole`.
fn share(part: i64, whole: i64) -> (s: (i64, i64))
    requires
        -0x800_0000_0000 <= part <= 0x800_0000_0000,
        -0x800_0000_0000 <= whole <= 0x800_0000_0000,
    ensures
        (s.0 as int, s.1 as int) == share_of(part as int, whole as int),
        -0x800_0000_0000 <= s.0 <= 0x800_0000_0000,
        1 <= s.1 <= 0x800_0000_0000,
{
    if whole == 0 {
        (1, 2)
    } else if whole > 0 {
        (part, whole)
    } else {
        (-part, -whole)
    }
}

/// Whether a share is from 0 to 1, up to a millionth.
fn within(s: (i64, i64)) -> (b: bool)
    requires
        -0x800_0000_0000 <= s.0 <= 0x800_0000_0000,
        1 <= s.1 <= 0x800_0000_0000,
    ensures
        b == is_within((s.0 as int, s.1 as int)),
{
    -(s.1 as i128) <= s.0 as i128 * 1_000_000 && s.0 as i128 * 1_000_000 <= s.1 as i128 * 1_000_001
}

/// A share, or the nearer end of `0..=1`.
fn clamp_share(s: (i64, i64)) -> (f: Frac)
    requires
        1 <= s.1 <= 0x800_0000_0000,
    ensures
        f == clamped_share((s.0 as int, s.1 as int)),
        f.small(),
{
    let num: i64 = if s.0 < 0 {
        0
    } else if s.0 > s.1 {
        s.1
    } else {
        s.0
    };
    Frac { num: num as i128, den: s.1 as i128 }
}

proof fn lemma_gap_bound(dx: int, dy: int)
    requires
        0 <= dx <= 0x800_0000_0000,
        0 <= dy <= 0x800_0000_0000,
    ensures
        0 <= dx * dx <= 0x40_0000_0000_0000_0000_0000,
        0 <= dy * dy <= 0x40_0000_0000_0000_0000_0000,
{
    assert(0 <= dx * dx <= 0x40_0000_0000_0000_0000_0000) by (nonlinear_arith)
        requires
            0 <= dx <= 0x800_0000_0000,
    ;
    assert(0 <= dy * dy <= 0x40_0000_0000_0000_0000_0000) by (nonlinear_arith)
        requires
            0 <= dy <= 0x800_0000_0000,
    ;
}

/// How far `x` lies outside the interval between two ends.
fn gap(x: i64, one: i64, other: i64) -> (d: i64)
    requires
        is_angle(x),
        is_angle(one),
        is_angle(other),
    ensures
        d == gap_along(x as int, one as int, other as int),
        0 <= d <= 0x800_0000_0000,
{
    let (low, high) = if one <= other {
        (one, other)
    } else {
        (other, one)
    };
    if x < low {
        low - x
    } else if x > high {
        x - high
    } else {
        0
    }
}

/// Square of the distance from a point to the rectangle of a source.
fn distance_squared(g: &GeoHeightmapSource, lon: i64, lat: i64) -> (d: u128)
    requires
        g.readable(),
        is_angle(lon),
        is_angle(lat),
    ensures
        d == gap_squared(*g, lon, lat),
{
    let dx: i64 = gap(lon, g.west, g.east);
    let dy: i64 = gap(lat, g.south, g.north);
    proof {
        lemma_gap_bound(dx as int, dy as int);
    }
    dx as u128 * dx as u128 + dy as u128 * dy as u128
}

/// Read one source at a point.
fn read_source(g: &GeoHeightmapSource, lon: i64, lat: i64) -> (s: Stencil)
    requires
        g.readable(),
        is_angle(lon),
        is_angle(lat),
    ensures
        s == geo_stencil(*g, lon, lat),
{
    let u = clamp_share(share(lon - g.west, g.east - g.west));
    let v = clamp_share(share(g.north - lat, g.north - g.south));
    sample_elevation_bilinear(g.len, g.grid_size, g.grid_size, u, v)
}

/// Read a point from the source that it belongs to.
fn read_point(sources: &[GeoHeightmapSource], lon: i64, lat: i64) -> (r: Option<GeoSample>)
    requires
        forall|k: int| 0 <= k < sources@.len() ==> (#[trigger] sources@[k]).readable(),
        is_angle(lon),
        is_angle(lat),
    ensures
        r == geo_sample(sources@, lon, lat),
{
    let mut covers: Vec<bool> = Vec::new();
    let mut gaps: Vec<u128> = Vec::new();
    let mut k: usize = 0;
    while k < sources.len()
        invariant
            k <= sources@.len(),
            forall|i: int| 0 <= i < sources@.len() ==> (#[trigger] sources@[i]).readable(),
            is_angle(lon),
            is_angle(lat),
            covers@ =~= coverage(sources@, lon, lat).take(k as int),
            gaps@ =~= gaps_to(sources@, lon, lat).take(k as int),
        decreases sources@.len() - k,
    {
        let g = sources[k];
        let u = share(lon - g.west, g.east - g.west);
        let v = share(g.north - lat, g.north - g.south);
        covers.push(within(u) && within(v));
        gaps.push(distance_squared(&g, lon, lat));
        k = k + 1;
    }
    assert(covers@ =~= coverage(sources@, lon, lat));
    assert(gaps@ =~= gaps_to(sources@, lon, lat));
    match choose_source(&covers, &gaps) {
        Some(k) => Some(GeoSample { source: k, stencil: read_source(&sources[k], lon, lat) }),
        None => None,
    }
}

/// Read every point of a grid whose columns have the longitudes `lons` and whose rows have the
/// latitudes `lats`, row by row. Each point is read from the first source that covers it, and
/// at the nearest edge of the nearest source where none does. Without sources there is nothing
/// to read.
pub fn resample_geographic_to_mercator_multi(
    sources: &[GeoHeightmapSource],
    lons: &[i64],
    lats: &[i64],
) -> (r: Vec<Option<GeoSample>>)
    requires
        forall|k: int| 0 <= k < sources@.len() ==> (#[trigger] sources@[k]).readable(),
        forall|k: int| 0 <= k < lons@.len() ==> is_angle(#[trigger] lons@[k]),
        forall|k: int| 0 <= k < lats@.len() ==> is_angle(#[trigger] lats@[k]),
        lons@.len() * lats@.len() <= usize::MAX,
    ensures
        r@.len() == lats@.len() * lons@.len(),
        forall|row: int, col: int|
            0 <= row < lats@.len() && 0 <= col < lons@.len()
                ==> #[trigger] r@[row * lons@.len() + col] == geo_sample(
                sources@,
                lons@[col],
                lats@[row],
            ),
{
    let ghost w = lons@.len() as int;
    let mut r: Vec<Option<GeoSample>> = Vec::new();
    let mut row: usize = 0;
    while row < lats.len()
        invariant
            row <= lats@.len(),
            w == lons@.len(),
            forall|k: int| 0 <= k < sources@.len() ==> (#[trigger] sources@[k]).readable(),
            forall|k: int| 0 <= k < lons@.len() ==> is_angle(#[trigger] lons@[k]),
            forall|k: int| 0 <= k < lats@.len() ==> is_angle(#[trigger] lats@[k]),
            r@.len() == row * w,
            forall|i: int, j: int|
                0 <= i < row && 0 <= j < w ==> #[trigger] r@[i * w + j] == geo_sample(
                    sources@,
                    lons@[j],
                    lats@[i],
                ),
        decreases lats@.len() - row,
    {
        let ghost before = r@;
        let mut col: usize = 0;
        while col < lons.len()
            invariant
                row < lats@.len(),
                col <= lons@.len(),
                w == lons@.len(),
                forall|k: int| 0 <= k < sources@.len() ==> (#[trigger] sources@[k]).readable(),
                forall|k: int| 0 <= k < lons@.len() ==> is_angle(#[trigger] lons@[k]),
                forall|k: int| 0 <= k < lats@.len() ==> is_angle(#[trigger] lats@[k]),
                before.len() == row * w,
                r@.len() == row * w + col,
                r@.take(row * w) == before,
                forall|j: int|
                    0 <= j < col ==> #[trigger] r@[row * w + j] == geo_sample(
                        sources@,
                        lons@[j],
                        lats@[row as int],
                    ),
            decreases lons@.len() - col,
        {
            r.push(read_point(sources, lons[col], lats[row]));
            assert(r@.take(row * w) =~= before);
            col = col + 1;
        }
        proof {
            assert((row + 1) * w == row * w + w) by (nonlinear_arith);
            assert forall|i: int, j: int| 0 <= i < row + 1 && 0 <= j < w implies #[trigger] r@[i * w
                + j] == geo_sample(sources@, lons@[j], lats@[i]) by {
                if i < row {
                    assert(0 <= i * w + j < row * w) by (nonlinear_arith)
                        requires
                            0 <= i < row,
                            0 <= j < w,
                    ;
                    assert(r@.take(row * w)[i * w + j] == r@[i * w + j]);
                    assert(before[i * w + j] == geo_sample(sources@, lons@[j], lats@[i]));
                }
            }
        }
        row = row + 1;
    }
    r
}

/// Read every point of a grid from one source, at its nearest edge where a point lies outside.
pub fn resample_geographic_to_mercator(
    source: &GeoHeightmapSource,
    lons: &[i64],
    lats: &[i64],
) -> (r: Vec<Stencil>)
    requires
        source.readable(),
        forall|k: int| 0 <= k < lons@.len() ==> is_angle(#[trigger] lons@[k]),
        forall|k: int| 0 <= k < lats@.len() ==> is_angle(#[trigger] lats@[k]),
        lons@.len() * lats@.len() <= usize::MAX,
    ensures
        r@.len() == lats@.len() * lons@.len(),
        forall|row: int, col: int|
            0 <= row < lats@.len() && 0 <= col < lons@.len()
                ==> #[trigger] r@[row * lons@.len() + col] == geo_stencil(
                *source,
                lons@[col],
                lats@[row],
            ),
{
    let ghost w = lons@.len() as int;
    let mut r: Vec<Stencil> = Vec::new();
    let mut row: usize = 0;
    while row < lats.len()
        invariant
            row <= lats@.len(),
            w == lons@.len(),
            source.readable(),
            forall|k: int| 0 <= k < lons@.len() ==> is_angle(#[trigger] lons@[k]),
            forall|k: int| 0 <= k < lats@.len() ==> is_angle(#[trigger] lats@[k]),
            r@.len() == row * w,
            forall|i: int, j: int|
                0 <= i < row && 0 <= j < w ==> #[trigger] r@[i * w + j] == geo_stencil(
                    *source,
                    lons@[j],
                    lats@[i],
                ),
        decreases lats@.len() - row,
    {
        let ghost before = r@;
        let mut col: usize = 0;
        while col < lons.len()
            invariant
                row < lats@.len(),
                col <= lons@.len(),
                w == lons@.len(),
                source.readable(),
                forall|k: int| 0 <= k < lons@.len() ==> is_angle(#[trigger] lons@[k]),
                forall|k: int| 0 <= k < lats@.len() ==> is_angle(#[trigger] lats@[k]),
                before.len() == row * w,
                r@.len() == row * w + col,
                r@.take(row * w) == before,
                forall|j: int|
                    0 <= j < col ==> #[trigger] r@[row * w + j] == geo_stencil(
                        *source,
                        lons@[j],
                        lats@[row as int],
                    ),
            decreases lons@.len() - col,
        {
            r.push(read_source(source, lons[col], lats[row]));
            assert(r@.take(row * w) =~= before);
            col = col + 1;
        }
        proof {
            assert((row + 1) * w == row * w + w) by (nonlinear_arith);
            assert forall|i: int, j: int| 0 <= i < row + 1 && 0 <= j < w implies #[trigger] r@[i * w
                + j] == geo_stencil(*source, lons@[j], lats@[i]) by {
                if i < row {
                    assert(0 <= i * w + j < row * w) by (nonlinear_arith)
                        requires
                            0 <= i < row,
                            0 <= j < w,
                    ;
                    assert(r@.take(row * w)[i * w + j] == r@[i * w + j]);
                    assert(before[i * w + j] == geo_stencil(*source, lons@[j], lats@[i]));
                }
            }
        }
        row = row + 1;
    }
    r
}

/// Reading from a list of one source is reading from that source.
pub proof fn law_single_source(g: GeoHeightmapSource, lon: i64, lat: i64)
    ensures
        geo_sample(seq![g], lon, lat) == Some(
            (GeoSample { source: 0, stencil: geo_stencil(g, lon, lat) }),
        ),
{
    let covers = coverage(seq![g], lon, lat);
    assert(covers.len() == 1);
    assert(covers[0] == covers_point(g, lon, lat));
}

proof fn lemma_least(covers: Seq<bool>, i: int)
    requires
        0 <= i < covers.len(),
        covers[i],
    ensures
        0 <= first_covering(covers) <= i,
        covers[first_covering(covers)],
        forall|j: int| 0 <= j < first_covering(covers) ==> !(#[trigger] covers[j]),
    decreases covers.len(),
{
    if !covers[0] {
        let rest = covers.drop_first();
        assert(rest[i - 1]);
        lemma_least(rest, i - 1);
        let f = first_covering(rest);
        assert(rest[f] == covers[f + 1]);
        assert forall|j: int| 0 <= j < f + 1 implies !(#[trigger] covers[j]) by {
            if j > 0 {
                assert(!rest[j - 1]);
            }
        }
    }
}

/// A point is read from a source that covers it wherever there is one, and from the first such
/// source; where there is none it is read from the nearest source, the first of equally near
/// ones. Only without sources is it not read.
pub proof fn law_covering_source(sources: Seq<GeoHeightmapSource>, lon: i64, lat: i64)
    requires
        sources.len() <= usize::MAX,
        forall|j: int| 0 <= j < sources.len() ==> (#[trigger] sources[j]).readable(),
        is_angle(lon),
        is_angle(lat),
    ensures
        geo_sample(sources, lon, lat) is None <==> sources.len() == 0,
        geo_sample(sources, lon, lat) matches Some(s) ==> {
            &&& s.source < sources.len()
            &&& s.stencil == geo_stencil(sources[s.source as int], lon, lat)
            &&& (exists|j: int|
                0 <= j < sources.len() && covers_point(#[trigger] sources[j], lon, lat)) ==> {
                &&& covers_point(sources[s.source as int], lon, lat)
                &&& forall|j: int|
                    0 <= j < s.source ==> !covers_point(#[trigger] sources[j], lon, lat)
            }
            &&& (forall|j: int|
                0 <= j < sources.len() ==> !covers_point(#[trigger] sources[j], lon, lat)) ==> {
                &&& forall|j: int|
                    0 <= j < sources.len() ==> gap_squared(sources[s.source as int], lon, lat)
                        <= gap_squared(#[trigger] sources[j], lon, lat)
                &&& forall|j: int|
                    0 <= j < s.source ==> gap_squared(sources[s.source as int], lon, lat)
                        < gap_squared(#[trigger] sources[j], lon, lat)
            }
        },
{
    let covers = coverage(sources, lon, lat);
    let gaps = gaps_to(sources, lon, lat);
    assert forall|j: int| 0 <= j < sources.len() implies covers[j] == covers_point(
        #[trigger] sources[j],
        lon,
        lat,
    ) && gaps[j] == gap_squared(sources[j], lon, lat) by {
        let g = sources[j];
        lemma_gap_bound(
            gap_along(lon as int, g.west as int, g.east as int),
            gap_along(lat as int, g.south as int, g.north as int),
        );
    }
    if exists|i: int| 0 <= i < covers.len() && #[trigger] covers[i] {
        let i = choose|i: int| 0 <= i < covers.len() && #[trigger] covers[i];
        lemma_least(covers, i);
        assert(covers_point(sources[i], lon, lat));
        assert(covers_point(sources[first_covering(covers)], lon, lat));
    } else {
        assert forall|j: int| 0 <= j < sources.len() implies !covers_point(
            #[trigger] sources[j],
            lon,
            lat,
        ) by {
            assert(!covers[j]);
        }
        if sources.len() > 0 {
            lemma_nearest_source(gaps);
            let k = nearest_source(gaps);
            assert forall|j: int| 0 <= j < sources.len() implies gap_squared(sources[k], lon, lat)
                <= gap_squared(#[trigger] sources[j], lon, lat) by {
                assert(gaps[k] <= gaps[j]);
            }
            assert forall|j: int| 0 <= j < k implies gap_squared(sources[k], lon, lat)
                < gap_squared(#[trigger] sources[j], lon, lat) by {
                assert(gaps[k] < gaps[j]);
            }
        }
    }
}

/// A point between a source's edges is read where it lies: its share is not clamped.
pub proof fn law_inside_unclamped(g: GeoHeightmapSource, lon: i64, lat: i64)
    requires
        g.west < g.east,
        g.south < g.north,
        g.west <= lon <= g.east,
        g.south <= lat <= g.north,
        g.readable(),
    ensures
        covers_point(g, lon, lat),
        clamped_share(across(g, lon)) == (Frac {
            num: (lon - g.west) as i128,
            den: (g.east - g.west) as i128,
        }),
        clamped_share(down(g, lat)) == (Frac {
            num: (g.north - lat) as i128,
            den: (g.north - g.south) as i128,
        }),
{
}

/// The coordinate of an interval that is nearest to `x`.
pub open spec fn nearest_within(x: i64, low: i64, high: i64) -> i64 {
    if x < low {
        low
    } else if x > high {
        high
    } else {
        x
    }
}

/// A point outside a source is read at the source's nearest edge: like the nearest point of its
/// rectangle.
pub proof fn law_nearest_edge(g: GeoHeightmapSource, lon: i64, lat: i64)
    requires
        g.west < g.east,
        g.south < g.north,
        g.readable(),
        is_angle(lon),
        is_angle(lat),
    ensures
        geo_stencil(g, lon, lat) == geo_stencil(
            g,
            nearest_within(lon, g.west, g.east),
            nearest_within(lat, g.south, g.north),
        ),
        gap_along(lon as int, g.west as int, g.east as int) == magnitude(
            lon - nearest_within(lon, g.west, g.east),
        ),
        gap_along(lat as int, g.south as int, g.north as int) == magnitude(
            lat - nearest_within(lat, g.south, g.north),
        ),
{
}

/// A source covers what lies between its bounds, and up to a millionth of its extent beyond
/// each of them.
pub proof fn law_coverage(g: GeoHeightmapSource, lon: i64, lat: i64)
    requires
        g.west < g.east,
        g.south < g.north,
    ensures
        covers_point(g, lon, lat) <==> {
            let w = g.east - g.west;
            let h = g.north - g.south;
            &&& -w <= (lon - g.west) * 1_000_000
            &&& (lon - g.east) * 1_000_000 <= w
            &&& -h <= (g.north - lat) * 1_000_000
            &&& (g.south - lat) * 1_000_000 <= h
        },
{
}

/// A source without extent is read in its middle, wherever the point lies.
pub proof fn law_no_extent(g: GeoHeightmapSource, lon: i64, lat: i64)
    ensures
        g.west == g.east ==> clamped_share(across(g, lon)) == (Frac { num: 1, den: 2 }),
        g.south == g.north ==> clamped_share(down(g, lat)) == (Frac { num: 1, den: 2 }),
{
}

/// Inside a complete source a point is read where it lies: as far across from the west and as
/// far down from the north as in the source's bounds.
pub proof fn law_geo_position(g: GeoHeightmapSource, lon: i64, lat: i64)
    requires
        g.readable(),
        g.grid_size >= 2,
        g.grid_size * g.grid_size <= g.len,
        g.west < g.east,
        g.south < g.north,
        g.west <= lon <= g.east,
        g.south <= lat <= g.north,
    ensures
        geo_stencil(g, lon, lat) matches Stencil::Quad { i00, i10, i01, i11, fx, fy } && {
            let n = g.grid_size as int;
            let col = i00 as int % n;
            let row = i00 as int / n;
            &&& i10 == i00 + 1
            &&& i01 == i00 + n
            &&& i11 == i01 + 1
            &&& fx.den == g.east - g.west
            &&& fy.den == g.north - g.south
            &&& col * (g.east - g.west) + fx.num == (lon - g.west) * (n - 1)
            &&& row * (g.north - g.south) + fy.num == (g.north - lat) * (n - 1)
        },
{
    law_inside_unclamped(g, lon, lat);
    crate::pipeline::sampling::law_stencil_position(
        g.len,
        g.grid_size,
        g.grid_size,
        clamped_share(across(g, lon)),
        clamped_share(down(g, lat)),
    );
}

/// How far a source lies from a point is measured straight to its nearest edge or corner.
pub proof fn law_gap(g: GeoHeightmapSource, lon: i64, lat: i64)
    requires
        g.west <= g.east,
        g.south <= g.north,
    ensures
        ({
            let dx = lon - nearest_within(lon, g.west, g.east);
            let dy = lat - nearest_within(lat, g.south, g.north);
            gap_squared(g, lon, lat) == dx * dx + dy * dy
        }),
{
    let dx = lon - nearest_within(lon, g.west, g.east);
    let dy = lat - nearest_within(lat, g.south, g.north);
    vstd::arithmetic::mul::lemma_mul_cancels_negatives(dx, dx);
    vstd::arithmetic::mul::lemma_mul_cancels_negatives(dy, dy);
    let ax = gap_along(lon as int, g.west as int, g.east as int);
    let ay = gap_along(lat as int, g.south as int, g.north as int);
    assert(ax == dx || ax == -dx);
    assert(ay == dy || ay == -dy);
}

} // verus!
