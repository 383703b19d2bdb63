//! Visible tiles minus cached tiles: what to load, nearest first.

use crate::collections::TileSet;
use crate::ordering::{is_stable_order, law_stably_ordered, stable_order, stably_ordered};
use crate::scalar::Real32;
use crate::sequences::{gather, lemma_gather_contains};
use crate::tile::TileCoord;
use vstd::prelude::*;

verus! {

/// A tile to load, with its distance from the center of the view.
#[derive(Debug, Clone, Copy, PartialEq, Eq, Structural)]
pub struct LoadRequest {
    pub coord: TileCoord,
    pub priority: Real32,
}

/// The request for the `i`-th visible tile, if it is not cached.
pub open spec fn load_request(
    visible: Seq<TileCoord>,
    distances: Seq<Real32>,
    cached: Set<TileCoord>,
) -> spec_fn(int) -> Option<LoadRequest> {
    |i: int|
        if cached.contains(visible[i]) {
            None
        } else {
            Some(LoadRequest { coord: visible[i], priority: distances[i] })
        }
}

/// The requests in the order of the visible list.
pub open spec fn missing(
    visible: Seq<TileCoord>,
    distances: Seq<Real32>,
    cached: Set<TileCoord>,
) -> Seq<LoadRequest> {
    gather(visible.len(), load_request(visible, distances, cached))
}

/// Sort key of a number: its rank, moved to start at zero.
pub open spec fn distance_key(d: Real32) -> u128 {
    (d.rank() + 0x8000_0000) as u128
}

/// The order keys of a list of requests.
pub open spec fn distance_keys(requests: Seq<LoadRequest>) -> Seq<u128> {
    requests.map_values(|r: LoadRequest| distance_key(r.priority))
}

fn key_of(d: Real32) -> (k: u128)
    ensures
        k == distance_key(d),
{
    let rank: i64 = if d.bits < 0x8000_0000 {
        d.bits as i64
    } else {
        0x8000_0000i64 - d.bits as i64
    };
    (rank + 0x8000_0000i64) as u128
}

/// The visible tiles that are not cached, nearest first; `distances[i]` is the distance of
/// `visible[i]` from the center of the view.
pub fn compute_load_requests(
    visible: &[TileCoord],
    cached: &TileSet,
    distances: &[Real32],
) -> (r: Vec<LoadRequest>)
    requires
        distances@.len() == visible@.len(),
        forall|i: int| 0 <= i < distances@.len() ==> !(#[trigger] distances@[i]).is_nan_spec(),
    ensures
        ({
            let all = missing(visible@, distances@, cached@);
            stably_ordered(all, distance_keys(all), r@)
        }),
{
    let ghost rule = load_request(visible@, distances@, cached@);
    let mut found: Vec<LoadRequest> = Vec::new();
    let mut keys: Vec<u128> = Vec::new();
    let mut i: usize = 0;
    while i < visible.len()
        invariant
            i <= visible@.len(),
            distances@.len() == visible@.len(),
            rule == load_request(visible@, distances@, cached@),
            found@ == gather(i as nat, rule),
            keys@ == distance_keys(found@),
        decreases visible@.len() - i,
    {
        if !cached.contains(&visible[i]) {
            found.push(LoadRequest { coord: visible[i], priority: distances[i] });
            keys.push(key_of(distances[i]));
        }
        assert(found@ =~= gather((i + 1) as nat, rule));
        assert(keys@ =~= distance_keys(found@));
        i = i + 1;
    }
    let p = stable_order(&keys);
    let mut r: Vec<LoadRequest> = Vec::new();
    let ghost target = p@.map_values(|i: usize| found@[i as int]);
    let mut k: usize = 0;
    while k < p.len()
        invariant
            k <= p@.len(),
            forall|i: int| 0 <= i < p@.len() ==> 0 <= #[trigger] p@[i] < found@.len(),
            target == p@.map_values(|i: usize| found@[i as int]),
            r@ == target.take(k as int),
        decreases p@.len() - k,
    {
        r.push(found[p[k]]);
        assert(r@ =~= target.take(k + 1));
        k = k + 1;
    }
    assert(r@ =~= target);
    r
}

/// The load list holds exactly the visible tiles that are not cached, and no entry is farther
/// away than one after it.
pub proof fn law_load_requests(
    visible: Seq<TileCoord>,
    distances: Seq<Real32>,
    cached: Set<TileCoord>,
    out: Seq<LoadRequest>,
)
    requires
        distances.len() == visible.len(),
        forall|i: int| 0 <= i < distances.len() ==> !(#[trigger] distances[i]).is_nan_spec(),
        ({
            let all = missing(visible, distances, cached);
            stably_ordered(all, distance_keys(all), out)
        }),
    ensures
        forall|i: int, j: int|
            0 <= i <= j < out.len() ==> !(#[trigger] out[j]).priority.below(
                (#[trigger] out[i]).priority,
            ),
        forall|r: LoadRequest| #[trigger]
            out.contains(r) <==> exists|i: int|
                0 <= i < visible.len() && !cached.contains(#[trigger] visible[i]) && r
                    == (LoadRequest { coord: visible[i], priority: distances[i] }),
{
    let all = missing(visible, distances, cached);
    let rule = load_request(visible, distances, cached);
    law_stably_ordered(all, distance_keys(all), out);
    let p = choose|p: Seq<usize>|
        {
            &&& #[trigger] is_stable_order(distance_keys(all), p)
            &&& out == p.map_values(|i: usize| all[i as int])
            &&& forall|i: int, j: int|
                0 <= i <= j < p.len() ==> distance_keys(all)[#[trigger] p[i] as int]
                    <= distance_keys(all)[#[trigger] p[j] as int]
        };
    assert forall|i: int, j: int| 0 <= i <= j < out.len() implies !(
    #[trigger] out[j]).priority.below((#[trigger] out[i]).priority) by {
        assert(distance_keys(all)[p[i] as int] <= distance_keys(all)[p[j] as int]);
    }
    assert forall|r: LoadRequest| #[trigger] out.contains(r) <==> exists|i: int|
        0 <= i < visible.len() && !cached.contains(#[trigger] visible[i]) && r == (LoadRequest {
            coord: visible[i],
            priority: distances[i],
        }) by {
        all.to_multiset_ensures();
        out.to_multiset_ensures();
        assert(out.contains(r) <==> all.contains(r)) by {
            assert(out.contains(r) <==> out.to_multiset().contains(r));
            assert(all.contains(r) <==> all.to_multiset().contains(r));
        }
        lemma_gather_contains(visible.len(), rule, r);
        if all.contains(r) {
            let i = choose|i: int| 0 <= i < visible.len() && #[trigger] rule(i) == Some(r);
            assert(!cached.contains(visible[i]));
        }
        if exists|i: int|
            0 <= i < visible.len() && !cached.contains(#[trigger] visible[i]) && r == (LoadRequest {
                coord: visible[i],
                priority: distances[i],
            }) {
            let i = choose|i: int|
                0 <= i < visible.len() && !cached.contains(#[trigger] visible[i]) && r == (
                LoadRequest { coord: visible[i], priority: distances[i] });
            assert(rule(i) == Some(r));
        }
    }
}

} // verus!
