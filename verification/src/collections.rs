//! Maps and sets keyed by tile address.
//!
//! Lookups go through a hash index on the packed address; iteration follows
//! insertion order.

use crate::tile::TileCoord;
use std::collections::HashMap;
use vstd::prelude::*;

verus! {

broadcast use vstd::std_specs::hash::group_hash_axioms;

/// The address as one integer.
pub open spec fn packed(t: TileCoord) -> u128 {
    (t.z * 0x1_0000_0000_0000_0000 + t.x * 0x1_0000_0000 + t.y) as u128
}

/// The address as one integer.
pub fn pack(t: &TileCoord) -> (k: u128)
    ensures
        k == packed(*t),
{
    t.z as u128 * 0x1_0000_0000_0000_0000u128 + t.x as u128 * 0x1_0000_0000u128 + t.y as u128
}

/// Different addresses are different integers.
pub proof fn lemma_packed_injective(a: TileCoord, b: TileCoord)
    requires
        packed(a) == packed(b),
    ensures
        a == b,
{
}

/// `listing` holds the associations of `m`, each key once.
pub open spec fn lists_map<V>(listing: Seq<(TileCoord, V)>, m: Map<TileCoord, V>) -> bool {
    &&& forall|i: int|
        0 <= i < listing.len() ==> m.contains_key((#[trigger] listing[i]).0) && m[listing[i].0]
            == listing[i].1
    &&& forall|t: TileCoord| #[trigger]
        m.contains_key(t) ==> exists|i: int| 0 <= i < listing.len() && (#[trigger] listing[i]).0 == t
    &&& forall|i: int, j: int|
        0 <= i < j < listing.len() ==> (#[trigger] listing[i]).0 != (#[trigger] listing[j]).0
}

/// `listing` names the members of `s`, each once.
pub open spec fn lists_set(listing: Seq<TileCoord>, s: Set<TileCoord>) -> bool {
    &&& forall|i: int| 0 <= i < listing.len() ==> s.contains(#[trigger] listing[i])
    &&& forall|t: TileCoord| #[trigger]
        s.contains(t) ==> exists|i: int| 0 <= i < listing.len() && #[trigger] listing[i] == t
    &&& listing.no_duplicates()
}

/// A listing is as long as the map has keys.
proof fn lemma_listing_len<V>(listing: Seq<(TileCoord, V)>, m: Map<TileCoord, V>)
    requires
        lists_map(listing, m),
    ensures
        m.dom().finite(),
        m.dom().len() == listing.len(),
{
    let keys = listing.map_values(|e: (TileCoord, V)| e.0);
    assert forall|i: int, j: int| 0 <= i < keys.len() && 0 <= j < keys.len() && i != j implies keys[i]
        != keys[j] by {
        if i < j {
            assert(listing[i].0 != listing[j].0);
        } else {
            assert(listing[j].0 != listing[i].0);
        }
    }
    keys.unique_seq_to_set();
    assert forall|t: TileCoord| m.dom().contains(t) <==> keys.to_set().contains(t) by {
        if m.contains_key(t) {
            let i = choose|i: int| 0 <= i < listing.len() && (#[trigger] listing[i]).0 == t;
            assert(keys[i] == t);
        }
        if keys.contains(t) {
            let i = choose|i: int| 0 <= i < keys.len() && keys[i] == t;
            assert(listing[i].0 == t);
        }
    }
    assert(keys.to_set() =~= m.dom());
}

/// A map from tile addresses to small values.
pub struct TileMap<V: Copy> {
    index: HashMap<u128, usize>,
    entries: Vec<(TileCoord, V)>,
}

impl<V: Copy> View for TileMap<V> {
    type V = Map<TileCoord, V>;

    closed spec fn view(&self) -> Map<TileCoord, V> {
        Map::new(
            |t: TileCoord| self.index@.contains_key(packed(t)),
            |t: TileCoord| self.entries@[self.index@[packed(t)] as int].1,
        )
    }
}

impl<V: Copy> TileMap<V> {
    #[verifier::type_invariant]
    spec fn indexed(&self) -> bool {
        &&& forall|i: int|
            0 <= i < self.entries@.len() ==> {
                let k = packed(#[trigger] self.entries@[i].0);
                self.index@.contains_key(k) && self.index@[k] == i
            }
        &&& forall|k: u128| #[trigger]
            self.index@.contains_key(k) ==> self.index@[k] < self.entries@.len() && packed(
                self.entries@[self.index@[k] as int].0,
            ) == k
    }

    /// Keys and values in insertion order.
    pub closed spec fn listing(&self) -> Seq<(TileCoord, V)> {
        self.entries@
    }

    pub fn new() -> (m: TileMap<V>)
        ensures
            m@ == Map::<TileCoord, V>::empty(),
            m.listing() == Seq::<(TileCoord, V)>::empty(),
    {
        let m = TileMap { index: HashMap::new(), entries: Vec::new() };
        assert(m@ =~= Map::<TileCoord, V>::empty());
        m
    }

    /// Number of keys; the listing holds the map's associations, each key once.
    pub fn len(&self) -> (n: usize)
        ensures
            n == self.listing().len(),
            lists_map(self.listing(), self@),
            self@.dom().finite(),
            n == self@.dom().len(),
    {
        proof {
            use_type_invariant(self);
            assert forall|t: TileCoord| #[trigger] self@.contains_key(t) implies exists|i: int|
                0 <= i < self.listing().len() && (#[trigger] self.listing()[i]).0 == t by {
                let i = self.index@[packed(t)] as int;
                lemma_packed_injective(self.listing()[i].0, t);
            }
            lemma_listing_len(self.listing(), self@);
        }
        self.entries.len()
    }

    /// The key / value pair at position `i` of the listing.
    pub fn entry_at(&self, i: usize) -> (e: (TileCoord, V))
        requires
            i < self.listing().len(),
        ensures
            e == self.listing()[i as int],
    {
        self.entries[i]
    }

    pub fn contains(&self, t: &TileCoord) -> (b: bool)
        ensures
            b == self@.contains_key(*t),
    {
        self.index.contains_key(&pack(t))
    }

    pub fn get(&self, t: &TileCoord) -> (v: Option<V>)
        ensures
            v == (if self@.contains_key(*t) {
                Some(self@[*t])
            } else {
                None
            }),
    {
        proof {
            use_type_invariant(self);
        }
        match self.index.get(&pack(t)) {
            Some(i) => Some(self.entries[*i].1),
            None => None,
        }
    }

    /// Associate `v` with `t`, replacing an earlier value. Tells whether `t` is new.
    pub fn insert(&mut self, t: TileCoord, v: V) -> (fresh: bool)
        ensures
            fresh == !old(self)@.contains_key(t),
            final(self)@ == old(self)@.insert(t, v),
            fresh ==> final(self).listing() == old(self).listing().push((t, v)),
    {
        proof {
            use_type_invariant(&*self);
        }
        let ghost before = *self;
        let mut taken = TileMap::new();
        std::mem::swap(self, &mut taken);
        let TileMap { mut index, mut entries } = taken;
        let k: u128 = pack(&t);
        let found: Option<usize> = match index.get(&k) {
            Some(i) => Some(*i),
            None => None,
        };
        match found {
            Some(i) => {
                entries.set(i, (t, v));
                assert forall|j: int| 0 <= j < entries@.len() implies {
                    let q = packed(#[trigger] entries@[j].0);
                    index@.contains_key(q) && index@[q] == j
                } by {
                    if j != i {
                        assert(entries@[j] == before.entries@[j]);
                    }
                }
                *self = TileMap { index, entries };
                assert(self@ =~= before@.insert(t, v)) by {
                    assert forall|s: TileCoord| s != t && before@.contains_key(s) implies self@[s]
                        == before@[s] by {
                        let j = before.index@[packed(s)];
                        if j == i {
                            lemma_packed_injective(s, t);
                        }
                    }
                }
                false
            },
            None => {
                let i: usize = entries.len();
                entries.push((t, v));
                index.insert(k, i);
                assert forall|j: int| 0 <= j < entries@.len() implies {
                    let q = packed(#[trigger] entries@[j].0);
                    index@.contains_key(q) && index@[q] == j
                } by {
                    if j != i {
                        assert(entries@[j] == before.entries@[j]);
                    }
                }
                *self = TileMap { index, entries };
                assert(self@ =~= before@.insert(t, v)) by {
                    assert forall|s: TileCoord| s != t && #[trigger] self@.contains_key(s) implies before@.contains_key(s) && self@[s] == before@[s] by {
                        if packed(s) == k {
                            lemma_packed_injective(s, t);
                        }
                    }
                    assert forall|s: TileCoord| s != t && #[trigger] before@.contains_key(s) implies self@.contains_key(s) by {
                    }
                }
                true
            },
        }
    }
}

impl<V: Copy> TileMap<V> {
    /// Forget `t`. Tells whether it was there.
    pub fn remove(&mut self, t: &TileCoord) -> (found: bool)
        ensures
            found == old(self)@.contains_key(*t),
            final(self)@ == old(self)@.remove(*t),
    {
        let found: bool = self.contains(t);
        let n: usize = self.len();
        let mut kept: TileMap<V> = TileMap::new();
        let mut i: usize = 0;
        while i < n
            invariant
                n == self.listing().len(),
                i <= n,
                *self == *old(self),
                lists_map(self.listing(), self@),
                lists_part(kept@, self.listing(), i as int, |c: TileCoord| c != *t),
            decreases n - i,
        {
            let (c, v) = self.entry_at(i);
            let ghost before = kept@;
            if c != *t {
                kept.insert(c, v);
            }
            proof {
                lemma_lists_part(
                    before,
                    kept@,
                    self.listing(),
                    i as int,
                    |c: TileCoord| c != *t,
                );
            }
            i = i + 1;
        }
        proof {
            lemma_part_whole(kept@, self.listing(), self@, |c: TileCoord| c != *t);
            assert(kept@ =~= self@.remove(*t));
        }
        *self = kept;
        found
    }

    /// Forget every key that is not in `keep`.
    pub fn retain(&mut self, keep: &TileSet)
        ensures
            final(self)@ == old(self)@.restrict(keep@),
    {
        let n: usize = self.len();
        let mut kept: TileMap<V> = TileMap::new();
        let mut i: usize = 0;
        while i < n
            invariant
                n == self.listing().len(),
                i <= n,
                *self == *old(self),
                lists_map(self.listing(), self@),
                lists_part(kept@, self.listing(), i as int, |c: TileCoord| keep@.contains(c)),
            decreases n - i,
        {
            let (c, v) = self.entry_at(i);
            let ghost before = kept@;
            if keep.contains(&c) {
                kept.insert(c, v);
            }
            proof {
                lemma_lists_part(
                    before,
                    kept@,
                    self.listing(),
                    i as int,
                    |c: TileCoord| keep@.contains(c),
                );
            }
            i = i + 1;
        }
        proof {
            lemma_part_whole(
                kept@,
                self.listing(),
                self@,
                |c: TileCoord| keep@.contains(c),
            );
            assert(kept@ =~= self@.restrict(keep@));
        }
        *self = kept;
    }
}

/// `m` holds those of the first `n` associations whose key passes.
spec fn lists_part<V>(
    m: Map<TileCoord, V>,
    listing: Seq<(TileCoord, V)>,
    n: int,
    keep: spec_fn(TileCoord) -> bool,
) -> bool {
    &&& forall|c: TileCoord| #[trigger]
        m.contains_key(c) <==> keep(c) && exists|j: int| 0 <= j < n && (#[trigger] listing[j]).0 == c
    &&& forall|j: int|
        0 <= j < n && keep((#[trigger] listing[j]).0) ==> m[listing[j].0] == listing[j].1
}

proof fn lemma_lists_part<V>(
    before: Map<TileCoord, V>,
    after: Map<TileCoord, V>,
    listing: Seq<(TileCoord, V)>,
    n: int,
    keep: spec_fn(TileCoord) -> bool,
)
    requires
        0 <= n < listing.len(),
        forall|i: int, j: int|
            0 <= i < j < listing.len() ==> (#[trigger] listing[i]).0 != (#[trigger] listing[j]).0,
        lists_part(before, listing, n, keep),
        after == (if keep(listing[n].0) {
            before.insert(listing[n].0, listing[n].1)
        } else {
            before
        }),
    ensures
        lists_part(after, listing, n + 1, keep),
{
    assert forall|c: TileCoord| #[trigger] after.contains_key(c) <==> keep(c) && exists|j: int|
        0 <= j < n + 1 && (#[trigger] listing[j]).0 == c by {
        assert(before.contains_key(c) <==> keep(c) && exists|j: int|
            0 <= j < n && (#[trigger] listing[j]).0 == c);
        if c == listing[n].0 {
            assert(listing[n].0 == c);
        }
    }
}

proof fn lemma_part_whole<V>(
    part: Map<TileCoord, V>,
    listing: Seq<(TileCoord, V)>,
    whole: Map<TileCoord, V>,
    keep: spec_fn(TileCoord) -> bool,
)
    requires
        lists_part(part, listing, listing.len() as int, keep),
        lists_map(listing, whole),
    ensures
        forall|c: TileCoord| #[trigger]
            part.contains_key(c) <==> whole.contains_key(c) && keep(c),
        forall|c: TileCoord| #[trigger] part.contains_key(c) ==> part[c] == whole[c],
{
    assert forall|c: TileCoord| #[trigger] part.contains_key(c) implies part[c] == whole[c] by {
        let j = choose|j: int| 0 <= j < listing.len() && (#[trigger] listing[j]).0 == c;
        assert(part[listing[j].0] == listing[j].1);
    }
    assert forall|c: TileCoord| #[trigger] part.contains_key(c) <==> whole.contains_key(c) && keep(
        c,
    ) by {
        if part.contains_key(c) {
            let j = choose|j: int| 0 <= j < listing.len() && (#[trigger] listing[j]).0 == c;
            assert(whole.contains_key(listing[j].0));
        }
        if whole.contains_key(c) && keep(c) {
            let j = choose|j: int| 0 <= j < listing.len() && (#[trigger] listing[j]).0 == c;
            assert(listing[j].0 == c);
        }
    }
}

/// A set of tile addresses.
pub struct TileSet {
    map: TileMap<bool>,
}

impl View for TileSet {
    type V = Set<TileCoord>;

    closed spec fn view(&self) -> Set<TileCoord> {
        self.map@.dom()
    }
}

impl TileSet {
    /// The members in insertion order.
    pub closed spec fn listing(&self) -> Seq<TileCoord> {
        self.map.listing().map_values(|e: (TileCoord, bool)| e.0)
    }

    pub fn new() -> (s: TileSet)
        ensures
            s@ == Set::<TileCoord>::empty(),
            s.listing() == Seq::<TileCoord>::empty(),
    {
        let s = TileSet { map: TileMap::new() };
        assert(s@ =~= Set::<TileCoord>::empty());
        assert(s.listing() =~= Seq::<TileCoord>::empty());
        s
    }

    /// Number of members; the listing names every member exactly once.
    pub fn len(&self) -> (n: usize)
        ensures
            n == self.listing().len(),
            lists_set(self.listing(), self@),
            self@.finite(),
            n == self@.len(),
    {
        let n = self.map.len();
        proof {
            assert forall|t: TileCoord| #[trigger] self@.contains(t) implies exists|i: int|
                0 <= i < self.listing().len() && #[trigger] self.listing()[i] == t by {
                let i = choose|i: int|
                    0 <= i < self.map.listing().len() && (#[trigger] self.map.listing()[i]).0 == t;
                assert(self.listing()[i] == t);
            }
        }
        n
    }

    /// The member at position `i` of the listing.
    pub fn item_at(&self, i: usize) -> (t: TileCoord)
        requires
            i < self.listing().len(),
        ensures
            t == self.listing()[i as int],
    {
        self.map.entry_at(i).0
    }

    pub fn contains(&self, t: &TileCoord) -> (b: bool)
        ensures
            b == self@.contains(*t),
    {
        self.map.contains(t)
    }

    /// Add a member. Tells whether it is new.
    pub fn insert(&mut self, t: TileCoord) -> (fresh: bool)
        ensures
            fresh == !old(self)@.contains(t),
            final(self)@ == old(self)@.insert(t),
            fresh ==> final(self).listing() == old(self).listing().push(t),
    {
        let ghost before = *self;
        let fresh = self.map.insert(t, true);
        assert(self@ =~= before@.insert(t));
        assert(fresh ==> self.listing() =~= before.listing().push(t));
        fresh
    }
}

} // verus!
