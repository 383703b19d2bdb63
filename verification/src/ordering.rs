//! Stable ordering by an integer key.

use vstd::prelude::*;

verus! {

/// Position `a` comes before position `b`: by key, and by position where keys agree.
pub open spec fn comes_before(keys: Seq<u128>, a: int, b: int) -> bool {
    keys[a] < keys[b] || (keys[a] == keys[b] && a < b)
}

/// Position `v` is listed in `p`.
pub open spec fn occurs(p: Seq<usize>, v: int) -> bool {
    exists|i: int| 0 <= i < p.len() && #[trigger] p[i] == v
}

/// `p` lists the positions `lo..hi`, each once, in order of key; equal keys keep the order
/// of their positions.
pub open spec fn orders_range(keys: Seq<u128>, p: Seq<usize>, lo: int, hi: int) -> bool {
    &&& p.len() == hi - lo
    &&& forall|i: int| 0 <= i < p.len() ==> lo <= #[trigger] p[i] < hi
    &&& forall|i: int, j: int|
        0 <= i < j < p.len() ==> comes_before(keys, #[trigger] p[i] as int, #[trigger] p[j] as int)
    &&& forall|v: int| lo <= v < hi ==> #[trigger] occurs(p, v)
}

/// `p` is the stable ordering of all positions of `keys`.
pub open spec fn is_stable_order(keys: Seq<u128>, p: Seq<usize>) -> bool {
    orders_range(keys, p, 0, keys.len() as int)
}

/// `output` is `input` rearranged by the stable ordering of `keys`.
pub open spec fn stably_ordered<T>(input: Seq<T>, keys: Seq<u128>, output: Seq<T>) -> bool {
    exists|p: Seq<usize>| #[trigger]
        is_stable_order(keys, p) && output == p.map_values(|i: usize| input[i as int])
}

/// Positions of `keys` in order of key, equal keys in order of position.
pub fn stable_order(keys: &Vec<u128>) -> (p: Vec<usize>)
    ensures
        is_stable_order(keys@, p@),
{
    sort_range(keys, 0, keys.len())
}

fn sort_range(keys: &Vec<u128>, lo: usize, hi: usize) -> (p: Vec<usize>)
    requires
        lo <= hi <= keys@.len(),
    ensures
        orders_range(keys@, p@, lo as int, hi as int),
    decreases hi - lo,
{
    if lo == hi {
        Vec::new()
    } else if hi - lo == 1 {
        let mut p: Vec<usize> = Vec::new();
        p.push(lo);
        assert(p@[0] == lo);
        assert(occurs(p@, lo as int));
        p
    } else {
        let mid: usize = lo + (hi - lo) / 2;
        let a = sort_range(keys, lo, mid);
        let b = sort_range(keys, mid, hi);
        merge(keys, &a, &b, Ghost(lo as int), Ghost(mid as int), Ghost(hi as int))
    }
}

fn merge(
    keys: &Vec<u128>,
    a: &Vec<usize>,
    b: &Vec<usize>,
    Ghost(lo): Ghost<int>,
    Ghost(mid): Ghost<int>,
    Ghost(hi): Ghost<int>,
) -> (p: Vec<usize>)
    requires
        0 <= lo <= mid <= hi <= keys@.len(),
        orders_range(keys@, a@, lo, mid),
        orders_range(keys@, b@, mid, hi),
    ensures
        orders_range(keys@, p@, lo, hi),
{
    let mut p: Vec<usize> = Vec::with_capacity(a.len());
    let mut i: usize = 0;
    let mut j: usize = 0;
    while i < a.len() || j < b.len()
        invariant
            0 <= lo <= mid <= hi <= keys@.len(),
            orders_range(keys@, a@, lo, mid),
            orders_range(keys@, b@, mid, hi),
            i <= a@.len(),
            j <= b@.len(),
            p@.len() == i + j,
            forall|m: int| 0 <= m < p@.len() ==> lo <= #[trigger] p@[m] < hi,
            forall|m: int, n: int|
                0 <= m < n < p@.len() ==> comes_before(
                    keys@,
                    #[trigger] p@[m] as int,
                    #[trigger] p@[n] as int,
                ),
            forall|m: int, n: int|
                0 <= m < p@.len() && i <= n < a@.len() ==> comes_before(
                    keys@,
                    #[trigger] p@[m] as int,
                    #[trigger] a@[n] as int,
                ),
            forall|m: int, n: int|
                0 <= m < p@.len() && j <= n < b@.len() ==> comes_before(
                    keys@,
                    #[trigger] p@[m] as int,
                    #[trigger] b@[n] as int,
                ),
            forall|m: int| 0 <= m < i ==> p@.contains(#[trigger] a@[m]),
            forall|m: int| 0 <= m < j ==> p@.contains(#[trigger] b@[m]),
        decreases a@.len() + b@.len() - i - j,
    {
        let from_a: bool = i < a.len() && (j >= b.len() || keys[a[i]] <= keys[b[j]]);
        let ghost q = p@;
        if from_a {
            assert forall|n: int| j <= n < b@.len() implies comes_before(
                keys@,
                a@[i as int] as int,
                #[trigger] b@[n] as int,
            ) by {
                if n > j {
                    assert(comes_before(keys@, b@[j as int] as int, b@[n] as int));
                }
            }
            p.push(a[i]);
            i = i + 1;
        } else {
            assert forall|n: int| i <= n < a@.len() implies comes_before(
                keys@,
                b@[j as int] as int,
                #[trigger] a@[n] as int,
            ) by {
                if n > i {
                    assert(comes_before(keys@, a@[i as int] as int, a@[n] as int));
                }
            }
            p.push(b[j]);
            j = j + 1;
        }
        proof {
            assert(p@[q.len() as int] == p@.last());
            assert forall|v: usize| q.contains(v) implies p@.contains(v) by {
                let m = choose|m: int| 0 <= m < q.len() && q[m] == v;
                assert(p@[m] == v);
            }
        }
    }
    proof {
        assert forall|v: int| lo <= v < hi implies #[trigger] occurs(p@, v) by {
            if v < mid {
                assert(occurs(a@, v));
                let m = choose|m: int| 0 <= m < a@.len() && a@[m] == v;
                assert(p@.contains(a@[m]));
            } else {
                assert(occurs(b@, v));
                let m = choose|m: int| 0 <= m < b@.len() && b@[m] == v;
                assert(p@.contains(b@[m]));
            }
        }
    }
    p
}

/// There is only one stable ordering, so the rearranged sequence is determined.
pub proof fn law_stable_order_unique(keys: Seq<u128>, p: Seq<usize>, q: Seq<usize>)
    requires
        is_stable_order(keys, p),
        is_stable_order(keys, q),
    ensures
        p == q,
{
    lemma_prefixes_agree(keys, p, q, p.len() as int);
}

proof fn lemma_prefixes_agree(keys: Seq<u128>, p: Seq<usize>, q: Seq<usize>, n: int)
    requires
        is_stable_order(keys, p),
        is_stable_order(keys, q),
        0 <= n <= p.len(),
    ensures
        forall|i: int| 0 <= i < n ==> p[i] == q[i],
    decreases n,
{
    if n > 0 {
        lemma_prefixes_agree(keys, p, q, n - 1);
        let i = n - 1;
        // Each list holds the other's entry at `i`, and it can be no earlier than `i`.
        assert(occurs(p, q[i] as int) && occurs(q, p[i] as int));
        let a = choose|a: int| 0 <= a < p.len() && p[a] == q[i];
        let b = choose|b: int| 0 <= b < q.len() && q[b] == p[i];
        if p[i] != q[i] {
            assert(a > i) by {
                if a < i {
                    assert(q[a] == q[i]);
                    assert(comes_before(keys, q[a] as int, q[i] as int));
                }
            }
            assert(b > i) by {
                if b < i {
                    assert(p[b] == p[i]);
                    assert(comes_before(keys, p[b] as int, p[i] as int));
                }
            }
            assert(comes_before(keys, p[i] as int, p[a] as int));
            assert(comes_before(keys, q[i] as int, q[b] as int));
        }
    }
}

/// A stably ordered sequence has the same elements as its input, each as often, and its
/// keys never decrease.
pub proof fn law_stably_ordered<T>(input: Seq<T>, keys: Seq<u128>, output: Seq<T>)
    requires
        input.len() == keys.len(),
        stably_ordered(input, keys, output),
    ensures
        output.len() == input.len(),
        output.to_multiset() == input.to_multiset(),
        exists|p: Seq<usize>|
            {
                &&& #[trigger] is_stable_order(keys, p)
                &&& output == p.map_values(|i: usize| input[i as int])
                &&& forall|i: int, j: int|
                    0 <= i <= j < p.len() ==> keys[#[trigger] p[i] as int] <= keys[#[trigger] p[j] as int]
            },
{
    let p = choose|p: Seq<usize>| #[trigger]
        is_stable_order(keys, p) && output == p.map_values(|i: usize| input[i as int]);
    assert forall|i: int, j: int| 0 <= i <= j < p.len() implies keys[#[trigger] p[i] as int]
        <= keys[#[trigger] p[j] as int] by {
        if i < j {
            assert(comes_before(keys, p[i] as int, p[j] as int));
        }
    }
    let idx = p.map_values(|i: usize| i as int);
    assert(output =~= idx.map_values(|i: int| input[i]));
    assert forall|i: int, j: int| 0 <= i < idx.len() && 0 <= j < idx.len() && i != j implies idx[i]
        != idx[j] by {
        if i < j {
            assert(comes_before(keys, p[i] as int, p[j] as int));
        } else {
            assert(comes_before(keys, p[j] as int, p[i] as int));
        }
    }
    assert forall|v: int| 0 <= v < input.len() implies idx.contains(v) by {
        assert(occurs(p, v));
        let i = choose|i: int| 0 <= i < p.len() && p[i] == v;
        assert(idx[i] == v);
    }
    lemma_rearranged_multiset(input, idx);
}

/// Reading a sequence through a list of all its positions keeps the multiset of elements.
proof fn lemma_rearranged_multiset<T>(s: Seq<T>, idx: Seq<int>)
    requires
        idx.no_duplicates(),
        idx.len() == s.len(),
        forall|i: int| 0 <= i < idx.len() ==> 0 <= #[trigger] idx[i] < s.len(),
        forall|v: int| 0 <= v < s.len() ==> idx.contains(v),
    ensures
        idx.map_values(|i: int| s[i]).to_multiset() == s.to_multiset(),
    decreases s.len(),
{
    broadcast use vstd::seq_lib::group_to_multiset_ensures;

    let out = idx.map_values(|i: int| s[i]);
    if s.len() == 0 {
        assert(out =~= s);
    } else {
        let last = s.len() - 1;
        let k = choose|k: int| 0 <= k < idx.len() && idx[k] == last;
        assert(idx.contains(last));
        let t = s.drop_last();
        let rest = idx.remove(k);
        assert forall|v: int| 0 <= v < t.len() implies rest.contains(v) by {
            let j = choose|j: int| 0 <= j < idx.len() && idx[j] == v;
            assert(idx.contains(v));
            if j < k {
                assert(rest[j] == v);
            } else {
                assert(rest[j - 1] == v);
            }
        }
        assert forall|i: int| 0 <= i < rest.len() implies 0 <= #[trigger] rest[i] < t.len() by {
            if i < k {
                assert(rest[i] == idx[i]);
            } else {
                assert(rest[i] == idx[i + 1]);
            }
        }
        assert forall|i: int, j: int|
            0 <= i < rest.len() && 0 <= j < rest.len() && i != j implies rest[i] != rest[j] by {
            let a = if i < k { i } else { i + 1 };
            let b = if j < k { j } else { j + 1 };
            assert(rest[i] == idx[a] && rest[j] == idx[b]);
        }
        lemma_rearranged_multiset(t, rest);
        let inner = rest.map_values(|i: int| t[i]);
        assert(out.remove(k) =~= inner);
        assert(out.to_multiset() =~= inner.to_multiset().insert(out[k])) by {
            vstd::seq_lib::to_multiset_remove(out, k);
            assert(out.to_multiset().count(out[k]) > 0);
        }
        assert(s =~= t.push(s[last]));
        vstd::seq_lib::to_multiset_build(t, s[last]);
    }
}

} // verus!
