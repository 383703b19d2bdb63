//! Sequences collected from partial results.

use vstd::prelude::*;

verus! {

/// The results `f(0), f(1), .., f(n - 1)` that exist, in order.
pub open spec fn gather<T>(n: nat, f: spec_fn(int) -> Option<T>) -> Seq<T>
    decreases n,
{
    if n == 0 {
        Seq::empty()
    } else {
        let rest = gather((n - 1) as nat, f);
        match f(n - 1) {
            Some(v) => rest.push(v),
            None => rest,
        }
    }
}

/// A sequence with one more element at its end contains that and what it contained before.
pub proof fn lemma_push_contains<T>(s: Seq<T>, v: T, x: T)
    ensures
        s.push(v).contains(x) <==> s.contains(x) || x == v,
{
    let t = s.push(v);
    if s.contains(x) {
        let i = choose|i: int| 0 <= i < s.len() && s[i] == x;
        assert(t[i] == x);
    }
    assert(t[s.len() as int] == v);
    if t.contains(x) && x != v {
        let i = choose|i: int| 0 <= i < t.len() && t[i] == x;
        assert(s[i] == x);
    }
}

/// What is gathered is exactly what some index yields.
pub proof fn lemma_gather_contains<T>(n: nat, f: spec_fn(int) -> Option<T>, v: T)
    ensures
        gather(n, f).contains(v) <==> exists|i: int| 0 <= i < n && #[trigger] f(i) == Some(v),
    decreases n,
{
    if n > 0 {
        let m = (n - 1) as nat;
        let rest = gather(m, f);
        lemma_gather_contains(m, f, v);
        if gather(n, f).contains(v) {
            let k = choose|k: int| 0 <= k < gather(n, f).len() && gather(n, f)[k] == v;
            if k < rest.len() {
                assert(rest[k] == v);
                assert(rest.contains(v));
            } else {
                assert(f(n - 1) == Some(v));
            }
        }
        if exists|i: int| 0 <= i < n && #[trigger] f(i) == Some(v) {
            let i = choose|i: int| 0 <= i < n && #[trigger] f(i) == Some(v);
            if i < m {
                assert(rest.contains(v));
                let k = choose|k: int| 0 <= k < rest.len() && rest[k] == v;
                assert(gather(n, f)[k] == v);
            } else {
                assert(gather(n, f)[rest.len() as int] == v);
            }
        }
    }
}

/// Every gathered element comes from an index, and later elements from later indices.
pub proof fn lemma_gather_sources<T>(n: nat, f: spec_fn(int) -> Option<T>) -> (src: Seq<int>)
    ensures
        src.len() == gather(n, f).len(),
        forall|k: int|
            0 <= k < src.len() ==> 0 <= #[trigger] src[k] < n && f(src[k]) == Some(gather(n, f)[k]),
        forall|a: int, b: int| 0 <= a < b < src.len() ==> #[trigger] src[a] < #[trigger] src[b],
    decreases n,
{
    if n == 0 {
        Seq::empty()
    } else {
        let m = (n - 1) as nat;
        let rest = lemma_gather_sources(m, f);
        match f(n - 1) {
            Some(v) => rest.push(n - 1),
            None => rest,
        }
    }
}

} // verus!
