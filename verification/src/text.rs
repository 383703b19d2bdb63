//! The order of names.

use vstd::prelude::*;
use vstd::relations::{sorted_by, total_ordering};

verus! {

/// `a` is `b` or comes before it in the dictionary order of code points.
pub open spec fn text_le(a: Seq<char>, b: Seq<char>) -> bool
    decreases a.len(),
{
    if a.len() == 0 {
        true
    } else if b.len() == 0 {
        false
    } else if a[0] == b[0] {
        text_le(a.drop_first(), b.drop_first())
    } else {
        (a[0] as int) < (b[0] as int)
    }
}

/// [`text_le`] as a relation.
pub open spec fn text_order() -> spec_fn(Seq<char>, Seq<char>) -> bool {
    |a: Seq<char>, b: Seq<char>| text_le(a, b)
}

/// What the names read.
pub open spec fn texts(names: Seq<String>) -> Seq<Seq<char>> {
    names.map_values(|s: String| s@)
}

/// The names in dictionary order.
pub open spec fn sorted_texts(names: Seq<Seq<char>>) -> Seq<Seq<char>> {
    names.sort_by(text_order())
}

proof fn lemma_text_reflexive(a: Seq<char>)
    ensures
        text_le(a, a),
    decreases a.len(),
{
    if a.len() > 0 {
        lemma_text_reflexive(a.drop_first());
    }
}

proof fn lemma_text_antisymmetric(a: Seq<char>, b: Seq<char>)
    requires
        text_le(a, b),
        text_le(b, a),
    ensures
        a == b,
    decreases a.len(),
{
    if a.len() > 0 && b.len() > 0 {
        assert(a[0] == b[0]);
        lemma_text_antisymmetric(a.drop_first(), b.drop_first());
        assert(a =~= seq![a[0]] + a.drop_first());
        assert(b =~= seq![b[0]] + b.drop_first());
    } else {
        assert(a =~= b);
    }
}

proof fn lemma_text_transitive(a: Seq<char>, b: Seq<char>, c: Seq<char>)
    requires
        text_le(a, b),
        text_le(b, c),
    ensures
        text_le(a, c),
    decreases a.len(),
{
    if a.len() > 0 && a[0] == b[0] && b[0] == c[0] {
        lemma_text_transitive(a.drop_first(), b.drop_first(), c.drop_first());
    }
}

proof fn lemma_text_connected(a: Seq<char>, b: Seq<char>)
    ensures
        text_le(a, b) || text_le(b, a),
    decreases a.len(),
{
    if a.len() > 0 && b.len() > 0 && a[0] == b[0] {
        lemma_text_connected(a.drop_first(), b.drop_first());
    }
}

/// The dictionary order compares any two names, and puts two different ones in one way only.
pub proof fn law_text_order()
    ensures
        total_ordering(text_order()),
{
    let r = text_order();
    assert forall|a: Seq<char>| #[trigger] r(a, a) by {
        lemma_text_reflexive(a);
    }
    assert forall|a: Seq<char>, b: Seq<char>| #[trigger] r(a, b) && #[trigger] r(b, a) implies a
        == b by {
        lemma_text_antisymmetric(a, b);
    }
    assert forall|a: Seq<char>, b: Seq<char>, c: Seq<char>| #[trigger]
        r(a, b) && #[trigger] r(b, c) implies r(a, c) by {
        lemma_text_transitive(a, b, c);
    }
    assert forall|a: Seq<char>, b: Seq<char>| #[trigger] r(a, b) || #[trigger] r(b, a) by {
        lemma_text_connected(a, b);
    }
}

/// Dictionary order.
pub fn is_ordered(a: &str, b: &str) -> (le: bool)
    ensures
        le == text_le(a@, b@),
{
    let n: usize = a.unicode_len();
    let m: usize = b.unicode_len();
    let mut i: usize = 0;
    assert(a@.skip(0) =~= a@);
    assert(b@.skip(0) =~= b@);
    while i < n && i < m
        invariant
            n == a@.len(),
            m == b@.len(),
            i <= n,
            i <= m,
            text_le(a@, b@) == text_le(a@.skip(i as int), b@.skip(i as int)),
        decreases n - i,
    {
        let c: char = a.get_char(i);
        let d: char = b.get_char(i);
        proof {
            assert(a@.skip(i as int)[0] == c);
            assert(b@.skip(i as int)[0] == d);
            assert(a@.skip(i as int).drop_first() =~= a@.skip(i + 1));
            assert(b@.skip(i as int).drop_first() =~= b@.skip(i + 1));
        }
        if c != d {
            return (c as u32) < (d as u32);
        }
        i = i + 1;
    }
    i == n
}

/// The names in dictionary order.
pub fn sort_names(names: &[String]) -> (r: Vec<String>)
    ensures
        texts(r@) == sorted_texts(texts(names@)),
        r@.len() == names@.len(),
{
    let mut r: Vec<String> = Vec::new();
    let mut i: usize = 0;
    proof {
        law_text_order();
        assert(texts(r@) =~= texts(names@.take(0)));
    }
    while i < names.len()
        invariant
            i <= names@.len(),
            r@.len() == i,
            sorted_by(texts(r@), text_order()),
            texts(r@).to_multiset() == texts(names@.take(i as int)).to_multiset(),
        decreases names@.len() - i,
    {
        let ghost before = texts(r@);
        let name: String = names[i].clone();
        let mut at: usize = 0;
        while at < r.len() && is_ordered(&r[at], &name)
            invariant
                at <= r@.len(),
                before == texts(r@),
                forall|k: int| 0 <= k < at ==> text_le(#[trigger] before[k], name@),
            ensures
                at < r@.len() ==> !text_le(before[at as int], name@),
            decreases r@.len() - at,
        {
            at = at + 1;
        }
        proof {
            lemma_insert_sorted(before, at as int, name@);
            vstd::seq_lib::to_multiset_insert(before, at as int, name@);
            let head = texts(names@.take(i as int));
            assert(texts(names@.take(i + 1)) =~= head.push(name@));
            vstd::seq_lib::to_multiset_build(head, name@);
        }
        r.insert(at, name);
        assert(texts(r@) =~= before.insert(at as int, name@));
        i = i + 1;
    }
    proof {
        assert(names@.take(i as int) =~= names@);
        law_text_order();
        texts(names@).lemma_sort_by_ensures(text_order());
        vstd::seq_lib::lemma_sorted_unique(
            texts(r@),
            sorted_texts(texts(names@)),
            text_order(),
        );
    }
    r
}

proof fn lemma_insert_sorted(s: Seq<Seq<char>>, at: int, v: Seq<char>)
    requires
        sorted_by(s, text_order()),
        0 <= at <= s.len(),
        forall|k: int| 0 <= k < at ==> text_le(#[trigger] s[k], v),
        at < s.len() ==> !text_le(s[at], v),
    ensures
        sorted_by(s.insert(at, v), text_order()),
{
    let r = text_order();
    let t = s.insert(at, v);
    assert forall|a: int, b: int| 0 <= a < b < t.len() implies #[trigger] r(t[a], t[b]) by {
        if b < at {
            assert(r(s[a], s[b]));
        } else if b == at {
            assert(text_le(s[a], v));
        } else {
            lemma_text_connected(s[at], v);
            if a < at {
                assert(r(s[a], s[b - 1]));
            } else if a == at {
                if b - 1 > at {
                    assert(r(s[at], s[b - 1]));
                    lemma_text_transitive(v, s[at], s[b - 1]);
                }
            } else {
                assert(r(s[a - 1], s[b - 1]));
            }
        }
    }
}

/// Texts are ordered as in a dictionary: what they have in common at the front does not matter,
/// then the smaller character comes first, and a text comes before its continuations.
pub proof fn law_dictionary(front: Seq<char>, a: Seq<char>, b: Seq<char>)
    ensures
        text_le(front + a, front + b) == text_le(a, b),
        text_le(front, front + a),
        a.len() > 0 && b.len() > 0 && (a[0] as int) < (b[0] as int) ==> text_le(a, b) && !text_le(
            b,
            a,
        ),
        a.len() > 0 ==> !text_le(a, Seq::<char>::empty()),
    decreases front.len(),
{
    if front.len() == 0 {
        assert(front + a =~= a);
        assert(front + b =~= b);
    } else {
        let rest = front.drop_first();
        law_dictionary(rest, a, b);
        assert((front + a).drop_first() =~= rest + a);
        assert((front + b).drop_first() =~= rest + b);
    }
}

} // verus!
