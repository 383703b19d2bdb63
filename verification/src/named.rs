//! Values by name.

use vstd::prelude::*;

verus! {

/// Position of `name` in the list.
spec fn name_index(names: Seq<String>, name: Seq<char>) -> Option<int>
    decreases names.len(),
{
    if names.len() == 0 {
        None
    } else if names.last()@ == name {
        Some(names.len() - 1)
    } else {
        name_index(names.drop_last(), name)
    }
}

proof fn lemma_name_index(names: Seq<String>, name: Seq<char>)
    ensures
        match name_index(names, name) {
            Some(i) => 0 <= i < names.len() && names[i]@ == name,
            None => forall|i: int| 0 <= i < names.len() ==> (#[trigger] names[i])@ != name,
        },
    decreases names.len(),
{
    if names.len() > 0 && names.last()@ != name {
        let init = names.drop_last();
        lemma_name_index(init, name);
        if name_index(init, name) is None {
            assert forall|i: int| 0 <= i < names.len() implies (#[trigger] names[i])@ != name by {
                if i < init.len() {
                    assert(init[i] == names[i]);
                }
            }
        }
    }
}

/// No two names are the same.
spec fn distinct(names: Seq<String>) -> bool {
    forall|i: int, j: int|
        0 <= i < j < names.len() ==> (#[trigger] names[i])@ != (#[trigger] names[j])@
}

/// The value of each name.
spec fn paired<V>(names: Seq<String>, values: Seq<V>) -> Map<Seq<char>, V> {
    Map::new(
        |k: Seq<char>| name_index(names, k) is Some,
        |k: Seq<char>| values[name_index(names, k).unwrap()],
    )
}

proof fn lemma_paired_at<V>(names: Seq<String>, values: Seq<V>, i: int)
    requires
        distinct(names),
        names.len() == values.len(),
        0 <= i < names.len(),
    ensures
        paired(names, values).contains_key(names[i]@),
        paired(names, values)[names[i]@] == values[i],
{
    lemma_name_index(names, names[i]@);
    let j = name_index(names, names[i]@).unwrap();
    if i < j {
        assert(names[i]@ != names[j]@);
    } else if j < i {
        assert(names[j]@ != names[i]@);
    }
}

/// A map from names to values.
pub struct NamedMap<V> {
    names: Vec<String>,
    values: Vec<V>,
}

impl<V> View for NamedMap<V> {
    type V = Map<Seq<char>, V>;

    closed spec fn view(&self) -> Map<Seq<char>, V> {
        paired(self.names@, self.values@)
    }
}

impl<V> NamedMap<V> {
    #[verifier::type_invariant]
    spec fn matched(&self) -> bool {
        self.names@.len() == self.values@.len() && distinct(self.names@)
    }

    pub fn new() -> (m: NamedMap<V>)
        ensures
            m@ == Map::<Seq<char>, V>::empty(),
    {
        let m = NamedMap { names: Vec::new(), values: Vec::new() };
        assert(m@ =~= Map::<Seq<char>, V>::empty());
        m
    }

    fn find(&self, name: &String) -> (r: Option<usize>)
        ensures
            match r {
                Some(i) => name_index(self.names@, name@) == Some(i as int) && i
                    < self.names@.len(),
                None => name_index(self.names@, name@) is None,
            },
    {
        proof {
            use_type_invariant(self);
            lemma_name_index(self.names@, name@);
        }
        let mut i: usize = 0;
        while i < self.names.len()
            invariant
                i <= self.names@.len(),
                distinct(self.names@),
                match name_index(self.names@, name@) {
                    Some(k) => 0 <= k < self.names@.len() && self.names@[k]@ == name@,
                    None => forall|k: int|
                        0 <= k < self.names@.len() ==> (#[trigger] self.names@[k])@ != name@,
                },
                forall|k: int| 0 <= k < i ==> (#[trigger] self.names@[k])@ != name@,
            decreases self.names@.len() - i,
        {
            if self.names[i] == *name {
                return Some(i);
            }
            i = i + 1;
        }
        None
    }

    pub fn get(&self, name: &String) -> (v: Option<&V>)
        ensures
            match v {
                Some(x) => self@.contains_key(name@) && *x == self@[name@],
                None => !self@.contains_key(name@),
            },
    {
        proof {
            use_type_invariant(self);
        }
        match self.find(name) {
            Some(i) => Some(&self.values[i]),
            None => None,
        }
    }

    pub fn contains(&self, name: &String) -> (b: bool)
        ensures
            b == self@.contains_key(name@),
    {
        self.find(name).is_some()
    }

    /// Associate a value with a name, replacing an earlier one.
    pub fn insert(&mut self, name: String, value: V)
        ensures
            final(self)@ == old(self)@.insert(name@, value),
    {
        proof {
            use_type_invariant(&*self);
            lemma_name_index(self.names@, name@);
        }
        let ghost before = *self;
        let at: Option<usize> = self.find(&name);
        let mut taken = NamedMap::new();
        std::mem::swap(self, &mut taken);
        let NamedMap { mut names, mut values } = taken;
        match at {
            Some(i) => {
                values.set(i, value);
                *self = NamedMap { names, values };
                assert(self@ =~= before@.insert(name@, value)) by {
                    lemma_paired_at(names@, values@, i as int);
                    assert forall|k: Seq<char>| k != name@ && #[trigger]
                        before@.contains_key(k) implies self@[k] == before@[k] by {
                        lemma_name_index(names@, k);
                    }
                }
            },
            None => {
                names.push(name);
                values.push(value);
                proof {
                    assert(names@.drop_last() =~= before.names@);
                }
                *self = NamedMap { names, values };
                assert(self@ =~= before@.insert(name@, value)) by {
                    assert forall|k: Seq<char>| k != name@ && #[trigger]
                        before@.contains_key(k) implies self@[k] == before@[k] by {
                        lemma_name_index(before.names@, k);
                    }
                }
            },
        }
    }

    /// Forget a name. Tells whether it was there.
    pub fn remove(&mut self, name: &String) -> (found: bool)
        ensures
            found == old(self)@.contains_key(name@),
            final(self)@ == old(self)@.remove(name@),
    {
        proof {
            use_type_invariant(&*self);
            lemma_name_index(self.names@, name@);
        }
        let ghost before = *self;
        match self.find(name) {
            Some(i) => {
                let mut taken = NamedMap::new();
                std::mem::swap(self, &mut taken);
                let NamedMap { mut names, mut values } = taken;
                names.remove(i);
                values.remove(i);
                proof {
                    lemma_remove_distinct(before.names@, i as int);
                }
                *self = NamedMap { names, values };
                proof {
                    lemma_remove_pair(before.names@, before.values@, i as int);
                    assert(self@ =~= before@.remove(name@));
                }
                true
            },
            None => {
                assert(self@ =~= before@.remove(name@));
                false
            },
        }
    }
}

proof fn lemma_remove_distinct(names: Seq<String>, i: int)
    requires
        distinct(names),
        0 <= i < names.len(),
    ensures
        distinct(names.remove(i)),
{
    let r = names.remove(i);
    assert forall|a: int, b: int| 0 <= a < b < r.len() implies (#[trigger] r[a])@ != (
    #[trigger] r[b])@ by {
        let a2 = if a < i { a } else { a + 1 };
        let b2 = if b < i { b } else { b + 1 };
        assert(names[a2]@ != names[b2]@);
    }
}

proof fn lemma_remove_pair<V>(names: Seq<String>, values: Seq<V>, i: int)
    requires
        distinct(names),
        names.len() == values.len(),
        0 <= i < names.len(),
    ensures
        paired(names.remove(i), values.remove(i)) =~= paired(names, values).remove(names[i]@),
{
    let r = names.remove(i);
    let v = values.remove(i);
    lemma_remove_distinct(names, i);
    assert forall|k: Seq<char>| #[trigger] paired(r, v).contains_key(k) <==> paired(
        names,
        values,
    ).remove(names[i]@).contains_key(k) by {
        lemma_name_index(r, k);
        lemma_name_index(names, k);
        if name_index(names, k) is Some && k != names[i]@ {
            let j = name_index(names, k).unwrap();
            let j2 = if j < i { j } else { j - 1 };
            assert(r[j2] == names[j]);
        }
        if name_index(r, k) is Some {
            let j = name_index(r, k).unwrap();
            let j2 = if j < i { j } else { j + 1 };
            assert(r[j] == names[j2]);
            if j2 < i {
                assert(names[j2]@ != names[i]@);
            } else {
                assert(names[i]@ != names[j2]@);
            }
        }
    }
    assert forall|k: Seq<char>| #[trigger] paired(r, v).contains_key(k) implies paired(r, v)[k]
        == paired(names, values)[k] by {
        lemma_name_index(r, k);
        let j = name_index(r, k).unwrap();
        let j2 = if j < i { j } else { j + 1 };
        assert(r[j] == names[j2]);
        lemma_paired_at(names, values, j2);
        assert(v[j] == values[j2]);
    }
}

} // verus!
