//! A finite map with `String` keys, stored as a pair of parallel vectors.
//!
//! The abstract value of a `StrMap<V>` is a `Map<Seq<char>, V::V>`: keys are
//! compared by their character content, and the stored values are abstracted
//! through their own views. Keys are unique; every operation preserves that.

use vstd::prelude::*;

verus! {

/// Holds when no two entries of `keys` have the same character content.
pub open spec fn distinct_keys(keys: Seq<String>) -> bool {
    forall|i: int, j: int| 0 <= i < j < keys.len() ==> keys[i]@ != keys[j]@
}

/// The map described by parallel key and value sequences; later entries win.
pub open spec fn kv_map<V: View>(keys: Seq<String>, vals: Seq<V>) -> Map<Seq<char>, V::V>
    decreases keys.len(),
{
    if keys.len() == 0 || vals.len() == 0 {
        Map::empty()
    } else {
        kv_map(keys.drop_last(), vals.drop_last()).insert(keys.last()@, vals.last()@)
    }
}

proof fn lemma_kv_contains<V: View>(keys: Seq<String>, vals: Seq<V>, k: Seq<char>)
    requires
        keys.len() == vals.len(),
    ensures
        kv_map(keys, vals).contains_key(k) <==> (exists|i: int|
            0 <= i < keys.len() && keys[i]@ == k),
    decreases keys.len(),
{
    if keys.len() > 0 {
        lemma_kv_contains(keys.drop_last(), vals.drop_last(), k);
        if keys.last()@ == k {
            assert(keys[keys.len() - 1]@ == k);
        } else {
            if kv_map(keys, vals).contains_key(k) {
                let i = choose|i: int| 0 <= i < keys.len() - 1 && keys.drop_last()[i]@ == k;
                assert(keys[i]@ == k);
            }
            if exists|i: int| 0 <= i < keys.len() && keys[i]@ == k {
                let i = choose|i: int| 0 <= i < keys.len() && keys[i]@ == k;
                assert(keys.drop_last()[i]@ == k);
            }
        }
    }
}

proof fn lemma_kv_index<V: View>(keys: Seq<String>, vals: Seq<V>, i: int)
    requires
        keys.len() == vals.len(),
        distinct_keys(keys),
        0 <= i < keys.len(),
    ensures
        kv_map(keys, vals).contains_key(keys[i]@),
        kv_map(keys, vals)[keys[i]@] == vals[i]@,
    decreases keys.len(),
{
    if i < keys.len() - 1 {
        lemma_kv_index(keys.drop_last(), vals.drop_last(), i);
        assert(keys.drop_last()[i]@ == keys[i]@);
        assert(keys.last()@ != keys[i]@);
    }
}

proof fn lemma_kv_update<V: View>(keys: Seq<String>, vals: Seq<V>, i: int, v: V)
    requires
        keys.len() == vals.len(),
        distinct_keys(keys),
        0 <= i < keys.len(),
    ensures
        kv_map(keys, vals.update(i, v)) == kv_map(keys, vals).insert(keys[i]@, v@),
    decreases keys.len(),
{
    let n = keys.len() - 1;
    if i == n {
        assert(vals.update(i, v).drop_last() =~= vals.drop_last());
        assert(kv_map(keys, vals.update(i, v)) =~= kv_map(keys, vals).insert(keys[i]@, v@));
    } else {
        assert(vals.update(i, v).drop_last() =~= vals.drop_last().update(i, v));
        assert(vals.update(i, v).last() == vals.last());
        lemma_kv_update(keys.drop_last(), vals.drop_last(), i, v);
        assert(keys.drop_last()[i]@ == keys[i]@);
        assert(keys[i]@ != keys.last()@);
        assert(kv_map(keys.drop_last(), vals.drop_last()).insert(keys[i]@, v@).insert(
            keys.last()@,
            vals.last()@,
        ) =~= kv_map(keys, vals).insert(keys[i]@, v@));
    }
}

proof fn lemma_distinct_remove(keys: Seq<String>, i: int)
    requires
        distinct_keys(keys),
        0 <= i < keys.len(),
    ensures
        distinct_keys(keys.remove(i)),
{
    assert forall|a: int, b: int| 0 <= a < b < keys.remove(i).len() implies keys.remove(i)[a]@
        != keys.remove(i)[b]@ by {
        let a0 = if a < i { a } else { a + 1 };
        let b0 = if b < i { b } else { b + 1 };
        assert(keys.remove(i)[a] == keys[a0]);
        assert(keys.remove(i)[b] == keys[b0]);
    }
}

proof fn lemma_kv_remove<V: View>(keys: Seq<String>, vals: Seq<V>, i: int)
    requires
        keys.len() == vals.len(),
        distinct_keys(keys),
        0 <= i < keys.len(),
    ensures
        kv_map(keys.remove(i), vals.remove(i)) == kv_map(keys, vals).remove(keys[i]@),
    decreases keys.len(),
{
    let n = keys.len() - 1;
    if i == n {
        assert(keys.remove(i) =~= keys.drop_last());
        assert(vals.remove(i) =~= vals.drop_last());
        lemma_kv_contains(keys.drop_last(), vals.drop_last(), keys[i]@);
        assert(forall|j: int|
            0 <= j < keys.len() - 1 ==> keys.drop_last()[j]@ == keys[j]@ && keys[j]@ != keys[n]@);
        assert(!kv_map(keys.drop_last(), vals.drop_last()).contains_key(keys[i]@));
        assert(kv_map(keys.remove(i), vals.remove(i)) =~= kv_map(keys, vals).remove(keys[i]@));
    } else {
        assert(keys.remove(i).last() == keys.last());
        assert(vals.remove(i).last() == vals.last());
        assert(keys.remove(i).drop_last() =~= keys.drop_last().remove(i));
        assert(vals.remove(i).drop_last() =~= vals.drop_last().remove(i));
        lemma_kv_remove(keys.drop_last(), vals.drop_last(), i);
        assert(keys.drop_last()[i]@ == keys[i]@);
        assert(keys[i]@ != keys.last()@);
        assert(kv_map(keys.drop_last(), vals.drop_last()).remove(keys[i]@).insert(
            keys.last()@,
            vals.last()@,
        ) =~= kv_map(keys, vals).remove(keys[i]@));
    }
}

proof fn lemma_kv_push<V: View>(keys: Seq<String>, vals: Seq<V>, k: String, v: V)
    requires
        keys.len() == vals.len(),
    ensures
        kv_map(keys.push(k), vals.push(v)) == kv_map(keys, vals).insert(k@, v@),
{
    assert(keys.push(k).drop_last() =~= keys);
    assert(vals.push(v).drop_last() =~= vals);
    assert(keys.push(k).last() == k);
    assert(vals.push(v).last() == v);
}

/// A map from strings to values, keyed by character content.
#[derive(Debug)]
pub struct StrMap<V> {
    keys: Vec<String>,
    vals: Vec<V>,
}

impl<V: View> View for StrMap<V> {
    type V = Map<Seq<char>, V::V>;

    closed spec fn view(&self) -> Map<Seq<char>, V::V> {
        kv_map(self.keys@, self.vals@)
    }
}

impl<V: View> StrMap<V> {
    /// Internal shape: one value per key, no key twice.
    pub closed spec fn wf(self) -> bool {
        self.keys@.len() == self.vals@.len() && distinct_keys(self.keys@)
    }

    /// The keys in storage order; its elements enumerate the map's domain.
    pub closed spec fn key_views(self) -> Seq<Seq<char>> {
        self.keys@.map_values(|k: String| k@)
    }

    /// The stored values in storage order. Clients that keep an invariant on
    /// every stored value can track it through the clauses below that relate
    /// this sequence across operations.
    pub closed spec fn spec_vals(self) -> Seq<V> {
        self.vals@
    }

    pub proof fn lemma_key_views(self)
        requires
            self.wf(),
        ensures
            forall|i: int|
                0 <= i < self.key_views().len() ==> self@.contains_key(#[trigger] self.key_views()[i]),
            forall|k: Seq<char>|
                self@.contains_key(k) ==> exists|i: int|
                    0 <= i < self.key_views().len() && self.key_views()[i] == k,
            forall|i: int, j: int|
                0 <= i < j < self.key_views().len() ==> self.key_views()[i] != self.key_views()[j],
    {
        assert forall|i: int|
            0 <= i < self.key_views().len() implies self@.contains_key(
            #[trigger] self.key_views()[i],
        ) by {
            lemma_kv_index(self.keys@, self.vals@, i);
        }
        assert forall|k: Seq<char>| self@.contains_key(k) implies exists|i: int|
            0 <= i < self.key_views().len() && self.key_views()[i] == k by {
            lemma_kv_contains(self.keys@, self.vals@, k);
            let i = choose|i: int| 0 <= i < self.keys@.len() && self.keys@[i]@ == k;
            assert(self.key_views()[i] == k);
        }
    }

    /// The empty map.
    pub fn new() -> (r: Self)
        ensures
            r.wf(),
            r@ == Map::<Seq<char>, V::V>::empty(),
            r.key_views() == Seq::<Seq<char>>::empty(),
            r.spec_vals() == Seq::<V>::empty(),
    {
        let r = StrMap { keys: Vec::new(), vals: Vec::new() };
        proof {
            assert(r.key_views() =~= Seq::<Seq<char>>::empty());
        }
        r
    }

    /// How many keys the map holds.
    pub fn len(&self) -> (n: usize)
        ensures
            n == self.key_views().len(),
    {
        self.keys.len()
    }

    fn index_of(&self, k: &String) -> (r: Option<usize>)
        requires
            self.wf(),
        ensures
            match r {
                Some(i) => i < self.keys@.len() && self.keys@[i as int]@ == k@,
                None => !self@.contains_key(k@),
            },
    {
        let n = self.keys.len();
        for i in 0..n
            invariant
                n == self.keys@.len(),
                self.wf(),
                forall|j: int| 0 <= j < i ==> self.keys@[j]@ != k@,
        {
            if self.keys[i] == *k {
                return Some(i);
            }
        }
        proof {
            lemma_kv_contains(self.keys@, self.vals@, k@);
        }
        None
    }

    /// Whether a value is stored under `k`.
    pub fn contains_key(&self, k: &String) -> (r: bool)
        requires
            self.wf(),
        ensures
            r == self@.contains_key(k@),
    {
        let r = self.index_of(k);
        proof {
            if let Some(i) = r {
                lemma_kv_index(self.keys@, self.vals@, i as int);
            }
        }
        r.is_some()
    }

    /// The value stored under `k`, if any.
    pub fn get(&self, k: &String) -> (r: Option<&V>)
        requires
            self.wf(),
        ensures
            match r {
                Some(v) => self@.contains_key(k@) && v@ == self@[k@] && exists|i: int|
                    0 <= i < self.spec_vals().len() && *v == self.spec_vals()[i],
                None => !self@.contains_key(k@),
            },
    {
        match self.index_of(k) {
            Some(i) => {
                proof {
                    lemma_kv_index(self.keys@, self.vals@, i as int);
                    assert(self.spec_vals()[i as int] == self.vals@[i as int]);
                }
                Some(&self.vals[i])
            },
            None => None,
        }
    }

    /// Stores `v` under `k`, replacing any previous value.
    pub fn insert(&mut self, k: String, v: V)
        requires
            old(self).wf(),
        ensures
            final(self).wf(),
            final(self)@ == old(self)@.insert(k@, v@),
            final(self).spec_vals() == old(self).spec_vals().push(v) || exists|i: int|
                0 <= i < old(self).spec_vals().len()
                    && final(self).spec_vals() == old(self).spec_vals().update(i, v),
    {
        match self.index_of(&k) {
            Some(i) => {
                proof {
                    lemma_kv_update(self.keys@, self.vals@, i as int, v);
                }
                self.vals.set(i, v);
            },
            None => {
                proof {
                    lemma_kv_push(self.keys@, self.vals@, k, v);
                    lemma_kv_contains(self.keys@, self.vals@, k@);
                }
                self.keys.push(k);
                self.vals.push(v);
            },
        }
    }

    /// Removes and returns the value stored under `k`.
    pub fn remove(&mut self, k: &String) -> (r: Option<V>)
        requires
            old(self).wf(),
        ensures
            final(self).wf(),
            match r {
                Some(v) => old(self)@.contains_key(k@) && v@ == old(self)@[k@] && final(self)@
                    == old(self)@.remove(k@) && exists|i: int|
                    0 <= i < old(self).spec_vals().len() && v == old(self).spec_vals()[i]
                        && final(self).spec_vals() == old(self).spec_vals().remove(i),
                None => !old(self)@.contains_key(k@) && final(self)@ == old(self)@
                    && final(self).spec_vals() == old(self).spec_vals(),
            },
    {
        match self.index_of(k) {
            Some(i) => {
                proof {
                    lemma_kv_index(self.keys@, self.vals@, i as int);
                    lemma_kv_remove(self.keys@, self.vals@, i as int);
                    lemma_distinct_remove(self.keys@, i as int);
                }
                let _ = self.keys.remove(i);
                let v = self.vals.remove(i);
                proof {
                    assert(self.spec_vals() =~= old(self).spec_vals().remove(i as int));
                }
                Some(v)
            },
            None => None,
        }
    }

    /// The key and value at position `i` of the storage order.
    pub fn get_pair(&self, i: usize) -> (r: (&String, &V))
        requires
            self.wf(),
            i < self.key_views().len(),
        ensures
            r.0@ == self.key_views()[i as int],
            self@.contains_key(r.0@),
            r.1@ == self@[r.0@],
            *r.1 == self.spec_vals()[i as int],
    {
        proof {
            lemma_kv_index(self.keys@, self.vals@, i as int);
        }
        (&self.keys[i], &self.vals[i])
    }
}

impl StrMap<String> {
    /// An independent copy with the same contents.
    pub fn duplicate(&self) -> (r: Self)
        requires
            self.wf(),
        ensures
            r.wf(),
            r@ == self@,
            r.key_views() == self.key_views(),
    {
        let n = self.keys.len();
        let mut keys2: Vec<String> = Vec::new();
        let mut vals2: Vec<String> = Vec::new();
        for i in 0..n
            invariant
                n == self.keys@.len(),
                self.wf(),
                keys2@ =~= self.keys@.take(i as int),
                vals2@ =~= self.vals@.take(i as int),
        {
            keys2.push(self.keys[i].clone());
            vals2.push(self.vals[i].clone());
            proof {
                assert(self.keys@.take(i + 1) =~= self.keys@.take(i as int).push(
                    self.keys@[i as int],
                ));
                assert(self.vals@.take(i + 1) =~= self.vals@.take(i as int).push(
                    self.vals@[i as int],
                ));
            }
        }
        proof {
            assert(self.keys@.take(n as int) =~= self.keys@);
            assert(self.vals@.take(n as int) =~= self.vals@);
        }
        let r = StrMap { keys: keys2, vals: vals2 };
        proof {
            assert(r.key_views() =~= self.key_views());
        }
        r
    }
}

} // verus!
