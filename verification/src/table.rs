//! A small keyed table: a vector of distinct-keyed pairs whose meaning is a
//! finite map from the keys' views to the values.
//!
//! The directory keys its state by device address, a struct. vstd's hash
//! maps are specified only for key types whose hashing and equality Verus
//! has a model of (integers, strings); for any other key their operations
//! ask for a key model nothing can establish. This table asks only for an
//! equality on keys that agrees with their views.
use vstd::prelude::*;

verus! {

/// A key the table can compare: two keys are the same key exactly when their
/// views are equal.
pub trait TableKey: View + Sized {
    fn same_key(&self, other: &Self) -> (eq: bool)
        ensures
            eq == (self@ == other@);
}

impl TableKey for crate::relay::DeviceAddr {
    fn same_key(&self, other: &Self) -> (eq: bool) {
        self.same(other)
    }
}

/// Distinct-keyed pairs, and the map they stand for.
pub struct Table<K: TableKey, V> {
    items: Vec<(K, V)>,
    model: Ghost<Map<K::V, V>>,
}

impl<K: TableKey, V> Table<K, V> {
    /// The map the table stands for.
    pub closed spec fn map(&self) -> Map<K::V, V> {
        self.model@
    }

    /// The pairs agree with the map, and no key occurs twice.
    pub closed spec fn wf(&self) -> bool {
        &&& forall|i: int| 0 <= i < self.items@.len() ==> #[trigger] self.model@.contains_key(self.items@[i].0@)
            && self.model@[self.items@[i].0@] == self.items@[i].1
        &&& forall|k: K::V| #[trigger] self.model@.contains_key(k) ==> exists|i: int|
            0 <= i < self.items@.len() && #[trigger] self.items@[i].0@ == k
        &&& forall|i: int, j: int|
            0 <= i < j < self.items@.len() ==> #[trigger] self.items@[i].0@ != #[trigger] self.items@[j].0@
    }

    pub fn new() -> (t: Self)
        ensures
            t.wf(),
            t.map() == Map::<K::V, V>::empty(),
    {
        Table { items: Vec::new(), model: Ghost(Map::empty()) }
    }

    /// How many keys the table holds.
    pub fn len(&self) -> (n: usize)
        requires
            self.wf(),
        ensures
            n == self.map().len(),
    {
        proof {
            self.lemma_len();
        }
        self.items.len()
    }

    proof fn lemma_len(&self)
        requires
            self.wf(),
        ensures
            self.items@.len() == self.map().len(),
            self.map().dom().finite(),
        decreases self.items@.len(),
    {
        let keys = self.items@.map_values(|p: (K, V)| p.0@);
        assert(keys.no_duplicates()) by {
            assert forall|i: int, j: int| 0 <= i < keys.len() && 0 <= j < keys.len() && i != j implies keys[i]
                != keys[j] by {
                if i < j {
                    assert(self.items@[i].0@ != self.items@[j].0@);
                } else {
                    assert(self.items@[j].0@ != self.items@[i].0@);
                }
            }
        }
        assert(keys.to_set() =~= self.map().dom()) by {
            assert forall|k: K::V| keys.to_set().contains(k) implies self.map().dom().contains(k) by {
                let i = choose|i: int| 0 <= i < keys.len() && keys[i] == k;
                assert(self.model@.contains_key(self.items@[i].0@));
            }
            assert forall|k: K::V| self.map().dom().contains(k) implies keys.to_set().contains(k) by {
                assert(self.model@.contains_key(k));
                let i = choose|i: int| 0 <= i < self.items@.len() && #[trigger] self.items@[i].0@ == k;
                assert(keys[i] == k);
            }
        }
        keys.unique_seq_to_set();
    }

    /// Where `k` is held, if it is.
    fn find(&self, k: &K) -> (r: Option<usize>)
        requires
            self.wf(),
        ensures
            match r {
                Some(i) => i < self.items@.len() && self.items@[i as int].0@ == k@ && self.map().contains_key(k@),
                None => !self.map().contains_key(k@),
            },
    {
        let mut i: usize = 0;
        while i < self.items.len()
            invariant
                self.wf(),
                0 <= i <= self.items@.len(),
                forall|j: int| 0 <= j < i ==> self.items@[j].0@ != k@,
            decreases self.items@.len() - i,
        {
            if self.items[i].0.same_key(k) {
                return Some(i);
            }
            i = i + 1;
        }
        proof {
            if self.model@.contains_key(k@) {
                assert(exists|j: int| 0 <= j < self.items@.len() && #[trigger] self.items@[j].0@ == k@);
            }
        }
        None
    }

    /// Whether `k` is held.
    pub fn contains(&self, k: &K) -> (b: bool)
        requires
            self.wf(),
        ensures
            b == self.map().contains_key(k@),
    {
        self.find(k).is_some()
    }

    /// The value held under `k`, if any.
    pub fn get(&self, k: &K) -> (r: Option<&V>)
        requires
            self.wf(),
        ensures
            match r {
                Some(v) => self.map().contains_key(k@) && *v == self.map()[k@],
                None => !self.map().contains_key(k@),
            },
    {
        match self.find(k) {
            Some(i) => Some(&self.items[i].1),
            None => None,
        }
    }

    /// Hold `v` under `k`, replacing any value held there.
    pub fn insert(&mut self, k: K, v: V)
        requires
            old(self).wf(),
        ensures
            final(self).wf(),
            final(self).map() == old(self).map().insert(k@, v),
    {
        let ghost kv = k@;
        let ghost new_map = self.model@.insert(kv, v);
        match self.find(&k) {
            Some(i) => {
                self.items.set(i, (k, v));
                self.model = Ghost(new_map);
                assert forall|j: int| 0 <= j < self.items@.len() implies #[trigger] self.model@.contains_key(
                    self.items@[j].0@,
                ) && self.model@[self.items@[j].0@] == self.items@[j].1 by {
                    if j != i {
                        assert(old(self).items@[j] == self.items@[j]);
                        if j < i {
                            assert(old(self).items@[j].0@ != old(self).items@[i as int].0@);
                        } else {
                            assert(old(self).items@[i as int].0@ != old(self).items@[j].0@);
                        }
                    }
                }
                assert forall|k2: K::V| #[trigger] self.model@.contains_key(k2) implies exists|j: int|
                    0 <= j < self.items@.len() && #[trigger] self.items@[j].0@ == k2 by {
                    if k2 == kv {
                        assert(self.items@[i as int].0@ == k2);
                    } else {
                        assert(old(self).model@.contains_key(k2));
                        let j = choose|j: int| 0 <= j < old(self).items@.len() && #[trigger] old(self).items@[j].0@ == k2;
                        assert(self.items@[j].0@ == k2);
                    }
                }
                assert forall|a: int, b: int| 0 <= a < b < self.items@.len() implies #[trigger] self.items@[a].0@
                    != #[trigger] self.items@[b].0@ by {
                    assert(old(self).items@[a].0@ != old(self).items@[b].0@);
                }
            },
            None => {
                self.items.push((k, v));
                self.model = Ghost(new_map);
                let ghost n: int = self.items@.len() - 1;
                assert forall|j: int| 0 <= j < self.items@.len() implies #[trigger] self.model@.contains_key(
                    self.items@[j].0@,
                ) && self.model@[self.items@[j].0@] == self.items@[j].1 by {
                    if j < n {
                        assert(old(self).items@[j] == self.items@[j]);
                        assert(old(self).model@.contains_key(old(self).items@[j].0@));
                    }
                }
                assert forall|k2: K::V| #[trigger] self.model@.contains_key(k2) implies exists|j: int|
                    0 <= j < self.items@.len() && #[trigger] self.items@[j].0@ == k2 by {
                    if k2 == kv {
                        assert(self.items@[n].0@ == k2);
                    } else {
                        assert(old(self).model@.contains_key(k2));
                        let j = choose|j: int| 0 <= j < old(self).items@.len() && #[trigger] old(self).items@[j].0@ == k2;
                        assert(self.items@[j].0@ == k2);
                    }
                }
                assert forall|a: int, b: int| 0 <= a < b < self.items@.len() implies #[trigger] self.items@[a].0@
                    != #[trigger] self.items@[b].0@ by {
                    if b == n {
                        assert(old(self).model@.contains_key(old(self).items@[a].0@));
                    } else {
                        assert(old(self).items@[a].0@ != old(self).items@[b].0@);
                    }
                }
            },
        }
    }

    /// Take the value held under `k` out of the table, if any.
    pub fn take(&mut self, k: &K) -> (r: Option<V>)
        requires
            old(self).wf(),
        ensures
            final(self).wf(),
            final(self).map() == old(self).map().remove(k@),
            match r {
                Some(v) => old(self).map().contains_key(k@) && v == old(self).map()[k@],
                None => !old(self).map().contains_key(k@),
            },
    {
        match self.find(k) {
            Some(i) => {
                let ghost kv = k@;
                let (_, v) = self.items.remove(i);
                self.model = Ghost(self.model@.remove(kv));
                assert forall|j: int| 0 <= j < self.items@.len() implies #[trigger] self.model@.contains_key(
                    self.items@[j].0@,
                ) && self.model@[self.items@[j].0@] == self.items@[j].1 by {
                    if j < i {
                        assert(self.items@[j] == old(self).items@[j]);
                        assert(old(self).items@[j].0@ != old(self).items@[i as int].0@);
                        assert(old(self).model@.contains_key(old(self).items@[j].0@));
                    } else {
                        assert(self.items@[j] == old(self).items@[j + 1]);
                        assert(old(self).items@[i as int].0@ != old(self).items@[j + 1].0@);
                        assert(old(self).model@.contains_key(old(self).items@[j + 1].0@));
                    }
                }
                assert forall|k2: K::V| #[trigger] self.model@.contains_key(k2) implies exists|j: int|
                    0 <= j < self.items@.len() && #[trigger] self.items@[j].0@ == k2 by {
                    assert(old(self).model@.contains_key(k2));
                    let j = choose|j: int| 0 <= j < old(self).items@.len() && #[trigger] old(self).items@[j].0@ == k2;
                    assert(j != i);
                    if j < i {
                        assert(self.items@[j].0@ == k2);
                    } else {
                        assert(self.items@[j - 1].0@ == k2);
                    }
                }
                assert forall|a: int, b: int| 0 <= a < b < self.items@.len() implies #[trigger] self.items@[a].0@
                    != #[trigger] self.items@[b].0@ by {
                    let oa = if a < i { a } else { a + 1 };
                    let ob = if b < i { b } else { b + 1 };
                    assert(self.items@[a] == old(self).items@[oa]);
                    assert(self.items@[b] == old(self).items@[ob]);
                    assert(old(self).items@[oa].0@ != old(self).items@[ob].0@);
                }
                Some(v)
            },
            None => {
                assert(self.model@.remove(k@) =~= self.model@);
                None
            },
        }
    }
}

} // verus!
