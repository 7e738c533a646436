//! A small map from sequence numbers to items, kept as a list of entries.
use vstd::prelude::*;

verus! {

/// Whether no two entries have the same key.
pub open spec fn distinct_keys<T>(v: Seq<(u16, T)>) -> bool {
    forall|i: int, j: int| 0 <= i < j < v.len() ==> #[trigger] v[i].0 != #[trigger] v[j].0
}

/// Whether a list of entries holds exactly the map `m`.
pub open spec fn holds_map<T>(v: Seq<(u16, T)>, m: Map<u16, T>) -> bool {
    &&& distinct_keys(v)
    &&& forall|i: int|
        0 <= i < v.len() ==> m.contains_key(#[trigger] v[i].0) && m[v[i].0] == v[i].1
    &&& forall|k: u16| #[trigger] m.contains_key(k) ==> exists|i: int| 0 <= i < v.len() && v[i].0 == k
}

/// A map from `u16` keys, stored as a list of entries with distinct keys.
pub struct KeyedVec<T> {
    entries: Vec<(u16, T)>,
    map: Ghost<Map<u16, T>>,
}

impl<T> View for KeyedVec<T> {
    type V = Map<u16, T>;

    closed spec fn view(&self) -> Map<u16, T> {
        self.map@
    }
}

impl<T> KeyedVec<T> {
    pub closed spec fn wf(&self) -> bool {
        holds_map(self.entries@, self.map@)
    }

    pub fn new() -> (r: Self)
        ensures
            r.wf(),
            r@ == Map::<u16, T>::empty(),
    {
        KeyedVec { entries: Vec::new(), map: Ghost(Map::empty()) }
    }

    /// The map's domain is finite; its size is the number of entries.
    pub proof fn lemma_finite(&self)
        requires
            self.wf(),
        ensures
            self@.dom().finite(),
            self@.dom().len() == self.spec_len(),
    {
        let v = self.entries@;
        let m = self.map@;
        let keys = v.map_values(|e: (u16, T)| e.0);
        assert(keys.no_duplicates()) by {
            assert forall|i: int, j: int|
                0 <= i < keys.len() && 0 <= j < keys.len() && i != j implies keys[i] != keys[j] by {
                if i < j {
                    assert(v[i].0 != v[j].0);
                } else {
                    assert(v[j].0 != v[i].0);
                }
            }
        }
        assert forall|k: u16| m.dom().contains(k) implies keys.to_set().contains(k) by {
            let i = choose|i: int| 0 <= i < v.len() && v[i].0 == k;
            assert(keys[i] == k);
        }
        assert forall|k: u16| keys.to_set().contains(k) implies m.dom().contains(k) by {
            let i = choose|i: int| 0 <= i < keys.len() && keys[i] == k;
            assert(m.contains_key(v[i].0));
        }
        assert(m.dom() =~= keys.to_set());
        keys.unique_seq_to_set();
    }

    pub closed spec fn spec_len(&self) -> nat {
        self.entries@.len()
    }

    /// The number of entries.
    pub fn len(&self) -> (r: usize)
        requires
            self.wf(),
        ensures
            r == self@.dom().len(),
    {
        proof {
            self.lemma_finite();
        }
        self.entries.len()
    }

    fn find(&self, k: u16) -> (r: Option<usize>)
        requires
            self.wf(),
        ensures
            match r {
                Some(i) => i < self.entries@.len() && self.entries@[i as int].0 == k
                    && self@.contains_key(k),
                None => !self@.contains_key(k),
            },
    {
        let mut i: usize = 0;
        while i < self.entries.len()
            invariant
                self.wf(),
                i <= self.entries@.len(),
                forall|j: int| 0 <= j < i ==> self.entries@[j].0 != k,
            decreases self.entries@.len() - i,
        {
            if self.entries[i].0 == k {
                return Some(i);
            }
            i = i + 1;
        }
        None
    }

    /// Whether there is an item for `k`.
    pub fn contains_key(&self, k: u16) -> (r: bool)
        requires
            self.wf(),
        ensures
            r == self@.contains_key(k),
    {
        self.find(k).is_some()
    }

    /// Takes out the item for `k`, where there is one.
    pub fn remove(&mut self, k: u16) -> (r: Option<T>)
        requires
            old(self).wf(),
        ensures
            final(self).wf(),
            final(self)@ == old(self)@.remove(k),
            r == (if old(self)@.contains_key(k) {
                Some(old(self)@[k])
            } else {
                None::<T>
            }),
            final(self)@.dom().len() <= old(self)@.dom().len(),
    {
        proof {
            self.lemma_finite();
        }
        match self.find(k) {
            None => {
                assert(self.map@.remove(k) =~= self.map@);
                None
            },
            Some(i) => {
                let ghost v = self.entries@;
                let ghost m = self.map@;
                let (_, p) = self.entries.remove(i);
                self.map = Ghost(m.remove(k));
                proof {
                    let v2 = self.entries@;
                    assert(v2 =~= v.remove(i as int));
                    assert forall|a: int, b: int| 0 <= a < b < v2.len() implies #[trigger] v2[a].0
                        != #[trigger] v2[b].0 by {
                        let a0 = if a < i {
                            a
                        } else {
                            a + 1
                        };
                        let b0 = if b < i {
                            b
                        } else {
                            b + 1
                        };
                        assert(v[a0].0 != v[b0].0);
                    }
                    assert forall|a: int| 0 <= a < v2.len() implies self.map@.contains_key(
                        #[trigger] v2[a].0,
                    ) && self.map@[v2[a].0] == v2[a].1 by {
                        let a0 = if a < i {
                            a
                        } else {
                            a + 1
                        };
                        assert(v2[a] == v[a0]);
                        assert(v[a0].0 != v[i as int].0);
                    }
                    assert forall|key: u16| #[trigger] self.map@.contains_key(key) implies exists|
                        a: int,
                    | 0 <= a < v2.len() && v2[a].0 == key by {
                        let a0 = choose|a0: int| 0 <= a0 < v.len() && v[a0].0 == key;
                        assert(a0 != i);
                        let a = if a0 < i {
                            a0
                        } else {
                            a0 - 1
                        };
                        assert(v2[a].0 == key);
                    }
                    self.lemma_finite();
                }
                Some(p)
            },
        }
    }

    /// Stores `p` as the item for `k`, in place of an earlier one.
    pub fn insert(&mut self, k: u16, p: T)
        requires
            old(self).wf(),
        ensures
            final(self).wf(),
            final(self)@ == old(self)@.insert(k, p),
    {
        let ghost v = self.entries@;
        let ghost m = self.map@;
        let ghost pv = p;
        match self.find(k) {
            Some(i) => {
                self.entries.set(i, (k, p));
                self.map = Ghost(m.insert(k, pv));
                proof {
                    let v2 = self.entries@;
                    assert forall|a: int, b: int| 0 <= a < b < v2.len() implies #[trigger] v2[a].0
                        != #[trigger] v2[b].0 by {
                        assert(v[a].0 != v[b].0);
                    }
                    assert forall|key: u16| #[trigger] self.map@.contains_key(key) implies exists|
                        a: int,
                    | 0 <= a < v2.len() && v2[a].0 == key by {
                        if key != k {
                            let a0 = choose|a0: int| 0 <= a0 < v.len() && v[a0].0 == key;
                            assert(v2[a0].0 == key);
                        } else {
                            assert(v2[i as int].0 == key);
                        }
                    }
                    assert forall|a: int| 0 <= a < v2.len() implies self.map@.contains_key(
                        #[trigger] v2[a].0,
                    ) && self.map@[v2[a].0] == v2[a].1 by {
                        if a != i {
                            assert(v[a].0 != v[i as int].0 || a == i);
                        }
                    }
                }
            },
            None => {
                self.entries.push((k, p));
                self.map = Ghost(m.insert(k, pv));
                proof {
                    let v2 = self.entries@;
                    assert forall|a: int, b: int| 0 <= a < b < v2.len() implies #[trigger] v2[a].0
                        != #[trigger] v2[b].0 by {
                        if b < v.len() {
                            assert(v[a].0 != v[b].0);
                        } else {
                            assert(m.contains_key(v[a].0));
                        }
                    }
                    assert forall|key: u16| #[trigger] self.map@.contains_key(key) implies exists|
                        a: int,
                    | 0 <= a < v2.len() && v2[a].0 == key by {
                        if key != k {
                            let a0 = choose|a0: int| 0 <= a0 < v.len() && v[a0].0 == key;
                            assert(v2[a0].0 == key);
                        } else {
                            assert(v2[v.len() as int].0 == key);
                        }
                    }
                    assert forall|a: int| 0 <= a < v2.len() implies self.map@.contains_key(
                        #[trigger] v2[a].0,
                    ) && self.map@[v2[a].0] == v2[a].1 by {
                        if a < v.len() {
                            assert(m.contains_key(v[a].0));
                        }
                    }
                }
            },
        }
    }
}

} // verus!
