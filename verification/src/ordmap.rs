//! A map from integers kept in ascending key order.
use vstd::prelude::*;

verus! {

/// A finite map whose entries are visited in ascending key order.
#[derive(Debug)]
pub struct OrdMap<V> {
    pub keys: Vec<u64>,
    pub values: Vec<V>,
}

/// Whether `s` is strictly ascending.
pub open spec fn ascending(s: Seq<u64>) -> bool {
    forall|i: int, j: int| 0 <= i < j < s.len() ==> s[i] < s[j]
}

/// The map that pairs `keys[i]` with `values[i]`.
pub open spec fn paired<V>(keys: Seq<u64>, values: Seq<V>) -> Map<u64, V> {
    Map::new(|k: u64| keys.contains(k), |k: u64| values[keys.index_of(k)])
}

impl<V> View for OrdMap<V> {
    type V = Map<u64, V>;

    open spec fn view(&self) -> Map<u64, V> {
        paired(self.keys@, self.values@)
    }
}

/// Every entry of an ascending pairing is found under its own key.
pub proof fn lemma_paired<V>(keys: Seq<u64>, values: Seq<V>, i: int)
    requires
        ascending(keys),
        keys.len() == values.len(),
        0 <= i < keys.len(),
    ensures
        paired(keys, values).dom().contains(keys[i]),
        paired(keys, values)[keys[i]] == values[i],
{
    assert(keys.contains(keys[i]));
    let j = keys.index_of(keys[i]);
    assert(keys[j] == keys[i]);
}

impl<V> OrdMap<V> {
    pub open spec fn wf(&self) -> bool {
        &&& self.keys.len() == self.values.len()
        &&& ascending(self.keys@)
    }

    pub fn new() -> (r: Self)
        ensures
            r.wf(),
            r@ == Map::<u64, V>::empty(),
    {
        let r = OrdMap { keys: Vec::new(), values: Vec::new() };
        assert(r@ =~= Map::<u64, V>::empty());
        r
    }

    pub fn len(&self) -> (r: usize)
        requires
            self.wf(),
        ensures
            r == self.keys.len(),
    {
        self.keys.len()
    }

    /// The place of the first key that is not less than `key`.
    fn lower_bound(&self, key: u64) -> (r: usize)
        requires
            self.wf(),
        ensures
            r <= self.keys.len(),
            forall|i: int| 0 <= i < r ==> self.keys@[i] < key,
            forall|i: int| r <= i < self.keys.len() ==> self.keys@[i] >= key,
            self@.dom().contains(key) <==> r < self.keys.len() && self.keys@[r as int] == key,
    {
        let mut i: usize = 0;
        while i < self.keys.len() && self.keys[i] < key
            invariant
                i <= self.keys.len(),
                forall|j: int| 0 <= j < i ==> self.keys@[j] < key,
            decreases self.keys.len() - i,
        {
            i += 1;
        }
        proof {
            if i < self.keys.len() {
                assert forall|j: int| i <= j < self.keys.len() implies self.keys@[j] >= key by {
                    if j > i {
                        assert(self.keys@[i as int] < self.keys@[j]);
                    }
                }
            }
            if self@.dom().contains(key) {
                let j = self.keys@.index_of(key);
                assert(self.keys@[j] == key);
            }
        }
        i
    }

    pub fn contains_key(&self, key: u64) -> (r: bool)
        requires
            self.wf(),
        ensures
            r == self@.dom().contains(key),
    {
        let i: usize = self.lower_bound(key);
        i < self.keys.len() && self.keys[i] == key
    }

    pub fn get(&self, key: u64) -> (r: Option<&V>)
        requires
            self.wf(),
        ensures
            r is Some <==> self@.dom().contains(key),
            r matches Some(v) ==> *v == self@[key],
    {
        let i: usize = self.lower_bound(key);
        if i < self.keys.len() && self.keys[i] == key {
            proof {
                lemma_paired(self.keys@, self.values@, i as int);
            }
            Some(&self.values[i])
        } else {
            None
        }
    }

    /// The value under `key`, for change in place.
    pub fn at_mut(&mut self, key: u64) -> (r: &mut V)
        requires
            old(self).wf(),
            old(self)@.dom().contains(key),
        ensures
            *r == old(self)@[key],
            final(self).wf(),
            final(self)@ == old(self)@.insert(key, *final(r)),
            final(self).keys@ == old(self).keys@,
    {
        let i: usize = self.lower_bound(key);
        proof {
            lemma_paired(self.keys@, self.values@, i as int);
            lemma_update(self.keys@, self.values@, i as int);
        }
        &mut self.values[i]
    }

    /// The value at place `i`, for change in place.
    pub fn place_mut(&mut self, i: usize) -> (r: &mut V)
        requires
            old(self).wf(),
            i < old(self).keys.len(),
        ensures
            *r == old(self).values@[i as int],
            *r == old(self)@[old(self).keys@[i as int]],
            final(self).wf(),
            final(self)@ == old(self)@.insert(old(self).keys@[i as int], *final(r)),
            final(self).keys@ == old(self).keys@,
            final(self).values@ == old(self).values@.update(i as int, *final(r)),
    {
        proof {
            lemma_paired(self.keys@, self.values@, i as int);
            lemma_update(self.keys@, self.values@, i as int);
        }
        &mut self.values[i]
    }

    /// Binds `key` to `value`, whatever it was bound to before.
    pub fn insert(&mut self, key: u64, value: V)
        requires
            old(self).wf(),
        ensures
            final(self).wf(),
            final(self)@ == old(self)@.insert(key, value),
    {
        let i: usize = self.lower_bound(key);
        let ghost before = *self;
        if i < self.keys.len() && self.keys[i] == key {
            proof {
                lemma_update(self.keys@, self.values@, i as int);
            }
            self.values[i] = value;
        } else {
            self.keys.insert(i, key);
            self.values.insert(i, value);
            proof {
                let keys = self.keys@;
                assert forall|a: int, b: int| 0 <= a < b < keys.len() implies keys[a] < keys[b] by {
                    if a == i {
                        assert(keys[b] == before.keys@[b - 1]);
                    } else if b == i {
                        assert(keys[a] == before.keys@[a]);
                    } else {
                        let a0 = if a < i { a } else { a - 1 };
                        let b0 = if b < i { b } else { b - 1 };
                        assert(before.keys@[a0] < before.keys@[b0]);
                    }
                }
                assert forall|k: u64| #[trigger]
                    self@.dom().contains(k) == before@.insert(key, value).dom().contains(k) by {
                    if self.keys@.contains(k) {
                        let j = self.keys@.index_of(k);
                        if j < i {
                            assert(before.keys@[j] == k);
                        } else if j > i {
                            assert(before.keys@[j - 1] == k);
                        }
                    }
                    if before.keys@.contains(k) {
                        let j = before.keys@.index_of(k);
                        if j < i {
                            assert(self.keys@[j] == k);
                        } else {
                            assert(self.keys@[j + 1] == k);
                        }
                    }
                    assert(self.keys@[i as int] == key);
                }
                assert forall|k: u64| #[trigger] self@.dom().contains(k) implies self@[k]
                    == before@.insert(key, value)[k] by {
                    let j = self.keys@.index_of(k);
                    lemma_paired(self.keys@, self.values@, j);
                    if j < i {
                        lemma_paired(before.keys@, before.values@, j);
                    } else if j > i {
                        lemma_paired(before.keys@, before.values@, j - 1);
                    }
                }
                assert(self@ =~= before@.insert(key, value));
            }
        }
    }

    pub fn remove(&mut self, key: u64) -> (r: Option<V>)
        requires
            old(self).wf(),
        ensures
            final(self).wf(),
            final(self)@ == old(self)@.remove(key),
            r is Some <==> old(self)@.dom().contains(key),
            r matches Some(v) ==> v == old(self)@[key],
            r is Some ==> final(self).keys.len() == old(self).keys.len() - 1,
            r is None ==> *final(self) == *old(self),
    {
        let i: usize = self.lower_bound(key);
        let ghost before = *self;
        if i < self.keys.len() && self.keys[i] == key {
            proof {
                lemma_paired(self.keys@, self.values@, i as int);
            }
            let _ = self.keys.remove(i);
            let value = self.values.remove(i);
            proof {
                let keys = self.keys@;
                assert forall|a: int, b: int| 0 <= a < b < keys.len() implies keys[a] < keys[b] by {
                    let a0 = if a < i { a } else { a + 1 };
                    let b0 = if b < i { b } else { b + 1 };
                    assert(before.keys@[a0] < before.keys@[b0]);
                }
                assert forall|k: u64| #[trigger]
                    self@.dom().contains(k) == before@.remove(key).dom().contains(k) by {
                    if self.keys@.contains(k) {
                        let j = self.keys@.index_of(k);
                        let j0 = if j < i { j } else { j + 1 };
                        assert(before.keys@[j0] == k);
                        if k == key {
                            assert(before.keys@[j0] == before.keys@[i as int]);
                        }
                    }
                    if before.keys@.contains(k) && k != key {
                        let j = before.keys@.index_of(k);
                        let j0 = if j < i { j } else { j - 1 };
                        assert(self.keys@[j0] == k);
                    }
                }
                assert forall|k: u64| #[trigger] self@.dom().contains(k) implies self@[k]
                    == before@.remove(key)[k] by {
                    let j = self.keys@.index_of(k);
                    let j0 = if j < i { j } else { j + 1 };
                    lemma_paired(self.keys@, self.values@, j);
                    lemma_paired(before.keys@, before.values@, j0);
                }
                assert(self@ =~= before@.remove(key));
            }
            Some(value)
        } else {
            assert(self@ =~= before@.remove(key));
            None
        }
    }
}

proof fn lemma_update<V>(keys: Seq<u64>, values: Seq<V>, i: int)
    requires
        ascending(keys),
        keys.len() == values.len(),
        0 <= i < keys.len(),
    ensures
        forall|v: V|
            #![trigger paired(keys, values.update(i, v))]
            paired(keys, values.update(i, v)) == paired(keys, values).insert(keys[i], v),
{
    assert forall|v: V|
        #![trigger paired(keys, values.update(i, v))]
        paired(keys, values.update(i, v)) == paired(keys, values).insert(keys[i], v) by {
        let l = paired(keys, values.update(i, v));
        let r = paired(keys, values).insert(keys[i], v);
        assert(keys.contains(keys[i]));
        assert forall|k: u64| #[trigger] l.dom().contains(k) implies l[k] == r[k] by {
            let j = keys.index_of(k);
            assert(keys[j] == k);
            lemma_paired(keys, values.update(i, v), j);
            lemma_paired(keys, values, j);
        }
        assert(l =~= r);
    }
}

} // verus!
