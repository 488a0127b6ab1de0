//! A map from the pages of files kept in the order of its keys.
use vstd::prelude::*;

verus! {

/// A page of a file of a mount.
#[derive(Clone, Copy, Debug, PartialEq, Eq, Structural)]
pub struct PageKey {
    pub mount_id: usize,
    pub ino: u64,
    pub page_index: u64,
}

/// Keys are in the order of the mount, the file and the page.
pub open spec fn before(a: PageKey, b: PageKey) -> bool {
    if a.mount_id != b.mount_id {
        a.mount_id < b.mount_id
    } else if a.ino != b.ino {
        a.ino < b.ino
    } else {
        a.page_index < b.page_index
    }
}

fn is_before(a: &PageKey, b: &PageKey) -> (r: bool)
    ensures
        r == before(*a, *b),
{
    if a.mount_id != b.mount_id {
        a.mount_id < b.mount_id
    } else if a.ino != b.ino {
        a.ino < b.ino
    } else {
        a.page_index < b.page_index
    }
}

/// A finite map whose entries are visited in the order of their keys.
pub struct PageMap<V> {
    pub keys: Vec<PageKey>,
    pub values: Vec<V>,
}

/// Whether `s` is strictly ascending.
pub open spec fn ascending(s: Seq<PageKey>) -> bool {
    forall|i: int, j: int| 0 <= i < j < s.len() ==> before(#[trigger] s[i], #[trigger] s[j])
}

/// The map that pairs `keys[i]` with `values[i]`.
pub open spec fn paired<V>(keys: Seq<PageKey>, values: Seq<V>) -> Map<PageKey, V> {
    Map::new(|k: PageKey| keys.contains(k), |k: PageKey| values[keys.index_of(k)])
}

impl<V> View for PageMap<V> {
    type V = Map<PageKey, V>;

    open spec fn view(&self) -> Map<PageKey, V> {
        paired(self.keys@, self.values@)
    }
}

/// Every entry of an ascending pairing is found under its own key.
pub proof fn lemma_paired<V>(keys: Seq<PageKey>, values: Seq<V>, i: int)
    requires
        ascending(keys),
        keys.len() == values.len(),
        0 <= i < keys.len(),
    ensures
        paired(keys, values).dom().contains(keys[i]),
        paired(keys, values)[keys[i]] == values[i],
{
    assert(keys.contains(keys[i]));
    let j = keys.index_of(keys[i]);
    assert(keys[j] == keys[i]);
}

impl<V> PageMap<V> {
    pub open spec fn wf(&self) -> bool {
        &&& self.keys.len() == self.values.len()
        &&& ascending(self.keys@)
    }

    pub fn new() -> (r: Self)
        ensures
            r.wf(),
            r@ == Map::<PageKey, V>::empty(),
    {
        let r = PageMap { keys: Vec::new(), values: Vec::new() };
        assert(r@ =~= Map::<PageKey, V>::empty());
        r
    }

    pub fn len(&self) -> (r: usize)
        requires
            self.wf(),
        ensures
            r == self.keys.len(),
    {
        self.keys.len()
    }

    /// The place of the first key that is not less than `key`.
    fn lower_bound(&self, key: PageKey) -> (r: usize)
        requires
            self.wf(),
        ensures
            r <= self.keys.len(),
            forall|i: int| 0 <= i < r ==> before(#[trigger] self.keys@[i], key),
            forall|i: int| r <= i < self.keys.len() ==> !before(#[trigger] self.keys@[i], key),
            self@.dom().contains(key) <==> r < self.keys.len() && self.keys@[r as int] == key,
    {
        let mut i: usize = 0;
        while i < self.keys.len() && is_before(&self.keys[i], &key)
            invariant
                i <= self.keys.len(),
                forall|j: int| 0 <= j < i ==> before(#[trigger] self.keys@[j], key),
            decreases self.keys.len() - i,
        {
            i += 1;
        }
        proof {
            if i < self.keys.len() {
                assert forall|j: int| i <= j < self.keys.len() implies !before(#[trigger] self.keys@[j], key) by {
                    if j > i {
                        assert(before(self.keys@[i as int], self.keys@[j]));
                    }
                }
            }
            if self@.dom().contains(key) {
                let j = self.keys@.index_of(key);
                assert(self.keys@[j] == key);
            }
        }
        i
    }

    pub fn contains_key(&self, key: PageKey) -> (r: bool)
        requires
            self.wf(),
        ensures
            r == self@.dom().contains(key),
    {
        let i: usize = self.lower_bound(key);
        i < self.keys.len() && self.keys[i] == key
    }

    pub fn get(&self, key: PageKey) -> (r: Option<&V>)
        requires
            self.wf(),
        ensures
            r is Some <==> self@.dom().contains(key),
            r matches Some(v) ==> *v == self@[key],
    {
        let i: usize = self.lower_bound(key);
        if i < self.keys.len() && self.keys[i] == key {
            proof {
                lemma_paired(self.keys@, self.values@, i as int);
            }
            Some(&self.values[i])
        } else {
            None
        }
    }

    /// The value under `key`, for change in place.
    pub fn at_mut(&mut self, key: PageKey) -> (r: &mut V)
        requires
            old(self).wf(),
            old(self)@.dom().contains(key),
        ensures
            *r == old(self)@[key],
            final(self).wf(),
            final(self)@ == old(self)@.insert(key, *final(r)),
            final(self).keys@ == old(self).keys@,
    {
        let i: usize = self.lower_bound(key);
        proof {
            lemma_paired(self.keys@, self.values@, i as int);
            lemma_update(self.keys@, self.values@, i as int);
        }
        &mut self.values[i]
    }

    /// The value at place `i`, for change in place.
    pub fn place_mut(&mut self, i: usize) -> (r: &mut V)
        requires
            old(self).wf(),
            i < old(self).keys.len(),
        ensures
            *r == old(self).values@[i as int],
            *r == old(self)@[old(self).keys@[i as int]],
            final(self).wf(),
            final(self)@ == old(self)@.insert(old(self).keys@[i as int], *final(r)),
            final(self).keys@ == old(self).keys@,
            final(self).values@ == old(self).values@.update(i as int, *final(r)),
    {
        proof {
            lemma_paired(self.keys@, self.values@, i as int);
            lemma_update(self.keys@, self.values@, i as int);
        }
        &mut self.values[i]
    }

    /// Binds `key` to `value`, whatever it was bound to before.
    pub fn insert(&mut self, key: PageKey, value: V)
        requires
            old(self).wf(),
        ensures
            final(self).wf(),
            final(self)@ == old(self)@.insert(key, value),
    {
        let i: usize = self.lower_bound(key);
        let ghost start = *self;
        if i < self.keys.len() && self.keys[i] == key {
            proof {
                lemma_update(self.keys@, self.values@, i as int);
            }
            self.values[i] = value;
        } else {
            self.keys.insert(i, key);
            self.values.insert(i, value);
            proof {
                let keys = self.keys@;
                assert forall|a: int, b: int| 0 <= a < b < keys.len() implies before(#[trigger] keys[a], #[trigger] keys[b]) by {
                    if a == i {
                        assert(keys[b] == start.keys@[b - 1]);
                    } else if b == i {
                        assert(keys[a] == start.keys@[a]);
                    } else {
                        let a0 = if a < i { a } else { a - 1 };
                        let b0 = if b < i { b } else { b - 1 };
                        assert(before(start.keys@[a0], start.keys@[b0]));
                    }
                }
                assert forall|k: PageKey| #[trigger]
                    self@.dom().contains(k) == start@.insert(key, value).dom().contains(k) by {
                    if self.keys@.contains(k) {
                        let j = self.keys@.index_of(k);
                        if j < i {
                            assert(start.keys@[j] == k);
                        } else if j > i {
                            assert(start.keys@[j - 1] == k);
                        }
                    }
                    if start.keys@.contains(k) {
                        let j = start.keys@.index_of(k);
                        if j < i {
                            assert(self.keys@[j] == k);
                        } else {
                            assert(self.keys@[j + 1] == k);
                        }
                    }
                    assert(self.keys@[i as int] == key);
                }
                assert forall|k: PageKey| #[trigger] self@.dom().contains(k) implies self@[k]
                    == start@.insert(key, value)[k] by {
                    let j = self.keys@.index_of(k);
                    lemma_paired(self.keys@, self.values@, j);
                    if j < i {
                        lemma_paired(start.keys@, start.values@, j);
                    } else if j > i {
                        lemma_paired(start.keys@, start.values@, j - 1);
                    }
                }
                assert(self@ =~= start@.insert(key, value));
            }
        }
    }

    pub fn remove(&mut self, key: PageKey) -> (r: Option<V>)
        requires
            old(self).wf(),
        ensures
            final(self).wf(),
            final(self)@ == old(self)@.remove(key),
            r is Some <==> old(self)@.dom().contains(key),
            r matches Some(v) ==> v == old(self)@[key],
            r is Some ==> final(self).keys.len() == old(self).keys.len() - 1,
            r is None ==> *final(self) == *old(self),
    {
        let i: usize = self.lower_bound(key);
        let ghost start = *self;
        if i < self.keys.len() && self.keys[i] == key {
            proof {
                lemma_paired(self.keys@, self.values@, i as int);
            }
            let _ = self.keys.remove(i);
            let value = self.values.remove(i);
            proof {
                let keys = self.keys@;
                assert forall|a: int, b: int| 0 <= a < b < keys.len() implies before(#[trigger] keys[a], #[trigger] keys[b]) by {
                    let a0 = if a < i { a } else { a + 1 };
                    let b0 = if b < i { b } else { b + 1 };
                    assert(before(start.keys@[a0], start.keys@[b0]));
                }
                assert forall|k: PageKey| #[trigger]
                    self@.dom().contains(k) == start@.remove(key).dom().contains(k) by {
                    if self.keys@.contains(k) {
                        let j = self.keys@.index_of(k);
                        let j0 = if j < i { j } else { j + 1 };
                        assert(start.keys@[j0] == k);
                        if k == key {
                            assert(start.keys@[j0] == start.keys@[i as int]);
                        }
                    }
                    if start.keys@.contains(k) && k != key {
                        let j = start.keys@.index_of(k);
                        let j0 = if j < i { j } else { j - 1 };
                        assert(self.keys@[j0] == k);
                    }
                }
                assert forall|k: PageKey| #[trigger] self@.dom().contains(k) implies self@[k]
                    == start@.remove(key)[k] by {
                    let j = self.keys@.index_of(k);
                    let j0 = if j < i { j } else { j + 1 };
                    lemma_paired(self.keys@, self.values@, j);
                    lemma_paired(start.keys@, start.values@, j0);
                }
                assert(self@ =~= start@.remove(key));
            }
            Some(value)
        } else {
            assert(self@ =~= start@.remove(key));
            None
        }
    }
}

proof fn lemma_update<V>(keys: Seq<PageKey>, values: Seq<V>, i: int)
    requires
        ascending(keys),
        keys.len() == values.len(),
        0 <= i < keys.len(),
    ensures
        forall|v: V|
            #![trigger paired(keys, values.update(i, v))]
            paired(keys, values.update(i, v)) == paired(keys, values).insert(keys[i], v),
{
    assert forall|v: V|
        #![trigger paired(keys, values.update(i, v))]
        paired(keys, values.update(i, v)) == paired(keys, values).insert(keys[i], v) by {
        let l = paired(keys, values.update(i, v));
        let r = paired(keys, values).insert(keys[i], v);
        assert(keys.contains(keys[i]));
        assert forall|k: PageKey| #[trigger] l.dom().contains(k) implies l[k] == r[k] by {
            let j = keys.index_of(k);
            assert(keys[j] == k);
            lemma_paired(keys, values.update(i, v), j);
            lemma_paired(keys, values, j);
        }
        assert(l =~= r);
    }
}

} // verus!
