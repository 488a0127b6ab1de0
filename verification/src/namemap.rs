//! Values by name, in the order of the names.
use vstd::prelude::*;

use crate::store;

verus! {

/// Whether one name comes before another.
pub open spec fn before(a: Seq<u8>, b: Seq<u8>) -> bool
    decreases a.len(),
{
    if b.len() == 0 {
        false
    } else if a.len() == 0 {
        true
    } else if a[0] != b[0] {
        a[0] < b[0]
    } else {
        before(a.skip(1), b.skip(1))
    }
}

pub proof fn law_order_total(a: Seq<u8>, b: Seq<u8>)
    ensures
        before(a, b) || before(b, a) || a == b,
        !(before(a, b) && before(b, a)),
        before(a, b) ==> a != b,
    decreases a.len(),
{
    if a.len() > 0 && b.len() > 0 && a[0] == b[0] {
        law_order_total(a.skip(1), b.skip(1));
        if a.skip(1) == b.skip(1) {
            assert forall|i: int| 0 <= i < a.len() implies a[i] == b[i] by {
                if i > 0 {
                    assert(a.skip(1)[i - 1] == b.skip(1)[i - 1]);
                }
            }
            assert(a.skip(1).len() == b.skip(1).len());
            assert(a =~= b);
        }
    } else if a.len() == 0 && b.len() == 0 {
        assert(a =~= b);
    }
}

pub proof fn law_order_transitive(a: Seq<u8>, b: Seq<u8>, c: Seq<u8>)
    requires
        before(a, b),
        before(b, c),
    ensures
        before(a, c),
    decreases a.len(),
{
    if a.len() > 0 && b.len() > 0 && c.len() > 0 && a[0] == b[0] && b[0] == c[0] {
        law_order_transitive(a.skip(1), b.skip(1), c.skip(1));
    }
}

/// How two names stand to each other.
enum Standing {
    Earlier,
    Same,
    Later,
}

fn compare(a: &[u8], b: &[u8]) -> (r: Standing)
    ensures
        match r {
            Standing::Earlier => before(a@, b@),
            Standing::Same => a@ == b@,
            Standing::Later => before(b@, a@),
        },
{
    let mut i: usize = 0;
    assert(a@.skip(0) =~= a@ && b@.skip(0) =~= b@);
    while i < a.len() && i < b.len() && a[i] == b[i]
        invariant
            i <= a.len(),
            i <= b.len(),
            forall|j: int| 0 <= j < i ==> a@[j] == b@[j],
            before(a@, b@) == before(a@.skip(i as int), b@.skip(i as int)),
            before(b@, a@) == before(b@.skip(i as int), a@.skip(i as int)),
        decreases a.len() - i,
    {
        assert(a@.skip(i as int).skip(1) =~= a@.skip(i + 1));
        assert(b@.skip(i as int).skip(1) =~= b@.skip(i + 1));
        i += 1;
    }
    if i >= b.len() {
        if i >= a.len() {
            assert(a@ =~= b@);
            Standing::Same
        } else {
            Standing::Later
        }
    } else if i >= a.len() {
        Standing::Earlier
    } else if a[i] < b[i] {
        Standing::Earlier
    } else {
        Standing::Later
    }
}

/// Whether names are in order, none twice.
pub open spec fn in_order(names: Seq<Seq<u8>>) -> bool {
    forall|i: int, j: int| 0 <= i < j < names.len() ==> before(#[trigger] names[i], #[trigger] names[j])
}

/// The map that pairs `names[i]` with `values[i]`.
pub open spec fn named<V>(names: Seq<Seq<u8>>, values: Seq<V>) -> Map<Seq<u8>, V> {
    Map::new(|k: Seq<u8>| names.contains(k), |k: Seq<u8>| values[names.index_of(k)])
}

proof fn lemma_named<V>(names: Seq<Seq<u8>>, values: Seq<V>, i: int)
    requires
        in_order(names),
        names.len() == values.len(),
        0 <= i < names.len(),
    ensures
        named(names, values).dom().contains(names[i]),
        named(names, values)[names[i]] == values[i],
{
    assert(names.contains(names[i]));
    let j = names.index_of(names[i]);
    assert(names[j] == names[i]);
    if j < i {
        law_order_total(names[j], names[i]);
    } else if i < j {
        law_order_total(names[i], names[j]);
    }
}

#[derive(Debug)]
pub struct NameMap<V> {
    pub names: Vec<Vec<u8>>,
    pub values: Vec<V>,
}

impl<V> View for NameMap<V> {
    type V = Map<Seq<u8>, V>;

    open spec fn view(&self) -> Map<Seq<u8>, V> {
        named(self.order(), self.values@)
    }
}

impl<V> NameMap<V> {
    /// The names, in order.
    pub open spec fn order(&self) -> Seq<Seq<u8>> {
        store::views(self.names@)
    }

    pub open spec fn wf(&self) -> bool {
        &&& self.names.len() == self.values.len()
        &&& in_order(self.order())
    }
}

impl<V: Copy> NameMap<V> {
    pub fn new() -> (r: Self)
        ensures
            r.wf(),
            r@ == Map::<Seq<u8>, V>::empty(),
            r.order() == Seq::<Seq<u8>>::empty(),
    {
        let r = NameMap { names: Vec::new(), values: Vec::new() };
        assert(r.order() =~= Seq::<Seq<u8>>::empty());
        assert(r@ =~= Map::<Seq<u8>, V>::empty());
        r
    }

    pub fn len(&self) -> (r: usize)
        ensures
            r == self.order().len(),
    {
        self.names.len()
    }

    /// The place of a name, or where it would stand.
    fn place(&self, name: &[u8]) -> (r: (usize, bool))
        requires
            self.wf(),
        ensures
            r.0 <= self.names.len(),
            forall|i: int| 0 <= i < r.0 ==> before(#[trigger] self.order()[i], name@),
            r.1 ==> r.0 < self.names.len() && self.order()[r.0 as int] == name@,
            !r.1 ==> forall|i: int|
                r.0 <= i < self.names.len() ==> before(name@, #[trigger] self.order()[i]),
            r.1 == self@.dom().contains(name@),
            r.1 ==> self@[name@] == self.values@[r.0 as int],
    {
        let mut i: usize = 0;
        let ghost order = self.order();
        while i < self.names.len()
            invariant
                i <= self.names.len(),
                self.wf(),
                order == self.order(),
                order.len() == self.names.len(),
                forall|j: int| 0 <= j < i ==> before(#[trigger] order[j], name@),
            decreases self.names.len() - i,
        {
            assert(order[i as int] == self.names@[i as int]@);
            match compare(self.names[i].as_slice(), name) {
                Standing::Earlier => {
                    i += 1;
                },
                Standing::Same => {
                    proof {
                        lemma_named(order, self.values@, i as int);
                    }
                    return (i, true);
                },
                Standing::Later => {
                    proof {
                        assert forall|j: int| i <= j < self.names.len() implies before(
                            name@,
                            #[trigger] order[j],
                        ) by {
                            if j > i {
                                law_order_transitive(name@, order[i as int], order[j]);
                            }
                        }
                        lemma_absent(order, name@, i as int);
                    }
                    return (i, false);
                },
            }
        }
        proof {
            lemma_absent(order, name@, i as int);
        }
        (i, false)
    }

    pub fn get(&self, name: &[u8]) -> (r: Option<V>)
        requires
            self.wf(),
        ensures
            r == if self@.dom().contains(name@) {
                Some(self@[name@])
            } else {
                None
            },
    {
        let (i, found) = self.place(name);
        if found {
            Some(self.values[i])
        } else {
            None
        }
    }

    /// The names, in order.
    pub fn names_in_order(&self) -> (r: Vec<Vec<u8>>)
        requires
            self.wf(),
        ensures
            store::views(r@) == self.order(),
    {
        let mut r: Vec<Vec<u8>> = Vec::new();
        let mut i: usize = 0;
        while i < self.names.len()
            invariant
                i <= self.names.len(),
                store::views(r@) =~= self.order().take(i as int),
            decreases self.names.len() - i,
        {
            let ghost before = store::views(r@);
            r.push(vstd::slice::slice_to_vec(self.names[i].as_slice()));
            i += 1;
            assert(store::views(r@) =~= before.push(self.names@[i - 1]@));
            assert(self.order().take(i as int) =~= before.push(self.order()[i - 1]));
        }
        assert(self.order().take(i as int) =~= self.order());
        r
    }

    pub fn insert(&mut self, name: &[u8], value: V)
        requires
            old(self).wf(),
        ensures
            final(self).wf(),
            final(self)@ == old(self)@.insert(name@, value),
    {
        let (i, found) = self.place(name);
        let ghost before_names = self.order();
        let ghost before_values = self.values@;
        if found {
            self.values[i] = value;
            proof {
                lemma_changed(before_names, before_values, i as int, value);
                assert(self.order() =~= before_names);
            }
        } else {
            self.names.insert(i, vstd::slice::slice_to_vec(name));
            self.values.insert(i, value);
            proof {
                assert(self.order() =~= before_names.insert(i as int, name@));
                lemma_inserted(before_names, before_values, i as int, name@, value);
            }
        }
    }

    pub fn remove(&mut self, name: &[u8]) -> (r: Option<V>)
        requires
            old(self).wf(),
        ensures
            final(self).wf(),
            final(self)@ == old(self)@.remove(name@),
            r == if old(self)@.dom().contains(name@) {
                Some(old(self)@[name@])
            } else {
                None
            },
    {
        let (i, found) = self.place(name);
        let ghost before_names = self.order();
        let ghost before_values = self.values@;
        if found {
            let _ = self.names.remove(i);
            let value = self.values.remove(i);
            proof {
                assert(self.order() =~= before_names.remove(i as int));
                lemma_removed(before_names, before_values, i as int);
            }
            Some(value)
        } else {
            assert(self@ =~= old(self)@.remove(name@));
            None
        }
    }
}

/// As many names as there are in order.
pub(crate) proof fn lemma_count<V>(names: Seq<Seq<u8>>, values: Seq<V>)
    requires
        in_order(names),
        names.len() == values.len(),
    ensures
        named(names, values).dom().len() == names.len(),
        named(names, values).dom().finite(),
{
    assert forall|i: int, j: int| 0 <= i < names.len() && 0 <= j < names.len() && i != j implies names[i]
        != names[j] by {
        if i < j {
            law_order_total(names[i], names[j]);
        } else {
            law_order_total(names[j], names[i]);
        }
    }
    assert(names.no_duplicates());
    names.unique_seq_to_set();
    assert(named(names, values).dom() =~= names.to_set());
}

proof fn lemma_absent(names: Seq<Seq<u8>>, name: Seq<u8>, at: int)
    requires
        0 <= at <= names.len(),
        forall|i: int| 0 <= i < at ==> before(#[trigger] names[i], name),
        forall|i: int| at <= i < names.len() ==> before(name, #[trigger] names[i]),
    ensures
        !names.contains(name),
{
    if names.contains(name) {
        let j = names.index_of(name);
        assert(names[j] == name);
        law_order_total(names[j], name);
        law_order_total(name, names[j]);
    }
}

proof fn lemma_changed<V>(names: Seq<Seq<u8>>, values: Seq<V>, at: int, value: V)
    requires
        in_order(names),
        names.len() == values.len(),
        0 <= at < names.len(),
    ensures
        named(names, values.update(at, value)) == named(names, values).insert(names[at], value),
{
    let l = named(names, values.update(at, value));
    let r = named(names, values).insert(names[at], value);
    assert(names.contains(names[at]));
    assert forall|k: Seq<u8>| #[trigger] l.dom().contains(k) implies l[k] == r[k] by {
        let j = names.index_of(k);
        assert(names[j] == k);
        lemma_named(names, values.update(at, value), j);
        lemma_named(names, values, j);
        if names[j] == names[at] {
            law_order_total(names[j], names[at]);
            law_order_total(names[at], names[j]);
        }
    }
    assert(l =~= r);
}

proof fn lemma_inserted<V>(names: Seq<Seq<u8>>, values: Seq<V>, at: int, name: Seq<u8>, value: V)
    requires
        in_order(names),
        names.len() == values.len(),
        0 <= at <= names.len(),
        forall|i: int| 0 <= i < at ==> before(#[trigger] names[i], name),
        forall|i: int| at <= i < names.len() ==> before(name, #[trigger] names[i]),
    ensures
        in_order(names.insert(at, name)),
        named(names.insert(at, name), values.insert(at, value)) == named(names, values).insert(
            name,
            value,
        ),
{
    let after = names.insert(at, name);
    let after_values = values.insert(at, value);
    assert forall|i: int, j: int| 0 <= i < j < after.len() implies before(
        #[trigger] after[i],
        #[trigger] after[j],
    ) by {
        let i0 = if i < at { i } else { i - 1 };
        let j0 = if j < at { j } else { j - 1 };
        if i == at {
            assert(after[j] == names[j0]);
        } else if j == at {
            assert(after[i] == names[i0]);
        } else {
            assert(after[i] == names[i0] && after[j] == names[j0]);
        }
    }
    let l = named(after, after_values);
    let r = named(names, values).insert(name, value);
    assert forall|k: Seq<u8>| #[trigger] l.dom().contains(k) == r.dom().contains(k) by {
        if after.contains(k) {
            let j = after.index_of(k);
            if j < at {
                assert(names[j] == k);
            } else if j > at {
                assert(names[j - 1] == k);
            }
        }
        if names.contains(k) {
            let j = names.index_of(k);
            if j < at {
                assert(after[j] == k);
            } else {
                assert(after[j + 1] == k);
            }
        }
        assert(after[at] == name);
    }
    lemma_absent(names, name, at);
    assert forall|k: Seq<u8>| #[trigger] l.dom().contains(k) implies l[k] == r[k] by {
        let j = after.index_of(k);
        assert(after[j] == k);
        lemma_named(after, after_values, j);
        if j < at {
            lemma_named(names, values, j);
            assert(names.contains(names[j]));
        } else if j > at {
            lemma_named(names, values, j - 1);
            assert(names.contains(names[j - 1]));
        }
    }
    assert(l =~= r);
}

proof fn lemma_removed<V>(names: Seq<Seq<u8>>, values: Seq<V>, at: int)
    requires
        in_order(names),
        names.len() == values.len(),
        0 <= at < names.len(),
    ensures
        in_order(names.remove(at)),
        named(names.remove(at), values.remove(at)) == named(names, values).remove(names[at]),
{
    let after = names.remove(at);
    let after_values = values.remove(at);
    assert forall|i: int, j: int| 0 <= i < j < after.len() implies before(
        #[trigger] after[i],
        #[trigger] after[j],
    ) by {
        let i0 = if i < at { i } else { i + 1 };
        let j0 = if j < at { j } else { j + 1 };
        assert(after[i] == names[i0] && after[j] == names[j0]);
    }
    let l = named(after, after_values);
    let r = named(names, values).remove(names[at]);
    assert forall|k: Seq<u8>| #[trigger] l.dom().contains(k) == r.dom().contains(k) by {
        if after.contains(k) {
            let j = after.index_of(k);
            let j0 = if j < at { j } else { j + 1 };
            assert(names[j0] == k);
            if k == names[at] {
                law_order_total(names[j0], names[at]);
                law_order_total(names[at], names[j0]);
            }
        }
        if names.contains(k) && k != names[at] {
            let j = names.index_of(k);
            let j0 = if j < at { j } else { j - 1 };
            assert(after[j0] == k);
        }
    }
    assert forall|k: Seq<u8>| #[trigger] l.dom().contains(k) implies l[k] == r[k] by {
        let j = after.index_of(k);
        assert(after[j] == k);
        let j0 = if j < at { j } else { j + 1 };
        lemma_named(after, after_values, j);
        lemma_named(names, values, j0);
    }
    assert(l =~= r);
}

} // verus!
