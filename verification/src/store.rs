//! Objects that several owners share, each known by its place.
use vstd::prelude::*;

verus! {

/// A sequence of objects, seen by what they stand for.
#[derive(Debug)]
pub struct Store<T> {
    pub items: Vec<T>,
}

/// What each of the objects stands for.
pub open spec fn views<T: View>(items: Seq<T>) -> Seq<T::V> {
    Seq::new(items.len(), |i: int| items[i]@)
}

impl<T: View> View for Store<T> {
    type V = Seq<T::V>;

    open spec fn view(&self) -> Seq<T::V> {
        views(self.items@)
    }
}

impl<T: View> Store<T> {
    pub fn new() -> (r: Self)
        ensures
            r@ == Seq::<T::V>::empty(),
    {
        let r = Store { items: Vec::new() };
        assert(r@ =~= Seq::<T::V>::empty());
        r
    }

    pub fn len(&self) -> (r: usize)
        ensures
            r == self@.len(),
    {
        self.items.len()
    }

    pub fn get(&self, i: usize) -> (r: &T)
        requires
            i < self@.len(),
        ensures
            r@ == self@[i as int],
    {
        &self.items[i]
    }

    /// An object, for change in place.
    pub fn at_mut(&mut self, i: usize) -> (r: &mut T)
        requires
            i < old(self)@.len(),
        ensures
            r@ == old(self)@[i as int],
            final(self)@ == old(self)@.update(i as int, (*final(r))@),
    {
        proof {
            lemma_views_update(self.items@, i as int);
        }
        &mut self.items[i]
    }

    pub fn push(&mut self, value: T) -> (r: usize)
        ensures
            final(self)@ == old(self)@.push(value@),
            r == old(self)@.len(),
            r < final(self)@.len(),
    {
        let place: usize = self.items.len();
        self.items.push(value);
        assert(self@ =~= old(self)@.push(value@));
        place
    }

    pub fn remove(&mut self, i: usize) -> (r: T)
        requires
            i < old(self)@.len(),
        ensures
            r@ == old(self)@[i as int],
            final(self)@ == old(self)@.remove(i as int),
    {
        let value = self.items.remove(i);
        assert(self@ =~= old(self)@.remove(i as int));
        value
    }
}

proof fn lemma_views_update<T: View>(items: Seq<T>, i: int)
    requires
        0 <= i < items.len(),
    ensures
        forall|value: T| #[trigger]
            views(items.update(i, value)) == views(items).update(i, value@),
{
    assert forall|value: T| #[trigger]
        views(items.update(i, value)) == views(items).update(i, value@) by {
        assert(views(items.update(i, value)) =~= views(items).update(i, value@));
    }
}

} // verus!
