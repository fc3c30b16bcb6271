//! The iterators of a set. Each one is viewed as the sequence of elements it
//! has yet to yield, in ascending order; it can be advanced from both ends.

use crate::store::BTreeStore;
use std::collections::VecDeque;
use vstd::prelude::*;

verus! {

/// An iterator over the elements of a set, by reference.
pub struct Iter<'a, T> {
    items: &'a Vec<T>,
    front: usize,
    back: usize,
}

impl<'a, T> View for Iter<'a, T> {
    type V = Seq<T>;

    closed spec fn view(&self) -> Seq<T> {
        self.items@.subrange(self.front as int, self.back as int)
    }
}

impl<'a, T> Iter<'a, T> {
    #[verifier::type_invariant]
    spec fn in_bounds(self) -> bool {
        self.front <= self.back <= self.items@.len()
    }

    /// An iterator over the elements of `items` from index `front` up to,
    /// and without, index `back`.
    pub(crate) fn between(items: &'a Vec<T>, front: usize, back: usize) -> (iter: Self)
        requires
            front <= back <= items@.len(),
        ensures
            iter@ == items@.subrange(front as int, back as int),
    {
        Iter { items, front, back }
    }

    /// Yields the least of the remaining elements, or `None` once none is
    /// left, however often it is asked.
    pub fn next(&mut self) -> (item: Option<&'a T>)
        ensures
            old(self)@.len() == 0 ==> item is None && final(self)@ == old(self)@,
            old(self)@.len() > 0 ==> item == Some(&old(self)@[0]) && final(self)@ == old(
                self,
            )@.drop_first(),
    {
        proof {
            use_type_invariant(&*self);
        }
        if self.front < self.back {
            let at = self.front;
            self.front = at + 1;
            Some(&self.items[at])
        } else {
            None
        }
    }

    /// Yields the greatest of the remaining elements, or `None` once none is
    /// left, however often it is asked.
    pub fn next_back(&mut self) -> (item: Option<&'a T>)
        ensures
            old(self)@.len() == 0 ==> item is None && final(self)@ == old(self)@,
            old(self)@.len() > 0 ==> item == Some(&old(self)@.last()) && final(self)@ == old(
                self,
            )@.drop_last(),
    {
        proof {
            use_type_invariant(&*self);
        }
        if self.front < self.back {
            let at = self.back - 1;
            self.back = at;
            Some(&self.items[at])
        } else {
            None
        }
    }

    /// The number of elements that are still to be yielded.
    pub fn len(&self) -> (n: usize)
        ensures
            n == self@.len(),
    {
        proof {
            use_type_invariant(self);
        }
        self.back - self.front
    }

    /// The bounds on the number of elements that are still to be yielded:
    /// both are that number.
    pub fn size_hint(&self) -> (hint: (usize, Option<usize>))
        ensures
            hint.0 == self@.len(),
            hint.1 == Some(hint.0),
    {
        let n = self.len();
        (n, Some(n))
    }
}

/// An iterator over the elements of a set that lie within two bounds, by
/// reference.
pub struct Range<'a, T> {
    run: Iter<'a, T>,
}

impl<'a, T> View for Range<'a, T> {
    type V = Seq<T>;

    closed spec fn view(&self) -> Seq<T> {
        self.run@
    }
}

impl<'a, T> Range<'a, T> {
    /// An iterator over the elements of `items` from index `front` up to,
    /// and without, index `back`.
    pub(crate) fn between(items: &'a Vec<T>, front: usize, back: usize) -> (range: Self)
        requires
            front <= back <= items@.len(),
        ensures
            range@ == items@.subrange(front as int, back as int),
    {
        Range { run: Iter::between(items, front, back) }
    }

    /// Yields the least of the remaining elements, or `None` once none is
    /// left.
    pub fn next(&mut self) -> (item: Option<&'a T>)
        ensures
            old(self)@.len() == 0 ==> item is None && final(self)@ == old(self)@,
            old(self)@.len() > 0 ==> item == Some(&old(self)@[0]) && final(self)@ == old(
                self,
            )@.drop_first(),
    {
        self.run.next()
    }

    /// Yields the greatest of the remaining elements, or `None` once none is
    /// left.
    pub fn next_back(&mut self) -> (item: Option<&'a T>)
        ensures
            old(self)@.len() == 0 ==> item is None && final(self)@ == old(self)@,
            old(self)@.len() > 0 ==> item == Some(&old(self)@.last()) && final(self)@ == old(
                self,
            )@.drop_last(),
    {
        self.run.next_back()
    }

    /// The bounds on the number of elements that are still to be yielded:
    /// both are that number.
    pub fn size_hint(&self) -> (hint: (usize, Option<usize>))
        ensures
            hint.0 == self@.len(),
            hint.1 == Some(hint.0),
    {
        self.run.size_hint()
    }
}

/// An iterator that owns the elements of a set and hands them out.
pub struct IntoIter<'store, T> {
    store: &'store BTreeStore<T>,
    items: VecDeque<T>,
}

impl<'store, T> View for IntoIter<'store, T> {
    type V = Seq<T>;

    closed spec fn view(&self) -> Seq<T> {
        self.items@
    }
}

impl<'store, T> IntoIter<'store, T> {
    /// The store of the set that the elements were taken from.
    pub closed spec fn spec_store(&self) -> &'store BTreeStore<T> {
        self.store
    }

    /// An iterator that hands out the elements of `items`, which came from a
    /// set bound to `store`.
    pub(crate) fn draining(store: &'store BTreeStore<T>, items: Vec<T>) -> (iter: Self)
        ensures
            iter@ == items@,
            iter.store() == store,
    {
        let mut rest = items;
        let mut queue: VecDeque<T> = VecDeque::new();
        while rest.len() > 0
            invariant
                rest@ + queue@ == items@,
            decreases rest.len(),
        {
            if let Some(item) = rest.pop() {
                queue.push_front(item);
            }
        }
        IntoIter { store, items: queue }
    }

    /// The store of the set that the elements were taken from.
    #[verifier::when_used_as_spec(spec_store)]
    pub fn store(&self) -> (store: &'store BTreeStore<T>)
        ensures
            store == self.store(),
    {
        self.store
    }

    /// Yields the least of the remaining elements, or `None` once none is
    /// left, however often it is asked.
    pub fn next(&mut self) -> (item: Option<T>)
        ensures
            old(self)@.len() == 0 ==> item is None && final(self)@ == old(self)@,
            old(self)@.len() > 0 ==> item == Some(old(self)@[0]) && final(self)@ == old(
                self,
            )@.drop_first(),
            final(self).store() == old(self).store(),
    {
        self.items.pop_front()
    }

    /// Yields the greatest of the remaining elements, or `None` once none is
    /// left, however often it is asked.
    pub fn next_back(&mut self) -> (item: Option<T>)
        ensures
            old(self)@.len() == 0 ==> item is None && final(self)@ == old(self)@,
            old(self)@.len() > 0 ==> item == Some(old(self)@.last()) && final(self)@ == old(
                self,
            )@.drop_last(),
            final(self).store() == old(self).store(),
    {
        self.items.pop_back()
    }

    /// The number of elements that are still to be yielded.
    pub fn len(&self) -> (n: usize)
        ensures
            n == self@.len(),
    {
        self.items.len()
    }

    /// The bounds on the number of elements that are still to be yielded:
    /// both are that number.
    pub fn size_hint(&self) -> (hint: (usize, Option<usize>))
        ensures
            hint.0 == self@.len(),
            hint.1 == Some(hint.0),
    {
        let n = self.items.len();
        (n, Some(n))
    }
}

} // verus!
