//! The ordered set.

use crate::bound::{
    bound_guides, lemma_filter_run, lower_cut, lower_index, lower_index_by, ranged, upper_cut,
    upper_index, upper_index_by, within, Bound,
};
use crate::draw::{draw, drawn, texts};
use crate::iter::{IntoIter, Iter, Range};
use crate::model::{found, holds, inserted, inserted_all, lemma_inserted_ascending, removed};
use crate::order::{ascending, lawful, precedes, Standing};
use crate::search::{guides, locate, locate_by, meets};
use crate::store::BTreeStore;
use vstd::prelude::*;

verus! {

/// A set of `T` in ascending order, bound to the store it was created in.
///
/// No two elements of a set are equivalent. The set is viewed as the sequence
/// of its elements from the least to the greatest.
pub struct BTreeSet<'store, T: Ord> {
    store: &'store BTreeStore<T>,
    items: Vec<T>,
}

impl<'store, T: Ord> View for BTreeSet<'store, T> {
    type V = Seq<T>;

    closed spec fn view(&self) -> Seq<T> {
        self.items@
    }
}

impl<'store, T: Ord> BTreeSet<'store, T> {
    #[verifier::type_invariant]
    spec fn in_order(self) -> bool {
        ascending(self.items@)
    }

    /// The store that the set is bound to.
    pub closed spec fn spec_store(&self) -> &'store BTreeStore<T> {
        self.store
    }

    /// Creates an empty set bound to `store`.
    pub fn new_in(store: &'store BTreeStore<T>) -> (set: Self)
        ensures
            set@ == Seq::<T>::empty(),
            set.store() == store,
    {
        BTreeSet { store, items: Vec::new() }
    }

    /// The store that the set is bound to.
    #[verifier::when_used_as_spec(spec_store)]
    pub fn store(&self) -> (store: &'store BTreeStore<T>)
        ensures
            store == self.store(),
    {
        self.store
    }

    /// Returns the number of elements in the set.
    pub fn len(&self) -> (n: usize)
        ensures
            n == self@.len(),
    {
        self.items.len()
    }

    /// Returns `true` if the set contains no elements.
    pub fn is_empty(&self) -> (empty: bool)
        ensures
            empty == (self@.len() == 0),
    {
        self.items.len() == 0
    }

    /// Clears the set, removing all values. The set stays bound to its store.
    pub fn clear(&mut self)
        ensures
            final(self)@ == Seq::<T>::empty(),
            final(self).store() == old(self).store(),
    {
        self.items = Vec::new();
    }

    /// The first value in the set, or `None` if empty. It comes before every
    /// other element.
    pub fn first(&self) -> (least: Option<&T>)
        ensures
            self@.len() == 0 ==> least is None,
            self@.len() > 0 ==> least == Some(&self@[0]),
            forall|i: int| 0 < i < self@.len() ==> precedes(self@[0], #[trigger] self@[i]),
    {
        proof {
            use_type_invariant(self);
        }
        if self.items.len() == 0 {
            None
        } else {
            Some(&self.items[0])
        }
    }

    /// The last value in the set, or `None` if empty. Every other element
    /// comes before it.
    pub fn last(&self) -> (greatest: Option<&T>)
        ensures
            self@.len() == 0 ==> greatest is None,
            self@.len() > 0 ==> greatest == Some(&self@[self@.len() - 1]),
            forall|i: int|
                0 <= i < self@.len() - 1 ==> precedes(#[trigger] self@[i], self@[self@.len() - 1]),
    {
        proof {
            use_type_invariant(self);
        }
        let n = self.items.len();
        if n == 0 {
            None
        } else {
            Some(&self.items[n - 1])
        }
    }

    /// Returns `true` if the set contains a value, that is, an element that
    /// takes the place of `value` in the order.
    pub fn contains(&self, value: &T) -> (present: bool)
        requires
            lawful::<T>(),
        ensures
            present == holds(self@, *value),
    {
        proof {
            use_type_invariant(self);
        }
        locate(&self.items, value).1
    }

    /// Returns a reference to the element of the set that takes the place of
    /// `value`, if any. It may be another value than `value` itself.
    pub fn get(&self, value: &T) -> (element: Option<&T>)
        requires
            lawful::<T>(),
        ensures
            match element {
                Some(e) => found(self@, *value) == Some(*e),
                None => found(self@, *value) is None,
            },
    {
        proof {
            use_type_invariant(self);
        }
        let (at, present) = locate(&self.items, value);
        if present {
            Some(&self.items[at])
        } else {
            None
        }
    }

    /// Returns `true` if the set contains an element of which `probe` answers
    /// `Same`. What is looked for may be of another type than the elements,
    /// as long as `probe` can compare it with them in their order.
    pub fn contains_by<F: Fn(&T) -> Standing>(&self, probe: F) -> (present: bool)
        requires
            guides(probe, self@),
        ensures
            present == exists|i: int| meets(probe, self@, i),
    {
        locate_by(&self.items, &probe).1
    }

    /// Returns a reference to the element of which `probe` answers `Same`,
    /// if any.
    pub fn get_by<F: Fn(&T) -> Standing>(&self, probe: F) -> (element: Option<&T>)
        requires
            guides(probe, self@),
        ensures
            element is Some <==> exists|i: int| meets(probe, self@, i),
            forall|i: int| meets(probe, self@, i) ==> element == Some(&self@[i]),
    {
        let (at, present) = locate_by(&self.items, &probe);
        assert(forall|i: int| meets(probe, self@, i) ==> i == at);
        if present {
            Some(&self.items[at])
        } else {
            None
        }
    }

    /// Inserts a value into the set. Returns `true` if the value was not
    /// already present. Where an equivalent element is present, the set keeps
    /// it and drops `value`.
    pub fn insert(&mut self, value: T) -> (fresh: bool) where T: Clone
        requires
            lawful::<T>(),
        ensures
            final(self)@ == inserted(old(self)@, value),
            fresh == !holds(old(self)@, value),
            final(self).store() == old(self).store(),
    {
        proof {
            use_type_invariant(&*self);
            lemma_inserted_ascending(self@, value);
        }
        let (at, present) = locate(&self.items, &value);
        if present {
            false
        } else {
            let mut items: Vec<T> = Vec::new();
            core::mem::swap(&mut items, &mut self.items);
            items.insert(at, value);
            self.items = items;
            true
        }
    }

    /// Removes a value from the set. Returns `true` if the value was present.
    pub fn remove(&mut self, value: &T) -> (present: bool) where T: Clone
        requires
            lawful::<T>(),
        ensures
            final(self)@ == removed(old(self)@, *value),
            present == holds(old(self)@, *value),
            final(self).store() == old(self).store(),
    {
        proof {
            use_type_invariant(&*self);
        }
        let (at, present) = locate(&self.items, value);
        if present {
            let mut items: Vec<T> = Vec::new();
            core::mem::swap(&mut items, &mut self.items);
            let _ = items.remove(at);
            self.items = items;
        }
        present
    }

    /// Removes the element of which `probe` answers `Same`, if any. Returns
    /// `true` if there was one.
    pub fn remove_by<F: Fn(&T) -> Standing>(&mut self, probe: F) -> (present: bool) where T: Clone
        requires
            guides(probe, old(self)@),
        ensures
            present == exists|i: int| meets(probe, old(self)@, i),
            forall|i: int| meets(probe, old(self)@, i) ==> final(self)@ == old(self)@.remove(i),
            !present ==> final(self)@ == old(self)@,
            final(self).store() == old(self).store(),
    {
        proof {
            use_type_invariant(&*self);
        }
        let (at, present) = locate_by(&self.items, &probe);
        assert(forall|i: int| meets(probe, self@, i) ==> i == at);
        if present {
            let mut items: Vec<T> = Vec::new();
            core::mem::swap(&mut items, &mut self.items);
            let _ = items.remove(at);
            self.items = items;
        }
        present
    }

    /// Removes the first value from the set and returns it, or returns `None`
    /// if the set is empty.
    pub fn pop_first(&mut self) -> (least: Option<T>) where T: Clone
        ensures
            old(self)@.len() == 0 ==> least is None && final(self)@ == old(self)@,
            old(self)@.len() > 0 ==> least == Some(old(self)@[0]) && final(self)@ == old(
                self,
            )@.drop_first(),
            final(self).store() == old(self).store(),
    {
        proof {
            use_type_invariant(&*self);
        }
        if self.items.len() == 0 {
            None
        } else {
            let mut items: Vec<T> = Vec::new();
            core::mem::swap(&mut items, &mut self.items);
            let least = items.remove(0);
            self.items = items;
            Some(least)
        }
    }

    /// Removes the last value from the set and returns it, or returns `None`
    /// if the set is empty.
    pub fn pop_last(&mut self) -> (greatest: Option<T>) where T: Clone
        ensures
            old(self)@.len() == 0 ==> greatest is None && final(self)@ == old(self)@,
            old(self)@.len() > 0 ==> greatest == Some(old(self)@.last()) && final(self)@ == old(
                self,
            )@.drop_last(),
            final(self).store() == old(self).store(),
    {
        proof {
            use_type_invariant(&*self);
        }
        if self.items.len() == 0 {
            None
        } else {
            let mut items: Vec<T> = Vec::new();
            core::mem::swap(&mut items, &mut self.items);
            let greatest = items.pop();
            self.items = items;
            greatest
        }
    }

    /// Inserts each of `values` into the set, the first one first, as
    /// `insert` would: of equivalent values the set keeps the one that was
    /// there first.
    pub fn extend(&mut self, values: Vec<T>) where T: Clone
        requires
            lawful::<T>(),
        ensures
            final(self)@ == inserted_all(old(self)@, values@),
            final(self).store() == old(self).store(),
    {
        let ghost all = values@;
        for value in it: values
            invariant
                lawful::<T>(),
                it.seq() == all,
                self@ == inserted_all(old(self)@, all.take(it.index())),
                self.store() == old(self).store(),
        {
            proof {
                assert(all.take(it.index() + 1).drop_last() =~= all.take(it.index()));
            }
            self.insert(value);
        }
        proof {
            assert(all.take(all.len() as int) =~= all);
        }
    }

    /// Returns an iterator over the set: it yields every element, in
    /// ascending order.
    pub fn iter(&self) -> (iter: Iter<'_, T>)
        ensures
            iter@ == self@,
            ascending(iter@),
    {
        proof {
            use_type_invariant(self);
        }
        Iter::between(&self.items, 0, self.items.len())
    }

    /// Returns an iterator over the set within the given bounds: it yields
    /// every element that neither bound cuts off, in ascending order.
    pub fn range(&self, lower: Bound<&T>, upper: Bound<&T>) -> (range: Range<'_, T>)
        requires
            lawful::<T>(),
        ensures
            range@ == ranged(self@, lower, upper),
            ascending(range@),
    {
        proof {
            use_type_invariant(self);
        }
        let front = lower_index(&self.items, lower);
        let reach = upper_index(&self.items, upper);
        let back = if front <= reach {
            reach
        } else {
            front
        };
        proof {
            lemma_filter_run(self@, |e: T| within(lower, upper, e), front as int, back as int);
        }
        Range::between(&self.items, front, back)
    }

    /// Returns an iterator over the set within bounds that may be of another
    /// type than the elements: the probe of a bound tells how an element
    /// stands to it. The iterator yields every element that neither bound
    /// cuts off, in ascending order.
    pub fn range_by<L: Fn(&T) -> Standing, U: Fn(&T) -> Standing>(
        &self,
        lower: Bound<L>,
        upper: Bound<U>,
    ) -> (range: Range<'_, T>)
        requires
            bound_guides(lower, self@),
            bound_guides(upper, self@),
        ensures
            exists|from: int, to: int|
                {
                    &&& lower_cut(lower, self@, from)
                    &&& upper_cut(upper, self@, to)
                    &&& range@ == self@.subrange(
                        from,
                        if from <= to {
                            to
                        } else {
                            from
                        },
                    )
                },
            ascending(range@),
    {
        proof {
            use_type_invariant(self);
        }
        let front = lower_index_by(&self.items, &lower);
        let reach = upper_index_by(&self.items, &upper);
        let back = if front <= reach {
            reach
        } else {
            front
        };
        Range::between(&self.items, front, back)
    }

    /// Turns the set into an iterator that owns its elements: it yields every
    /// element, in ascending order.
    pub fn into_iter(self) -> (iter: IntoIter<'store, T>)
        ensures
            iter@ == self@,
            ascending(iter@),
            iter.store() == self.store(),
    {
        proof {
            use_type_invariant(&self);
        }
        IntoIter::draining(self.store, self.items)
    }

    /// Checks the set: its elements are in strictly ascending order. This
    /// holds of every set at all times, so the check has nothing to do and
    /// cannot fail.
    pub fn validate(&self)
        ensures
            ascending(self@),
    {
        proof {
            use_type_invariant(self);
        }
    }

    /// Draws the set for the eye: the labels that `label` gives its elements,
    /// in ascending order, between square brackets and parted by a comma and
    /// a blank.
    pub fn print<F: Fn(&T) -> String>(&self, label: F) -> (drawing: String)
        requires
            forall|i: int| 0 <= i < self@.len() ==> call_requires(label, (&#[trigger] self@[i],)),
        ensures
            exists|labels: Seq<String>|
                {
                    &&& labels.len() == self@.len()
                    &&& forall|i: int|
                        0 <= i < labels.len() ==> call_ensures(
                            label,
                            (&self@[i],),
                            #[trigger] labels[i],
                        )
                    &&& drawing@ == drawn(texts(labels))
                },
    {
        let mut labels: Vec<String> = Vec::new();
        let mut i: usize = 0;
        while i < self.items.len()
            invariant
                0 <= i <= self@.len(),
                self@ == self.items@,
                labels@.len() == i,
                forall|k: int|
                    0 <= k < self@.len() ==> call_requires(label, (&#[trigger] self@[k],)),
                forall|k: int|
                    0 <= k < i ==> call_ensures(label, (&self@[k],), #[trigger] labels@[k]),
            decreases self@.len() - i,
        {
            labels.push(label(&self.items[i]));
            i = i + 1;
        }
        draw(&labels)
    }

    /// Makes a set with the same elements in another store. The set itself
    /// stays as it is. The clone of an element has to be the element again.
    pub fn copy_in<'other>(&self, store: &'other BTreeStore<T>) -> (copy: BTreeSet<'other, T>)
        where T: Clone
        requires
            forall|a: T, b: T| cloned(a, b) ==> a == b,
        ensures
            copy@ == self@,
            copy.store() == store,
    {
        proof {
            use_type_invariant(self);
        }
        let mut items: Vec<T> = Vec::new();
        let mut i: usize = 0;
        while i < self.items.len()
            invariant
                0 <= i <= self.items@.len(),
                items@ == self.items@.take(i as int),
                forall|a: T, b: T| cloned(a, b) ==> a == b,
            decreases self.items@.len() - i,
        {
            let item = self.items[i].clone();
            proof {
                assert(cloned(self.items@[i as int], item));
            }
            items.push(item);
            i = i + 1;
        }
        BTreeSet { store, items }
    }

    /// Checks that the set is bound to `store`.
    pub fn assert_store(&self, store: &BTreeStore<T>)
        requires
            self.store().id() == store.id(),
        ensures
            self.store() == store,
    {
        proof {
            BTreeStore::lemma_same_store(*self.store, *store);
        }
    }
}

} // verus!
