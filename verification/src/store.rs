//! The store that sets are created in.

use core::marker::PhantomData;
use vstd::prelude::*;

verus! {

/// A store for sets of `T`. A set borrows its store for as long as it lives,
/// so the store outlives every set that was created in it. The sets keep
/// their elements themselves; the store is what they are bound to, and its
/// number tells it from other stores.
pub struct BTreeStore<T> {
    id: u64,
    marker: PhantomData<T>,
}

impl<T> BTreeStore<T> {
    /// The number that tells this store from others.
    pub closed spec fn spec_id(&self) -> u64 {
        self.id
    }

    /// Creates the store with the number `id`.
    pub fn new(id: u64) -> (store: Self)
        ensures
            store.id() == id,
    {
        BTreeStore { id, marker: PhantomData }
    }

    /// The number that tells this store from others.
    #[verifier::when_used_as_spec(spec_id)]
    pub fn id(&self) -> (id: u64)
        ensures
            id == self.id(),
    {
        self.id
    }

    /// Stores are the same exactly when their numbers are.
    pub proof fn lemma_same_store(a: Self, b: Self)
        ensures
            a == b <==> a.id() == b.id(),
    {
    }
}

} // verus!
