//! An ordered set that is bound to a store.
//!
//! A [`BTreeSet`] holds its elements in one sorted run, without two that take
//! the same place in the order. It is created in a [`BTreeStore`], borrows it
//! for as long as it lives, and stays bound to it through every change.
//!
//! The contracts view a set as the sequence of its elements from the least to
//! the greatest. [`order`] says what "before" and "the same place" mean,
//! [`model`] what each operation makes of such a sequence, and [`laws`] what
//! holds of the operations taken together. Lookups take an element, or a
//! probe ([`search`]) that compares the elements with a value of any type.

pub mod bound;
pub mod draw;
pub mod iter;
pub mod laws;
pub mod model;
pub mod order;
pub mod search;
pub mod set;
pub mod store;

pub use bound::Bound;
pub use iter::{IntoIter, Iter, Range};
pub use order::Standing;
pub use set::BTreeSet;
pub use store::BTreeStore;
