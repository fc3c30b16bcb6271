//! The vocabulary of ordering that the contracts of this crate are written in.
//!
//! Elements are compared with `Ord`. Two elements that compare as equal take
//! the same place in the order even when they are different values, so the
//! contracts speak of `equivalent` elements and never of equal ones.

use core::cmp::Ordering;
use vstd::prelude::*;
use vstd::std_specs::cmp::OrdSpec;

verus! {

/// The comparison of `T` is a lawful total order: `cmp`, `partial_cmp` and
/// `==` agree with each other, "less" mirrors "greater", and both are
/// transitive.
pub open spec fn lawful<T: Ord>() -> bool {
    vstd::laws_cmp::obeys_cmp::<T>()
}

/// `a` comes strictly before `b`.
pub open spec fn precedes<T: Ord>(a: T, b: T) -> bool {
    a.cmp_spec(&b) == Ordering::Less
}

/// `a` and `b` take the same place in the order.
pub open spec fn equivalent<T: Ord>(a: T, b: T) -> bool {
    a.cmp_spec(&b) == Ordering::Equal
}

/// Each element comes strictly before every later one.
pub open spec fn ascending<T: Ord>(s: Seq<T>) -> bool {
    forall|i: int, j: int| 0 <= i < j < s.len() ==> precedes(s[i], s[j])
}

/// Two elements compare in exactly one of three ways, and equivalence is
/// reflexive and symmetric.
pub proof fn lemma_trichotomy<T: Ord>(a: T, b: T)
    requires
        lawful::<T>(),
    ensures
        precedes(a, b) || equivalent(a, b) || precedes(b, a),
        !(precedes(a, b) && equivalent(a, b)),
        !(precedes(a, b) && precedes(b, a)),
        !(equivalent(a, b) && precedes(b, a)),
        equivalent(a, b) == equivalent(b, a),
        equivalent(a, a),
{
    reveal(vstd::laws_cmp::obeys_cmp_ord);
    reveal(vstd::laws_cmp::obeys_partial_cmp_spec_properties);
}

/// "Comes before" is transitive, and it cannot tell equivalent elements
/// apart on either side.
pub proof fn lemma_chain<T: Ord>(a: T, b: T, c: T)
    requires
        lawful::<T>(),
    ensures
        precedes(a, b) && precedes(b, c) ==> precedes(a, c),
        equivalent(a, b) && precedes(b, c) ==> precedes(a, c),
        precedes(a, b) && equivalent(b, c) ==> precedes(a, c),
        equivalent(a, b) && equivalent(b, c) ==> equivalent(a, c),
{
    reveal(vstd::laws_cmp::obeys_cmp_ord);
    reveal(vstd::laws_cmp::obeys_partial_cmp_spec_properties);
    reveal(vstd::laws_eq::obeys_eq_spec_properties);
}

/// How one element stands to another in the order, or to whatever else it
/// is compared with.
#[derive(Clone, Copy, Debug, PartialEq, Eq, Structural)]
pub enum Standing {
    /// It comes strictly before the other.
    Before,
    /// The two take the same place.
    Same,
    /// It comes strictly after the other.
    After,
}

impl Standing {
    /// The standing that an outcome of `cmp` tells of.
    pub fn from_ordering(ordering: Ordering) -> (standing: Standing)
        ensures
            standing == match ordering {
                Ordering::Less => Standing::Before,
                Ordering::Equal => Standing::Same,
                Ordering::Greater => Standing::After,
            },
    {
        match ordering {
            Ordering::Less => Standing::Before,
            Ordering::Equal => Standing::Same,
            Ordering::Greater => Standing::After,
        }
    }
}

/// How `a` stands to `b`.
pub open spec fn standing<T: Ord>(a: T, b: T) -> Standing {
    if precedes(a, b) {
        Standing::Before
    } else if equivalent(a, b) {
        Standing::Same
    } else {
        Standing::After
    }
}

/// Compares `a` with `b`.
pub fn compare<T: Ord>(a: &T, b: &T) -> (outcome: Standing)
    requires
        lawful::<T>(),
    ensures
        outcome == standing(*a, *b),
        outcome is After <==> precedes(*b, *a),
{
    proof {
        reveal(vstd::laws_cmp::obeys_cmp_ord);
        lemma_trichotomy(*a, *b);
    }
    Standing::from_ordering(a.cmp(b))
}

} // verus!
