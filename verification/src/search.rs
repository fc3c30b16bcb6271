//! Finding the place of an element in an ascending vector.
//!
//! A search is led by a probe: a function that tells of an element how it
//! stands to what is looked for. What is looked for need not be an element:
//! any value that can be compared with the elements, in the order in which
//! they stand, will do.

use crate::model::{holds, lemma_holds_at_rank, lemma_rank_is, rank};
use crate::order::{
    ascending, compare, equivalent, lawful, lemma_chain, lemma_trichotomy, precedes, standing,
    Standing,
};
use vstd::prelude::*;

verus! {

/// `probe` can lead a search through `s`. It can be asked of every element
/// and answers the same each time; and from one element to any later one its
/// answers never step back: `Before` up to some index, then at most one
/// `Same`, and `After` from there on.
pub open spec fn guides<T, F: Fn(&T) -> Standing>(probe: F, s: Seq<T>) -> bool {
    &&& forall|i: int| 0 <= i < s.len() ==> call_requires(probe, (&#[trigger] s[i],))
    &&& forall|i: int, j: int, a: Standing, b: Standing|
        0 <= i <= j < s.len() && #[trigger] call_ensures(probe, (&s[i],), a)
            && #[trigger] call_ensures(probe, (&s[j],), b) ==> if i == j {
            a == b
        } else {
            a is Before || b is After
        }
}

/// `probe` answers `Same` of the element of `s` at index `at`.
pub open spec fn meets<T, F: Fn(&T) -> Standing>(probe: F, s: Seq<T>, at: int) -> bool {
    0 <= at < s.len() && call_ensures(probe, (&s[at],), Standing::Same)
}

/// A probe that compares each element with `x` can lead a search through
/// any ascending sequence, and it answers `Same` only of an element that is
/// equivalent to `x`.
pub proof fn lemma_comparison_guides<T: Ord, F: Fn(&T) -> Standing>(probe: F, s: Seq<T>, x: T)
    requires
        lawful::<T>(),
        ascending(s),
        forall|e: T| call_requires(probe, (&e,)),
        forall|e: T, a: Standing| call_ensures(probe, (&e,), a) ==> a == standing(e, x),
    ensures
        guides(probe, s),
        forall|i: int| meets(probe, s, i) ==> equivalent(s[i], x),
{
    assert forall|i: int, j: int, a: Standing, b: Standing|
        0 <= i <= j < s.len() && #[trigger] call_ensures(probe, (&s[i],), a)
            && #[trigger] call_ensures(probe, (&s[j],), b) implies if i == j {
        a == b
    } else {
        a is Before || b is After
    } by {
        lemma_trichotomy(s[i], x);
        lemma_trichotomy(s[j], x);
        if i < j {
            lemma_chain(x, s[i], s[j]);
        }
    }
}

/// The answers of `probe` part `s` at index `at`: it answers `Before` of the
/// elements below that index and of no others, and `After` of the elements
/// from that index on, but for the one at that index itself where `same`
/// says that it answers `Same` of it.
pub open spec fn parts<T, F: Fn(&T) -> Standing>(probe: F, s: Seq<T>, at: int, same: bool) -> bool {
    forall|i: int, a: Standing|
        0 <= i < s.len() && #[trigger] call_ensures(probe, (&s[i],), a) ==> a == if i < at {
            Standing::Before
        } else if i == at && same {
            Standing::Same
        } else {
            Standing::After
        }
}

/// Binary search by `probe`: the index of the first element of which it does
/// not answer `Before`, and whether it answers `Same` of that one. The
/// answers on both sides of that index are among those it gave.
pub(crate) fn locate_by<T, F: Fn(&T) -> Standing>(items: &Vec<T>, probe: &F) -> (place: (
    usize,
    bool,
))
    requires
        guides(*probe, items@),
    ensures
        place.0 <= items@.len(),
        place.1 == meets(*probe, items@, place.0 as int),
        place.1 == exists|i: int| meets(*probe, items@, i),
        parts(*probe, items@, place.0 as int, place.1),
        !place.1 && place.0 > 0 ==> call_ensures(
            *probe,
            (&items@[place.0 - 1],),
            Standing::Before,
        ),
        !place.1 && place.0 < items@.len() ==> call_ensures(
            *probe,
            (&items@[place.0 as int],),
            Standing::After,
        ),
{
    let mut lo: usize = 0;
    let mut hi: usize = items.len();
    while lo < hi
        invariant
            guides(*probe, items@),
            0 <= lo <= hi <= items@.len(),
            lo > 0 ==> call_ensures(*probe, (&items@[lo - 1],), Standing::Before),
            hi < items@.len() ==> call_ensures(*probe, (&items@[hi as int],), Standing::After),
        decreases hi - lo,
    {
        let mid = lo + (hi - lo) / 2;
        match probe(&items[mid]) {
            Standing::Before => {
                lo = mid + 1;
            },
            Standing::Same => {
                return (mid, true);
            },
            Standing::After => {
                hi = mid;
            },
        }
    }
    (lo, false)
}

/// Binary search for `x`: the index at which it stands or would have to
/// stand, and whether an equivalent element stands there.
pub(crate) fn locate<T: Ord>(items: &Vec<T>, x: &T) -> (place: (usize, bool))
    requires
        lawful::<T>(),
        ascending(items@),
    ensures
        place.0 == rank(items@, *x),
        place.1 == holds(items@, *x),
        place.0 <= items@.len(),
        place.1 ==> place.0 < items@.len(),
{
    let probe = |e: &T| -> (outcome: Standing)
        ensures
            outcome == standing(*e, *x),
        { compare(e, x) };
    proof {
        lemma_comparison_guides(probe, items@, *x);
    }
    let place = locate_by(items, &probe);
    proof {
        let at = place.0 as int;
        lemma_holds_at_rank(items@, *x);
        if !place.1 {
            assert forall|i: int| 0 <= i < at implies precedes(#[trigger] items@[i], *x) by {
                if i < at - 1 {
                    lemma_chain(items@[i], items@[at - 1], *x);
                }
            }
            assert forall|i: int| at <= i < items@.len() implies !precedes(
                #[trigger] items@[i],
                *x,
            ) && !equivalent(items@[i], *x) by {
                lemma_trichotomy(items@[i], *x);
                lemma_trichotomy(*x, items@[at]);
                if at < i {
                    lemma_chain(*x, items@[at], items@[i]);
                }
            }
            lemma_rank_is(items@, *x, at);
        }
    }
    place
}

} // verus!
