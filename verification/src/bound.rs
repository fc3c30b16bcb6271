//! The bounds of a range of elements, and the part of an ascending sequence
//! that lies within them.

use crate::model::{lemma_holds_at_rank, lemma_rank_splits};
use crate::order::{ascending, lawful, lemma_trichotomy, precedes, Standing};
use crate::search::{guides, locate, locate_by};
use vstd::prelude::*;

verus! {

/// One end of a range of elements.
#[derive(Debug)]
pub enum Bound<T> {
    /// The range reaches up to the element, and takes it in.
    Included(T),
    /// The range reaches up to the element, and leaves it out.
    Excluded(T),
    /// The range has no end on this side.
    Unbounded,
}

/// `e` is not cut off by the lower bound `lower`.
pub open spec fn above<T: Ord>(lower: Bound<&T>, e: T) -> bool {
    match lower {
        Bound::Included(b) => !precedes(e, *b),
        Bound::Excluded(b) => precedes(*b, e),
        Bound::Unbounded => true,
    }
}

/// `e` is not cut off by the upper bound `upper`.
pub open spec fn below<T: Ord>(upper: Bound<&T>, e: T) -> bool {
    match upper {
        Bound::Included(b) => !precedes(*b, e),
        Bound::Excluded(b) => precedes(e, *b),
        Bound::Unbounded => true,
    }
}

/// `e` lies within both bounds.
pub open spec fn within<T: Ord>(lower: Bound<&T>, upper: Bound<&T>, e: T) -> bool {
    above(lower, e) && below(upper, e)
}

/// The elements of `s` that lie within both bounds, in the order of `s`.
pub open spec fn ranged<T: Ord>(s: Seq<T>, lower: Bound<&T>, upper: Bound<&T>) -> Seq<T> {
    s.filter(|e: T| within(lower, upper, e))
}

/// The probe of `bound`, where it has one, can lead a search through `s`.
pub open spec fn bound_guides<T, F: Fn(&T) -> Standing>(bound: Bound<F>, s: Seq<T>) -> bool {
    match bound {
        Bound::Included(probe) => guides(probe, s),
        Bound::Excluded(probe) => guides(probe, s),
        Bound::Unbounded => true,
    }
}

/// `probe` answers `Before` of the elements of `s` below index `at`, and of
/// no others.
pub open spec fn before_until<T, F: Fn(&T) -> Standing>(probe: F, s: Seq<T>, at: int) -> bool {
    forall|i: int, a: Standing|
        0 <= i < s.len() && #[trigger] call_ensures(probe, (&s[i],), a) ==> (a is Before <==> i
            < at)
}

/// `probe` answers `After` of the elements of `s` from index `at` on, and of
/// no others.
pub open spec fn after_from<T, F: Fn(&T) -> Standing>(probe: F, s: Seq<T>, at: int) -> bool {
    forall|i: int, a: Standing|
        0 <= i < s.len() && #[trigger] call_ensures(probe, (&s[i],), a) ==> (a is After <==> at
            <= i)
}

/// A lower bound whose probe tells how an element stands to it cuts off the
/// elements of `s` below index `from`, and no others.
pub open spec fn lower_cut<T, F: Fn(&T) -> Standing>(lower: Bound<F>, s: Seq<T>, from: int) -> bool {
    &&& 0 <= from <= s.len()
    &&& match lower {
        Bound::Included(probe) => before_until(probe, s, from),
        Bound::Excluded(probe) => after_from(probe, s, from),
        Bound::Unbounded => from == 0,
    }
}

/// An upper bound whose probe tells how an element stands to it cuts off the
/// elements of `s` from index `to` on, and no others.
pub open spec fn upper_cut<T, F: Fn(&T) -> Standing>(upper: Bound<F>, s: Seq<T>, to: int) -> bool {
    &&& 0 <= to <= s.len()
    &&& match upper {
        Bound::Included(probe) => after_from(probe, s, to),
        Bound::Excluded(probe) => before_until(probe, s, to),
        Bound::Unbounded => to == s.len(),
    }
}

/// Where a condition holds of exactly the elements from index `from` up to,
/// and without, index `to`, those are what the filter keeps.
pub proof fn lemma_filter_run<T>(s: Seq<T>, keep: spec_fn(T) -> bool, from: int, to: int)
    requires
        0 <= from <= to <= s.len(),
        forall|i: int| 0 <= i < s.len() ==> (keep(#[trigger] s[i]) <==> from <= i < to),
    ensures
        s.filter(keep) == s.subrange(from, to),
    decreases s.len(),
{
    reveal(Seq::filter);
    if s.len() > 0 {
        let n = s.len() as int;
        let front = s.drop_last();
        assert(forall|i: int| 0 <= i < front.len() ==> front[i] == s[i]);
        if to < n {
            // The last element is not kept, and the run lies in the front.
            lemma_filter_run(front, keep, from, to);
        } else if from < to {
            // The last element is kept, and is the last of the run.
            lemma_filter_run(front, keep, from, to - 1);
        } else {
            // Nothing is kept.
            lemma_filter_run(front, keep, n - 1, n - 1);
        }
    }
}

/// The index of the first element that the lower bound does not cut off.
pub(crate) fn lower_index<T: Ord>(items: &Vec<T>, lower: Bound<&T>) -> (at: usize)
    requires
        lawful::<T>(),
        ascending(items@),
    ensures
        at <= items@.len(),
        forall|i: int| 0 <= i < at ==> !above(lower, #[trigger] items@[i]),
        forall|i: int| at <= i < items@.len() ==> above(lower, #[trigger] items@[i]),
{
    match lower {
        Bound::Included(b) => {
            let (at, _) = locate(items, b);
            proof {
                lemma_rank_splits(items@, *b);
            }
            at
        },
        Bound::Excluded(b) => {
            let (at, present) = locate(items, b);
            proof {
                lemma_rank_splits(items@, *b);
                lemma_holds_at_rank(items@, *b);
                // What neither comes before `b` nor takes its place comes
                // after it.
                assert forall|i: int| 0 <= i < items@.len() implies (precedes(
                    *b,
                    #[trigger] items@[i],
                ) <==> (if present {
                    at < i
                } else {
                    at <= i
                })) by {
                    lemma_trichotomy(*b, items@[i]);
                }
            }
            if present {
                assert(at < items.len());
                at + 1
            } else {
                at
            }
        },
        Bound::Unbounded => 0,
    }
}

/// The index of the first element that the upper bound cuts off.
pub(crate) fn upper_index<T: Ord>(items: &Vec<T>, upper: Bound<&T>) -> (at: usize)
    requires
        lawful::<T>(),
        ascending(items@),
    ensures
        at <= items@.len(),
        forall|i: int| 0 <= i < at ==> below(upper, #[trigger] items@[i]),
        forall|i: int| at <= i < items@.len() ==> !below(upper, #[trigger] items@[i]),
{
    match upper {
        Bound::Included(b) => {
            let (at, present) = locate(items, b);
            proof {
                lemma_rank_splits(items@, *b);
                lemma_holds_at_rank(items@, *b);
                // What neither comes before `b` nor takes its place comes
                // after it.
                assert forall|i: int| 0 <= i < items@.len() implies (precedes(
                    *b,
                    #[trigger] items@[i],
                ) <==> (if present {
                    at < i
                } else {
                    at <= i
                })) by {
                    lemma_trichotomy(*b, items@[i]);
                }
            }
            if present {
                assert(at < items.len());
                at + 1
            } else {
                at
            }
        },
        Bound::Excluded(b) => {
            let (at, _) = locate(items, b);
            proof {
                lemma_rank_splits(items@, *b);
            }
            at
        },
        Bound::Unbounded => items.len(),
    }
}

/// The index of the first element that a lower bound told by a probe does
/// not cut off.
pub(crate) fn lower_index_by<T, F: Fn(&T) -> Standing>(items: &Vec<T>, lower: &Bound<F>) -> (at:
    usize)
    requires
        bound_guides(*lower, items@),
    ensures
        lower_cut(*lower, items@, at as int),
{
    match lower {
        Bound::Included(probe) => locate_by(items, probe).0,
        Bound::Excluded(probe) => {
            let (at, same) = locate_by(items, probe);
            if same {
                assert(at < items.len());
                at + 1
            } else {
                at
            }
        },
        Bound::Unbounded => 0,
    }
}

/// The index of the first element that an upper bound told by a probe cuts
/// off.
pub(crate) fn upper_index_by<T, F: Fn(&T) -> Standing>(items: &Vec<T>, upper: &Bound<F>) -> (at:
    usize)
    requires
        bound_guides(*upper, items@),
    ensures
        upper_cut(*upper, items@, at as int),
{
    match upper {
        Bound::Included(probe) => {
            let (at, same) = locate_by(items, probe);
            if same {
                assert(at < items.len());
                at + 1
            } else {
                at
            }
        },
        Bound::Excluded(probe) => locate_by(items, probe).0,
        Bound::Unbounded => items.len(),
    }
}

} // verus!
