//! What holds of the operations of a set taken together. Each law is stated
//! of the sequences that the operations' contracts speak of.

use crate::model::{
    holds, inserted, inserted_all, lemma_inserted_all_ascending, lemma_inserted_all_holds,
    lemma_inserted_ascending, lemma_inserted_holds, lemma_rank_bound, lemma_removed_ascending,
    lemma_removed_holds, rank, removed,
};
use crate::order::{ascending, equivalent, lawful, lemma_trichotomy};
use vstd::multiset::Multiset;
use vstd::prelude::*;
use vstd::seq_lib::{to_multiset_build, to_multiset_contains, to_multiset_len, to_multiset_remove};

verus! {

/// No two elements of `xs` are equivalent.
pub open spec fn distinct<T: Ord>(xs: Seq<T>) -> bool {
    forall|i: int, j: int| 0 <= i < j < xs.len() ==> !equivalent(xs[i], xs[j])
}

/// A set into which distinct elements were inserted, in whatever order, has
/// as many elements as were inserted, holds exactly those, and yields them in
/// strictly ascending order.
pub proof fn law_distinct_insertions<T: Ord>(xs: Seq<T>)
    requires
        lawful::<T>(),
        distinct(xs),
    ensures
        inserted_all(Seq::empty(), xs).len() == xs.len(),
        ascending(inserted_all(Seq::empty(), xs)),
        forall|y: T| holds(inserted_all(Seq::empty(), xs), y) <==> holds(xs, y),
    decreases xs.len(),
{
    let none = Seq::<T>::empty();
    lemma_inserted_all_ascending(none, xs);
    assert forall|y: T| holds(inserted_all(none, xs), y) <==> holds(xs, y) by {
        lemma_inserted_all_holds(none, xs, y);
    }
    if xs.len() > 0 {
        let front = xs.drop_last();
        assert(distinct(front)) by {
            assert forall|i: int, j: int| 0 <= i < j < front.len() implies !equivalent(
                front[i],
                front[j],
            ) by {
                assert(front[i] == xs[i] && front[j] == xs[j]);
            }
        }
        law_distinct_insertions(front);
        // The last element is equivalent to none before it, so it is put in.
        assert(!holds(front, xs.last())) by {
            assert forall|i: int| 0 <= i < front.len() implies !equivalent(
                #[trigger] front[i],
                xs.last(),
            ) by {
                assert(front[i] == xs[i]);
            }
        }
        lemma_rank_bound(inserted_all(none, front), xs.last());
    }
}

/// After `insert(x)`, `contains(x)` is true.
pub proof fn law_insert_then_contains<T: Ord>(s: Seq<T>, x: T)
    requires
        lawful::<T>(),
        ascending(s),
    ensures
        holds(inserted(s, x), x),
{
    lemma_inserted_holds(s, x, x);
    lemma_trichotomy(x, x);
}

/// After `remove(x)`, `contains(x)` is false.
pub proof fn law_remove_then_absent<T: Ord>(s: Seq<T>, x: T)
    requires
        lawful::<T>(),
        ascending(s),
    ensures
        !holds(removed(s, x), x),
{
    lemma_removed_holds(s, x, x);
    lemma_trichotomy(x, x);
}

/// Of two calls of `insert(x)` on a set without `x`, the first finds `x`
/// absent and makes the set one longer; the second finds it present and
/// changes nothing.
pub proof fn law_insert_twice<T: Ord>(s: Seq<T>, x: T)
    requires
        lawful::<T>(),
        ascending(s),
        !holds(s, x),
    ensures
        inserted(s, x).len() == s.len() + 1,
        holds(inserted(s, x), x),
        inserted(inserted(s, x), x) == inserted(s, x),
{
    law_insert_then_contains(s, x);
    lemma_rank_bound(s, x);
}

/// A second `insert(x)` never changes a set, whatever the first one found.
pub proof fn law_insert_again<T: Ord>(s: Seq<T>, x: T)
    requires
        lawful::<T>(),
        ascending(s),
    ensures
        holds(inserted(s, x), x),
        inserted(inserted(s, x), x) == inserted(s, x),
{
    law_insert_then_contains(s, x);
}

/// Two ascending sequences made of the same elements are the same sequence.
pub proof fn lemma_same_elements<T: Ord>(a: Seq<T>, b: Seq<T>)
    requires
        lawful::<T>(),
        ascending(a),
        ascending(b),
        forall|i: int| 0 <= i < a.len() ==> b.contains(#[trigger] a[i]),
        forall|j: int| 0 <= j < b.len() ==> a.contains(#[trigger] b[j]),
    ensures
        a == b,
    decreases a.len(),
{
    if a.len() == 0 {
        if b.len() > 0 {
            assert(a.contains(b[0]));
        }
        assert(a =~= b);
    } else {
        // `b` is not empty either.
        assert(b.contains(a[0]));
        let n = a.len() - 1;
        let m = b.len() - 1;
        // The greatest element of each stands in the other, and can only be
        // the greatest there: else `a[n]`, which is `b[j]`, would come
        // before `b[m]`, which is some `a[i]` and does not come after `a[n]`.
        let j = choose|j: int| 0 <= j < b.len() && b[j] == a[n];
        let i = choose|i: int| 0 <= i < a.len() && a[i] == b[m];
        assert(j == m) by {
            lemma_trichotomy(a[n], a[i]);
        }
        // What stands before the greatest in one stands before it in the
        // other.
        let a0 = a.drop_last();
        let b0 = b.drop_last();
        assert forall|p: int| 0 <= p < a0.len() implies b0.contains(#[trigger] a0[p]) by {
            let q = choose|q: int| 0 <= q < b.len() && b[q] == a[p];
            lemma_trichotomy(a[p], a[n]);
            assert(b0[q] == b[q]);
        }
        assert forall|q: int| 0 <= q < b0.len() implies a0.contains(#[trigger] b0[q]) by {
            let p = choose|p: int| 0 <= p < a.len() && a[p] == b[q];
            lemma_trichotomy(b[q], b[m]);
            assert(a0[p] == a[p]);
        }
        lemma_same_elements(a0, b0);
        assert(a =~= a0.push(a[n]));
        assert(b =~= b0.push(b[m]));
    }
}

/// Whatever is put into an empty sequence, every element of the outcome is
/// one of those that were put in.
proof fn lemma_inserted_all_from<T: Ord>(xs: Seq<T>, i: int)
    requires
        0 <= i < inserted_all(Seq::empty(), xs).len(),
    ensures
        xs.contains(inserted_all(Seq::empty(), xs)[i]),
    decreases xs.len(),
{
    if xs.len() > 0 {
        let front = xs.drop_last();
        let t = inserted_all(Seq::empty(), front);
        let k = rank(t, xs.last()) as int;
        lemma_rank_bound(t, xs.last());
        if !holds(t, xs.last()) && i == k {
            assert(xs[xs.len() - 1] == xs.last());
        } else {
            // The element was there before the last one was put in.
            let h = if holds(t, xs.last()) || i < k {
                i
            } else {
                i - 1
            };
            lemma_inserted_all_from(front, h);
            let p = choose|p: int| 0 <= p < front.len() && front[p] == t[h];
            assert(xs[p] == front[p]);
        }
    }
}

/// The elements of a set, drained in any order and inserted into an empty
/// set, make the same set again.
pub proof fn law_round_trip<T: Ord>(s: Seq<T>, drained: Seq<T>)
    requires
        lawful::<T>(),
        ascending(s),
        drained.to_multiset() == s.to_multiset(),
    ensures
        inserted_all(Seq::empty(), drained) == s,
{
    let none = Seq::<T>::empty();
    let t = inserted_all(none, drained);
    lemma_inserted_all_ascending(none, drained);
    assert forall|i: int| 0 <= i < t.len() implies s.contains(#[trigger] t[i]) by {
        lemma_inserted_all_from(drained, i);
        to_multiset_contains(drained, t[i]);
        to_multiset_contains(s, t[i]);
    }
    assert forall|j: int| 0 <= j < s.len() implies t.contains(#[trigger] s[j]) by {
        // The element was drained, so the outcome holds one in its place.
        to_multiset_contains(drained, s[j]);
        to_multiset_contains(s, s[j]);
        let d = choose|d: int| 0 <= d < drained.len() && drained[d] == s[j];
        lemma_trichotomy(drained[d], s[j]);
        lemma_inserted_all_holds(none, drained, s[j]);
        let i = choose|i: int| 0 <= i < t.len() && equivalent(#[trigger] t[i], s[j]);
        // That one is an element of the set, and no other element of the
        // set is equivalent to this one.
        let k = choose|k: int| 0 <= k < s.len() && s[k] == t[i];
        lemma_trichotomy(s[k], s[j]);
        assert(k == j);
    }
    lemma_same_elements(t, s);
}

/// One change to a set.
pub enum Change<T> {
    /// `insert` of the value.
    Insert(T),
    /// `remove` of the value.
    Remove(T),
    /// `pop_first`.
    PopFirst,
    /// `pop_last`.
    PopLast,
    /// `clear`.
    Clear,
}

/// What a set holds after one change.
pub open spec fn changed<T: Ord>(s: Seq<T>, change: Change<T>) -> Seq<T> {
    match change {
        Change::Insert(x) => inserted(s, x),
        Change::Remove(x) => removed(s, x),
        Change::PopFirst => if s.len() > 0 {
            s.drop_first()
        } else {
            s
        },
        Change::PopLast => if s.len() > 0 {
            s.drop_last()
        } else {
            s
        },
        Change::Clear => Seq::empty(),
    }
}

/// What a set holds after each of `changes` was made, the first one first.
pub open spec fn changed_by_all<T: Ord>(s: Seq<T>, changes: Seq<Change<T>>) -> Seq<T>
    decreases changes.len(),
{
    if changes.len() == 0 {
        s
    } else {
        changed(changed_by_all(s, changes.drop_last()), changes.last())
    }
}

/// Whatever changes are made to a set, one after another, its elements stay
/// in strictly ascending order: `validate` finds nothing wrong.
pub proof fn law_always_valid<T: Ord>(s: Seq<T>, changes: Seq<Change<T>>)
    requires
        lawful::<T>(),
        ascending(s),
    ensures
        ascending(changed_by_all(s, changes)),
    decreases changes.len(),
{
    if changes.len() > 0 {
        law_always_valid(s, changes.drop_last());
        let t = changed_by_all(s, changes.drop_last());
        match changes.last() {
            Change::Insert(x) => lemma_inserted_ascending(t, x),
            Change::Remove(x) => lemma_removed_ascending(t, x),
            Change::PopFirst => {},
            Change::PopLast => {},
            Change::Clear => {},
        }
    }
}

/// The end at which an iterator is advanced.
#[derive(Clone, Copy, Debug, PartialEq, Eq, Structural)]
pub enum End {
    /// `next`.
    Front,
    /// `next_back`.
    Back,
}

/// What an iterator over `s` has left after it was advanced at each of
/// `ends`, the first one first.
pub open spec fn left_after<T>(s: Seq<T>, ends: Seq<End>) -> Seq<T>
    decreases ends.len(),
{
    if ends.len() == 0 {
        s
    } else {
        let left = left_after(s, ends.drop_last());
        if left.len() == 0 {
            left
        } else {
            match ends.last() {
                End::Front => left.drop_first(),
                End::Back => left.drop_last(),
            }
        }
    }
}

/// What `next` has yielded, in the order in which it did.
pub open spec fn yielded_front<T>(s: Seq<T>, ends: Seq<End>) -> Seq<T>
    decreases ends.len(),
{
    if ends.len() == 0 {
        Seq::empty()
    } else {
        let left = left_after(s, ends.drop_last());
        let so_far = yielded_front(s, ends.drop_last());
        if left.len() > 0 && ends.last() is Front {
            so_far.push(left.first())
        } else {
            so_far
        }
    }
}

/// What `next_back` has yielded, in the order in which it did.
pub open spec fn yielded_back<T>(s: Seq<T>, ends: Seq<End>) -> Seq<T>
    decreases ends.len(),
{
    if ends.len() == 0 {
        Seq::empty()
    } else {
        let left = left_after(s, ends.drop_last());
        let so_far = yielded_back(s, ends.drop_last());
        if left.len() > 0 && ends.last() is Back {
            so_far.push(left.last())
        } else {
            so_far
        }
    }
}

/// What an iterator over `s` has yielded, from whichever end, in the order in
/// which it did.
pub open spec fn yielded<T>(s: Seq<T>, ends: Seq<End>) -> Seq<T>
    decreases ends.len(),
{
    if ends.len() == 0 {
        Seq::empty()
    } else {
        let left = left_after(s, ends.drop_last());
        let so_far = yielded(s, ends.drop_last());
        if left.len() == 0 {
            so_far
        } else {
            match ends.last() {
                End::Front => so_far.push(left.first()),
                End::Back => so_far.push(left.last()),
            }
        }
    }
}

/// However an iterator is advanced from its two ends, what came from the
/// front, what is left, and what came from the back, read backwards, are
/// together the sequence it started with: no element is yielded twice and
/// none is passed over. Once it was advanced as often as there were
/// elements, nothing is left.
pub proof fn law_two_ended<T>(s: Seq<T>, ends: Seq<End>)
    ensures
        yielded_front(s, ends) + left_after(s, ends) + yielded_back(s, ends).reverse() == s,
        yielded_front(s, ends).len() + yielded_back(s, ends).len() == if ends.len() <= s.len() {
            ends.len()
        } else {
            s.len()
        },
        ends.len() >= s.len() ==> left_after(s, ends).len() == 0,
    decreases ends.len(),
{
    if ends.len() > 0 {
        law_two_ended(s, ends.drop_last());
    }
}

/// What an iterator has yielded and what it has left are, taken together,
/// the elements it started with, each as often as it was there.
pub proof fn lemma_yielded_and_left<T>(s: Seq<T>, ends: Seq<End>)
    ensures
        yielded(s, ends).to_multiset().add(left_after(s, ends).to_multiset()) == s.to_multiset(),
    decreases ends.len(),
{
    if ends.len() == 0 {
        assert(yielded(s, ends).to_multiset() =~= Multiset::<T>::empty()) by {
            to_multiset_len(yielded(s, ends));
        }
    } else {
        let before = ends.drop_last();
        lemma_yielded_and_left(s, before);
        let left = left_after(s, before);
        let so_far = yielded(s, before);
        if left.len() > 0 {
            // The element moves from what is left to what was yielded.
            let at = if ends.last() is Front {
                0
            } else {
                left.len() - 1
            };
            assert(left_after(s, ends) =~= left.remove(at));
            to_multiset_remove(left, at);
            to_multiset_build(so_far, left[at]);
            to_multiset_contains(left, left[at]);
            assert(so_far.to_multiset().insert(left[at]).add(
                left.to_multiset().remove(left[at]),
            ) =~= so_far.to_multiset().add(left.to_multiset()));
        }
    }
}

/// A set that is drained through its owning iterator, from whichever ends
/// and in whatever turns, and whose elements are then inserted into an empty
/// set in the order in which they came, is made again as it was.
pub proof fn law_drain_and_rebuild<T: Ord>(s: Seq<T>, ends: Seq<End>)
    requires
        lawful::<T>(),
        ascending(s),
        ends.len() >= s.len(),
    ensures
        inserted_all(Seq::empty(), yielded(s, ends)) == s,
{
    law_two_ended(s, ends);
    lemma_yielded_and_left(s, ends);
    assert(left_after(s, ends).to_multiset() =~= Multiset::<T>::empty()) by {
        to_multiset_len(left_after(s, ends));
    }
    assert(yielded(s, ends).to_multiset().add(Multiset::<T>::empty()) =~= yielded(
        s,
        ends,
    ).to_multiset());
    law_round_trip(s, yielded(s, ends));
}

} // verus!
