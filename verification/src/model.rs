//! What a set holds, as a mathematical sequence in ascending order, and what
//! each operation makes of it.

use crate::order::{ascending, equivalent, lawful, lemma_chain, lemma_trichotomy, precedes};
use vstd::prelude::*;

verus! {

/// Some element of `s` takes the place of `x` in the order.
pub open spec fn holds<T: Ord>(s: Seq<T>, x: T) -> bool {
    exists|i: int| 0 <= i < s.len() && equivalent(#[trigger] s[i], x)
}

/// How many elements of `s` come strictly before `x`. In an ascending
/// sequence this is the index at which `x` stands, or would have to stand.
pub open spec fn rank<T: Ord>(s: Seq<T>, x: T) -> nat
    decreases s.len(),
{
    if s.len() == 0 {
        0
    } else if precedes(s.last(), x) {
        rank(s.drop_last(), x) + 1
    } else {
        rank(s.drop_last(), x)
    }
}

/// The element of `s` that takes the place of `x`, if there is one.
pub open spec fn found<T: Ord>(s: Seq<T>, x: T) -> Option<T> {
    if holds(s, x) {
        Some(s[rank(s, x) as int])
    } else {
        None
    }
}

/// `s` after `x` was put in: unchanged where an equivalent element is already
/// there, and with `x` at its rank otherwise.
pub open spec fn inserted<T: Ord>(s: Seq<T>, x: T) -> Seq<T> {
    if holds(s, x) {
        s
    } else {
        s.insert(rank(s, x) as int, x)
    }
}

/// `s` after the element that takes the place of `x` was taken out.
pub open spec fn removed<T: Ord>(s: Seq<T>, x: T) -> Seq<T> {
    if holds(s, x) {
        s.remove(rank(s, x) as int)
    } else {
        s
    }
}

/// `s` after each element of `xs` was put in, the first one first.
pub open spec fn inserted_all<T: Ord>(s: Seq<T>, xs: Seq<T>) -> Seq<T>
    decreases xs.len(),
{
    if xs.len() == 0 {
        s
    } else {
        inserted(inserted_all(s, xs.drop_last()), xs.last())
    }
}

/// No more elements than there are come before `x`.
pub proof fn lemma_rank_bound<T: Ord>(s: Seq<T>, x: T)
    ensures
        rank(s, x) <= s.len(),
    decreases s.len(),
{
    if s.len() > 0 {
        lemma_rank_bound(s.drop_last(), x);
    }
}

/// In an ascending sequence the elements before `x` are exactly those below
/// index `rank(s, x)`.
pub proof fn lemma_rank_splits<T: Ord>(s: Seq<T>, x: T)
    requires
        lawful::<T>(),
        ascending(s),
    ensures
        rank(s, x) <= s.len(),
        forall|i: int| 0 <= i < rank(s, x) ==> precedes(#[trigger] s[i], x),
        forall|i: int| rank(s, x) <= i < s.len() ==> !precedes(#[trigger] s[i], x),
    decreases s.len(),
{
    if s.len() > 0 {
        let front = s.drop_last();
        lemma_rank_splits(front, x);
        if precedes(s.last(), x) {
            // Every element comes before the last one, and so before `x`.
            assert forall|i: int| 0 <= i < front.len() implies precedes(#[trigger] front[i], x) by {
                lemma_chain(front[i], s.last(), x);
            }
            assert(rank(front, x) == front.len());
        }
        assert forall|i: int| 0 <= i < rank(s, x) implies precedes(#[trigger] s[i], x) by {
            if i < front.len() {
                assert(s[i] == front[i]);
            }
        }
        assert forall|i: int| rank(s, x) <= i < s.len() implies !precedes(#[trigger] s[i], x) by {
            if i < front.len() {
                assert(s[i] == front[i]);
            }
        }
    }
}

/// The rank is the only index that parts the elements before `x` from the
/// rest.
pub proof fn lemma_rank_is<T: Ord>(s: Seq<T>, x: T, k: int)
    requires
        lawful::<T>(),
        ascending(s),
        0 <= k <= s.len(),
        forall|i: int| 0 <= i < k ==> precedes(#[trigger] s[i], x),
        forall|i: int| k <= i < s.len() ==> !precedes(#[trigger] s[i], x),
    ensures
        rank(s, x) == k,
{
    lemma_rank_splits(s, x);
    let r = rank(s, x) as int;
    if r < k {
        assert(precedes(s[r], x));
    }
    if k < r {
        assert(precedes(s[k], x));
    }
}

/// In an ascending sequence an element that takes the place of `x` can only
/// stand at `rank(s, x)`.
pub proof fn lemma_holds_at_rank<T: Ord>(s: Seq<T>, x: T)
    requires
        lawful::<T>(),
        ascending(s),
    ensures
        holds(s, x) <==> rank(s, x) < s.len() && equivalent(s[rank(s, x) as int], x),
        forall|i: int| 0 <= i < s.len() && equivalent(#[trigger] s[i], x) ==> i == rank(s, x),
{
    lemma_rank_splits(s, x);
    assert forall|i: int| 0 <= i < s.len() && equivalent(#[trigger] s[i], x) implies i == rank(
        s,
        x,
    ) by {
        // What stands before an element in the place of `x` comes before
        // `x`, and nothing else does.
        assert forall|j: int| 0 <= j < i implies precedes(#[trigger] s[j], x) by {
            lemma_chain(s[j], s[i], x);
        }
        lemma_rank_is(s, x, i);
    }
}

/// Putting an element in keeps the order.
pub proof fn lemma_inserted_ascending<T: Ord>(s: Seq<T>, x: T)
    requires
        lawful::<T>(),
        ascending(s),
    ensures
        ascending(inserted(s, x)),
{
    if !holds(s, x) {
        lemma_rank_splits(s, x);
        let k = rank(s, x) as int;
        let t = s.insert(k, x);
        assert forall|i: int, j: int| 0 <= i < j < t.len() implies precedes(t[i], t[j]) by {
            if i == k {
                // What stands behind `x` neither comes before it nor takes
                // its place.
                lemma_trichotomy(s[j - 1], x);
            }
        }
    }
}

/// Taking an element out keeps the order.
pub proof fn lemma_removed_ascending<T: Ord>(s: Seq<T>, x: T)
    requires
        lawful::<T>(),
        ascending(s),
    ensures
        ascending(removed(s, x)),
{
    if holds(s, x) {
        lemma_holds_at_rank(s, x);
    }
}

/// After `x` was put in, the sequence holds what it held before and what is
/// equivalent to `x`, and nothing else.
pub proof fn lemma_inserted_holds<T: Ord>(s: Seq<T>, x: T, y: T)
    requires
        lawful::<T>(),
        ascending(s),
    ensures
        holds(inserted(s, x), y) <==> holds(s, y) || equivalent(x, y),
{
    let t = inserted(s, x);
    if holds(s, x) {
        if equivalent(x, y) {
            let i = choose|i: int| 0 <= i < s.len() && equivalent(#[trigger] s[i], x);
            lemma_chain(s[i], x, y);
        }
    } else {
        lemma_rank_splits(s, x);
        let k = rank(s, x) as int;
        assert(t[k] == x);
        if holds(s, y) {
            let i = choose|i: int| 0 <= i < s.len() && equivalent(#[trigger] s[i], y);
            let j = if i < k { i } else { i + 1 };
            assert(t[j] == s[i]);
        }
        if holds(t, y) {
            let j = choose|j: int| 0 <= j < t.len() && equivalent(#[trigger] t[j], y);
            if j != k {
                let i = if j < k { j } else { j - 1 };
                assert(t[j] == s[i]);
            }
        }
    }
}

/// After the element in the place of `x` was taken out, the sequence holds
/// what it held before but for what is equivalent to `x`.
pub proof fn lemma_removed_holds<T: Ord>(s: Seq<T>, x: T, y: T)
    requires
        lawful::<T>(),
        ascending(s),
    ensures
        holds(removed(s, x), y) <==> holds(s, y) && !equivalent(x, y),
{
    let t = removed(s, x);
    lemma_trichotomy(x, y);
    if holds(s, x) {
        lemma_holds_at_rank(s, x);
        lemma_holds_at_rank(s, y);
        let k = rank(s, x) as int;
        if holds(s, y) && !equivalent(x, y) {
            let i = rank(s, y) as int;
            if i == k {
                lemma_trichotomy(s[k], x);
                lemma_chain(x, s[k], y);
            }
            let j = if i < k { i } else { i - 1 };
            assert(t[j] == s[i]);
        }
        if holds(t, y) {
            let j = choose|j: int| 0 <= j < t.len() && equivalent(#[trigger] t[j], y);
            let i = if j < k { j } else { j + 1 };
            assert(t[j] == s[i]);
            if equivalent(x, y) {
                // Then two elements of `s` would take the place of `y`.
                lemma_chain(s[k], x, y);
            }
        }
    } else {
        if holds(s, y) && equivalent(x, y) {
            let i = choose|i: int| 0 <= i < s.len() && equivalent(#[trigger] s[i], y);
            lemma_chain(s[i], y, x);
        }
    }
}

/// Putting any elements in, one after another, keeps the order.
pub proof fn lemma_inserted_all_ascending<T: Ord>(s: Seq<T>, xs: Seq<T>)
    requires
        lawful::<T>(),
        ascending(s),
    ensures
        ascending(inserted_all(s, xs)),
    decreases xs.len(),
{
    if xs.len() > 0 {
        lemma_inserted_all_ascending(s, xs.drop_last());
        lemma_inserted_ascending(inserted_all(s, xs.drop_last()), xs.last());
    }
}

/// After the elements of `xs` were put in, the sequence holds what it held
/// before and what is equivalent to one of them, and nothing else.
pub proof fn lemma_inserted_all_holds<T: Ord>(s: Seq<T>, xs: Seq<T>, y: T)
    requires
        lawful::<T>(),
        ascending(s),
    ensures
        holds(inserted_all(s, xs), y) <==> holds(s, y) || holds(xs, y),
    decreases xs.len(),
{
    if xs.len() > 0 {
        let front = xs.drop_last();
        lemma_inserted_all_ascending(s, front);
        lemma_inserted_all_holds(s, front, y);
        lemma_inserted_holds(inserted_all(s, front), xs.last(), y);
        // `xs` holds what its front holds and what its last element stands
        // for.
        if holds(front, y) {
            let i = choose|i: int| 0 <= i < front.len() && equivalent(#[trigger] front[i], y);
            assert(xs[i] == front[i]);
        }
        if equivalent(xs.last(), y) {
            assert(equivalent(xs[xs.len() - 1], y));
        }
        if holds(xs, y) {
            let i = choose|i: int| 0 <= i < xs.len() && equivalent(#[trigger] xs[i], y);
            if i < front.len() {
                assert(front[i] == xs[i]);
            }
        }
    }
}

} // verus!
