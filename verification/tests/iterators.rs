use btree_store::{BTreeSet, BTreeStore, Bound};

fn set_of<'s>(store: &'s BTreeStore<i32>, values: &[i32]) -> BTreeSet<'s, i32> {
    let mut set = BTreeSet::new_in(store);
    set.extend(values.to_vec());
    set
}

fn in_bounds(lower: &Bound<&i32>, upper: &Bound<&i32>, x: i32) -> bool {
    let above = match lower {
        Bound::Included(b) => x >= **b,
        Bound::Excluded(b) => x > **b,
        Bound::Unbounded => true,
    };
    let below = match upper {
        Bound::Included(b) => x <= **b,
        Bound::Excluded(b) => x < **b,
        Bound::Unbounded => true,
    };
    above && below
}

fn ranged(set: &BTreeSet<'_, i32>, lower: Bound<&i32>, upper: Bound<&i32>) -> Vec<i32> {
    let mut out = Vec::new();
    let mut range = set.range(lower, upper);
    while let Some(x) = range.next() {
        out.push(*x);
    }
    out
}

fn bound_of(kind: u8, value: &i32) -> Bound<&i32> {
    match kind {
        0 => Bound::Included(value),
        1 => Bound::Excluded(value),
        _ => Bound::Unbounded,
    }
}

#[test]
fn iter_yields_in_ascending_order() {
    let store = BTreeStore::new(1);
    let set = set_of(&store, &[5, 3, 8, 3]);
    let mut iter = set.iter();
    assert_eq!(iter.next(), Some(&3));
    assert_eq!(iter.next(), Some(&5));
    assert_eq!(iter.next(), Some(&8));
    assert_eq!(iter.next(), None);
}

#[test]
fn iter_is_fresh_on_each_call() {
    let store = BTreeStore::new(1);
    let set = set_of(&store, &[2, 1]);
    let mut first = set.iter();
    assert_eq!(first.next(), Some(&1));
    let mut second = set.iter();
    assert_eq!(second.next(), Some(&1));
    assert_eq!(second.next(), Some(&2));
    assert_eq!(first.next(), Some(&2));
    assert_eq!(set.len(), 2);
}

#[test]
fn iter_backwards_yields_in_descending_order() {
    let store = BTreeStore::new(1);
    let set = set_of(&store, &[5, 3, 8]);
    let mut iter = set.iter();
    assert_eq!(iter.next_back(), Some(&8));
    assert_eq!(iter.next_back(), Some(&5));
    assert_eq!(iter.next_back(), Some(&3));
    assert_eq!(iter.next_back(), None);
    assert_eq!(iter.next(), None);
}

#[test]
fn iter_len_counts_down() {
    let store = BTreeStore::new(1);
    let set = set_of(&store, &[1, 2, 3, 4]);
    let mut iter = set.iter();
    assert_eq!(iter.len(), 4);
    assert_eq!(iter.size_hint(), (4, Some(4)));
    iter.next();
    assert_eq!(iter.len(), 3);
    iter.next_back();
    assert_eq!(iter.len(), 2);
    assert_eq!(iter.size_hint(), (2, Some(2)));
    iter.next();
    iter.next();
    assert_eq!(iter.len(), 0);
    assert_eq!(iter.size_hint(), (0, Some(0)));
    iter.next();
    assert_eq!(iter.len(), 0);
}

#[test]
fn iter_stays_exhausted() {
    let store = BTreeStore::new(1);
    let set = set_of(&store, &[1]);
    let mut iter = set.iter();
    assert_eq!(iter.next(), Some(&1));
    for _ in 0..5 {
        assert_eq!(iter.next(), None);
        assert_eq!(iter.next_back(), None);
        assert_eq!(iter.len(), 0);
    }
}

#[test]
fn iter_over_empty_set_yields_nothing() {
    let store = BTreeStore::new(1);
    let set = set_of(&store, &[]);
    let mut iter = set.iter();
    assert_eq!(iter.len(), 0);
    assert_eq!(iter.next(), None);
    assert_eq!(iter.next_back(), None);
}

#[test]
fn iter_from_both_ends_meets_in_the_middle() {
    let store = BTreeStore::new(1);
    let set = set_of(&store, &[1, 2, 3, 4, 5]);
    let mut iter = set.iter();
    assert_eq!(iter.next(), Some(&1));
    assert_eq!(iter.next_back(), Some(&5));
    assert_eq!(iter.next_back(), Some(&4));
    assert_eq!(iter.next(), Some(&2));
    assert_eq!(iter.next(), Some(&3));
    assert_eq!(iter.next(), None);
    assert_eq!(iter.next_back(), None);
}

#[test]
fn interleaved_iteration_yields_each_element_once() {
    let store = BTreeStore::new(1);
    let values: Vec<i32> = (0..37).map(|i| i * 3 - 20).collect();
    let set = set_of(&store, &values);
    for pattern in 0u32..64 {
        let mut iter = set.iter();
        let mut front = Vec::new();
        let mut back = Vec::new();
        let mut step = 0;
        loop {
            let remaining = iter.len();
            let from_front = (pattern >> (step % 6)) & 1 == 0;
            let item = if from_front { iter.next() } else { iter.next_back() };
            match item {
                Some(x) => {
                    assert_eq!(iter.len(), remaining - 1);
                    if from_front {
                        front.push(*x);
                    } else {
                        back.push(*x);
                    }
                }
                None => {
                    assert_eq!(remaining, 0);
                    break;
                }
            }
            step += 1;
        }
        back.reverse();
        front.extend(back);
        assert_eq!(front, values);
    }
}

#[test]
fn into_iter_drains_in_ascending_order() {
    let store = BTreeStore::new(1);
    let set = set_of(&store, &[9, 7, 8]);
    let mut iter = set.into_iter();
    assert_eq!(iter.len(), 3);
    assert_eq!(iter.size_hint(), (3, Some(3)));
    assert_eq!(iter.next(), Some(7));
    assert_eq!(iter.len(), 2);
    assert_eq!(iter.next(), Some(8));
    assert_eq!(iter.next(), Some(9));
    assert_eq!(iter.next(), None);
    assert_eq!(iter.next(), None);
    assert_eq!(iter.len(), 0);
    assert_eq!(iter.size_hint(), (0, Some(0)));
}

#[test]
fn into_iter_from_both_ends() {
    let store = BTreeStore::new(1);
    let set = set_of(&store, &[1, 2, 3, 4]);
    let mut iter = set.into_iter();
    assert_eq!(iter.next_back(), Some(4));
    assert_eq!(iter.next(), Some(1));
    assert_eq!(iter.next_back(), Some(3));
    assert_eq!(iter.len(), 1);
    assert_eq!(iter.next_back(), Some(2));
    assert_eq!(iter.next_back(), None);
    assert_eq!(iter.next(), None);
}

#[test]
fn into_iter_keeps_the_store() {
    let store = BTreeStore::new(77);
    let set = set_of(&store, &[1]);
    let iter = set.into_iter();
    assert_eq!(iter.store().id(), 77);
}

#[test]
fn into_iter_of_empty_set_yields_nothing() {
    let store = BTreeStore::new(1);
    let set = set_of(&store, &[]);
    let mut iter = set.into_iter();
    assert_eq!(iter.len(), 0);
    assert_eq!(iter.next(), None);
    assert_eq!(iter.next_back(), None);
}

#[test]
fn round_trip_forwards() {
    let store = BTreeStore::new(3);
    let source = set_of(&store, &[12, -4, 7, 0, 33, 7, 5]);
    let expected = vec![-4, 0, 5, 7, 12, 33];
    let mut drained = Vec::new();
    let mut iter = source.into_iter();
    while let Some(x) = iter.next() {
        drained.push(x);
    }
    assert_eq!(drained, expected);
    let mut rebuilt = BTreeSet::new_in(iter.store());
    rebuilt.extend(drained);
    rebuilt.assert_store(&store);
    let mut again = Vec::new();
    let mut iter = rebuilt.iter();
    while let Some(x) = iter.next() {
        again.push(*x);
    }
    assert_eq!(again, expected);
}

#[test]
fn round_trip_backwards_and_interleaved() {
    let store = BTreeStore::new(3);
    let expected = vec![-4, 0, 5, 7, 12, 33];
    for pattern in 0u32..64 {
        let source = set_of(&store, &[33, 12, 7, 5, 0, -4]);
        let mut drained = Vec::new();
        let mut iter = source.into_iter();
        let mut step = 0;
        loop {
            let item = if (pattern >> step) & 1 == 0 { iter.next() } else { iter.next_back() };
            match item {
                Some(x) => drained.push(x),
                None => break,
            }
            step += 1;
        }
        assert_eq!(drained.len(), expected.len());
        let mut rebuilt = BTreeSet::new_in(&store);
        rebuilt.extend(drained);
        let mut again = Vec::new();
        let mut iter = rebuilt.iter();
        while let Some(x) = iter.next() {
            again.push(*x);
        }
        assert_eq!(again, expected);
    }
}

#[test]
fn range_with_each_kind_of_bound() {
    let store = BTreeStore::new(1);
    let set = set_of(&store, &[1, 3, 5, 7, 9]);
    assert_eq!(ranged(&set, Bound::Included(&3), Bound::Excluded(&7)), vec![3, 5]);
    assert_eq!(ranged(&set, Bound::Included(&3), Bound::Included(&7)), vec![3, 5, 7]);
    assert_eq!(ranged(&set, Bound::Excluded(&3), Bound::Excluded(&7)), vec![5]);
    assert_eq!(ranged(&set, Bound::Excluded(&3), Bound::Included(&7)), vec![5, 7]);
    assert_eq!(ranged(&set, Bound::Unbounded, Bound::Excluded(&5)), vec![1, 3]);
    assert_eq!(ranged(&set, Bound::Unbounded, Bound::Included(&5)), vec![1, 3, 5]);
    assert_eq!(ranged(&set, Bound::Included(&5), Bound::Unbounded), vec![5, 7, 9]);
    assert_eq!(ranged(&set, Bound::Excluded(&5), Bound::Unbounded), vec![7, 9]);
    assert_eq!(ranged(&set, Bound::Unbounded, Bound::Unbounded), vec![1, 3, 5, 7, 9]);
}

#[test]
fn range_with_bounds_that_are_not_elements() {
    let store = BTreeStore::new(1);
    let set = set_of(&store, &[1, 3, 5, 7, 9]);
    assert_eq!(ranged(&set, Bound::Included(&2), Bound::Excluded(&8)), vec![3, 5, 7]);
    assert_eq!(ranged(&set, Bound::Excluded(&2), Bound::Included(&8)), vec![3, 5, 7]);
    assert_eq!(ranged(&set, Bound::Included(&-5), Bound::Included(&0)), Vec::<i32>::new());
    assert_eq!(ranged(&set, Bound::Included(&10), Bound::Unbounded), Vec::<i32>::new());
    assert_eq!(ranged(&set, Bound::Included(&4), Bound::Included(&4)), Vec::<i32>::new());
}

#[test]
fn range_of_one_element() {
    let store = BTreeStore::new(1);
    let set = set_of(&store, &[1, 3, 5]);
    assert_eq!(ranged(&set, Bound::Included(&3), Bound::Included(&3)), vec![3]);
    assert_eq!(ranged(&set, Bound::Included(&3), Bound::Excluded(&3)), Vec::<i32>::new());
    assert_eq!(ranged(&set, Bound::Excluded(&3), Bound::Included(&3)), Vec::<i32>::new());
    assert_eq!(ranged(&set, Bound::Excluded(&3), Bound::Excluded(&3)), Vec::<i32>::new());
}

#[test]
fn range_with_crossed_bounds_is_empty() {
    let store = BTreeStore::new(1);
    let set = set_of(&store, &[1, 3, 5, 7, 9]);
    assert_eq!(ranged(&set, Bound::Included(&7), Bound::Included(&3)), Vec::<i32>::new());
    assert_eq!(ranged(&set, Bound::Excluded(&9), Bound::Excluded(&1)), Vec::<i32>::new());
    assert_eq!(ranged(&set, Bound::Included(&8), Bound::Excluded(&2)), Vec::<i32>::new());
}

#[test]
fn range_over_empty_set_is_empty() {
    let store = BTreeStore::new(1);
    let set = set_of(&store, &[]);
    assert_eq!(ranged(&set, Bound::Unbounded, Bound::Unbounded), Vec::<i32>::new());
    assert_eq!(ranged(&set, Bound::Included(&1), Bound::Included(&2)), Vec::<i32>::new());
}

#[test]
fn range_is_the_filtered_iteration() {
    let store = BTreeStore::new(1);
    let values = [-7, -3, 0, 1, 2, 6, 10, 11, 15];
    let set = set_of(&store, &values);
    for lo in -9..18 {
        for hi in -9..18 {
            for lower_kind in 0..3u8 {
                for upper_kind in 0..3u8 {
                    let lower = bound_of(lower_kind, &lo);
                    let upper = bound_of(upper_kind, &hi);
                    let expected: Vec<i32> = values
                        .iter()
                        .copied()
                        .filter(|x| in_bounds(&lower, &upper, *x))
                        .collect();
                    assert_eq!(ranged(&set, lower, upper), expected);
                }
            }
        }
    }
}

#[test]
fn range_from_both_ends() {
    let store = BTreeStore::new(1);
    let set = set_of(&store, &[1, 2, 3, 4, 5, 6]);
    let mut range = set.range(Bound::Included(&2), Bound::Excluded(&6));
    assert_eq!(range.size_hint(), (4, Some(4)));
    assert_eq!(range.next_back(), Some(&5));
    assert_eq!(range.next(), Some(&2));
    assert_eq!(range.next(), Some(&3));
    assert_eq!(range.size_hint(), (1, Some(1)));
    assert_eq!(range.next_back(), Some(&4));
    assert_eq!(range.next_back(), None);
    assert_eq!(range.next(), None);
    assert_eq!(range.size_hint(), (0, Some(0)));
}
