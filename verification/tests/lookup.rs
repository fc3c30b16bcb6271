use btree_store::order::{compare, Standing};
use btree_store::{draw, BTreeSet, BTreeStore, Bound};
use std::cmp::Ordering;

fn words<'s>(store: &'s BTreeStore<String>, values: &[&str]) -> BTreeSet<'s, String> {
    let mut set = BTreeSet::new_in(store);
    set.extend(values.iter().map(|w| w.to_string()).collect());
    set
}

fn by_text(text: &str) -> impl Fn(&String) -> Standing + '_ {
    move |word: &String| Standing::from_ordering(word.as_str().cmp(text))
}

#[test]
fn standing_from_ordering() {
    assert!(matches!(Standing::from_ordering(Ordering::Less), Standing::Before));
    assert!(matches!(Standing::from_ordering(Ordering::Equal), Standing::Same));
    assert!(matches!(Standing::from_ordering(Ordering::Greater), Standing::After));
}

#[test]
fn compare_tells_the_standing() {
    assert!(matches!(compare(&1, &2), Standing::Before));
    assert!(matches!(compare(&2, &2), Standing::Same));
    assert!(matches!(compare(&3, &2), Standing::After));
    assert!(matches!(compare(&"a", &"b"), Standing::Before));
}

#[test]
fn contains_by_a_borrowed_form() {
    let store = BTreeStore::new(1);
    let set = words(&store, &["pear", "apple", "fig"]);
    assert!(set.contains_by(by_text("fig")));
    assert!(set.contains_by(by_text("apple")));
    assert!(set.contains_by(by_text("pear")));
    assert!(!set.contains_by(by_text("kiwi")));
    assert!(!set.contains_by(by_text("")));
    assert!(!set.contains_by(by_text("zebra")));
}

#[test]
fn get_by_a_borrowed_form() {
    let store = BTreeStore::new(1);
    let set = words(&store, &["pear", "apple", "fig"]);
    assert_eq!(set.get_by(by_text("fig")), Some(&"fig".to_string()));
    assert_eq!(set.get_by(by_text("grape")), None);
}

#[test]
fn get_by_a_key() {
    let store = BTreeStore::<(u32, char)>::new(1);
    let mut set = BTreeSet::new_in(&store);
    set.extend(vec![(30, 'c'), (10, 'a'), (20, 'b'), (40, 'd')]);
    let by_number = |n: u32| move |pair: &(u32, char)| Standing::from_ordering(pair.0.cmp(&n));
    assert_eq!(set.get_by(by_number(20)), Some(&(20, 'b')));
    assert_eq!(set.get_by(by_number(40)), Some(&(40, 'd')));
    assert_eq!(set.get_by(by_number(10)), Some(&(10, 'a')));
    assert_eq!(set.get_by(by_number(25)), None);
    assert!(set.contains_by(by_number(30)));
    assert!(!set.contains_by(by_number(0)));
}

#[test]
fn remove_by_a_borrowed_form() {
    let store = BTreeStore::new(1);
    let mut set = words(&store, &["pear", "apple", "fig"]);
    assert!(!set.remove_by(by_text("kiwi")));
    assert_eq!(set.len(), 3);
    assert!(set.remove_by(by_text("fig")));
    assert!(!set.remove_by(by_text("fig")));
    assert_eq!(set.len(), 2);
    assert!(!set.contains(&"fig".to_string()));
    assert_eq!(set.first(), Some(&"apple".to_string()));
    assert_eq!(set.last(), Some(&"pear".to_string()));
    set.validate();
}

#[test]
fn lookups_by_probe_on_empty_set() {
    let store = BTreeStore::new(1);
    let mut set = words(&store, &[]);
    assert!(!set.contains_by(by_text("a")));
    assert_eq!(set.get_by(by_text("a")), None);
    assert!(!set.remove_by(by_text("a")));
}

#[test]
fn lookups_by_probe_agree_with_lookups_by_value() {
    let store = BTreeStore::<i32>::new(1);
    let mut set = BTreeSet::new_in(&store);
    set.extend((0..60).map(|i| i * 2).collect());
    for x in -3..125 {
        let probe = |e: &i32| compare(e, &x);
        assert_eq!(set.contains_by(probe), set.contains(&x));
        assert_eq!(set.get_by(probe), set.get(&x));
    }
    for x in -3..125 {
        let mut other = BTreeSet::new_in(&store);
        other.extend((0..60).map(|i| i * 2).collect());
        assert_eq!(set.remove_by(|e: &i32| compare(e, &x)), other.remove(&x));
    }
    assert!(set.is_empty());
}

fn ranged_by<L, U>(set: &BTreeSet<'_, String>, lower: Bound<L>, upper: Bound<U>) -> Vec<String>
where
    L: Fn(&String) -> Standing,
    U: Fn(&String) -> Standing,
{
    let mut out = Vec::new();
    let mut range = set.range_by(lower, upper);
    while let Some(word) = range.next() {
        out.push(word.clone());
    }
    out
}

fn unbounded() -> Bound<fn(&String) -> Standing> {
    Bound::Unbounded
}

#[test]
fn range_by_a_borrowed_form() {
    let store = BTreeStore::new(1);
    let set = words(&store, &["pear", "apple", "fig", "kiwi", "date"]);
    assert_eq!(
        ranged_by(&set, Bound::Included(by_text("date")), Bound::Excluded(by_text("kiwi"))),
        vec!["date", "fig"]
    );
    assert_eq!(
        ranged_by(&set, Bound::Excluded(by_text("date")), Bound::Included(by_text("kiwi"))),
        vec!["fig", "kiwi"]
    );
    assert_eq!(
        ranged_by(&set, Bound::Included(by_text("b")), Bound::Included(by_text("g"))),
        vec!["date", "fig"]
    );
    assert_eq!(
        ranged_by(&set, Bound::Excluded(by_text("b")), Bound::Excluded(by_text("g"))),
        vec!["date", "fig"]
    );
    assert_eq!(
        ranged_by(&set, unbounded(), Bound::Excluded(by_text("fig"))),
        vec!["apple", "date"]
    );
    assert_eq!(
        ranged_by(&set, unbounded(), Bound::Included(by_text("fig"))),
        vec!["apple", "date", "fig"]
    );
    assert_eq!(
        ranged_by(&set, Bound::Included(by_text("kiwi")), unbounded()),
        vec!["kiwi", "pear"]
    );
    assert_eq!(ranged_by(&set, Bound::Excluded(by_text("kiwi")), unbounded()), vec!["pear"]);
    assert_eq!(
        ranged_by(&set, unbounded(), unbounded()),
        vec!["apple", "date", "fig", "kiwi", "pear"]
    );
}

#[test]
fn range_by_with_crossed_or_empty_bounds() {
    let store = BTreeStore::new(1);
    let set = words(&store, &["pear", "apple", "fig"]);
    let none = Vec::<String>::new();
    assert_eq!(
        ranged_by(&set, Bound::Included(by_text("pear")), Bound::Included(by_text("apple"))),
        none
    );
    assert_eq!(
        ranged_by(&set, Bound::Excluded(by_text("fig")), Bound::Excluded(by_text("fig"))),
        none
    );
    assert_eq!(
        ranged_by(&set, Bound::Included(by_text("fig")), Bound::Excluded(by_text("fig"))),
        none
    );
    assert_eq!(
        ranged_by(&set, Bound::Included(by_text("fig")), Bound::Included(by_text("fig"))),
        vec!["fig"]
    );
    assert_eq!(ranged_by(&set, Bound::Included(by_text("zoo")), unbounded()), none);
    assert_eq!(ranged_by(&set, unbounded(), Bound::Excluded(by_text("a"))), none);
    let empty = words(&store, &[]);
    assert_eq!(ranged_by(&empty, unbounded(), unbounded()), none);
    assert_eq!(ranged_by(&empty, Bound::Included(by_text("a")), unbounded()), none);
}

#[test]
fn range_by_agrees_with_range() {
    let store = BTreeStore::<i32>::new(1);
    let mut set = BTreeSet::new_in(&store);
    set.extend(vec![-7, -3, 0, 1, 2, 6, 10, 11, 15]);
    let probe = |b: i32| move |e: &i32| compare(e, &b);
    for lo in -9..18 {
        for hi in -9..18 {
            for kinds in 0..4u8 {
                let by_value = {
                    let lower = if kinds & 1 == 0 { Bound::Included(&lo) } else { Bound::Excluded(&lo) };
                    let upper = if kinds & 2 == 0 { Bound::Included(&hi) } else { Bound::Excluded(&hi) };
                    let mut out = Vec::new();
                    let mut range = set.range(lower, upper);
                    while let Some(x) = range.next() {
                        out.push(*x);
                    }
                    out
                };
                let by_probe = {
                    let lower = if kinds & 1 == 0 {
                        Bound::Included(probe(lo))
                    } else {
                        Bound::Excluded(probe(lo))
                    };
                    let upper = if kinds & 2 == 0 {
                        Bound::Included(probe(hi))
                    } else {
                        Bound::Excluded(probe(hi))
                    };
                    let mut out = Vec::new();
                    let mut range = set.range_by(lower, upper);
                    while let Some(x) = range.next_back() {
                        out.push(*x);
                    }
                    out.reverse();
                    out
                };
                assert_eq!(by_value, by_probe);
            }
        }
    }
}

#[test]
fn print_draws_the_labels_in_order() {
    let store = BTreeStore::<i32>::new(1);
    let mut set = BTreeSet::new_in(&store);
    assert_eq!(set.print(|x| format!("{:?}", x)), "[]");
    set.insert(5);
    assert_eq!(set.print(|x| format!("{:?}", x)), "[5]");
    set.extend(vec![3, 8, 3]);
    assert_eq!(set.print(|x| format!("{:?}", x)), "[3, 5, 8]");
    assert_eq!(set.print(|x| format!("<{}>", x * 2)), "[<6>, <10>, <16>]");
}

#[test]
fn print_of_words() {
    let store = BTreeStore::new(1);
    let set = words(&store, &["pear", "apple", "fig"]);
    assert_eq!(set.print(|w| format!("{:?}", w)), "[\"apple\", \"fig\", \"pear\"]");
    assert_eq!(set.print(|w| w.clone()), "[apple, fig, pear]");
    assert_eq!(set.print(|_| String::new()), "[, , ]");
}

#[test]
fn draw_joins_labels() {
    assert_eq!(draw::draw(&vec![]), "[]");
    assert_eq!(draw::draw(&vec!["a".to_string()]), "[a]");
    assert_eq!(draw::draw(&vec!["a".to_string(), "b".to_string()]), "[a, b]");
    assert_eq!(
        draw::draw(&vec!["x".to_string(), String::new(), "z".to_string()]),
        "[x, , z]"
    );
}
