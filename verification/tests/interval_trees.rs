use gridiron::aug_bst::Tree;
use gridiron::aug_node::Node;
use gridiron::interval_set::IntervalSet;
use gridiron::interval_map::IntervalMap;
use gridiron::overlap::{overlaps, Bound};
use std::ops::Range;

/// A simple deterministic linear congruential generator.
fn stupid_random_intervals(len: usize, mut seed: usize) -> Vec<Range<i64>> {
    let mut values = Vec::new();
    let a = 1103515245;
    let c = 12345;
    let m = 1 << 31;
    for _ in 0..len {
        seed = (a * seed + c) % m;
        values.push(seed as i64..seed as i64 + 30)
    }
    values
}

#[test]
fn aug_bst_max_value_is_correctly_recorded_for_random_collected_tree() {
    let tree = Tree::from_keys(stupid_random_intervals(1000, 666));
    assert!(tree.validate_max());
    assert!(tree.validate_order());
}

#[test]
fn aug_bst_max_value_is_correctly_recorded_for_random_incremental_tree() {
    let mut tree = Tree::new();
    for x in stupid_random_intervals(1000, 12345) {
        tree.insert(x)
    }
    assert!(tree.validate_max());
    assert!(tree.validate_order());
}

#[test]
fn tree_contains_works() {
    let mut tree = Tree::new();
    tree.insert(-5..0);
    tree.insert(-2..0);
    tree.insert(-8..8);
    tree.insert(-6..2);
    tree.insert(-1..2);
    assert_eq!(tree.len(), 5);
    assert!(tree.contains(&(-1..2)));
    assert!(tree.contains(&(-6..2)));
    assert!(!tree.contains(&(-6..3)));
    assert!(tree.validate_max());
    assert!(tree.validate_order());
}

#[test]
fn tree_removal_works() {
    for i in 0..100 {
        let intervals = stupid_random_intervals(100, i);
        let mut tree = Tree::new();

        for x in &intervals {
            tree.insert(x.clone())
        }

        let x = &intervals[i];
        assert!(tree.contains(x));
        tree.remove(x);
        assert!(!tree.contains(x));

        assert!(tree.validate_max());
        assert!(tree.validate_order());
    }
}

#[test]
fn can_balance_tree() {
    let tree = Tree::from_keys((0..0).map(|i| i..i + 10).collect());
    assert_eq!(tree.into_balanced().height(), 0);

    let tree = Tree::from_keys((0..2047).map(|i| i..i + 10).collect());
    assert_eq!(tree.into_balanced().height(), 11);

    let tree = Tree::from_keys((0..2048).map(|i| i..i + 10).collect());
    assert_eq!(tree.into_balanced().height(), 12);
}

#[test]
fn tree_into_iter_works() {
    let mut tree = Tree::new();
    tree.insert(5..12);
    tree.insert(2..12);
    tree.insert(7..12);
    tree.insert(0..12);

    let mut iter = tree.iter();
    assert_eq!(iter.next(), Some(&(0..12)));
    assert_eq!(iter.next(), Some(&(2..12)));
    assert_eq!(iter.next(), Some(&(5..12)));
    assert_eq!(iter.next(), Some(&(7..12)));
    assert_eq!(iter.next(), None);
}

#[test]
fn tree_iter_works() {
    let mut tree = Tree::new();
    tree.insert(5..12);
    tree.insert(2..12);
    tree.insert(7..12);
    tree.insert(0..12);

    let mut iter = tree.into_iter();
    assert_eq!(iter.next(), Some(0..12));
    assert_eq!(iter.next(), Some(2..12));
    assert_eq!(iter.next(), Some(5..12));
    assert_eq!(iter.next(), Some(7..12));
    assert_eq!(iter.next(), None);
}

#[test]
fn tree_max_is_largest_upper_endpoint() {
    let mut tree = Tree::new();
    assert_eq!(tree.max(), None);
    tree.insert(0..5);
    tree.insert(-3..20);
    tree.insert(4..7);
    assert_eq!(tree.max(), Some(20));
    tree.remove(&(-3..20));
    assert_eq!(tree.max(), Some(7));
}

#[test]
fn aug_node_max_value_is_correctly_recorded_for_random_collected_tree() {
    let map = IntervalMap::from_entries(stupid_random_intervals(1000, 666).into_iter().map(|x| (x, ())).collect());
    assert_eq!(map.len(), 1000);
}

#[test]
fn aug_node_max_value_is_correctly_recorded_for_random_incremental_tree() {
    let mut node = Some(Box::new(Node::new(0..10, ())));
    for x in stupid_random_intervals(1000, 12345) {
        Node::insert(&mut node, x, ());
    }
    assert!(node.as_ref().unwrap().validate_max());
    assert!(node.as_ref().unwrap().validate_order());
}

#[test]
fn set_contains_works() {
    let mut set = IntervalSet::new();
    set.insert(-5..0);
    set.insert(-2..0);
    set.insert(-8..8);
    set.insert(-6..2);
    set.insert(-1..2);
    assert_eq!(set.len(), 5);
    assert!(set.contains(&(-1..2)));
    assert!(set.contains(&(-6..2)));
    assert!(!set.contains(&(-6..3)));
    assert!(set.validate_max());
    assert!(set.validate_order());
}

#[test]
fn set_removal_works() {
    for i in 0..100 {
        let intervals = stupid_random_intervals(100, i);
        let mut set = IntervalSet::new();

        for x in &intervals {
            set.insert(x.clone())
        }

        let x = &intervals[i];
        assert!(set.contains(x));
        set.remove(x);
        assert!(!set.contains(x));

        assert!(set.validate_max());
        assert!(set.validate_order());
    }
}

#[test]
fn can_balance_set() {
    let set = IntervalSet::from_keys((0..0).map(|i| i..i + 10).collect());
    assert_eq!(set.into_balanced().height(), 0);

    let set = IntervalSet::from_keys((0..2047).map(|i| i..i + 10).collect());
    assert_eq!(set.into_balanced().height(), 11);

    let set = IntervalSet::from_keys((0..2048).map(|i| i..i + 10).collect());
    assert_eq!(set.into_balanced().height(), 12);
}

#[test]
fn set_iter_works() {
    let set = IntervalSet::from_keys(stupid_random_intervals(100, 123));
    assert_eq!(set.iter().len(), 100);
}

#[test]
fn set_into_sorted_works() {
    let mut intervals = stupid_random_intervals(100, 123);
    let mut set = IntervalSet::new();

    for x in &intervals {
        set.insert(x.clone());
    }

    intervals.sort_by(|a, b| (a.start, a.end).cmp(&(b.start, b.end)));

    for (x, y) in intervals.into_iter().zip(set.into_sorted()) {
        assert_eq!(x.start, y.start);
        assert_eq!(x.end, y.end);
    }
}

#[test]
fn interval_query_works() {
    let mut set = IntervalSet::new();
    set.insert(0..10);
    set.insert(4..7);
    set.insert(2..3);
    set.insert(8..12);
    set.insert(1..17);
    set.insert(6..9);
    assert!(set.validate_max());
    assert!(set.query_point(-1).len() == 0);
    assert_eq!(set.query_point(0), [&(0..10)]);
    assert_eq!(set.query_point(1), [&(0..10), &(1..17)]);
    assert_eq!(set.query_point(2), [&(0..10), &(2..3), &(1..17)]);
    assert_eq!(set.query_point(3), [&(0..10), &(1..17)]);
    assert_eq!(set.query_point(4), [&(0..10), &(4..7), &(1..17)]);
    assert_eq!(set.query_point(11), [&(1..17), &(8..12)]);
}

#[test]
fn overlap_query_works() {
    let mut set = IntervalSet::new();
    set.insert(0..2);
    set.insert(4..10);
    set.insert(6..12);
    set.insert(2..5);
    assert_eq!(set.query_range(&(5..10)), [&(4..10), &(6..12)]);
}

#[test]
fn overlapping_ranges_works() {
    assert!(overlaps(&(0..2), &(1..3)));
    assert!(overlaps(&(Bound::Unbounded, Bound::Unbounded), &(Bound::Unbounded, Bound::Excluded(2))));
    assert!(!overlaps(&(Bound::Unbounded, Bound::Included(2)), &(Bound::Included(2), Bound::Unbounded)));
    assert!(!overlaps(&(0..2), &(2..3)));
    assert!(!overlaps(&(Bound::Unbounded, Bound::Included(2)), &(Bound::Included(3), Bound::Unbounded)));
    assert!(!overlaps(&(Bound::Included(4), Bound::Unbounded), &(Bound::Unbounded, Bound::Excluded(2))));
}

#[test]
fn map_get_insert_remove() {
    let mut map = IntervalMap::new();
    *map.insert(0..4, 1) += 10;
    map.insert(2..6, 2);
    map.insert(-3..1, 3);
    assert_eq!(map.get(&(0..4)), Some(&11));
    *map.require(2..6) += 5;
    *map.require(7..8) += 1;
    assert_eq!(map.get(&(2..6)), Some(&7));
    assert_eq!(map.get(&(7..8)), Some(&1));
    map.remove(&(0..4));
    assert_eq!(map.get(&(0..4)), None);
    assert_eq!(map.get(&(2..6)), Some(&7));
    assert_eq!(map.get(&(-3..1)), Some(&3));
    assert_eq!(map.len(), 3);
    let sorted: Vec<_> = map.into_sorted().into_iter().map(|(k, v)| (k.start, v)).collect();
    assert_eq!(sorted, vec![(-3, 3), (2, 7), (7, 1)]);
}

#[test]
fn map_remove_keeps_values_with_their_keys() {
    let mut map = IntervalMap::new();
    for (i, k) in [5, 2, 8, 1, 3, 7, 9].iter().enumerate() {
        map.insert(*k..*k + 1, i);
    }
    map.remove(&(5..6));
    assert_eq!(map.len(), 6);
    for (i, k) in [5, 2, 8, 1, 3, 7, 9].iter().enumerate().skip(1) {
        assert_eq!(map.get(&(*k..*k + 1)), Some(&i));
    }
}

#[test]
fn set_iterates_in_the_pre_order_of_its_insertions() {
    let mut set = IntervalSet::new();
    for r in [5..6, 2..3, 8..9, 1..2, 3..4, 8..9] {
        set.insert(r);
    }
    let starts: Vec<i64> = set.iter().into_iter().map(|r| r.start).collect();
    assert_eq!(starts, vec![5, 2, 1, 3, 8]);
    let hits: Vec<i64> = set.query_range(&(1..4)).into_iter().map(|r| r.start).collect();
    assert_eq!(hits, vec![2, 1, 3]);
}
