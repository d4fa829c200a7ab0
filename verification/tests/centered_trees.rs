use gridiron::cit::CenteredIntervalTree;
use gridiron::interval_tree::IntervalTree;

#[test]
fn interval_tree_has_correct_length() {
    let mut ranges = CenteredIntervalTree::new();
    ranges.insert(0..10);
    ranges.insert(5..10);
    ranges.insert(5..10);
    assert_eq!(ranges.len(), 2);
}

#[test]
fn interval_tree_query_works() {
    let mut ranges = CenteredIntervalTree::new();
    ranges.insert(2..12);
    ranges.insert(-2..8);
    ranges.insert(0..10);
    ranges.insert(4..14);
    ranges.insert(-4..6);

    assert_eq!(ranges.containing(-5), vec![]);
    assert_eq!(ranges.containing(-4), vec![-4..6]);
    assert_eq!(ranges.containing(-3), vec![-4..6]);
    assert_eq!(ranges.containing(-2), vec![-4..6, -2..8]);
    assert_eq!(ranges.containing(12), vec![4..14]);

    let mut ranges = CenteredIntervalTree::new();
    ranges.insert(0..4);
    ranges.insert(6..8);
    assert!(ranges.containing(5).is_empty());
}

#[test]
fn interval_tree_can_remove_interval() {
    let mut ranges = CenteredIntervalTree::new();

    ranges.insert(-2..8);
    ranges.insert(0..10);
    ranges.insert(4..14);

    assert!(!ranges.containing(-2).is_empty());
    ranges.remove(&(-2..8));
    assert!(ranges.containing(-2).is_empty());

    assert!(!ranges.containing(13).is_empty());
    ranges.remove(&(4..14));
    assert!(ranges.containing(13).is_empty());

    ranges.remove(&(0..10));
    assert!(ranges.is_empty());
    assert!(ranges.root.is_none());
}

#[test]
fn interaval_tree_has_correct_length() {
    let mut tree = IntervalTree::new();
    tree.insert(0..10);
    tree.insert(5..10);
    tree.insert(5..10);
    assert_eq!(tree.len(), 2);
}

#[test]
fn interaval_tree_query_works() {
    let mut tree = IntervalTree::new();
    tree.insert(2..12);
    tree.insert(-2..8);
    tree.insert(0..10);
    tree.insert(4..14);
    tree.insert(-4..6);

    assert_eq!(tree.including(-5), vec![]);
    assert_eq!(tree.including(-4), vec![-4..6]);
    assert_eq!(tree.including(-3), vec![-4..6]);
    assert_eq!(tree.including(-2), vec![-4..6, -2..8]);
    assert_eq!(tree.including(12), vec![4..14]);
}

#[test]
fn centered_tree_reports_right_side_by_increasing_end() {
    let mut ranges = CenteredIntervalTree::default();
    ranges.insert(2..12);
    ranges.insert(-2..8);
    ranges.insert(0..10);
    ranges.insert(4..14);
    // The root is centered at 7; points at or right of it are answered by end.
    assert_eq!(ranges.containing(7), vec![-2..8, 0..10, 2..12, 4..14]);
    assert_eq!(ranges.containing(9), vec![0..10, 2..12, 4..14]);
    assert_eq!(ranges.containing(6), vec![-2..8, 0..10, 2..12, 4..14]);
    assert_eq!(ranges.len(), 4);
}

#[test]
fn centered_tree_keeps_intervals_that_share_an_endpoint() {
    let mut ranges = CenteredIntervalTree::new();
    ranges.insert(0..10);
    ranges.insert(0..8);
    ranges.insert(5..10);
    // All three meet at the root; left of its center they come by start.
    assert_eq!(ranges.containing(1), vec![0..8, 0..10]);
    assert_eq!(ranges.containing(5), vec![0..8, 0..10, 5..10]);
    // Right of the center they come by end.
    assert_eq!(ranges.containing(7), vec![0..8, 0..10, 5..10]);
    assert_eq!(ranges.containing(9), vec![0..10, 5..10]);
    assert_eq!(ranges.len(), 3);
    ranges.remove(&(0..10));
    assert_eq!(ranges.containing(9), vec![5..10]);
    assert_eq!(ranges.containing(1), vec![0..8]);
    assert_eq!(ranges.len(), 2);
}

#[test]
fn centered_tree_handles_extreme_endpoints() {
    let mut ranges = CenteredIntervalTree::new();
    ranges.insert(i32::MIN..i32::MAX);
    assert_eq!(ranges.containing(0), vec![i32::MIN..i32::MAX]);
    assert_eq!(ranges.containing(i32::MIN), vec![i32::MIN..i32::MAX]);
    assert!(ranges.containing(i32::MAX).is_empty());
    ranges.remove(&(i32::MIN..i32::MAX));
    assert!(ranges.is_empty());
}

#[test]
fn interval_tree_accepts_empty_intervals_and_never_reports_them() {
    let mut tree = IntervalTree::new();
    tree.insert(5..5);
    tree.insert(8..3);
    tree.insert(0..10);
    assert_eq!(tree.including(5), vec![0..10]);
    assert_eq!(tree.including(4), vec![0..10]);
    assert_eq!(tree.len(), 3);
}
