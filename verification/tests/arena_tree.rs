use gridiron::bst2::Tree;

#[test]
fn arena_tree_finds_inserted_value() {
    let mut tree = Tree::new();
    assert!(!tree.contains(5));
    tree.insert(5);
    assert!(tree.contains(5));
    tree.insert(5);
    assert!(tree.contains(5));
}

#[test]
fn arena_tree_keeps_the_subtree_of_the_last_insert() {
    let mut tree = Tree::new();
    tree.insert(5);
    tree.insert(3);
    // The search for 3 ended at a new node, which becomes the root.
    assert!(tree.contains(3));
    assert!(!tree.contains(5));
    tree.insert(4);
    assert!(tree.contains(4));
    assert!(!tree.contains(3));
}
