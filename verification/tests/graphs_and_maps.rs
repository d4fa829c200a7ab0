use gridiron::adjacency_list::AdjacencyList;
use gridiron::bst::{Node, Tree};
use gridiron::rect_map::RectangleMap;
use gridiron::overlap::Bound;
use gridiron::index_space::IndexSpace;
use gridiron::meshing::{guard_regions, Extent, GraphTopology};

#[test]
fn graph_contained_works() {
    let mut edges = AdjacencyList::new();
    edges.insert(0, 1);
    assert!(edges.contains(&0, &1));
    assert!(!edges.contains(&1, &0));
}

#[test]
fn graph_has_the_correct_length() {
    let mut edges = AdjacencyList::new();
    edges.insert(0, 1);
    edges.insert(1, 0);
    edges.insert(1, 1);
    edges.insert(0, 0);
    assert_eq!(edges.len(), 4);
}

#[test]
fn graph_can_remove_edge() {
    let mut edges = AdjacencyList::new();
    edges.insert(0, 1);
    edges.insert(1, 0);
    edges.remove(1, 0);
    assert!(edges.contains(&0, &1));
    assert!(!edges.contains(&1, &0));
    assert_eq!(edges.len(), 1);
}

#[test]
fn graph_can_iterate_incoming_and_outgoing_edges() {
    let mut edges = AdjacencyList::new();
    edges.insert(0, 1);
    edges.insert(0, 2);
    edges.insert(0, 3);

    edges.insert(4, 1);
    edges.insert(4, 2);

    assert_eq!(edges.incoming_edges(&1).len(), 2);
    assert_eq!(edges.incoming_edges(&3).len(), 1);
    assert_eq!(edges.outgoing_edges(&0).len(), 3);
    assert_eq!(edges.outgoing_edges(&4).len(), 2);
}

#[test]
fn graph_keeps_duplicate_edges_and_order() {
    let mut edges = AdjacencyList::new();
    assert!(edges.is_empty());
    edges.insert(0, 2);
    edges.insert(0, 1);
    edges.insert(0, 2);
    edges.insert(3, 1);
    assert_eq!(edges.outgoing_edges(&0), vec![&2, &1, &2]);
    assert_eq!(edges.incoming_edges(&1), vec![&0, &3]);
    assert_eq!(edges.len(), 4);
    edges.remove(0, 2);
    assert_eq!(edges.outgoing_edges(&0), vec![&1]);
    assert_eq!(edges.len(), 2);
    edges.remove(0, 1);
    edges.remove(3, 1);
    assert!(edges.is_empty());
}

#[test]
fn graph_sees_each_edge_from_both_ends() {
    let mut edges = AdjacencyList::new();
    edges.insert(5, 7);
    edges.insert(7, 5);
    edges.insert(5, 9);
    edges.remove(7, 5);
    for &(a, b) in &[(5u64, 7u64), (7, 5), (5, 9), (9, 5), (7, 9)] {
        let out = edges.outgoing_edges(&a).contains(&&b);
        let inc = edges.incoming_edges(&b).contains(&&a);
        let has = edges.contains(&a, &b);
        assert_eq!(out, has);
        assert_eq!(inc, has);
    }
    assert!(edges.contains(&5, &7));
    assert!(!edges.contains(&7, &5));
}

fn ordered_tree() -> Tree {
    let mut tree = Tree::new();
    tree.insert(-2);
    tree.insert(10);
    tree.insert(11);
    tree.insert(15);
    tree.insert(16);
    tree
}

fn random_tree() -> Tree {
    let mut tree = Tree::new();
    tree.insert(15);
    tree.insert(16);
    tree.insert(10);
    tree.insert(11);
    tree.insert(-2);
    tree
}

fn remove_value_works_on(mut tree: Tree) {
    assert!(tree.contains(-2));
    tree.remove(-2);
    assert!(!tree.contains(-2));

    assert!(tree.contains(15));
    tree.remove(15);
    assert!(!tree.contains(15));

    tree.remove(0);
    assert_eq!(tree.len(), 3);
}

#[test]
fn tree_insertion_works() {
    let tree = ordered_tree();
    assert!(tree.contains(10));
    assert!(tree.contains(11));
    assert!(!tree.contains(12));
}

#[test]
fn tree_len_is_correct() {
    assert_eq!(ordered_tree().len(), 5);
    assert_eq!(random_tree().len(), 5);
}

#[test]
fn remove_value_works_on_ordered_tree() {
    remove_value_works_on(ordered_tree());
}

#[test]
fn remove_value_works_on_random_tree() {
    remove_value_works_on(random_tree());
}

#[test]
fn can_take_min_node() {
    let tree = random_tree();
    let (root, min) = Node::take_min(tree.into_root().unwrap());

    assert_eq!(min, -2);
    assert_eq!(root.unwrap().len(), 4);
}

#[test]
fn removing_a_node_with_two_children_keeps_the_rest() {
    let mut tree = Tree::new();
    for v in [10, 5, 15, 20, 12, 3, 7] {
        tree.insert(v);
    }
    tree.remove(10);
    assert_eq!(tree.len(), 6);
    for v in [5, 15, 20, 12, 3, 7] {
        assert!(tree.contains(v));
    }
    assert!(!tree.contains(10));
}

#[test]
fn can_query_points() {
    let mut rect_map = RectangleMap::new();

    rect_map.insert((0..10, 0..10), 1);
    rect_map.insert((20..30, 20..30), 2);
    rect_map.insert((9..21, 9..21), 3);

    assert_eq!(rect_map.query_point((5, 12)).len(), 0);
    assert_eq!(rect_map.query_point((5, 5)).len(), 1);
    assert_eq!(rect_map.query_point((2, 2)).len(), 1);
    assert_eq!(rect_map.query_point((12, 12)).len(), 1);
}

#[test]
fn rect_map_insert_get_remove() {
    let mut rect_map = RectangleMap::new();
    rect_map.insert((0..10, 0..10), 1);
    rect_map.insert((0..10, 10..20), 2);
    *rect_map.require((5..6, 5..6)) += 7;
    assert_eq!(rect_map.len(), 3);
    assert_eq!(rect_map.get((&(0..10), &(10..20))), Some(&2));
    assert_eq!(rect_map.get((&(5..6), &(5..6))), Some(&7));
    rect_map.remove((&(0..10), &(0..10)));
    assert!(!rect_map.contains((&(0..10), &(0..10))));
    assert!(rect_map.contains((&(0..10), &(10..20))));
    assert_eq!(rect_map.query_rect((0..1, 15..16)).len(), 1);
    assert_eq!(rect_map.query_bounds((Bound::Unbounded, Bound::Unbounded), 6..7).len(), 0);
    let balanced = rect_map.into_balanced();
    assert_eq!(balanced.len(), 2);
    assert!(!balanced.is_empty());
}

#[test]
fn mesh_topology_links_patches_within_guard_reach() {
    let mut mesh: RectangleMap<Extent> = RectangleMap::new();
    for &(i0, i1) in &[(0i64, 10i64), (10, 20), (30, 40)] {
        mesh.insert((i0..i1, 0..10), (IndexSpace::new(i0..i1, 0..10), 0));
    }
    let (edges, keys) = mesh.adjacency_list(2);
    assert_eq!(keys.len(), 2);
    assert_eq!(edges.len(), 2);
    let number = |i0: i64| keys.iter().position(|k| k.0 .0 == (i0..i0 + 10)).unwrap() as u64;
    let (a, b) = (number(0), number(10));
    let mut edges = edges;
    assert!(edges.contains(&a, &b));
    assert!(edges.contains(&b, &a));
    assert!(keys.iter().all(|k| k.1 == 0 && k.0 .1 == (0..10)));
    assert!(!keys.iter().any(|k| k.0 .0 == (30..40)));
}

#[test]
fn mesh_topology_without_guard_zones_has_no_edges_between_touching_patches() {
    let mut mesh: RectangleMap<Extent> = RectangleMap::new();
    mesh.insert((0..10, 0..10), (IndexSpace::new(0..10, 0..10), 1));
    mesh.insert((10..20, 0..10), (IndexSpace::new(10..20, 0..10), 1));
    let (edges, keys) = mesh.adjacency_list(0);
    assert!(edges.is_empty());
    assert!(keys.is_empty());
}

#[test]
fn guard_regions_surround_the_valid_region_without_corners() {
    let valid = IndexSpace::new(2..4, 2..4);
    let whole = IndexSpace::new(0..6, 0..7);
    let (li, lj, ri, rj) = guard_regions(&valid, &whole);
    assert_eq!((li.start(), li.end()), ((0, 2), (2, 4)));
    assert_eq!((lj.start(), lj.end()), ((2, 0), (4, 2)));
    assert_eq!((ri.start(), ri.end()), ((4, 2), (6, 4)));
    assert_eq!((rj.start(), rj.end()), ((2, 4), (4, 7)));
    let total = li.len() + lj.len() + ri.len() + rj.len();
    assert_eq!(total, 4 + 4 + 4 + 6);
}
