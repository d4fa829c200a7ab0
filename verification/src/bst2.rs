//! A binary search tree of `i32` values whose nodes live in a vector and
//! refer to their children by index.
//!
//! Inserting a value re-links every node on its search path to the node
//! that ends the path, and makes that node the root: afterwards the tree
//! holds the values under the node that holds the inserted value (or that
//! value alone, when it is new). Earlier nodes stay in the vector,
//! unreachable.
use vstd::prelude::*;

verus! {

pub struct Node {
    value: i32,
    l: Option<usize>,
    r: Option<usize>,
}

/// Every child index of a node is larger than the node's own index and
/// inside the vector.
spec fn links_ok(nodes: Seq<Node>) -> bool {
    forall|i: int| 0 <= i < nodes.len() ==> #[trigger] links_ok_at(nodes, i)
}

/// The links of node `k` point forward and inside the vector.
spec fn links_ok_at(nodes: Seq<Node>, k: int) -> bool {
    (nodes[k].l is Some ==> k < nodes[k].l.unwrap() < nodes.len()) && (nodes[k].r is Some ==> k
        < nodes[k].r.unwrap() < nodes.len())
}

/// The measure that decreases from a node to its children.
spec fn rank(nodes: Seq<Node>, id: Option<usize>) -> nat {
    match id {
        Some(i) => if i < nodes.len() {
            (nodes.len() - i) as nat
        } else {
            0
        },
        None => 0,
    }
}

/// The child index `c` of node `i`, if it is a proper child.
spec fn child(nodes: Seq<Node>, i: usize, c: Option<usize>) -> Option<usize> {
    match c {
        Some(k) => if i < k {
            Some(k)
        } else {
            None
        },
        None => None,
    }
}

/// The values reachable from a node.
spec fn values_at(nodes: Seq<Node>, id: Option<usize>) -> Set<i32>
    decreases rank(nodes, id),
{
    match id {
        None => Set::empty(),
        Some(i) => if i < nodes.len() {
            let n = nodes[i as int];
            values_at(nodes, child(nodes, i, n.l)) + values_at(nodes, child(nodes, i, n.r)) + set![n.value]
        } else {
            Set::empty()
        },
    }
}

/// Smaller values on the left and larger on the right, at every node
/// reachable from `id`.
spec fn ordered_from(nodes: Seq<Node>, id: Option<usize>) -> bool
    decreases rank(nodes, id),
{
    match id {
        None => true,
        Some(i) => if i < nodes.len() {
            let n = nodes[i as int];
            &&& forall|v: i32| #[trigger] values_at(nodes, child(nodes, i, n.l)).contains(v) ==> v < n.value
            &&& forall|v: i32| #[trigger] values_at(nodes, child(nodes, i, n.r)).contains(v) ==> v > n.value
            &&& ordered_from(nodes, child(nodes, i, n.l))
            &&& ordered_from(nodes, child(nodes, i, n.r))
        } else {
            true
        },
    }
}

/// The node that a search for `v` from `id` ends at: the node holding `v`,
/// or none when the search falls off the tree.
spec fn search(nodes: Seq<Node>, id: Option<usize>, v: i32) -> Option<usize>
    decreases rank(nodes, id),
{
    match id {
        None => None,
        Some(i) => if i < nodes.len() {
            let n = nodes[i as int];
            if v < n.value {
                search(nodes, child(nodes, i, n.l), v)
            } else if v > n.value {
                search(nodes, child(nodes, i, n.r), v)
            } else {
                Some(i)
            }
        } else {
            None
        },
    }
}

/// What is reachable from a node depends only on the nodes at or after it.
proof fn lemma_frame(a: Seq<Node>, b: Seq<Node>, id: Option<usize>)
    requires
        links_ok(a),
        a.len() <= b.len(),
        id is Some ==> id.unwrap() < a.len(),
        forall|k: int| id is Some && id.unwrap() <= k < a.len() ==> b[k] == a[k],
    ensures
        values_at(a, id) == values_at(b, id),
        ordered_from(a, id) == ordered_from(b, id),
    decreases rank(a, id),
{
    if let Some(i) = id {
        let n = a[i as int];
        assert(links_ok_at(a, i as int));
        assert(b[i as int] == n);
        let cl = child(a, i, n.l);
        let cr = child(a, i, n.r);
        if let Some(c) = cl {
            assert(i < c < a.len());
            lemma_frame(a, b, Some(c));
        }
        if let Some(c) = cr {
            assert(i < c < a.len());
            lemma_frame(a, b, Some(c));
        }
        assert(values_at(a, cl) == values_at(b, cl));
        assert(values_at(a, cr) == values_at(b, cr));
        assert(ordered_from(a, cl) == ordered_from(b, cl));
        assert(ordered_from(a, cr) == ordered_from(b, cr));
        assert(values_at(a, id) == values_at(a, cl) + values_at(a, cr) + set![n.value]);
        assert(values_at(b, id) == values_at(b, cl) + values_at(b, cr) + set![n.value]);
        if ordered_from(a, id) {
            assert forall|v: i32| #[trigger] values_at(b, cl).contains(v) implies v < n.value by {
                assert(values_at(a, cl).contains(v));
            }
            assert forall|v: i32| #[trigger] values_at(b, cr).contains(v) implies v > n.value by {
                assert(values_at(a, cr).contains(v));
            }
            assert(ordered_from(b, id));
        }
        if ordered_from(b, id) {
            assert forall|v: i32| #[trigger] values_at(a, cl).contains(v) implies v < n.value by {
                assert(values_at(b, cl).contains(v));
            }
            assert forall|v: i32| #[trigger] values_at(a, cr).contains(v) implies v > n.value by {
                assert(values_at(b, cr).contains(v));
            }
            assert(ordered_from(a, id));
        }
    }
}

/// A search from an ordered node finds `v` exactly when `v` is reachable,
/// and ends at a node whose reachable values lie within those of the start.
proof fn lemma_search(nodes: Seq<Node>, id: Option<usize>, v: i32)
    requires
        links_ok(nodes),
        ordered_from(nodes, id),
        id is Some ==> id.unwrap() < nodes.len(),
    ensures
        (search(nodes, id, v) is Some) == values_at(nodes, id).contains(v),
        search(nodes, id, v) matches Some(k) ==> id is Some && id.unwrap() <= k < nodes.len() && nodes[k as int].value
            == v && ordered_from(nodes, Some(k)) && values_at(nodes, Some(k)).subset_of(values_at(nodes, id)),
    decreases rank(nodes, id),
{
    if let Some(i) = id {
        let n = nodes[i as int];
        assert(links_ok_at(nodes, i as int));
        let l = child(nodes, i, n.l);
        let r = child(nodes, i, n.r);
        if let Some(c) = l {
            assert(i < c < nodes.len());
        }
        if let Some(c) = r {
            assert(i < c < nodes.len());
        }
        lemma_search(nodes, l, v);
        lemma_search(nodes, r, v);
    }
}

/// A binary search tree of integers stored in a vector of nodes.
pub struct Tree {
    root: Option<usize>,
    nodes: Vec<Node>,
}

impl Tree {
    /// The values reachable from the root.
    pub closed spec fn values(&self) -> Set<i32> {
        values_at(self.nodes@, self.root)
    }

    /// The values that a new node holding `v` would leave in the tree: the
    /// values under the node holding `v`, or `v` alone.
    pub closed spec fn values_after_insert(&self, v: i32) -> Set<i32> {
        match search(self.nodes@, self.root, v) {
            Some(k) => values_at(self.nodes@, Some(k)),
            None => set![v],
        }
    }

    /// The number of nodes in the vector, reachable or not.
    pub closed spec fn arena_len(&self) -> nat {
        self.nodes@.len()
    }

    pub closed spec fn wf(&self) -> bool {
        &&& links_ok(self.nodes@)
        &&& self.root is Some ==> self.root.unwrap() < self.nodes@.len()
        &&& ordered_from(self.nodes@, self.root)
    }

    pub fn new() -> (t: Self)
        ensures
            t.wf(),
            t.values() == Set::<i32>::empty(),
    {
        Tree { root: None, nodes: Vec::new() }
    }

    /// Insert `value`; the tree then holds the values under the node that
    /// holds it (see [`Tree::values_after_insert`]).
    pub fn insert(&mut self, value: i32)
        requires
            old(self).wf(),
            old(self).arena_len() < usize::MAX,
        ensures
            final(self).wf(),
            final(self).values() == old(self).values_after_insert(value),
            final(self).values().contains(value),
    {
        proof {
            lemma_search(self.nodes@, self.root, value);
            if let Some(k) = search(self.nodes@, self.root, value) {
                assert(values_at(self.nodes@, Some(k)).contains(value));
            }
        }
        let root = self.root;
        self.root = self.insert_node(root, value);
    }

    pub fn contains(&self, value: i32) -> (b: bool)
        requires
            self.wf(),
        ensures
            b == self.values().contains(value),
    {
        self.contains_node(self.root, value)
    }

    fn contains_node(&self, id: Option<usize>, value: i32) -> (b: bool)
        requires
            links_ok(self.nodes@),
            id is Some ==> id.unwrap() < self.nodes@.len(),
            ordered_from(self.nodes@, id),
        ensures
            b == values_at(self.nodes@, id).contains(value),
        decreases rank(self.nodes@, id),
    {
        proof {
            lemma_search(self.nodes@, id, value);
        }
        if let Some(i) = id {
            let node = &self.nodes[i];
            proof {
                assert(links_ok_at(self.nodes@, i as int));
                if let Some(c) = node.l {
                    assert(i < c);
                }
                if let Some(c) = node.r {
                    assert(i < c);
                }
                lemma_search(self.nodes@, node.l, value);
                lemma_search(self.nodes@, node.r, value);
            }
            if value < node.value {
                self.contains_node(node.l, value)
            } else if value > node.value {
                self.contains_node(node.r, value)
            } else {
                proof {
                    assert(values_at(self.nodes@, id).contains(node.value));
                }
                true
            }
        } else {
            false
        }
    }

    /// Insert below `id`, re-linking each node on the search path to the
    /// node that ends it, which is returned.
    fn insert_node(&mut self, id: Option<usize>, value: i32) -> (res: Option<usize>)
        requires
            links_ok(old(self).nodes@),
            id is Some ==> id.unwrap() < old(self).nodes@.len(),
            ordered_from(old(self).nodes@, id),
            old(self).nodes@.len() < usize::MAX,
        ensures
            links_ok(final(self).nodes@),
            final(self).root == old(self).root,
            res is Some,
            res.unwrap() < final(self).nodes@.len(),
            id is Some ==> id.unwrap() <= res.unwrap(),
            final(self).nodes@.len() >= old(self).nodes@.len(),
            forall|k: int| res.unwrap() <= k < old(self).nodes@.len() ==> final(self).nodes@[k] == old(self).nodes@[k],
            forall|k: int| 0 <= k < (if id is Some { id.unwrap() as int } else { old(self).nodes@.len() as int })
                ==> final(self).nodes@[k] == old(self).nodes@[k],
            ordered_from(final(self).nodes@, res),
            values_at(final(self).nodes@, res) == match search(old(self).nodes@, id, value) {
                Some(k) => values_at(old(self).nodes@, Some(k)),
                None => set![value],
            },
            search(old(self).nodes@, id, value) matches Some(k) ==> res == Some(k),
            search(old(self).nodes@, id, value) is None ==> res == Some(old(self).nodes@.len() as usize),
        decreases rank(old(self).nodes@, id),
    {
        let ghost old_nodes = self.nodes@;
        if let Some(i) = id {
            let l = self.nodes[i].l;
            let r = self.nodes[i].r;
            proof {
                assert(links_ok_at(self.nodes@, i as int));
                if let Some(c) = l {
                    assert(i < c);
                }
                if let Some(c) = r {
                    assert(i < c);
                }
            }
            if value < self.nodes[i].value {
                let got = self.insert_node(l, value);
                let ghost mid = self.nodes@;
                let keep = self.nodes[i].r;
                let v = self.nodes[i].value;
                self.nodes.set(i, Node { value: v, l: got, r: keep });
                proof {
                    assert(links_ok_at(self.nodes@, i as int));
                    assert forall|k: int| 0 <= k < self.nodes@.len() implies #[trigger] links_ok_at(self.nodes@, k) by {
                        if k != i {
                            assert(links_ok_at(mid, k));
                        }
                    }
                    lemma_frame(mid, self.nodes@, got);
                }
                self.nodes[i].l
            } else if value > self.nodes[i].value {
                let got = self.insert_node(r, value);
                let ghost mid = self.nodes@;
                let keep = self.nodes[i].l;
                let v = self.nodes[i].value;
                self.nodes.set(i, Node { value: v, l: keep, r: got });
                proof {
                    assert(links_ok_at(self.nodes@, i as int));
                    assert forall|k: int| 0 <= k < self.nodes@.len() implies #[trigger] links_ok_at(self.nodes@, k) by {
                        if k != i {
                            assert(links_ok_at(mid, k));
                        }
                    }
                    lemma_frame(mid, self.nodes@, got);
                }
                self.nodes[i].r
            } else {
                Some(i)
            }
        } else {
            self.nodes.push(Node { value, l: None, r: None });
            let n = self.nodes.len() - 1;
            proof {
                let s = self.nodes@;
                assert forall|k: int| 0 <= k < s.len() implies #[trigger] links_ok_at(s, k) by {
                    if k < n {
                        assert(links_ok_at(old_nodes, k));
                    }
                }
                assert(s[n as int].l is None && s[n as int].r is None);
                assert(child(s, n, s[n as int].l) is None);
                assert(values_at(s, None) =~= Set::<i32>::empty());
                assert(ordered_from(s, None));
                assert(ordered_from(s, Some(n)));
                assert(values_at(s, Some(n)) =~= set![value]) by {
                    assert(values_at(s, None) =~= Set::<i32>::empty());
                }
            }
            Some(n)
        }
    }

}

} // verus!
