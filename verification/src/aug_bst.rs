//! A set of half-open integer intervals in an augmented binary search tree
//! which records the largest upper endpoint of every subtree, and which is
//! traversed in key order.
use vstd::prelude::*;
use core::ops::Range;
use crate::aug_node::{Node, kpair, key_lt, deref_entries, bit_len};
use crate::entry_keys::{key_seq, borrowed_keys, owned_keys};
use crate::interval_set::{key_set, unit_entries, lemma_unit_entries_dom};

verus! {

/// An augmented binary search tree of intervals.
pub struct Tree {
    root: Option<Box<Node<()>>>,
}

impl View for Tree {
    type V = Set<(i64, i64)>;

    closed spec fn view(&self) -> Set<(i64, i64)> {
        Node::map_of(self.root).dom()
    }
}

impl Tree {
    pub closed spec fn wf(&self) -> bool {
        Node::wf_opt(self.root)
    }

    /// The intervals in key order.
    pub closed spec fn sorted_elements(&self) -> Seq<Range<i64>> {
        key_seq(Node::inorder_of(self.root))
    }

    pub closed spec fn tree_height(&self) -> nat {
        Node::height_of(self.root)
    }

    /// The sorted intervals are strictly increasing and are exactly the members.
    pub proof fn lemma_wf(&self)
        requires
            self.wf(),
        ensures
            self@.finite(),
            self.sorted_elements().len() == self@.len(),
            self.tree_height() <= self@.len(),
            forall|i: int, j: int| 0 <= i < j < self.sorted_elements().len() ==>
                key_lt(#[trigger] kpair(self.sorted_elements()[i]), #[trigger] kpair(self.sorted_elements()[j])),
            forall|i: int| 0 <= i < self.sorted_elements().len() ==> self@.contains(#[trigger] kpair(self.sorted_elements()[i])),
            forall|k| #[trigger] self@.contains(k) ==>
                exists|i: int| 0 <= i < self.sorted_elements().len() && kpair(self.sorted_elements()[i]) == k,
    {
        Node::lemma_size(self.root);
        Node::lemma_entries(self.root);
        Node::lemma_height(self.root);
        let q = Node::inorder_of(self.root);
        assert forall|i: int| 0 <= i < self.sorted_elements().len() implies self@.contains(#[trigger] kpair(self.sorted_elements()[i])) by {
            assert(self.sorted_elements()[i] == q[i].0);
        }
        assert forall|i: int, j: int| 0 <= i < j < self.sorted_elements().len() implies
            key_lt(#[trigger] kpair(self.sorted_elements()[i]), #[trigger] kpair(self.sorted_elements()[j])) by {
            assert(self.sorted_elements()[i] == q[i].0);
            assert(self.sorted_elements()[j] == q[j].0);
        }
        assert forall|k| #[trigger] self@.contains(k) implies
            exists|i: int| 0 <= i < self.sorted_elements().len() && kpair(self.sorted_elements()[i]) == k by {
            assert(Node::map_of(self.root).dom().contains(k));
            let i = choose|i: int| 0 <= i < q.len() && kpair(q[i].0) == k;
            assert(self.sorted_elements()[i] == q[i].0);
        }
    }

    pub fn new() -> (t: Self)
        ensures
            t.wf(),
            t@ == Set::<(i64, i64)>::empty(),
    {
        let t = Tree { root: None };
        proof {
            assert(t@ =~= Set::<(i64, i64)>::empty());
        }
        t
    }

    pub fn len(&self) -> (r: usize)
        requires
            self.wf(),
            self@.len() <= usize::MAX,
        ensures
            r == self@.len(),
    {
        proof {
            Node::lemma_size(self.root);
        }
        match &self.root {
            Some(root) => root.len(),
            None => 0,
        }
    }

    pub fn height(&self) -> (r: usize)
        requires
            self.wf(),
            self@.len() <= usize::MAX,
        ensures
            r == self.tree_height(),
    {
        proof {
            Node::lemma_size(self.root);
        }
        match &self.root {
            Some(root) => root.height(),
            None => 0,
        }
    }

    pub fn contains(&self, key: &Range<i64>) -> (r: bool)
        requires
            self.wf(),
        ensures
            r == self@.contains(kpair(*key)),
    {
        match &self.root {
            Some(root) => root.contains(key),
            None => false,
        }
    }

    pub fn insert(&mut self, key: Range<i64>)
        requires
            old(self).wf(),
        ensures
            final(self).wf(),
            final(self)@ == old(self)@.insert(kpair(key)),
    {
        Node::insert(&mut self.root, key, ());
    }

    pub fn remove(&mut self, key: &Range<i64>)
        requires
            old(self).wf(),
            old(self)@.len() <= usize::MAX,
        ensures
            final(self).wf(),
            final(self)@ == old(self)@.remove(kpair(*key)),
    {
        proof {
            Node::lemma_size(self.root);
        }
        Node::remove(&mut self.root, key);
    }

    /// The largest upper endpoint of any interval in the tree, if it is not empty.
    pub fn max(&self) -> (r: Option<i64>)
        requires
            self.wf(),
        ensures
            r.is_none() == (self@.len() == 0),
            r.is_some() ==> (forall|k| #[trigger] self@.contains(k) ==> k.1 <= r.unwrap()),
            r.is_some() ==> (exists|k| #[trigger] self@.contains(k) && k.1 == r.unwrap()),
    {
        proof {
            Node::lemma_size(self.root);
            Node::lemma_max_bound(self.root);
            if self.root is Some {
                Node::lemma_max_attained(self.root);
                let k = choose|k| #[trigger] Node::map_of(self.root).dom().contains(k) && k.1 == Node::max_opt(self.root).unwrap();
                assert(self@.contains(k));
            }
        }
        Node::stored_max(&self.root)
    }

    /// The same intervals in a tree of least height.
    pub fn into_balanced(self) -> (t: Self)
        requires
            self.wf(),
        ensures
            t.wf(),
            t@ == self@,
            t.sorted_elements() == self.sorted_elements(),
            t.tree_height() == bit_len(self@.len()),
    {
        proof {
            Node::lemma_size(self.root);
            Node::lemma_entries(self.root);
        }
        let ghost old_root = self.root;
        let mut data = Vec::new();
        Node::into_inorder(self.root, &mut data);
        proof {
            assert(data@ =~= Node::inorder_of(old_root));
        }
        let root = Node::from_sorted_slice(data);
        proof {
            Node::lemma_inorder_determines_map(root, old_root);
        }
        Tree { root }
    }

    /// An in-order traversal by reference.
    pub fn iter<'a>(&'a self) -> (it: TreeIter<'a>)
        ensures
            it.wf(),
            it.remaining().len() == self.sorted_elements().len(),
            forall|i: int| 0 <= i < it.remaining().len() ==> *it.remaining()[i] == self.sorted_elements()[i],
    {
        TreeIter::new(self)
    }

    /// A consuming in-order traversal.
    pub fn into_iter(self) -> (it: TreeIntoIter)
        ensures
            it.remaining() == self.sorted_elements(),
    {
        TreeIntoIter::new(self)
    }

    /// The intervals by reference, in key order.
    fn lmost_path<'a>(&'a self) -> (r: Vec<&'a Range<i64>>)
        ensures
            r@.len() == self.sorted_elements().len(),
            forall|i: int| 0 <= i < r@.len() ==> *r@[i] == self.sorted_elements()[i],
    {
        let mut out = Vec::new();
        Node::collect_inorder(&self.root, &mut out);
        let keys = borrowed_keys(&out);
        proof {
            assert forall|i: int| 0 <= i < keys@.len() implies *keys@[i] == self.sorted_elements()[i] by {
                assert(deref_entries(out@)[i] == (*out@[i].0, *out@[i].1));
            }
        }
        keys
    }

    /// Consume the tree, returning its intervals in key order.
    fn into_lmost_path(self) -> (r: Vec<Range<i64>>)
        ensures
            r@ == self.sorted_elements(),
    {
        let mut out = Vec::new();
        Node::into_inorder(self.root, &mut out);
        proof {
            assert(out@ =~= Node::inorder_of(self.root));
        }
        owned_keys(out)
    }

    /// Whether every node stores the true maximum upper endpoint of its subtree.
    pub fn validate_max(&self) -> (r: bool)
        requires
            self.wf(),
        ensures
            r,
    {
        match &self.root {
            Some(root) => {
                proof {
                    Node::lemma_wf_checks(**root);
                }
                root.validate_max()
            },
            None => true,
        }
    }

    /// Whether every node's children lie on the correct side of it.
    pub fn validate_order(&self) -> (r: bool)
        requires
            self.wf(),
        ensures
            r,
    {
        match &self.root {
            Some(root) => {
                proof {
                    Node::lemma_wf_checks(**root);
                }
                root.validate_order()
            },
            None => true,
        }
    }

    /// A balanced tree holding the given intervals.
    pub fn from_keys(items: Vec<Range<i64>>) -> (t: Self)
        ensures
            t.wf(),
            t@ == key_set(items@),
            t.tree_height() == bit_len(t@.len()),
    {
        let ghost all = items@;
        let mut entries: Vec<(Range<i64>, ())> = Vec::new();
        for item in it: items
            invariant
                it.seq() == all,
                entries@ == unit_entries(all.take(it.index() as int)),
        {
            entries.push((item, ()));
            proof {
                assert(unit_entries(all.take(it.index() + 1)) =~= unit_entries(all.take(it.index() as int)).push((all[it.index() as int], ())));
            }
        }
        proof {
            assert(all.take(all.len() as int) =~= all);
            lemma_unit_entries_dom(all);
        }
        let root = Node::from_entries(entries);
        proof {
            Node::lemma_size(root);
        }
        Tree { root }
    }
}

/// A consuming traversal of a tree's intervals in key order.
pub struct TreeIntoIter {
    nodes: Vec<Range<i64>>,
}

impl TreeIntoIter {
    /// The intervals not yet yielded, in the order they will come.
    pub closed spec fn remaining(&self) -> Seq<Range<i64>> {
        self.nodes@.reverse()
    }

    fn new(tree: Tree) -> (it: Self)
        ensures
            it.remaining() == tree.sorted_elements(),
    {
        let mut sorted = tree.into_lmost_path();
        let ghost s = sorted@;
        let mut nodes: Vec<Range<i64>> = Vec::new();
        while sorted.len() > 0
            invariant
                s == sorted@ + nodes@.reverse(),
            decreases sorted@.len(),
        {
            let x = sorted.pop().unwrap();
            proof {
                assert(nodes@.push(x).reverse() =~= seq![x] + nodes@.reverse());
            }
            nodes.push(x);
            proof {
                assert(s =~= sorted@ + nodes@.reverse());
            }
        }
        proof {
            assert(s =~= nodes@.reverse());
        }
        TreeIntoIter { nodes }
    }

    /// The next interval in key order, if any.
    pub fn next(&mut self) -> (r: Option<Range<i64>>)
        ensures
            old(self).remaining().len() == 0 ==> r.is_none() && final(self).remaining().len() == 0,
            old(self).remaining().len() > 0 ==> r == Some(old(self).remaining()[0])
                && final(self).remaining() == old(self).remaining().drop_first(),
    {
        let r = self.nodes.pop();
        proof {
            if old(self).nodes@.len() > 0 {
                assert(old(self).nodes@.reverse().drop_first() =~= self.nodes@.reverse());
            }
        }
        r
    }
}

/// A traversal by reference of a tree's intervals in key order.
pub struct TreeIter<'a> {
    nodes: Vec<&'a Range<i64>>,
    pos: usize,
}

impl<'a> TreeIter<'a> {
    /// The intervals not yet yielded, in the order they will come.
    pub closed spec fn remaining(&self) -> Seq<&'a Range<i64>> {
        self.nodes@.subrange(self.pos as int, self.nodes@.len() as int)
    }

    pub closed spec fn wf(&self) -> bool {
        self.pos <= self.nodes@.len()
    }

    fn new(tree: &'a Tree) -> (it: Self)
        ensures
            it.wf(),
            it.remaining().len() == tree.sorted_elements().len(),
            forall|i: int| 0 <= i < it.remaining().len() ==> *it.remaining()[i] == tree.sorted_elements()[i],
    {
        let nodes = tree.lmost_path();
        let it = TreeIter { nodes, pos: 0 };
        proof {
            assert(it.remaining() =~= nodes@);
        }
        it
    }

    /// The next interval in key order, if any.
    pub fn next(&mut self) -> (r: Option<&'a Range<i64>>)
        requires
            old(self).wf(),
        ensures
            final(self).wf(),
            old(self).remaining().len() == 0 ==> r.is_none() && final(self).remaining().len() == 0,
            old(self).remaining().len() > 0 ==> r == Some(old(self).remaining()[0])
                && final(self).remaining() == old(self).remaining().drop_first(),
    {
        if self.pos < self.nodes.len() {
            let r = self.nodes[self.pos];
            self.pos = self.pos + 1;
            proof {
                assert(self.remaining() =~= old(self).remaining().drop_first());
            }
            Some(r)
        } else {
            None
        }
    }
}

/// A membership test gives back the last write: once `insert(key)` has
/// run, the set contains `key`; once `remove(key)` has run, it does not;
/// either way every other interval keeps its membership.
pub proof fn law_contains_after_write(s: &Tree, key: Range<i64>, other: Range<i64>)
    requires
        s.wf(),
    ensures
        s@.insert(kpair(key)).contains(kpair(key)),
        !s@.remove(kpair(key)).contains(kpair(key)),
        kpair(other) != kpair(key) ==> {
            &&& s@.insert(kpair(key)).contains(kpair(other)) == s@.contains(kpair(other))
            &&& s@.remove(kpair(key)).contains(kpair(other)) == s@.contains(kpair(other))
        },
{
}

/// Inserting a new interval adds one to the length, and removing a stored
/// interval takes one away; otherwise the length stays.
pub proof fn law_len_after_write(s: &Tree, key: Range<i64>)
    requires
        s.wf(),
    ensures
        s@.insert(kpair(key)).len() == s@.len() + if s@.contains(kpair(key)) { 0int } else { 1int },
        s@.remove(kpair(key)).len() == s@.len() - if s@.contains(kpair(key)) { 1int } else { 0int },
{
    s.lemma_wf();
}

/// After an insert, the largest upper end (what `max` reports) is the
/// larger of the inserted interval's end and the largest end before, or the
/// inserted interval's end if the tree was empty.
pub proof fn law_max_after_insert(t: &Tree, key: Range<i64>, m: Option<i64>)
    requires
        t.wf(),
        m.is_none() == (t@.len() == 0),
        m.is_some() ==> (forall|k| #[trigger] t@.contains(k) ==> k.1 <= m.unwrap()),
        m.is_some() ==> (exists|k| #[trigger] t@.contains(k) && k.1 == m.unwrap()),
    ensures
        ({
            let e = if m.is_some() && m.unwrap() > key.end { m.unwrap() } else { key.end };
            &&& forall|k| #[trigger] t@.insert(kpair(key)).contains(k) ==> k.1 <= e
            &&& exists|k| #[trigger] t@.insert(kpair(key)).contains(k) && k.1 == e
        }),
{
    t.lemma_wf();
    let e = if m.is_some() && m.unwrap() > key.end { m.unwrap() } else { key.end };
    let s = t@.insert(kpair(key));
    assert forall|k| #[trigger] s.contains(k) implies k.1 <= e by {
        if k != kpair(key) {
            assert(t@.contains(k));
            if m.is_none() {
                assert(t@.len() == 0);
                assert(t@ =~= Set::empty()) by {
                    if t@.contains(k) {
                        vstd::set_lib::lemma_set_empty_equivalency_len(t@);
                    }
                }
            }
        }
    }
    if m.is_some() && m.unwrap() > key.end {
        let k = choose|k| #[trigger] t@.contains(k) && k.1 == m.unwrap();
        assert(s.contains(k));
    } else {
        assert(s.contains(kpair(key)));
    }
}

} // verus!
