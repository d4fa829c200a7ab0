//! A set of half-open integer intervals with point and range queries.
use vstd::prelude::*;
use core::ops::Range;
use crate::aug_node::{Node, kpair, deref_entries, map_of_entries, bit_len, pre_keys, preorder_insert};
use crate::entry_keys::{key_seq, borrowed_keys, owned_keys};
use crate::overlap::Overlap;

verus! {

/// A set type where the keys are `Range` objects. Supports point and
/// range-based queries to iterate over the keys.
pub struct IntervalSet {
    root: Option<Box<Node<()>>>,
}

/// The keys of a list of intervals, each with an empty value.
pub open spec fn unit_entries(s: Seq<Range<i64>>) -> Seq<(Range<i64>, ())> {
    s.map_values(|r: Range<i64>| (r, ()))
}

/// The keys of a list of intervals, as a set of (start, end) pairs.
pub open spec fn key_set(s: Seq<Range<i64>>) -> Set<(i64, i64)> {
    s.map_values(|r: Range<i64>| kpair(r)).to_set()
}

pub proof fn lemma_unit_entries_dom(s: Seq<Range<i64>>)
    ensures
        map_of_entries(unit_entries(s)).dom() == key_set(s),
    decreases s.len(),
{
    if s.len() > 0 {
        lemma_unit_entries_dom(s.drop_last());
        assert(unit_entries(s).drop_last() =~= unit_entries(s.drop_last()));
        let a = map_of_entries(unit_entries(s)).dom();
        let b = key_set(s);
        assert forall|k| a.contains(k) <==> b.contains(k) by {
            let ms = s.map_values(|r: Range<i64>| kpair(r));
            let md = s.drop_last().map_values(|r: Range<i64>| kpair(r));
            assert(ms =~= md.push(kpair(s.last())));
            if b.contains(k) {
                assert(ms.contains(k));
                let i = choose|i: int| 0 <= i < ms.len() && ms[i] == k;
                if i < s.len() - 1 {
                    assert(md[i] == k);
                    assert(md.contains(k));
                }
            }
            if a.contains(k) && k != kpair(s.last()) {
                assert(md.to_set().contains(k));
                let i = choose|i: int| 0 <= i < md.len() && md[i] == k;
                assert(ms[i] == k);
            }
            if k == kpair(s.last()) {
                assert(ms[s.len() - 1] == k);
            }
        }
        assert(a =~= b);
    } else {
        assert(map_of_entries(unit_entries(s)).dom() =~= key_set(s));
    }
}

impl View for IntervalSet {
    type V = Set<(i64, i64)>;

    closed spec fn view(&self) -> Set<(i64, i64)> {
        Node::map_of(self.root).dom()
    }
}

impl IntervalSet {
    pub closed spec fn wf(&self) -> bool {
        Node::wf_opt(self.root)
    }

    /// The entries (intervals with empty values) in pre-order of the underlying tree.
    pub closed spec fn entries(&self) -> Seq<(Range<i64>, ())> {
        Node::preorder_of(self.root)
    }

    /// The intervals in pre-order of the underlying tree.
    pub closed spec fn elements(&self) -> Seq<Range<i64>> {
        key_seq(Node::preorder_of(self.root))
    }

    /// The intervals in key order.
    pub closed spec fn sorted_elements(&self) -> Seq<Range<i64>> {
        key_seq(Node::inorder_of(self.root))
    }

    pub closed spec fn tree_height(&self) -> nat {
        Node::height_of(self.root)
    }

    /// Facts about a well-formed set: it is finite, and both element
    /// sequences list its members once each.
    pub proof fn lemma_wf(&self)
        requires
            self.wf(),
        ensures
            self@.finite(),
            self.elements().len() == self@.len(),
            self.sorted_elements().len() == self@.len(),
            self.tree_height() <= self@.len(),
            forall|i: int, j: int| 0 <= i < j < self.sorted_elements().len() ==>
                crate::aug_node::key_lt(#[trigger] kpair(self.sorted_elements()[i]), #[trigger] kpair(self.sorted_elements()[j])),
            forall|i: int| 0 <= i < self.elements().len() ==> self@.contains(#[trigger] kpair(self.elements()[i])),
            forall|k| #[trigger] self@.contains(k) ==>
                exists|i: int| 0 <= i < self.elements().len() && kpair(self.elements()[i]) == k,
            forall|i: int| 0 <= i < self.sorted_elements().len() ==> self@.contains(#[trigger] kpair(self.sorted_elements()[i])),
    {
        Node::lemma_size(self.root);
        Node::lemma_entries(self.root);
        Node::lemma_height(self.root);
        let p = Node::preorder_of(self.root);
        let q = Node::inorder_of(self.root);
        assert forall|i: int| 0 <= i < self.elements().len() implies self@.contains(#[trigger] kpair(self.elements()[i])) by {
            assert(self.elements()[i] == p[i].0);
        }
        assert forall|i: int| 0 <= i < self.sorted_elements().len() implies self@.contains(#[trigger] kpair(self.sorted_elements()[i])) by {
            assert(self.sorted_elements()[i] == q[i].0);
        }
        assert forall|i: int, j: int| 0 <= i < j < self.sorted_elements().len() implies
            crate::aug_node::key_lt(#[trigger] kpair(self.sorted_elements()[i]), #[trigger] kpair(self.sorted_elements()[j])) by {
            assert(self.sorted_elements()[i] == q[i].0);
            assert(self.sorted_elements()[j] == q[j].0);
        }
        assert forall|k| #[trigger] self@.contains(k) implies
            exists|i: int| 0 <= i < self.elements().len() && kpair(self.elements()[i]) == k by {
            assert(Node::map_of(self.root).dom().contains(k));
            let i = choose|i: int| 0 <= i < p.len() && kpair(p[i].0) == k;
            assert(self.elements()[i] == p[i].0);
        }
    }

    pub fn new() -> (s: Self)
        ensures
            s.wf(),
            s@ == Set::<(i64, i64)>::empty(),
            s.entries() == Seq::<(Range<i64>, ())>::empty(),
    {
        let s = IntervalSet { root: None };
        proof {
            assert(s@ =~= Set::<(i64, i64)>::empty());
        }
        s
    }

    pub fn is_empty(&self) -> (r: bool)
        requires
            self.wf(),
        ensures
            r == (self@.len() == 0),
    {
        proof {
            Node::lemma_size(self.root);
        }
        self.root.is_none()
    }

    pub fn len(&self) -> (r: usize)
        requires
            self.wf(),
            self@.len() <= usize::MAX,
        ensures
            r == self@.len(),
    {
        proof {
            Node::lemma_size(self.root);
        }
        match &self.root {
            Some(root) => root.len(),
            None => 0,
        }
    }

    pub fn height(&self) -> (r: usize)
        requires
            self.wf(),
            self@.len() <= usize::MAX,
        ensures
            r == self.tree_height(),
    {
        proof {
            Node::lemma_size(self.root);
        }
        match &self.root {
            Some(root) => root.height(),
            None => 0,
        }
    }

    pub fn contains(&self, key: &Range<i64>) -> (r: bool)
        requires
            self.wf(),
        ensures
            r == self@.contains(kpair(*key)),
    {
        match &self.root {
            Some(root) => root.contains(key),
            None => false,
        }
    }

    pub fn insert(&mut self, key: Range<i64>)
        requires
            old(self).wf(),
        ensures
            final(self).wf(),
            final(self)@ == old(self)@.insert(kpair(key)),
            pre_keys(final(self).entries()) == preorder_insert(pre_keys(old(self).entries()), kpair(key)),
    {
        Node::insert(&mut self.root, key, ());
    }

    pub fn remove(&mut self, key: &Range<i64>)
        requires
            old(self).wf(),
            old(self)@.len() <= usize::MAX,
        ensures
            final(self).wf(),
            final(self)@ == old(self)@.remove(kpair(*key)),
    {
        proof {
            Node::lemma_size(self.root);
        }
        Node::remove(&mut self.root, key);
    }

    /// The same intervals in a tree of least height.
    pub fn into_balanced(self) -> (s: Self)
        requires
            self.wf(),
        ensures
            s.wf(),
            s@ == self@,
            s.sorted_elements() == self.sorted_elements(),
            s.tree_height() == bit_len(self@.len()),
    {
        proof {
            Node::lemma_size(self.root);
            Node::lemma_entries(self.root);
        }
        let ghost old_root = self.root;
        let mut data = Vec::new();
        Node::into_inorder(self.root, &mut data);
        proof {
            assert(data@ =~= Node::inorder_of(old_root));
        }
        let root = Node::from_sorted_slice(data);
        proof {
            Node::lemma_inorder_determines_map(root, old_root);
        }
        IntervalSet { root }
    }

    /// References to the intervals, in pre-order.
    pub fn iter(&self) -> (r: Vec<&Range<i64>>)
        ensures
            r@.len() == self.elements().len(),
            forall|i: int| 0 <= i < r@.len() ==> *r@[i] == self.elements()[i],
    {
        let mut out = Vec::new();
        Node::collect_preorder(&self.root, &mut out);
        let keys = borrowed_keys(&out);
        proof {
            assert forall|i: int| 0 <= i < keys@.len() implies *keys@[i] == self.elements()[i] by {
                assert(deref_entries(out@)[i] == (*out@[i].0, *out@[i].1));
            }
        }
        keys
    }

    /// Consume the set, returning its intervals in key order.
    pub fn into_sorted(self) -> (r: Vec<Range<i64>>)
        requires
            self.wf(),
        ensures
            r@ == self.sorted_elements(),
    {
        let mut out = Vec::new();
        Node::into_inorder(self.root, &mut out);
        proof {
            assert(out@ =~= Node::inorder_of(self.root));
        }
        owned_keys(out)
    }

    /// References to the intervals, in pre-order. (Keys are never handed out
    /// mutably, so this is the same traversal as `iter`.)
    pub fn iter_mut(&mut self) -> (r: Vec<&Range<i64>>)
        ensures
            r@.len() == old(self).elements().len(),
            forall|i: int| 0 <= i < r@.len() ==> *r@[i] == old(self).elements()[i],
    {
        self.iter()
    }

    /// Consume the set, returning its intervals in pre-order.
    pub fn into_elements(self) -> (r: Vec<Range<i64>>)
        ensures
            r@ == self.elements(),
    {
        let mut out = Vec::new();
        Node::into_preorder(self.root, &mut out);
        proof {
            assert(out@ =~= Node::preorder_of(self.root));
        }
        owned_keys(out)
    }

    /// References to the intervals that hold the point, in pre-order.
    pub fn query_point(&self, point: i64) -> (r: Vec<&Range<i64>>)
        requires
            self.wf(),
        ensures
            r@.len() == self.entries().filter(Node::<()>::point_pred(point)).len(),
            forall|i: int| 0 <= i < r@.len() ==> *r@[i] == key_seq(self.entries().filter(Node::<()>::point_pred(point)))[i],
    {
        let mut out = Vec::new();
        Node::query_point_into(&self.root, point, &mut out);
        let keys = borrowed_keys(&out);
        proof {
            assert(deref_entries(out@) =~= Node::preorder_of(self.root).filter(Node::<()>::point_pred(point)));
            assert forall|i: int| 0 <= i < keys@.len() implies *keys@[i] == key_seq(Node::preorder_of(self.root).filter(Node::<()>::point_pred(point)))[i] by {
                assert(deref_entries(out@)[i] == (*out@[i].0, *out@[i].1));
            }
        }
        keys
    }

    /// References to the intervals that overlap the range, in pre-order.
    pub fn query_range<R: Overlap>(&self, range: &R) -> (r: Vec<&Range<i64>>)
        requires
            self.wf(),
        ensures
            r@.len() == self.entries().filter(Node::<()>::overlap_pred(range.lower_spec(), range.upper_spec())).len(),
            forall|i: int| 0 <= i < r@.len() ==> *r@[i] == key_seq(self.entries().filter(Node::<()>::overlap_pred(range.lower_spec(), range.upper_spec())))[i],
    {
        let mut out = Vec::new();
        Node::query_range_into(&self.root, range, &mut out);
        let keys = borrowed_keys(&out);
        proof {
            let f = Node::preorder_of(self.root).filter(Node::<()>::overlap_pred(range.lower_spec(), range.upper_spec()));
            assert(deref_entries(out@) =~= f);
            assert forall|i: int| 0 <= i < keys@.len() implies *keys@[i] == key_seq(f)[i] by {
                assert(deref_entries(out@)[i] == (*out@[i].0, *out@[i].1));
            }
        }
        keys
    }

    /// Whether every node stores the true maximum upper endpoint of its subtree.
    pub fn validate_max(&self) -> (r: bool)
        requires
            self.wf(),
        ensures
            r,
    {
        match &self.root {
            Some(root) => {
                proof {
                    Node::lemma_wf_checks(**root);
                }
                root.validate_max()
            },
            None => true,
        }
    }

    /// Whether every node's children lie on the correct side of it.
    pub fn validate_order(&self) -> (r: bool)
        requires
            self.wf(),
        ensures
            r,
    {
        match &self.root {
            Some(root) => {
                proof {
                    Node::lemma_wf_checks(**root);
                }
                root.validate_order()
            },
            None => true,
        }
    }

    /// A balanced set holding the given intervals.
    pub fn from_keys(items: Vec<Range<i64>>) -> (s: Self)
        ensures
            s.wf(),
            s@ == key_set(items@),
            s.tree_height() == bit_len(s@.len()),
    {
        let ghost all = items@;
        let mut entries: Vec<(Range<i64>, ())> = Vec::new();
        for item in it: items
            invariant
                it.seq() == all,
                entries@ == unit_entries(all.take(it.index() as int)),
        {
            entries.push((item, ()));
            proof {
                assert(unit_entries(all.take(it.index() + 1)) =~= unit_entries(all.take(it.index() as int)).push((all[it.index() as int], ())));
            }
        }
        proof {
            assert(all.take(all.len() as int) =~= all);
            lemma_unit_entries_dom(all);
        }
        let root = Node::from_entries(entries);
        proof {
            Node::lemma_size(root);
        }
        IntervalSet { root }
    }
}

/// A membership test gives back the last write: once `insert(key)` has
/// run, the set contains `key`; once `remove(key)` has run, it does not;
/// either way every other interval keeps its membership.
pub proof fn law_contains_after_write(s: &IntervalSet, key: Range<i64>, other: Range<i64>)
    requires
        s.wf(),
    ensures
        s@.insert(kpair(key)).contains(kpair(key)),
        !s@.remove(kpair(key)).contains(kpair(key)),
        kpair(other) != kpair(key) ==> {
            &&& s@.insert(kpair(key)).contains(kpair(other)) == s@.contains(kpair(other))
            &&& s@.remove(kpair(key)).contains(kpair(other)) == s@.contains(kpair(other))
        },
{
}

/// Inserting a new interval adds one to the length, and removing a stored
/// interval takes one away; otherwise the length stays.
pub proof fn law_len_after_write(s: &IntervalSet, key: Range<i64>)
    requires
        s.wf(),
    ensures
        s@.insert(kpair(key)).len() == s@.len() + if s@.contains(kpair(key)) { 0int } else { 1int },
        s@.remove(kpair(key)).len() == s@.len() - if s@.contains(kpair(key)) { 1int } else { 0int },
{
    s.lemma_wf();
}

} // verus!
