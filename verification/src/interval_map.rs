//! An associative map whose keys are half-open integer intervals, with point
//! and range queries over the stored intervals.
use vstd::prelude::*;
use core::ops::Range;
use crate::aug_node::{Node, kpair, holds_point, strictly_sorted, deref_entries, map_of_entries, bit_len, pre_keys, preorder_insert};
use crate::overlap::{Bound, Overlap, overlap_spec};

verus! {

/// An associative map where the keys are `Range` objects. Supports point and
/// range-based queries to iterate over key-value pairs.
pub struct IntervalMap<V> {
    root: Option<Box<Node<V>>>,
}

impl<V> View for IntervalMap<V> {
    type V = Map<(i64, i64), V>;

    closed spec fn view(&self) -> Map<(i64, i64), V> {
        Node::map_of(self.root)
    }
}

impl<V> IntervalMap<V> {
    /// The search-tree invariant, with exact stored maxima.
    pub closed spec fn wf(&self) -> bool {
        Node::wf_opt(self.root)
    }

    /// The entries in pre-order of the underlying tree.
    pub closed spec fn entries(&self) -> Seq<(Range<i64>, V)> {
        Node::preorder_of(self.root)
    }

    /// The entries in key order.
    pub closed spec fn sorted_entries(&self) -> Seq<(Range<i64>, V)> {
        Node::inorder_of(self.root)
    }

    /// The height of the underlying tree.
    pub closed spec fn tree_height(&self) -> nat {
        Node::height_of(self.root)
    }

    /// Facts about a well-formed map that every caller may use: the map is
    /// finite, and both entry sequences list its entries once each.
    pub proof fn lemma_wf(&self)
        requires
            self.wf(),
        ensures
            self@.dom().finite(),
            self.entries().len() == self@.len(),
            self.sorted_entries().len() == self@.len(),
            self.tree_height() <= self@.len(),
            strictly_sorted(self.sorted_entries()),
            forall|i: int| 0 <= i < self.entries().len() ==>
                self@.dom().contains(#[trigger] kpair(self.entries()[i].0))
                && self@[kpair(self.entries()[i].0)] == self.entries()[i].1,
            forall|k| #[trigger] self@.dom().contains(k) ==>
                exists|i: int| 0 <= i < self.entries().len() && kpair(self.entries()[i].0) == k,
            forall|i: int| 0 <= i < self.sorted_entries().len() ==>
                self@.dom().contains(#[trigger] kpair(self.sorted_entries()[i].0))
                && self@[kpair(self.sorted_entries()[i].0)] == self.sorted_entries()[i].1,
            forall|k| #[trigger] self@.dom().contains(k) ==>
                exists|i: int| 0 <= i < self.sorted_entries().len() && kpair(self.sorted_entries()[i].0) == k,
    {
        Node::lemma_size(self.root);
        Node::lemma_entries(self.root);
        Node::lemma_height(self.root);
        let s = self.entries();
        let t = self.sorted_entries();
        assert forall|k| #[trigger] self@.dom().contains(k) implies
            exists|i: int| 0 <= i < s.len() && kpair(s[i].0) == k by {
            assert(Node::map_of(self.root).dom().contains(k));
            let i = choose|i: int| 0 <= i < Node::preorder_of(self.root).len() && kpair(Node::preorder_of(self.root)[i].0) == k;
            assert(kpair(s[i].0) == k);
        }
        assert forall|k| #[trigger] self@.dom().contains(k) implies
            exists|i: int| 0 <= i < t.len() && kpair(t[i].0) == k by {
            assert(Node::map_of(self.root).dom().contains(k));
            let i = choose|i: int| 0 <= i < Node::inorder_of(self.root).len() && kpair(Node::inorder_of(self.root)[i].0) == k;
            assert(kpair(t[i].0) == k);
        }
    }

    pub fn new() -> (m: Self)
        ensures
            m.wf(),
            m@ == Map::<(i64, i64), V>::empty(),
            m.entries() == Seq::<(Range<i64>, V)>::empty(),
    {
        IntervalMap { root: None }
    }

    pub fn is_empty(&self) -> (r: bool)
        requires
            self.wf(),
        ensures
            r == (self@.len() == 0),
    {
        proof {
            Node::lemma_size(self.root);
        }
        self.root.is_none()
    }

    /// The number of entries.
    pub fn len(&self) -> (r: usize)
        requires
            self.wf(),
            self@.len() <= usize::MAX,
        ensures
            r == self@.len(),
    {
        proof {
            Node::lemma_size(self.root);
        }
        match &self.root {
            Some(root) => root.len(),
            None => 0,
        }
    }

    /// The number of nodes on the longest path of the underlying tree.
    pub fn height(&self) -> (r: usize)
        requires
            self.wf(),
            self@.len() <= usize::MAX,
        ensures
            r == self.tree_height(),
    {
        proof {
            Node::lemma_size(self.root);
        }
        match &self.root {
            Some(root) => root.height(),
            None => 0,
        }
    }

    pub fn contains(&self, key: &Range<i64>) -> (r: bool)
        requires
            self.wf(),
        ensures
            r == self@.dom().contains(kpair(*key)),
    {
        match &self.root {
            Some(root) => root.contains(key),
            None => false,
        }
    }

    pub fn get(&self, key: &Range<i64>) -> (r: Option<&V>)
        requires
            self.wf(),
        ensures
            r.is_some() == self@.dom().contains(kpair(*key)),
            r.is_some() ==> *r.unwrap() == self@[kpair(*key)],
    {
        match &self.root {
            Some(root) => root.get(key),
            None => None,
        }
    }

    pub fn get_mut(&mut self, key: &Range<i64>) -> (r: Option<&mut V>)
        requires
            old(self).wf(),
        ensures
            final(self).wf(),
            final(self)@.dom() == old(self)@.dom(),
            r.is_some() == old(self)@.dom().contains(kpair(*key)),
            r.is_none() ==> final(self)@ == old(self)@,
            r.is_some() ==> *r.unwrap() == old(self)@[kpair(*key)]
                && final(self)@ == old(self)@.insert(kpair(*key), *final(r.unwrap())),
    {
        Node::get_mut(&mut self.root, key)
    }

    /// Insert an entry, replacing the value of an existing key, and return a
    /// mutable reference to the stored value.
    pub fn insert(&mut self, key: Range<i64>, value: V) -> (r: &mut V)
        requires
            old(self).wf(),
        ensures
            final(self).wf(),
            *r == value,
            final(self)@ == old(self)@.insert(kpair(key), *final(r)),
            pre_keys(final(self).entries()) == preorder_insert(pre_keys(old(self).entries()), kpair(key)),
            final(self)@.dom().finite(),
            final(self)@.len() > 0,
    {
        proof {
            Node::lemma_size(self.root);
        }
        Node::insert(&mut self.root, key, value)
    }

    /// A mutable reference to the value under the given key, which is first
    /// created with the default value if it is absent.
    pub fn require(&mut self, key: Range<i64>) -> (r: &mut V)
        where V: Default,
        requires
            old(self).wf(),
        ensures
            final(self).wf(),
            old(self)@.dom().contains(kpair(key)) ==> *r == old(self)@[kpair(key)],
            !old(self)@.dom().contains(kpair(key)) ==> call_ensures(V::default, (), *r),
            pre_keys(final(self).entries()) == preorder_insert(pre_keys(old(self).entries()), kpair(key)),
            final(self)@ == old(self)@.insert(kpair(key), *final(r)),
            final(self)@.dom().finite(),
            final(self)@.len() > 0,
    {
        proof {
            Node::lemma_size(self.root);
        }
        Node::require(&mut self.root, key)
    }

    /// Remove the entry with the given key, if present.
    pub fn remove(&mut self, key: &Range<i64>)
        requires
            old(self).wf(),
            old(self)@.len() <= usize::MAX,
        ensures
            final(self).wf(),
            final(self)@ == old(self)@.remove(kpair(*key)),
    {
        proof {
            Node::lemma_size(self.root);
        }
        Node::remove(&mut self.root, key)
    }

    /// The same entries in a tree of least height.
    pub fn into_balanced(self) -> (m: Self)
        requires
            self.wf(),
        ensures
            m.wf(),
            m@ == self@,
            m.sorted_entries() == self.sorted_entries(),
            m.tree_height() == bit_len(self@.len()),
    {
        proof {
            Node::lemma_size(self.root);
            Node::lemma_entries(self.root);
        }
        let ghost old_root = self.root;
        let data = self.into_sorted();
        let root = Node::from_sorted_slice(data);
        proof {
            Node::lemma_inorder_determines_map(root, old_root);
        }
        IntervalMap { root }
    }

    /// Consume the map, returning its entries in key order.
    pub fn into_sorted(self) -> (r: Vec<(Range<i64>, V)>)
        requires
            self.wf(),
        ensures
            r@ == self.sorted_entries(),
            strictly_sorted(r@),
            r@.len() == self@.len(),
            forall|i: int| 0 <= i < r@.len() ==>
                self@.dom().contains(#[trigger] kpair(r@[i].0)) && self@[kpair(r@[i].0)] == r@[i].1,
    {
        proof {
            self.lemma_wf();
        }
        let mut out = Vec::new();
        Node::into_inorder(self.root, &mut out);
        proof {
            assert(out@ =~= Node::inorder_of(self.root));
        }
        out
    }

    /// Consume the map, returning its entries in pre-order.
    pub fn into_entries(self) -> (r: Vec<(Range<i64>, V)>)
        ensures
            r@ == self.entries(),
    {
        let mut out = Vec::new();
        Node::into_preorder(self.root, &mut out);
        proof {
            assert(out@ =~= Node::preorder_of(self.root));
        }
        out
    }

    /// References to the entries, in pre-order.
    pub fn iter(&self) -> (r: Vec<(&Range<i64>, &V)>)
        ensures
            deref_entries(r@) == self.entries(),
    {
        let mut out = Vec::new();
        Node::collect_preorder(&self.root, &mut out);
        proof {
            assert(deref_entries(out@) =~= self.entries());
        }
        out
    }

    /// References to the keys, in pre-order.
    pub fn keys(&self) -> (r: Vec<&Range<i64>>)
        ensures
            r@.len() == self.entries().len(),
            forall|i: int| 0 <= i < r@.len() ==> *r@[i] == self.entries()[i].0,
    {
        let items = self.iter();
        let mut out: Vec<&Range<i64>> = Vec::new();
        let mut i: usize = 0;
        while i < items.len()
            invariant
                deref_entries(items@) == self.entries(),
                i <= items@.len(),
                out@.len() == i,
                forall|j: int| 0 <= j < i ==> *out@[j] == self.entries()[j].0,
            decreases items@.len() - i,
        {
            let (k, _) = items[i];
            out.push(k);
            proof {
                assert(deref_entries(items@)[i as int] == (*items@[i as int].0, *items@[i as int].1));
            }
            i += 1;
        }
        out
    }

    /// References to the entries whose interval holds the point, in pre-order.
    pub fn query_point(&self, point: i64) -> (r: Vec<(&Range<i64>, &V)>)
        requires
            self.wf(),
        ensures
            deref_entries(r@) == self.entries().filter(Node::<V>::point_pred(point)),
    {
        let mut out = Vec::new();
        Node::query_point_into(&self.root, point, &mut out);
        proof {
            assert(deref_entries(out@) =~= self.entries().filter(Node::<V>::point_pred(point)));
        }
        out
    }

    /// References to the entries whose interval overlaps the range, in pre-order.
    pub fn query_range<R: Overlap>(&self, range: R) -> (r: Vec<(&Range<i64>, &V)>)
        requires
            self.wf(),
        ensures
            deref_entries(r@) == self.entries().filter(Node::<V>::overlap_pred(range.lower_spec(), range.upper_spec())),
    {
        let mut out = Vec::new();
        Node::query_range_into(&self.root, &range, &mut out);
        proof {
            assert(deref_entries(out@) =~= self.entries().filter(Node::<V>::overlap_pred(range.lower_spec(), range.upper_spec())));
        }
        out
    }

    /// A balanced map holding the given entries; a later entry replaces an
    /// earlier one with the same key.
    pub fn from_entries(items: Vec<(Range<i64>, V)>) -> (m: Self)
        ensures
            m.wf(),
            m@ == map_of_entries(items@),
            m.tree_height() == bit_len(m@.len()),
    {
        let root = Node::from_entries(items);
        proof {
            Node::lemma_size(root);
        }
        IntervalMap { root }
    }

    /// A balanced map holding the given entries, which are sorted strictly by key.
    pub fn from_sorted_entries(items: Vec<(Range<i64>, V)>) -> (m: Self)
        requires
            strictly_sorted(items@),
        ensures
            m.wf(),
            m.sorted_entries() == items@,
            m@.len() == items@.len(),
            forall|i: int| 0 <= i < items@.len() ==>
                m@.dom().contains(#[trigger] kpair(items@[i].0)) && m@[kpair(items@[i].0)] == items@[i].1,
            forall|k| #[trigger] m@.dom().contains(k) ==> exists|i: int| 0 <= i < items@.len() && kpair(items@[i].0) == k,
            m.tree_height() == bit_len(items@.len()),
    {
        let root = Node::from_sorted_slice(items);
        let m = IntervalMap { root };
        proof {
            m.lemma_wf();
        }
        m
    }
}

impl<V> Default for IntervalMap<V> {
    fn default() -> (m: Self)
        ensures
            m.wf(),
            m@ == Map::<(i64, i64), V>::empty(),
    {
        Self::new()
    }
}

/// A point query lists exactly the stored entries whose interval holds the point.
pub proof fn law_query_point_exact<V>(m: &IntervalMap<V>, point: i64, key: Range<i64>, value: V)
    requires
        m.wf(),
    ensures
        m.entries().filter(Node::<V>::point_pred(point)).contains((key, value))
            <==> (m@.dom().contains(kpair(key)) && m@[kpair(key)] == value && holds_point(key, point)),
{
    broadcast use Seq::lemma_filter_contains, Seq::lemma_filter_pred;
    m.lemma_wf();
    let s = m.entries();
    let pred = Node::<V>::point_pred(point);
    if s.filter(pred).contains((key, value)) {
        let j = choose|j: int| 0 <= j < s.filter(pred).len() && s.filter(pred)[j] == (key, value);
        assert(pred(s.filter(pred)[j]));
        assert(s.contains((key, value))) by {
            s.lemma_filter_contains_rev(pred, (key, value));
        }
        let i = choose|i: int| 0 <= i < s.len() && s[i] == (key, value);
        assert(m@.dom().contains(kpair(s[i].0)));
    }
    if m@.dom().contains(kpair(key)) && m@[kpair(key)] == value && holds_point(key, point) {
        let i = choose|i: int| 0 <= i < s.len() && kpair(s[i].0) == kpair(key);
        assert(m@.dom().contains(kpair(s[i].0)));
        assert(s[i].0 == key);
        assert(s[i] == (key, value));
        assert(s.filter(pred).contains(s[i]));
    }
}

/// A range query lists exactly the stored entries whose interval overlaps
/// the range with the given bounds.
pub proof fn law_query_range_exact<V>(m: &IntervalMap<V>, lo: Bound, hi: Bound, key: Range<i64>, value: V)
    requires
        m.wf(),
    ensures
        m.entries().filter(Node::<V>::overlap_pred(lo, hi)).contains((key, value)) <==> (m@.dom().contains(
            kpair(key),
        ) && m@[kpair(key)] == value && overlap_spec(
            lo,
            hi,
            Bound::Included(key.start),
            Bound::Excluded(key.end),
        )),
{
    broadcast use Seq::lemma_filter_contains, Seq::lemma_filter_pred;
    m.lemma_wf();
    let s = m.entries();
    let pred = Node::<V>::overlap_pred(lo, hi);
    if s.filter(pred).contains((key, value)) {
        let j = choose|j: int| 0 <= j < s.filter(pred).len() && s.filter(pred)[j] == (key, value);
        assert(pred(s.filter(pred)[j]));
        assert(s.contains((key, value))) by {
            s.lemma_filter_contains_rev(pred, (key, value));
        }
        let i = choose|i: int| 0 <= i < s.len() && s[i] == (key, value);
        assert(m@.dom().contains(kpair(s[i].0)));
    }
    if m@.dom().contains(kpair(key)) && m@[kpair(key)] == value && overlap_spec(
        lo,
        hi,
        Bound::Included(key.start),
        Bound::Excluded(key.end),
    ) {
        let i = choose|i: int| 0 <= i < s.len() && kpair(s[i].0) == kpair(key);
        assert(m@.dom().contains(kpair(s[i].0)));
        assert(s[i].0 == key);
        assert(s[i] == (key, value));
        assert(pred(s[i]));
        assert(s.filter(pred).contains(s[i]));
    }
}

/// A read gives back the last write: once `insert(key, value)` has run, the
/// map holds `value` under `key`; once `remove(key)` has run, it holds
/// nothing there; either way every other key keeps what it had.
pub proof fn law_read_after_write<V>(m: &IntervalMap<V>, key: Range<i64>, value: V, other: Range<i64>)
    requires
        m.wf(),
    ensures
        m@.insert(kpair(key), value).dom().contains(kpair(key)),
        m@.insert(kpair(key), value)[kpair(key)] == value,
        !m@.remove(kpair(key)).dom().contains(kpair(key)),
        kpair(other) != kpair(key) ==> {
            &&& m@.insert(kpair(key), value).dom().contains(kpair(other)) == m@.dom().contains(kpair(other))
            &&& m@.remove(kpair(key)).dom().contains(kpair(other)) == m@.dom().contains(kpair(other))
            &&& m@.dom().contains(kpair(other)) ==> m@.insert(kpair(key), value)[kpair(other)] == m@[kpair(other)]
            &&& m@.dom().contains(kpair(other)) ==> m@.remove(kpair(key))[kpair(other)] == m@[kpair(other)]
        },
{
}

} // verus!
