//! Nodes of an augmented binary search tree keyed by half-open integer
//! intervals. Each node stores the maximum upper endpoint found in its
//! subtree, which lets point and range queries skip whole subtrees.
use vstd::prelude::*;
use core::ops::Range;
use core::cmp::Ordering;
use crate::overlap::{Bound, Overlap, overlap_spec, overlaps, lemma_overlap_from, lemma_overlap_to};

verus! {

/// The key of an interval, as the pair (start, end) by which nodes are ordered.
pub open spec fn kpair(r: Range<i64>) -> (i64, i64) {
    (r.start, r.end)
}

/// Dictionary order on (start, end) pairs.
pub open spec fn key_lt(a: (i64, i64), b: (i64, i64)) -> bool {
    a.0 < b.0 || (a.0 == b.0 && a.1 < b.1)
}

pub open spec fn imax(a: i64, b: i64) -> i64 {
    if a < b { b } else { a }
}

/// Whether the half-open interval holds the point.
pub open spec fn holds_point(r: Range<i64>, p: i64) -> bool {
    r.start <= p && p < r.end
}

/// Whether a sequence of entries is strictly increasing by key.
pub open spec fn strictly_sorted<V>(s: Seq<(Range<i64>, V)>) -> bool {
    forall|i: int, j: int| 0 <= i < j < s.len() ==> key_lt(#[trigger] kpair(s[i].0), #[trigger] kpair(s[j].0))
}

/// The map that a sequence of entries gives when they are inserted in turn.
pub open spec fn map_of_entries<V>(s: Seq<(Range<i64>, V)>) -> Map<(i64, i64), V>
    decreases s.len(),
{
    if s.len() == 0 {
        Map::empty()
    } else {
        map_of_entries(s.drop_last()).insert(kpair(s.last().0), s.last().1)
    }
}

/// The interval keys of a list of entries, in order.
pub open spec fn pre_keys<W>(s: Seq<(Range<i64>, W)>) -> Seq<(i64, i64)> {
    s.map_values(|e: (Range<i64>, W)| kpair(e.0))
}

/// The keys ordered before `root`.
pub open spec fn below(root: (i64, i64)) -> spec_fn((i64, i64)) -> bool {
    |x: (i64, i64)| key_lt(x, root)
}

/// The keys ordered after `root`.
pub open spec fn above(root: (i64, i64)) -> spec_fn((i64, i64)) -> bool {
    |x: (i64, i64)| key_lt(root, x)
}

/// The keys of a search tree in pre-order, given the keys `pre` of the tree
/// in pre-order, once the key `k` is inserted: a key already present leaves
/// the tree's shape as it is; a new key goes down from the root, to the left
/// of each key it is ordered before and to the right of each key it is
/// ordered after, and becomes a new leaf there.
pub open spec fn preorder_insert(pre: Seq<(i64, i64)>, k: (i64, i64)) -> Seq<(i64, i64)>
    decreases pre.len(),
{
    if pre.len() == 0 {
        seq![k]
    } else {
        let root = pre[0];
        let rest = pre.drop_first();
        proof {
            rest.lemma_filter_len(below(root));
            rest.lemma_filter_len(above(root));
        }
        if k == root {
            pre
        } else if key_lt(k, root) {
            seq![root] + preorder_insert(rest.filter(below(root)), k) + rest.filter(above(root))
        } else {
            seq![root] + rest.filter(below(root)) + preorder_insert(rest.filter(above(root)), k)
        }
    }
}

/// A filter that keeps every element keeps the sequence.
proof fn lemma_filter_keeps_all<A>(s: Seq<A>, p: spec_fn(A) -> bool)
    requires
        forall|i: int| 0 <= i < s.len() ==> p(#[trigger] s[i]),
    ensures
        s.filter(p) == s,
    decreases s.len(),
{
    reveal(Seq::filter);
    if s.len() > 0 {
        lemma_filter_keeps_all(s.drop_last(), p);
        assert(s.drop_last().push(s.last()) =~= s);
    }
}

/// A filter that keeps no element leaves nothing.
proof fn lemma_filter_keeps_none<A>(s: Seq<A>, p: spec_fn(A) -> bool)
    requires
        forall|i: int| 0 <= i < s.len() ==> !p(#[trigger] s[i]),
    ensures
        s.filter(p) == Seq::<A>::empty(),
    decreases s.len(),
{
    reveal(Seq::filter);
    if s.len() > 0 {
        lemma_filter_keeps_none(s.drop_last(), p);
    } else {
        assert(s =~= Seq::<A>::empty());
    }
}

/// The number of binary digits of `n`: the height of a balanced tree of `n` nodes.
pub open spec fn bit_len(n: nat) -> nat
    decreases n,
{
    if n == 0 {
        0
    } else {
        1 + bit_len(n / 2)
    }
}

pub proof fn lemma_bit_len_monotone(a: nat, b: nat)
    requires
        a <= b,
    ensures
        bit_len(a) <= bit_len(b),
    decreases b,
{
    if a > 0 {
        lemma_bit_len_monotone(a / 2, b / 2);
    }
}

/// Strip the references from a sequence of borrowed entries.
pub open spec fn deref_entries<V>(s: Seq<(&Range<i64>, &V)>) -> Seq<(Range<i64>, V)> {
    s.map_values(|e: (&Range<i64>, &V)| (*e.0, *e.1))
}

/// Proves that filtering keeps nothing where no element passes.
pub proof fn lemma_filter_none<A>(s: Seq<A>, p: spec_fn(A) -> bool)
    requires
        forall|i: int| 0 <= i < s.len() ==> !p(#[trigger] s[i]),
    ensures
        s.filter(p) == Seq::<A>::empty(),
    decreases s.len(),
{
    reveal(Seq::filter);
    if s.len() > 0 {
        lemma_filter_none(s.drop_last(), p);
    }
}

/// A node in a binary search tree of intervals.
pub struct Node<V> {
    key: Range<i64>,
    value: V,
    max: i64,
    l: Option<Box<Node<V>>>,
    r: Option<Box<Node<V>>>,
}

impl<V> Node<V> {
    /// The key-value pairs held by a maybe-subtree.
    pub open spec fn map_of(t: Option<Box<Node<V>>>) -> Map<(i64, i64), V>
        decreases t,
    {
        match t {
            None => Map::empty(),
            Some(n) => n.as_map(),
        }
    }

    pub closed spec fn as_map(self) -> Map<(i64, i64), V>
        decreases self,
    {
        Self::map_of(self.l).union_prefer_right(Self::map_of(self.r)).insert(kpair(self.key), self.value)
    }

    /// The largest upper endpoint in this subtree.
    pub closed spec fn max_end(self) -> i64
        decreases self,
    {
        let a = match self.l {
            Some(l) => imax(l.max_end(), self.key.end),
            None => self.key.end,
        };
        match self.r {
            Some(r) => imax(r.max_end(), a),
            None => a,
        }
    }

    /// Search order holds on every node and every stored maximum is exact.
    pub closed spec fn wf(self) -> bool
        decreases self,
    {
        &&& forall|k| #[trigger] Self::map_of(self.l).dom().contains(k) ==> key_lt(k, kpair(self.key))
        &&& forall|k| #[trigger] Self::map_of(self.r).dom().contains(k) ==> key_lt(kpair(self.key), k)
        &&& self.max == self.max_end()
        &&& match self.l {
            Some(l) => l.wf(),
            None => true,
        }
        &&& match self.r {
            Some(r) => r.wf(),
            None => true,
        }
    }

    pub open spec fn wf_opt(t: Option<Box<Node<V>>>) -> bool {
        match t {
            None => true,
            Some(n) => n.wf(),
        }
    }

    /// The largest upper endpoint of a maybe-subtree.
    pub open spec fn max_opt(t: Option<Box<Node<V>>>) -> Option<i64> {
        match t {
            None => None,
            Some(n) => Some(n.max_end()),
        }
    }

    /// The largest upper endpoint once an interval ending at `e` is added.
    pub open spec fn max_after(t: Option<Box<Node<V>>>, e: i64) -> i64 {
        match Self::max_opt(t) {
            None => e,
            Some(m) => imax(m, e),
        }
    }

    /// The number of nodes in a subtree.
    pub closed spec fn size(self) -> nat
        decreases self,
    {
        1 + match self.l {
            Some(l) => l.size(),
            None => 0,
        } + match self.r {
            Some(r) => r.size(),
            None => 0,
        }
    }

    pub open spec fn size_of(t: Option<Box<Node<V>>>) -> nat {
        match t {
            None => 0,
            Some(n) => n.size(),
        }
    }

    /// The number of nodes on the longest root-to-leaf path.
    pub closed spec fn height_spec(self) -> nat
        decreases self,
    {
        let hl: nat = match self.l {
            Some(l) => l.height_spec(),
            None => 0,
        };
        let hr: nat = match self.r {
            Some(r) => r.height_spec(),
            None => 0,
        };
        1 + if hl < hr { hr } else { hl }
    }

    pub open spec fn height_of(t: Option<Box<Node<V>>>) -> nat {
        match t {
            None => 0,
            Some(n) => n.height_spec(),
        }
    }

    /// The entries in pre-order: a node, then its left subtree, then its right subtree.
    pub closed spec fn preorder(self) -> Seq<(Range<i64>, V)>
        decreases self,
    {
        seq![(self.key, self.value)] + Self::preorder_of(self.l) + Self::preorder_of(self.r)
    }

    pub open spec fn preorder_of(t: Option<Box<Node<V>>>) -> Seq<(Range<i64>, V)>
        decreases t,
    {
        match t {
            None => Seq::empty(),
            Some(n) => n.preorder(),
        }
    }

    /// The entries in order: left subtree, the node, right subtree.
    pub closed spec fn inorder(self) -> Seq<(Range<i64>, V)>
        decreases self,
    {
        Self::inorder_of(self.l) + seq![(self.key, self.value)] + Self::inorder_of(self.r)
    }

    pub open spec fn inorder_of(t: Option<Box<Node<V>>>) -> Seq<(Range<i64>, V)>
        decreases t,
    {
        match t {
            None => Seq::empty(),
            Some(n) => n.inorder(),
        }
    }

    // ------------------------------------------------------------------
    // Lemmas

    /// Every upper endpoint in a well-formed subtree is at most its stored maximum.
    pub proof fn lemma_max_bound(t: Option<Box<Node<V>>>)
        requires
            Self::wf_opt(t),
        ensures
            forall|k| #[trigger] Self::map_of(t).dom().contains(k) ==> k.1 <= Self::max_opt(t).unwrap(),
        decreases t,
    {
        if let Some(n) = t {
            Self::lemma_max_bound(n.l);
            Self::lemma_max_bound(n.r);
            assert(Self::map_of(t) == n.as_map());
            assert forall|k| #[trigger] n.as_map().dom().contains(k) implies k.1 <= n.max_end() by {
                if k == kpair(n.key) {
                } else if Self::map_of(n.l).dom().contains(k) {
                    assert(k.1 <= Self::max_opt(n.l).unwrap());
                } else {
                    assert(Self::map_of(n.r).dom().contains(k));
                    assert(k.1 <= Self::max_opt(n.r).unwrap());
                }
            }
        }
    }

    /// A well-formed subtree holds as many keys as it has nodes.
    pub proof fn lemma_size(t: Option<Box<Node<V>>>)
        requires
            Self::wf_opt(t),
        ensures
            Self::map_of(t).dom().finite(),
            Self::map_of(t).dom().len() == Self::size_of(t),
            Self::height_of(t) <= Self::size_of(t),
            Self::height_of(t) == 0 <==> t is None,
        decreases t,
    {
        if let Some(n) = t {
            Self::lemma_size(n.l);
            Self::lemma_size(n.r);
            let dl = Self::map_of(n.l).dom();
            let dr = Self::map_of(n.r).dom();
            assert(dl.disjoint(dr)) by {
                assert forall|k| dl.contains(k) implies !dr.contains(k) by {
                    assert(key_lt(k, kpair(n.key)));
                }
            }
            vstd::set_lib::lemma_set_disjoint_lens(dl, dr);
            assert(n.as_map().dom() =~= (dl + dr).insert(kpair(n.key)));
            assert(!(dl + dr).contains(kpair(n.key)));
        }
    }

    /// The keys of a tree in pre-order: the root's key first, then those of
    /// the left subtree, which are exactly the keys after it ordered before
    /// the root, then those of the right subtree, the keys ordered after it.
    proof fn lemma_preorder_parts(n: Node<V>)
        requires
            n.wf(),
        ensures
            pre_keys(n.preorder()) == seq![kpair(n.key)] + pre_keys(Self::preorder_of(n.l)) + pre_keys(Self::preorder_of(n.r)),
            pre_keys(n.preorder()).len() > 0,
            pre_keys(n.preorder())[0] == kpair(n.key),
            pre_keys(n.preorder()).drop_first().filter(below(kpair(n.key))) == pre_keys(Self::preorder_of(n.l)),
            pre_keys(n.preorder()).drop_first().filter(above(kpair(n.key))) == pre_keys(Self::preorder_of(n.r)),
    {
        let pl = pre_keys(Self::preorder_of(n.l));
        let pr = pre_keys(Self::preorder_of(n.r));
        let root = kpair(n.key);
        assert(pre_keys(n.preorder()) =~= seq![root] + pl + pr);
        assert(pre_keys(n.preorder()).drop_first() =~= pl + pr);
        Self::lemma_entries(n.l);
        Self::lemma_entries(n.r);
        assert forall|i: int| 0 <= i < pl.len() implies below(root)(#[trigger] pl[i]) by {
            assert(Self::map_of(n.l).dom().contains(kpair(Self::preorder_of(n.l)[i].0)));
        }
        assert forall|i: int| 0 <= i < pl.len() implies !above(root)(#[trigger] pl[i]) by {
            assert(Self::map_of(n.l).dom().contains(kpair(Self::preorder_of(n.l)[i].0)));
        }
        assert forall|i: int| 0 <= i < pr.len() implies above(root)(#[trigger] pr[i]) by {
            assert(Self::map_of(n.r).dom().contains(kpair(Self::preorder_of(n.r)[i].0)));
        }
        assert forall|i: int| 0 <= i < pr.len() implies !below(root)(#[trigger] pr[i]) by {
            assert(Self::map_of(n.r).dom().contains(kpair(Self::preorder_of(n.r)[i].0)));
        }
        Seq::filter_distributes_over_add(pl, pr, below(root));
        Seq::filter_distributes_over_add(pl, pr, above(root));
        lemma_filter_keeps_all(pl, below(root));
        lemma_filter_keeps_none(pr, below(root));
        lemma_filter_keeps_all(pr, above(root));
        lemma_filter_keeps_none(pl, above(root));
        assert(pl + Seq::<(i64, i64)>::empty() =~= pl);
        assert(Seq::<(i64, i64)>::empty() + pr =~= pr);
    }

    /// The pre-order and in-order sequences list exactly the entries of the map, once each.
    pub proof fn lemma_entries(t: Option<Box<Node<V>>>)
        requires
            Self::wf_opt(t),
        ensures
            Self::preorder_of(t).len() == Self::size_of(t),
            Self::inorder_of(t).len() == Self::size_of(t),
            forall|i: int| 0 <= i < Self::preorder_of(t).len() ==>
                Self::map_of(t).dom().contains(#[trigger] kpair(Self::preorder_of(t)[i].0))
                && Self::map_of(t)[kpair(Self::preorder_of(t)[i].0)] == Self::preorder_of(t)[i].1,
            forall|k| #[trigger] Self::map_of(t).dom().contains(k) ==>
                exists|i: int| 0 <= i < Self::preorder_of(t).len() && kpair(Self::preorder_of(t)[i].0) == k,
            forall|i: int| 0 <= i < Self::inorder_of(t).len() ==>
                Self::map_of(t).dom().contains(#[trigger] kpair(Self::inorder_of(t)[i].0))
                && Self::map_of(t)[kpair(Self::inorder_of(t)[i].0)] == Self::inorder_of(t)[i].1,
            forall|k| #[trigger] Self::map_of(t).dom().contains(k) ==>
                exists|i: int| 0 <= i < Self::inorder_of(t).len() && kpair(Self::inorder_of(t)[i].0) == k,
            strictly_sorted(Self::inorder_of(t)),
        decreases t,
    {
        if let Some(n) = t {
            Self::lemma_entries(n.l);
            Self::lemma_entries(n.r);
            let pl = Self::preorder_of(n.l);
            let pr = Self::preorder_of(n.r);
            let il = Self::inorder_of(n.l);
            let ir = Self::inorder_of(n.r);
            let ml = Self::map_of(n.l);
            let mr = Self::map_of(n.r);
            let m = n.as_map();
            let pre = n.preorder();
            let ino = n.inorder();
            assert(pre == seq![(n.key, n.value)] + pl + pr);
            assert(ino == il + seq![(n.key, n.value)] + ir);
            assert forall|i: int| 0 <= i < pre.len() implies m.dom().contains(#[trigger] kpair(pre[i].0))
                && m[kpair(pre[i].0)] == pre[i].1 by {
                if i == 0 {
                } else if i < 1 + pl.len() {
                    assert(pre[i] == pl[i - 1]);
                    assert(ml.dom().contains(kpair(pl[i - 1].0)));
                    assert(!mr.dom().contains(kpair(pl[i - 1].0))) by {
                        if mr.dom().contains(kpair(pl[i - 1].0)) {
                            assert(key_lt(kpair(pl[i - 1].0), kpair(n.key)));
                            assert(key_lt(kpair(n.key), kpair(pl[i - 1].0)));
                        }
                    }
                } else {
                    assert(pre[i] == pr[i - 1 - pl.len()]);
                    assert(mr.dom().contains(kpair(pr[i - 1 - pl.len()].0)));
                }
            }
            assert forall|k| #[trigger] m.dom().contains(k) implies
                exists|i: int| 0 <= i < pre.len() && kpair(pre[i].0) == k by {
                if k == kpair(n.key) {
                    assert(kpair(pre[0].0) == k);
                } else if ml.dom().contains(k) {
                    let j = choose|j: int| 0 <= j < pl.len() && kpair(pl[j].0) == k;
                    assert(pre[j + 1] == pl[j]);
                } else {
                    let j = choose|j: int| 0 <= j < pr.len() && kpair(pr[j].0) == k;
                    assert(pre[j + 1 + pl.len()] == pr[j]);
                }
            }
            assert forall|k| #[trigger] m.dom().contains(k) implies
                exists|i: int| 0 <= i < ino.len() && kpair(ino[i].0) == k by {
                if k == kpair(n.key) {
                    assert(kpair(ino[il.len() as int].0) == k);
                } else if ml.dom().contains(k) {
                    let j = choose|j: int| 0 <= j < il.len() && kpair(il[j].0) == k;
                    assert(ino[j] == il[j]);
                } else {
                    let j = choose|j: int| 0 <= j < ir.len() && kpair(ir[j].0) == k;
                    assert(ino[j + 1 + il.len()] == ir[j]);
                }
            }
            assert forall|i: int| 0 <= i < ino.len() implies m.dom().contains(#[trigger] kpair(ino[i].0))
                && m[kpair(ino[i].0)] == ino[i].1 by {
                if i < il.len() {
                    assert(ino[i] == il[i]);
                    assert(ml.dom().contains(kpair(il[i].0)));
                    assert(!mr.dom().contains(kpair(il[i].0))) by {
                        if mr.dom().contains(kpair(il[i].0)) {
                            assert(key_lt(kpair(il[i].0), kpair(n.key)));
                            assert(key_lt(kpair(n.key), kpair(il[i].0)));
                        }
                    }
                } else if i == il.len() {
                } else {
                    assert(ino[i] == ir[i - 1 - il.len()]);
                    assert(mr.dom().contains(kpair(ir[i - 1 - il.len()].0)));
                }
            }
            assert forall|i: int, j: int| 0 <= i < j < ino.len() implies
                key_lt(#[trigger] kpair(ino[i].0), #[trigger] kpair(ino[j].0)) by {
                let ki = kpair(ino[i].0);
                let kj = kpair(ino[j].0);
                if i < il.len() {
                    assert(ino[i] == il[i]);
                    assert(ml.dom().contains(kpair(il[i].0)));
                    if j < il.len() {
                        assert(ino[j] == il[j]);
                    } else if j > il.len() {
                        assert(ino[j] == ir[j - 1 - il.len()]);
                        assert(mr.dom().contains(kpair(ir[j - 1 - il.len()].0)));
                    }
                } else if i == il.len() {
                    assert(ino[j] == ir[j - 1 - il.len()]);
                    assert(mr.dom().contains(kpair(ir[j - 1 - il.len()].0)));
                } else {
                    assert(ino[i] == ir[i - 1 - il.len()]);
                    assert(ino[j] == ir[j - 1 - il.len()]);
                }
            }
        }
    }

    /// The largest of an endpoint and two optional subtree maxima.
    pub open spec fn local_max_spec(upper: i64, ml: Option<i64>, mr: Option<i64>) -> i64 {
        let a = match ml {
            Some(x) => imax(x, upper),
            None => upper,
        };
        match mr {
            Some(y) => imax(y, a),
            None => a,
        }
    }

    /// Stored maxima agree with the subtrees everywhere below this node.
    pub closed spec fn max_consistent(self) -> bool
        decreases self,
    {
        &&& self.max == self.max_end()
        &&& match self.l {
            Some(l) => l.max_consistent(),
            None => true,
        }
        &&& match self.r {
            Some(r) => r.max_consistent(),
            None => true,
        }
    }

    /// Each node's children lie on the correct side of it.
    pub closed spec fn locally_ordered(self) -> bool
        decreases self,
    {
        &&& match self.l {
            Some(l) => key_lt(kpair(l.key), kpair(self.key)) && l.locally_ordered(),
            None => true,
        }
        &&& match self.r {
            Some(r) => key_lt(kpair(self.key), kpair(r.key)) && r.locally_ordered(),
            None => true,
        }
    }

    pub proof fn lemma_wf_checks(n: Node<V>)
        requires
            n.wf(),
        ensures
            n.max_consistent(),
            n.locally_ordered(),
        decreases n,
    {
        if let Some(l) = n.l {
            Self::lemma_wf_checks(*l);
            assert(Self::map_of(n.l).dom().contains(kpair(l.key)));
        }
        if let Some(r) = n.r {
            Self::lemma_wf_checks(*r);
            assert(Self::map_of(n.r).dom().contains(kpair(r.key)));
        }
    }

    pub proof fn lemma_height(t: Option<Box<Node<V>>>)
        ensures
            Self::height_of(t) <= Self::size_of(t),
            Self::height_of(t) == 0 <==> t is None,
        decreases t,
    {
        if let Some(n) = t {
            Self::lemma_height(n.l);
            Self::lemma_height(n.r);
        }
    }

    // ------------------------------------------------------------------
    // Executable operations

    /// Create a subtree holding the single given entry.
    pub fn new(key: Range<i64>, value: V) -> (n: Node<V>)
        ensures
            n.wf(),
            n.as_map() == Map::<(i64, i64), V>::empty().insert(kpair(key), value),
            n.max_end() == key.end,
            n.size() == 1,
    {
        let n = Node { max: key.end, key, value, l: None, r: None };
        assert(n.as_map() =~= Map::<(i64, i64), V>::empty().insert(kpair(key), value));
        n
    }

    /// Dictionary comparison of two intervals by (start, end).
    fn compare(a: &Range<i64>, b: &Range<i64>) -> (c: Ordering)
        ensures
            (c == Ordering::Less) == key_lt(kpair(*a), kpair(*b)),
            (c == Ordering::Equal) == (kpair(*a) == kpair(*b)),
            (c == Ordering::Greater) == key_lt(kpair(*b), kpair(*a)),
    {
        if a.start < b.start || (a.start == b.start && a.end < b.end) {
            Ordering::Less
        } else if a.start == b.start && a.end == b.end {
            Ordering::Equal
        } else {
            Ordering::Greater
        }
    }

    /// The number of nodes in this subtree, this one included.
    pub(crate) fn len(&self) -> (r: usize)
        requires
            self.size() <= usize::MAX,
        ensures
            r == self.size(),
        decreases self,
    {
        let a: usize = match &self.l {
            Some(l) => l.len(),
            None => 0,
        };
        let b: usize = match &self.r {
            Some(r) => r.len(),
            None => 0,
        };
        a + b + 1
    }

    /// The number of nodes on the longest path from this node to a leaf.
    pub(crate) fn height(&self) -> (r: usize)
        requires
            self.size() <= usize::MAX,
        ensures
            r == self.height_spec(),
        decreases self,
    {
        proof {
            Self::lemma_height(self.l);
            Self::lemma_height(self.r);
        }
        let a: usize = match &self.l {
            Some(l) => l.height(),
            None => 0,
        };
        let b: usize = match &self.r {
            Some(r) => r.height(),
            None => 0,
        };
        (if a < b { b } else { a }) + 1
    }

    /// Whether the given key is in this subtree.
    pub(crate) fn contains(&self, key: &Range<i64>) -> (r: bool)
        requires
            self.wf(),
        ensures
            r == self.as_map().dom().contains(kpair(*key)),
    {
        self.get(key).is_some()
    }

    /// The value stored under the given key in this subtree, if any.
    pub(crate) fn get(&self, key: &Range<i64>) -> (r: Option<&V>)
        requires
            self.wf(),
        ensures
            r.is_some() == self.as_map().dom().contains(kpair(*key)),
            r.is_some() ==> *r.unwrap() == self.as_map()[kpair(*key)],
        decreases self,
    {
        match Self::compare(key, &self.key) {
            Ordering::Less => {
                assert(!Self::map_of(self.r).dom().contains(kpair(*key)));
                match &self.l {
                    Some(l) => l.get(key),
                    None => None,
                }
            },
            Ordering::Greater => {
                assert(!Self::map_of(self.l).dom().contains(kpair(*key)));
                match &self.r {
                    Some(r) => r.get(key),
                    None => None,
                }
            },
            Ordering::Equal => Some(&self.value),
        }
    }

    /// A mutable reference to the value stored under the given key, if any.
    pub(crate) fn get_mut<'a>(node: &'a mut Option<Box<Node<V>>>, key: &Range<i64>) -> (res: Option<&'a mut V>)
        requires
            Self::wf_opt(*old(node)),
        ensures
            Self::wf_opt(*final(node)),
            Self::max_opt(*final(node)) == Self::max_opt(*old(node)),
            Self::size_of(*final(node)) == Self::size_of(*old(node)),
            Self::map_of(*final(node)).dom() == Self::map_of(*old(node)).dom(),
            Self::map_of(*old(node)).dom().contains(kpair(*key)) == res.is_some(),
            res.is_none() ==> *final(node) == *old(node),
            res.is_some() ==> *res.unwrap() == Self::map_of(*old(node))[kpair(*key)]
                && Self::map_of(*final(node)) == Self::map_of(*old(node)).insert(kpair(*key), *final(res.unwrap())),
        decreases *old(node),
    {
        if node.is_none() {
            return None;
        }
        let n = node.as_mut().unwrap();
        match Self::compare(key, &n.key) {
            Ordering::Less => {
                assert(!Self::map_of(n.r).dom().contains(kpair(*key)));
                Self::get_mut(&mut n.l, key)
            },
            Ordering::Greater => {
                assert(!Self::map_of(n.l).dom().contains(kpair(*key)));
                Self::get_mut(&mut n.r, key)
            },
            Ordering::Equal => Some(&mut n.value),
        }
    }

    /// Insert an entry into a maybe-subtree, overwriting the value of an
    /// existing key, and return a mutable reference to the stored value.
    pub fn insert<'a>(node: &'a mut Option<Box<Node<V>>>, key: Range<i64>, value: V) -> (res: &'a mut V)
        requires
            Self::wf_opt(*old(node)),
        ensures
            Self::wf_opt(*final(node)),
            *res == value,
            Self::max_opt(*final(node)) == Some(Self::max_after(*old(node), key.end)),
            Self::map_of(*final(node)) == Self::map_of(*old(node)).insert(kpair(key), *final(res)),
            Self::size_of(*final(node)) <= Self::size_of(*old(node)) + 1,
            pre_keys(Self::preorder_of(*final(node))) == preorder_insert(pre_keys(Self::preorder_of(*old(node))), kpair(key)),
        decreases *old(node),
    {
        if node.is_none() {
            *node = Some(Box::new(Node { max: key.end, key, value, l: None, r: None }));
            let n = node.as_mut().unwrap();
            proof {
                assert(pre_keys(Self::preorder_of(*old(node))) =~= Seq::<(i64, i64)>::empty());
            }
            return &mut n.value;
        }
        proof {
            Self::lemma_preorder_parts(*old(node).unwrap());
        }
        let n = node.as_mut().unwrap();
        if key.end > n.max {
            n.max = key.end;
        }
        match Self::compare(&key, &n.key) {
            Ordering::Less => {
                assert(!Self::map_of(n.r).dom().contains(kpair(key)));
                Self::insert(&mut n.l, key, value)
            },
            Ordering::Greater => {
                assert(!Self::map_of(n.l).dom().contains(kpair(key)));
                Self::insert(&mut n.r, key, value)
            },
            Ordering::Equal => {
                n.value = value;
                &mut n.value
            },
        }
    }

    /// A mutable reference to the value under the given key, which is first
    /// created with the default value if it is absent.
    pub(crate) fn require<'a>(node: &'a mut Option<Box<Node<V>>>, key: Range<i64>) -> (res: &'a mut V)
        where V: Default,
        requires
            Self::wf_opt(*old(node)),
        ensures
            Self::wf_opt(*final(node)),
            Self::map_of(*old(node)).dom().contains(kpair(key)) ==> *res == Self::map_of(*old(node))[kpair(key)],
            Self::max_opt(*final(node)) == Some(Self::max_after(*old(node), key.end)),
            Self::map_of(*final(node)) == Self::map_of(*old(node)).insert(kpair(key), *final(res)),
            Self::size_of(*final(node)) <= Self::size_of(*old(node)) + 1,
            !Self::map_of(*old(node)).dom().contains(kpair(key)) ==> call_ensures(V::default, (), *res),
            pre_keys(Self::preorder_of(*final(node))) == preorder_insert(pre_keys(Self::preorder_of(*old(node))), kpair(key)),
        decreases *old(node),
    {
        if node.is_none() {
            let make = V::default;
            let value = make();
            *node = Some(Box::new(Node { max: key.end, key, value, l: None, r: None }));
            let n = node.as_mut().unwrap();
            proof {
                assert(pre_keys(Self::preorder_of(*old(node))) =~= Seq::<(i64, i64)>::empty());
            }
            return &mut n.value;
        }
        proof {
            Self::lemma_preorder_parts(*old(node).unwrap());
        }
        let n = node.as_mut().unwrap();
        if key.end > n.max {
            n.max = key.end;
        }
        match Self::compare(&key, &n.key) {
            Ordering::Less => {
                assert(!Self::map_of(n.r).dom().contains(kpair(key)));
                Self::require(&mut n.l, key)
            },
            Ordering::Greater => {
                assert(!Self::map_of(n.l).dom().contains(kpair(key)));
                Self::require(&mut n.r, key)
            },
            Ordering::Equal => &mut n.value,
        }
    }

    /// The largest of the given upper endpoint and the stored maxima of two
    /// maybe-subtrees.
    fn local_max(upper: i64, l: &Option<Box<Node<V>>>, r: &Option<Box<Node<V>>>) -> (m: i64)
        requires
            Self::wf_opt(*l),
            Self::wf_opt(*r),
        ensures
            m == Self::local_max_spec(upper, Self::max_opt(*l), Self::max_opt(*r)),
    {
        let a = match l {
            Some(l) => if l.max < upper { upper } else { l.max },
            None => upper,
        };
        match r {
            Some(r) => if r.max < a { a } else { r.max },
            None => a,
        }
    }

    /// Recompute the largest upper endpoint of this subtree from scratch.
    fn compute_max(&self) -> (m: i64)
        ensures
            m == self.max_end(),
        decreases self,
    {
        let a = match &self.l {
            Some(l) => {
                let x = l.compute_max();
                if x < self.key.end { self.key.end } else { x }
            },
            None => self.key.end,
        };
        match &self.r {
            Some(r) => {
                let y = r.compute_max();
                if y < a { a } else { y }
            },
            None => a,
        }
    }

    /// Whether every node stores the true maximum upper endpoint of its subtree.
    pub fn validate_max(&self) -> (r: bool)
        ensures
            r == self.max_consistent(),
        decreases self,
    {
        if self.max != self.compute_max() {
            return false;
        }
        let a = match &self.l {
            Some(l) => l.validate_max(),
            None => true,
        };
        let b = match &self.r {
            Some(r) => r.validate_max(),
            None => true,
        };
        a && b
    }

    /// Whether every node's children lie on the correct side of it.
    pub fn validate_order(&self) -> (r: bool)
        ensures
            r == self.locally_ordered(),
        decreases self,
    {
        let lok = match &self.l {
            Some(l) => match Self::compare(&l.key, &self.key) {
                Ordering::Less => true,
                _ => false,
            },
            None => true,
        };
        let rok = match &self.r {
            Some(r) => match Self::compare(&r.key, &self.key) {
                Ordering::Greater => true,
                _ => false,
            },
            None => true,
        };
        if !lok || !rok {
            return false;
        }
        let a = match &self.l {
            Some(l) => l.validate_order(),
            None => true,
        };
        let b = match &self.r {
            Some(r) => r.validate_order(),
            None => true,
        };
        a && b
    }

    /// Remove the left-most node of this subtree, returning the rest of the
    /// subtree together with the removed key and value.
    pub(crate) fn take_lmost(node: Box<Node<V>>) -> (res: (Option<Box<Node<V>>>, Range<i64>, V))
        requires
            node.wf(),
        ensures
            node.as_map().dom().contains(kpair(res.1)),
            node.as_map()[kpair(res.1)] == res.2,
            forall|k| #[trigger] node.as_map().dom().contains(k) && k != kpair(res.1) ==> key_lt(kpair(res.1), k),
            Self::wf_opt(res.0),
            Self::map_of(res.0) == node.as_map().remove(kpair(res.1)),
            Self::size_of(res.0) + 1 == node.size(),
        decreases node,
    {
        let ghost orig = *node;
        let mut node = node;
        if node.l.is_some() {
            let l = node.l.take().unwrap();
            proof {
                assert(Self::map_of(Some(l)).dom().contains(kpair(l.key)));
            }
            let (new_l, key, value) = Self::take_lmost(l);
            node.l = new_l;
            node.max = Self::local_max(node.key.end, &node.l, &node.r);
            proof {
                assert(Self::map_of(node.r).dom().contains(kpair(key)) ==> false) by {
                    if Self::map_of(node.r).dom().contains(kpair(key)) {
                        assert(key_lt(kpair(key), kpair(node.key)));
                    }
                }
                assert(node.as_map() =~= orig.as_map().remove(kpair(key)));
            }
            (Some(node), key, value)
        } else {
            let Node { key, value, r, .. } = *node;
            proof {
                assert(Self::map_of(r) =~= orig.as_map().remove(kpair(key)));
            }
            (r, key, value)
        }
    }

    /// Remove the right-most node of this subtree, returning the rest of the
    /// subtree together with the removed key and value.
    pub(crate) fn take_rmost(node: Box<Node<V>>) -> (res: (Option<Box<Node<V>>>, Range<i64>, V))
        requires
            node.wf(),
        ensures
            node.as_map().dom().contains(kpair(res.1)),
            node.as_map()[kpair(res.1)] == res.2,
            forall|k| #[trigger] node.as_map().dom().contains(k) && k != kpair(res.1) ==> key_lt(k, kpair(res.1)),
            Self::wf_opt(res.0),
            Self::map_of(res.0) == node.as_map().remove(kpair(res.1)),
            Self::size_of(res.0) + 1 == node.size(),
        decreases node,
    {
        let ghost orig = *node;
        let mut node = node;
        if node.r.is_some() {
            let r = node.r.take().unwrap();
            proof {
                assert(Self::map_of(Some(r)).dom().contains(kpair(r.key)));
            }
            let (new_r, key, value) = Self::take_rmost(r);
            node.r = new_r;
            node.max = Self::local_max(node.key.end, &node.l, &node.r);
            proof {
                assert(Self::map_of(node.l).dom().contains(kpair(key)) ==> false) by {
                    if Self::map_of(node.l).dom().contains(kpair(key)) {
                        assert(key_lt(kpair(node.key), kpair(key)));
                    }
                }
                assert(node.as_map() =~= orig.as_map().remove(kpair(key)));
            }
            (Some(node), key, value)
        } else {
            let Node { key, value, l, .. } = *node;
            proof {
                assert(Self::map_of(l) =~= orig.as_map().remove(kpair(key)));
            }
            (l, key, value)
        }
    }

    /// Remove the entry with the given key from a maybe-subtree, if present.
    pub(crate) fn remove(node: &mut Option<Box<Node<V>>>, key: &Range<i64>)
        requires
            Self::wf_opt(*old(node)),
            Self::size_of(*old(node)) <= usize::MAX,
        ensures
            Self::wf_opt(*final(node)),
            Self::map_of(*final(node)) == Self::map_of(*old(node)).remove(kpair(*key)),
            Self::size_of(*final(node)) <= Self::size_of(*old(node)),
        decreases *old(node),
    {
        if node.is_none() {
            proof {
                assert(Self::map_of(*node) =~= Self::map_of(*node).remove(kpair(*key)));
            }
            return;
        }
        let mut n = node.take().unwrap();
        match Self::compare(key, &n.key) {
            Ordering::Less => {
                Self::remove(&mut n.l, key);
                n.max = Self::local_max(n.key.end, &n.l, &n.r);
                proof {
                    assert(!Self::map_of(n.r).dom().contains(kpair(*key)));
                    assert(n.as_map() =~= Self::map_of(*old(node)).remove(kpair(*key)));
                }
                *node = Some(n);
            },
            Ordering::Greater => {
                Self::remove(&mut n.r, key);
                n.max = Self::local_max(n.key.end, &n.l, &n.r);
                proof {
                    assert(!Self::map_of(n.l).dom().contains(kpair(*key)));
                    assert(n.as_map() =~= Self::map_of(*old(node)).remove(kpair(*key)));
                }
                *node = Some(n);
            },
            Ordering::Equal => {
                let ghost old_n = *n;
                proof {
                    assert(!Self::map_of(n.l).dom().contains(kpair(*key)));
                    assert(!Self::map_of(n.r).dom().contains(kpair(*key)));
                }
                let l = n.l.take();
                let r = n.r.take();
                if l.is_none() {
                    proof {
                        assert(Self::map_of(r) =~= old_n.as_map().remove(kpair(*key)));
                    }
                    *node = r;
                } else if r.is_none() {
                    proof {
                        assert(Self::map_of(l) =~= old_n.as_map().remove(kpair(*key)));
                    }
                    *node = l;
                } else {
                    let l = l.unwrap();
                    let r = r.unwrap();
                    if r.len() > l.len() {
                        proof {
                            assert(Self::map_of(Some(r)).dom().contains(kpair(r.key)));
                        }
                        let (new_r, r_key, r_value) = Self::take_lmost(r);
                        n.key = r_key;
                        n.value = r_value;
                        n.l = Some(l);
                        n.r = new_r;
                        proof {
                            assert forall|k| #[trigger] Self::map_of(n.l).dom().contains(k) implies key_lt(k, kpair(n.key)) by {
                                assert(key_lt(k, kpair(old_n.key)));
                                assert(Self::map_of(old_n.r).dom().contains(kpair(n.key)));
                            }
                        }
                    } else {
                        proof {
                            assert(Self::map_of(Some(l)).dom().contains(kpair(l.key)));
                        }
                        let (new_l, l_key, l_value) = Self::take_rmost(l);
                        n.key = l_key;
                        n.value = l_value;
                        n.l = new_l;
                        n.r = Some(r);
                        proof {
                            assert forall|k| #[trigger] Self::map_of(n.r).dom().contains(k) implies key_lt(kpair(n.key), k) by {
                                assert(key_lt(kpair(old_n.key), k));
                                assert(Self::map_of(old_n.l).dom().contains(kpair(n.key)));
                            }
                        }
                    }
                    n.max = Self::local_max(n.key.end, &n.l, &n.r);
                    proof {
                        assert(n.as_map() =~= old_n.as_map().remove(kpair(*key)));
                    }
                    *node = Some(n);
                }
            },
        }
    }

    /// Two well-formed trees listing the same entries in order hold the same map.
    pub proof fn lemma_inorder_determines_map(a: Option<Box<Node<V>>>, b: Option<Box<Node<V>>>)
        requires
            Self::wf_opt(a),
            Self::wf_opt(b),
            Self::inorder_of(a) == Self::inorder_of(b),
        ensures
            Self::map_of(a) == Self::map_of(b),
    {
        Self::lemma_entries(a);
        Self::lemma_entries(b);
        let ma = Self::map_of(a);
        let mb = Self::map_of(b);
        let s = Self::inorder_of(a);
        assert forall|k| ma.dom().contains(k) <==> mb.dom().contains(k) by {
            if ma.dom().contains(k) {
                let i = choose|i: int| 0 <= i < s.len() && kpair(s[i].0) == k;
                assert(mb.dom().contains(kpair(s[i].0)));
            }
            if mb.dom().contains(k) {
                let i = choose|i: int| 0 <= i < s.len() && kpair(s[i].0) == k;
                assert(ma.dom().contains(kpair(s[i].0)));
            }
        }
        assert forall|k| #[trigger] ma.dom().contains(k) implies ma[k] == mb[k] by {
            let i = choose|i: int| 0 <= i < s.len() && kpair(s[i].0) == k;
            assert(ma[kpair(s[i].0)] == s[i].1);
            assert(mb[kpair(s[i].0)] == s[i].1);
        }
        assert(ma =~= mb);
    }

    /// Append references to the entries of a maybe-subtree, in pre-order.
    pub(crate) fn collect_preorder<'a>(node: &'a Option<Box<Node<V>>>, out: &mut Vec<(&'a Range<i64>, &'a V)>)
        ensures
            deref_entries(final(out)@) == deref_entries(old(out)@) + Self::preorder_of(*node),
        decreases node,
    {
        if let Some(n) = node {
            let ghost o0 = out@;
            out.push((&n.key, &n.value));
            proof {
                assert(deref_entries(out@) =~= deref_entries(o0) + seq![(n.key, n.value)]);
            }
            let ghost o1 = out@;
            Self::collect_preorder(&n.l, out);
            let ghost o2 = out@;
            Self::collect_preorder(&n.r, out);
            proof {
                assert(deref_entries(out@) =~= deref_entries(o0) + n.preorder());
            }
        } else {
            proof {
                assert(deref_entries(out@) =~= deref_entries(out@) + Seq::<(Range<i64>, V)>::empty());
            }
        }
    }

    /// Append references to the entries of a maybe-subtree, in key order.
    pub(crate) fn collect_inorder<'a>(node: &'a Option<Box<Node<V>>>, out: &mut Vec<(&'a Range<i64>, &'a V)>)
        ensures
            deref_entries(final(out)@) == deref_entries(old(out)@) + Self::inorder_of(*node),
        decreases node,
    {
        if let Some(n) = node {
            let ghost o0 = out@;
            Self::collect_inorder(&n.l, out);
            let ghost o1 = out@;
            out.push((&n.key, &n.value));
            proof {
                assert(deref_entries(out@) =~= deref_entries(o1) + seq![(n.key, n.value)]);
            }
            Self::collect_inorder(&n.r, out);
            proof {
                assert(deref_entries(out@) =~= deref_entries(o0) + n.inorder());
            }
        } else {
            proof {
                assert(deref_entries(out@) =~= deref_entries(out@) + Seq::<(Range<i64>, V)>::empty());
            }
        }
    }

    /// Consume a maybe-subtree, appending its entries in pre-order.
    pub(crate) fn into_preorder(node: Option<Box<Node<V>>>, out: &mut Vec<(Range<i64>, V)>)
        ensures
            final(out)@ == old(out)@ + Self::preorder_of(node),
        decreases node,
    {
        if let Some(n) = node {
            let ghost g = *n;
            let Node { key, value, l, r, .. } = *n;
            let ghost o0 = out@;
            out.push((key, value));
            Self::into_preorder(l, out);
            Self::into_preorder(r, out);
            proof {
                assert(out@ =~= o0 + g.preorder());
            }
        } else {
            proof {
                assert(out@ =~= out@ + Seq::<(Range<i64>, V)>::empty());
            }
        }
    }

    /// Consume a maybe-subtree, appending its entries in key order.
    pub(crate) fn into_inorder(node: Option<Box<Node<V>>>, out: &mut Vec<(Range<i64>, V)>)
        ensures
            final(out)@ == old(out)@ + Self::inorder_of(node),
        decreases node,
    {
        if let Some(n) = node {
            let ghost g = *n;
            let Node { key, value, l, r, .. } = *n;
            let ghost o0 = out@;
            Self::into_inorder(l, out);
            out.push((key, value));
            Self::into_inorder(r, out);
            proof {
                assert(out@ =~= o0 + g.inorder());
            }
        } else {
            proof {
                assert(out@ =~= out@ + Seq::<(Range<i64>, V)>::empty());
            }
        }
    }

    /// Whether an entry's interval holds the given point.
    pub open spec fn point_pred(p: i64) -> spec_fn((Range<i64>, V)) -> bool {
        |e: (Range<i64>, V)| holds_point(e.0, p)
    }

    /// Whether an entry's interval overlaps a range with the given bounds.
    pub open spec fn overlap_pred(lo: Bound, hi: Bound) -> spec_fn((Range<i64>, V)) -> bool {
        |e: (Range<i64>, V)| overlap_spec(lo, hi, Bound::Included(e.0.start), Bound::Excluded(e.0.end))
    }

    /// Append references to the entries whose interval holds the point, in
    /// pre-order, skipping subtrees that cannot hold any.
    pub(crate) fn query_point_into<'a>(node: &'a Option<Box<Node<V>>>, point: i64, out: &mut Vec<(&'a Range<i64>, &'a V)>)
        requires
            Self::wf_opt(*node),
        ensures
            deref_entries(final(out)@) == deref_entries(old(out)@) + Self::preorder_of(*node).filter(Self::point_pred(point)),
        decreases node,
    {
        broadcast use Seq::filter_distributes_over_add, Seq::lemma_filter_prepend;
        let ghost pred = Self::point_pred(point);
        if let Some(n) = node {
            let ghost o0 = out@;
            let ghost pl = Self::preorder_of(n.l);
            let ghost pr = Self::preorder_of(n.r);
            if n.key.start <= point && point < n.key.end {
                out.push((&n.key, &n.value));
            }
            proof {
                assert(deref_entries(out@) =~= deref_entries(o0) + seq![(n.key, n.value)].filter(pred)) by {
                    reveal_with_fuel(Seq::filter, 2);
                }
            }
            let ghost o1 = out@;
            if point < n.max {
                Self::query_point_into(&n.l, point, out);
            } else {
                proof {
                    Self::lemma_entries(n.l);
                    Self::lemma_max_bound(n.l);
                    assert forall|i: int| 0 <= i < pl.len() implies !pred(#[trigger] pl[i]) by {
                        assert(Self::map_of(n.l).dom().contains(kpair(pl[i].0)));
                    }
                    lemma_filter_none(pl, pred);
                    assert(deref_entries(out@) =~= deref_entries(o1) + pl.filter(pred));
                }
            }
            let ghost o2 = out@;
            if point >= n.key.start {
                Self::query_point_into(&n.r, point, out);
            } else {
                proof {
                    Self::lemma_entries(n.r);
                    assert forall|i: int| 0 <= i < pr.len() implies !pred(#[trigger] pr[i]) by {
                        assert(Self::map_of(n.r).dom().contains(kpair(pr[i].0)));
                    }
                    lemma_filter_none(pr, pred);
                    assert(deref_entries(out@) =~= deref_entries(o2) + pr.filter(pred));
                }
            }
            proof {
                assert(n.preorder() == seq![(n.key, n.value)] + pl + pr);
                assert(deref_entries(out@) =~= deref_entries(o0) + n.preorder().filter(pred));
            }
        } else {
            proof {
                reveal(Seq::filter);
                assert(deref_entries(out@) =~= deref_entries(out@) + Seq::<(Range<i64>, V)>::empty().filter(pred));
            }
        }
    }

    /// Append references to the entries whose interval overlaps the range, in
    /// pre-order, skipping subtrees that cannot hold any.
    pub(crate) fn query_range_into<'a, R: Overlap>(node: &'a Option<Box<Node<V>>>, range: &R, out: &mut Vec<(&'a Range<i64>, &'a V)>)
        requires
            Self::wf_opt(*node),
        ensures
            deref_entries(final(out)@) == deref_entries(old(out)@)
                + Self::preorder_of(*node).filter(Self::overlap_pred(range.lower_spec(), range.upper_spec())),
        decreases node,
    {
        broadcast use Seq::filter_distributes_over_add, Seq::lemma_filter_prepend;
        let ghost pred = Self::overlap_pred(range.lower_spec(), range.upper_spec());
        if let Some(n) = node {
            let ghost o0 = out@;
            let ghost pl = Self::preorder_of(n.l);
            let ghost pr = Self::preorder_of(n.r);
            if overlaps(range, &n.key) {
                out.push((&n.key, &n.value));
            }
            proof {
                assert(deref_entries(out@) =~= deref_entries(o0) + seq![(n.key, n.value)].filter(pred)) by {
                    reveal_with_fuel(Seq::filter, 2);
                }
            }
            let ghost o1 = out@;
            if overlaps(range, &(Bound::Unbounded, Bound::Excluded(n.max))) {
                Self::query_range_into(&n.l, range, out);
            } else {
                proof {
                    Self::lemma_entries(n.l);
                    Self::lemma_max_bound(n.l);
                    assert forall|i: int| 0 <= i < pl.len() implies !pred(#[trigger] pl[i]) by {
                        assert(Self::map_of(n.l).dom().contains(kpair(pl[i].0)));
                        if pred(pl[i]) {
                            lemma_overlap_to(range.lower_spec(), range.upper_spec(), n.max, pl[i].0.start, pl[i].0.end);
                        }
                    }
                    lemma_filter_none(pl, pred);
                    assert(deref_entries(out@) =~= deref_entries(o1) + pl.filter(pred));
                }
            }
            let ghost o2 = out@;
            if overlaps(range, &(Bound::Included(n.key.start), Bound::Unbounded)) {
                Self::query_range_into(&n.r, range, out);
            } else {
                proof {
                    Self::lemma_entries(n.r);
                    assert forall|i: int| 0 <= i < pr.len() implies !pred(#[trigger] pr[i]) by {
                        assert(Self::map_of(n.r).dom().contains(kpair(pr[i].0)));
                        if pred(pr[i]) {
                            lemma_overlap_from(range.lower_spec(), range.upper_spec(), n.key.start, pr[i].0.start, pr[i].0.end);
                        }
                    }
                    lemma_filter_none(pr, pred);
                    assert(deref_entries(out@) =~= deref_entries(o2) + pr.filter(pred));
                }
            }
            proof {
                assert(n.preorder() == seq![(n.key, n.value)] + pl + pr);
                assert(deref_entries(out@) =~= deref_entries(o0) + n.preorder().filter(pred));
            }
        } else {
            proof {
                reveal(Seq::filter);
                assert(deref_entries(out@) =~= deref_entries(out@) + Seq::<(Range<i64>, V)>::empty().filter(pred));
            }
        }
    }

    /// Build a balanced subtree from entries sorted strictly by key.
    pub(crate) fn from_sorted_slice(items: Vec<(Range<i64>, V)>) -> (t: Option<Box<Node<V>>>)
        requires
            strictly_sorted(items@),
        ensures
            Self::wf_opt(t),
            Self::inorder_of(t) == items@,
            Self::size_of(t) == items@.len(),
            Self::height_of(t) == bit_len(items@.len()),
        decreases items@.len(),
    {
        if items.len() == 0 {
            return None;
        }
        let ghost all = items@;
        let mut left = items;
        let mid = left.len() / 2;
        let right = left.split_off(mid + 1);
        let (key, value) = left.pop().unwrap();
        proof {
            assert(left@ =~= all.subrange(0, mid as int));
            assert(right@ =~= all.subrange(mid as int + 1, all.len() as int));
            assert(strictly_sorted(left@));
            assert(strictly_sorted(right@));
        }
        let l = Self::from_sorted_slice(left);
        let r = Self::from_sorted_slice(right);
        let max = Self::local_max(key.end, &l, &r);
        let node = Node { key, value, max, l, r };
        proof {
            Self::lemma_entries(node.l);
            Self::lemma_entries(node.r);
            assert forall|k| #[trigger] Self::map_of(node.l).dom().contains(k) implies key_lt(k, kpair(node.key)) by {
                let i = choose|i: int| 0 <= i < Self::inorder_of(node.l).len() && kpair(Self::inorder_of(node.l)[i].0) == k;
                assert(all[i] == Self::inorder_of(node.l)[i]);
                assert(all[mid as int] == (key, value));
            }
            assert forall|k| #[trigger] Self::map_of(node.r).dom().contains(k) implies key_lt(kpair(node.key), k) by {
                let i = choose|i: int| 0 <= i < Self::inorder_of(node.r).len() && kpair(Self::inorder_of(node.r)[i].0) == k;
                assert(all[mid + 1 + i] == Self::inorder_of(node.r)[i]);
                assert(all[mid as int] == (key, value));
            }
            assert(node.inorder() =~= all);
            lemma_bit_len_monotone((all.len() - mid - 1) as nat, mid as nat);
        }
        Some(Box::new(node))
    }

    /// Build a balanced subtree holding the entries of the given list, where
    /// a later entry replaces an earlier one with the same key.
    pub(crate) fn from_entries(items: Vec<(Range<i64>, V)>) -> (t: Option<Box<Node<V>>>)
        ensures
            Self::wf_opt(t),
            Self::map_of(t) == map_of_entries(items@),
            Self::height_of(t) == bit_len(Self::size_of(t)),
    {
        let mut root: Option<Box<Node<V>>> = None;
        let ghost all = items@;
        for item in it: items
            invariant
                it.seq() == all,
                Self::wf_opt(root),
                Self::map_of(root) == map_of_entries(all.take(it.index() as int)),
        {
            proof {
                assert(all.take(it.index() + 1).drop_last() =~= all.take(it.index() as int));
            }
            let (key, value) = item;
            Self::insert(&mut root, key, value);
        }
        proof {
            assert(all.take(all.len() as int) =~= all);
            Self::lemma_entries(root);
        }
        let mut sorted = Vec::new();
        Self::into_inorder(root, &mut sorted);
        proof {
            assert(sorted@ =~= Self::inorder_of(root));
        }
        let t = Self::from_sorted_slice(sorted);
        proof {
            Self::lemma_inorder_determines_map(t, root);
        }
        t
    }

    /// The stored maximum of a non-empty well-formed subtree is the upper
    /// endpoint of one of its keys.
    pub proof fn lemma_max_attained(t: Option<Box<Node<V>>>)
        requires
            Self::wf_opt(t),
            t is Some,
        ensures
            exists|k| #[trigger] Self::map_of(t).dom().contains(k) && k.1 == Self::max_opt(t).unwrap(),
        decreases t,
    {
        let n = t.unwrap();
        assert(Self::map_of(t) == n.as_map());
        let a = match n.l {
            Some(l) => imax(l.max_end(), n.key.end),
            None => n.key.end,
        };
        if n.r is Some && n.r.unwrap().max_end() >= a {
            Self::lemma_max_attained(n.r);
            let k = choose|k| #[trigger] Self::map_of(n.r).dom().contains(k) && k.1 == Self::max_opt(n.r).unwrap();
            assert(n.as_map().dom().contains(k));
        } else if n.l is Some && n.l.unwrap().max_end() >= n.key.end {
            Self::lemma_max_attained(n.l);
            let k = choose|k| #[trigger] Self::map_of(n.l).dom().contains(k) && k.1 == Self::max_opt(n.l).unwrap();
            assert(n.as_map().dom().contains(k));
        } else {
            assert(n.as_map().dom().contains(kpair(n.key)));
        }
    }

    /// The stored maximum of a maybe-subtree.
    pub(crate) fn stored_max(node: &Option<Box<Node<V>>>) -> (m: Option<i64>)
        requires
            Self::wf_opt(*node),
        ensures
            m == Self::max_opt(*node),
    {
        match node {
            Some(n) => Some(n.max),
            None => None,
        }
    }
}

} // verus!
