//! A centered interval tree over `i32` intervals.
//!
//! Each node has a center; the intervals that straddle it are kept at that
//! node in two maps, one keyed by `(start, end)` and one keyed by
//! `(end, start)`, so that distinct intervals never share a key. Intervals
//! that end at or before the center go to the left subtree, intervals that
//! start after it go to the right subtree. The functional model [`Shape`]
//! describes the tree exactly, and the laws of this file state what a query
//! returns: every stored interval that holds the point.
use vstd::prelude::*;
use vstd::std_specs::iter::IteratorSpec;
use vstd::std_specs::cmp::OrdSpec;
use std::collections::BTreeMap;
use std::ops::Range;
use vstd::std_specs::btree::{increasing_seq, key_obeys_cmp_spec};
use vstd::laws_cmp::obeys_cmp;

verus! {

broadcast use {vstd::std_specs::btree::group_btree_axioms, vstd::laws_cmp::group_laws_cmp};

/// The midpoint of `s` and `e`, rounded toward zero.
pub open spec fn center_of(s: i32, e: i32) -> i32 {
    let t = s + e;
    (if t >= 0 {
        t / 2
    } else {
        -((-t) / 2)
    }) as i32
}

/// Whether `c` lies between the two ends of `v`, in either order.
pub open spec fn between(c: i32, v: (i32, i32)) -> bool {
    (v.0 <= c && c <= v.1) || (v.1 <= c && c <= v.0)
}

/// Whether an interval may be held at a node with center `c`: either it
/// straddles `c` (starts at or before it and ends after it), or `c` is its
/// own midpoint, as for the interval a node was created for.
pub open spec fn fits(c: i32, v: (i32, i32)) -> bool {
    (v.0 <= c && c < v.1) || c == center_of(v.0, v.1)
}

/// An interval with its ends swapped: the key of `(start, end)` among the
/// intervals ordered by end.
pub open spec fn flip(v: (i32, i32)) -> (i32, i32) {
    (v.1, v.0)
}

/// Dictionary order on pairs.
pub open spec fn lex_lt(a: (i32, i32), b: (i32, i32)) -> bool {
    a.0 < b.0 || (a.0 == b.0 && a.1 < b.1)
}

/// The functional model of a centered interval tree. Intervals are pairs
/// `(start, end)`, for the half-open range `start..end`; at each node they
/// are filed under `(start, end)` in `by_start` and under `(end, start)` in
/// `by_end`.
pub enum Shape {
    Leaf,
    Node {
        center: i32,
        by_start: Map<(i32, i32), (i32, i32)>,
        by_end: Map<(i32, i32), (i32, i32)>,
        l: Box<Shape>,
        r: Box<Shape>,
    },
}

impl Shape {
    /// Whether the interval `s..e` belongs to the left subtree of a node
    /// with the given center.
    pub open spec fn goes_left(center: i32, s: i32, e: i32) -> bool {
        e <= center
    }

    /// Whether the interval `s..e` belongs to the right subtree of a node
    /// with the given center.
    pub open spec fn goes_right(center: i32, s: i32, e: i32) -> bool {
        !Self::goes_left(center, s, e) && s > center
    }

    /// The tree after inserting `s..e`: it is filed, under `(s, e)` and
    /// `(e, s)`, at the first node on its way down that it does not pass by,
    /// or at a new node centered on it.
    pub open spec fn insert(self, s: i32, e: i32) -> Shape
        decreases self,
    {
        match self {
            Shape::Leaf => Shape::Node {
                center: center_of(s, e),
                by_start: map![(s, e) => (s, e)],
                by_end: map![(e, s) => (s, e)],
                l: Box::new(Shape::Leaf),
                r: Box::new(Shape::Leaf),
            },
            Shape::Node { center, by_start, by_end, l, r } => if Self::goes_left(center, s, e) {
                Shape::Node { center, by_start, by_end, l: Box::new(l.insert(s, e)), r }
            } else if Self::goes_right(center, s, e) {
                Shape::Node { center, by_start, by_end, l, r: Box::new(r.insert(s, e)) }
            } else {
                Shape::Node {
                    center,
                    by_start: by_start.insert((s, e), (s, e)),
                    by_end: by_end.insert((e, s), (s, e)),
                    l,
                    r,
                }
            },
        }
    }

    /// Whether no node of the tree holds an interval.
    pub open spec fn is_empty(self) -> bool
        decreases self,
    {
        match self {
            Shape::Leaf => true,
            Shape::Node { by_start, l, r, .. } => by_start.is_empty() && l.is_empty() && r.is_empty(),
        }
    }

    /// The tree after removing `s..e` at the node where it would be filed;
    /// each node on the way that is left empty is dropped.
    pub open spec fn remove(self, s: i32, e: i32) -> Shape
        decreases self,
    {
        match self {
            Shape::Leaf => Shape::Leaf,
            Shape::Node { center, by_start, by_end, l, r } => {
                let m = if Self::goes_left(center, s, e) {
                    Shape::Node { center, by_start, by_end, l: Box::new(l.remove(s, e)), r }
                } else if Self::goes_right(center, s, e) {
                    Shape::Node { center, by_start, by_end, l, r: Box::new(r.remove(s, e)) }
                } else {
                    Shape::Node { center, by_start: by_start.remove((s, e)), by_end: by_end.remove((e, s)), l, r }
                };
                if m.is_empty() {
                    Shape::Leaf
                } else {
                    m
                }
            },
        }
    }

    /// The number of intervals, counted node by node.
    pub open spec fn len(self) -> nat
        decreases self,
    {
        match self {
            Shape::Leaf => 0,
            Shape::Node { by_start, l, r, .. } => by_start.len() + l.len() + r.len(),
        }
    }

    /// Every interval held anywhere in the tree.
    pub open spec fn stored(self) -> Set<(i32, i32)>
        decreases self,
    {
        match self {
            Shape::Leaf => Set::empty(),
            Shape::Node { by_start, by_end, l, r, .. } => by_start.values() + by_end.values() + l.stored()
                + r.stored(),
        }
    }

    /// Each interval is filed under its own start (or end), its node's center
    /// lies between its ends, and the subtrees hold only intervals that end
    /// at or before the center (left) or start after it (right).
    pub open spec fn wf(self) -> bool
        decreases self,
    {
        match self {
            Shape::Leaf => true,
            Shape::Node { center, by_start, by_end, l, r } => {
                &&& by_start.dom().finite()
                &&& by_end.dom().finite()
                &&& forall|k: (i32, i32)| #[trigger]
                    by_start.contains_key(k) ==> by_start[k] == k && fits(center, k)
                &&& forall|k: (i32, i32)| #[trigger]
                    by_end.contains_key(k) ==> by_end[k] == flip(k) && fits(center, flip(k))
                &&& forall|k: (i32, i32)| #[trigger] by_start.contains_key(k) <==> by_end.contains_key(flip(k))
                &&& forall|v: (i32, i32)| #[trigger] l.stored().contains(v) ==> v.1 <= center
                &&& forall|v: (i32, i32)| #[trigger] r.stored().contains(v) ==> v.0 > center
                &&& l.wf()
                &&& r.wf()
            },
        }
    }
}

/// The intervals of `by_start` that start at or before `p`, in increasing
/// order of `(start, end)`, are exactly `s`.
pub open spec fn hits_by_start(by_start: Map<(i32, i32), (i32, i32)>, p: i32, s: Seq<(i32, i32)>) -> bool {
    &&& forall|i: int, j: int| 0 <= i < j < s.len() ==> lex_lt(s[i], s[j])
    &&& forall|i: int|
        0 <= i < s.len() ==> s[i].0 <= p && by_start.contains_key(s[i]) && by_start[s[i]] == #[trigger] s[i]
    &&& forall|k: (i32, i32)| #[trigger]
        by_start.contains_key(k) && k.0 <= p ==> exists|i: int| 0 <= i < s.len() && s[i] == k
}

/// The intervals of `by_end` that end after `p`, in increasing order of
/// `(end, start)`, are exactly `s`.
pub open spec fn hits_by_end(by_end: Map<(i32, i32), (i32, i32)>, p: i32, s: Seq<(i32, i32)>) -> bool {
    &&& forall|i: int, j: int| 0 <= i < j < s.len() ==> lex_lt(flip(s[i]), flip(s[j]))
    &&& forall|i: int|
        0 <= i < s.len() ==> s[i].1 > p && by_end.contains_key(flip(s[i])) && by_end[flip(s[i])] == #[trigger] s[i]
    &&& forall|k: (i32, i32)| #[trigger]
        by_end.contains_key(k) && k.0 > p ==> exists|i: int| 0 <= i < s.len() && flip(s[i]) == k
}

/// `s` is the answer to a query for the point `p`: going down from the root
/// toward `p`, the answers of the deeper nodes come first; at each node,
/// when `p` is left of the center, the intervals there that start at or
/// before `p`, by increasing start; otherwise those that end after `p`, by
/// increasing end.
pub open spec fn answers(t: Shape, p: i32, s: Seq<(i32, i32)>) -> bool
    decreases t,
{
    match t {
        Shape::Leaf => s.len() == 0,
        Shape::Node { center, by_start, by_end, l, r } => exists|k: int|
            0 <= k <= s.len() && if p < center {
                answers(*l, p, s.take(k)) && hits_by_start(by_start, p, #[trigger] s.skip(k))
            } else {
                answers(*r, p, s.take(k)) && hits_by_end(by_end, p, #[trigger] s.skip(k))
            },
    }
}

/// The midpoint of an interval lies between its ends.
pub proof fn lemma_center_between(s: i32, e: i32)
    ensures
        between(center_of(s, e), (s, e)),
{
}

/// An interval that fits a center has the center between its ends.
proof fn lemma_fits_between(c: i32, v: (i32, i32))
    requires
        fits(c, v),
    ensures
        between(c, v),
{
    lemma_center_between(v.0, v.1);
}

/// Inserting keeps the tree well formed, adds the interval, and adds
/// nothing else.
pub proof fn lemma_insert_wf(t: Shape, s: i32, e: i32)
    requires
        t.wf(),
    ensures
        t.insert(s, e).wf(),
        t.insert(s, e).stored().contains((s, e)),
        t.insert(s, e).stored().subset_of(t.stored().insert((s, e))),
    decreases t,
{
    let v = (s, e);
    lemma_center_between(s, e);
    match t {
        Shape::Leaf => {
            let n = t.insert(s, e);
            assert(map![v => v].dom().contains(v));
            assert(map![flip(v) => v].dom().contains(flip(v)));
            assert(map![v => v].values() =~= set![v]);
            assert(map![flip(v) => v].values() =~= set![v]);
            assert(Shape::Leaf.stored() =~= Set::<(i32, i32)>::empty());
            assert(n.stored() =~= set![v]);
            assert forall|k: (i32, i32)| #[trigger] map![v => v].contains_key(k) <==> map![flip(v) => v].contains_key(flip(k)) by {
                if map![flip(v) => v].contains_key(flip(k)) {
                    assert(flip(k) == flip(v));
                }
            }
        },
        Shape::Node { center, by_start, by_end, l, r } => {
            let n = t.insert(s, e);
            if Shape::goes_left(center, s, e) {
                lemma_insert_wf(*l, s, e);
                assert(n.stored().subset_of(t.stored().insert(v)));
            } else if Shape::goes_right(center, s, e) {
                lemma_insert_wf(*r, s, e);
                assert(n.stored().subset_of(t.stored().insert(v)));
            } else {
                let bs = by_start.insert(v, v);
                let be = by_end.insert(flip(v), v);
                assert(bs.dom().contains(v));
                assert(bs.values().contains(v));
                assert forall|x: (i32, i32)| bs.values().contains(x) implies by_start.values().insert(v).contains(x) by {
                    let k = choose|k: (i32, i32)| bs.contains_key(k) && bs[k] == x;
                    if k != v {
                        assert(by_start.contains_key(k) && by_start[k] == x);
                    }
                }
                assert forall|x: (i32, i32)| be.values().contains(x) implies by_end.values().insert(v).contains(x) by {
                    let k = choose|k: (i32, i32)| be.contains_key(k) && be[k] == x;
                    if k != flip(v) {
                        assert(by_end.contains_key(k) && by_end[k] == x);
                    }
                }
                assert forall|k: (i32, i32)| #[trigger] bs.contains_key(k) <==> be.contains_key(flip(k)) by {
                    assert(by_start.contains_key(k) <==> by_end.contains_key(flip(k)));
                    assert(flip(k) == flip(v) <==> k == v);
                }
                assert forall|k: (i32, i32)| #[trigger] be.contains_key(k) implies be[k] == flip(k) && fits(center, flip(k)) by {
                    if k == flip(v) {
                        assert(flip(k) == v);
                    }
                }
                assert(n.stored().subset_of(t.stored().insert(v)));
            }
        },
    }
}

/// Removing keeps the tree well formed and adds nothing.
pub proof fn lemma_remove_wf(t: Shape, s: i32, e: i32)
    requires
        t.wf(),
    ensures
        t.remove(s, e).wf(),
        t.remove(s, e).stored().subset_of(t.stored()),
    decreases t,
{
    let v = (s, e);
    match t {
        Shape::Leaf => {},
        Shape::Node { center, by_start, by_end, l, r } => {
            if Shape::goes_left(center, s, e) {
                lemma_remove_wf(*l, s, e);
            } else if Shape::goes_right(center, s, e) {
                lemma_remove_wf(*r, s, e);
            } else {
                let bs = by_start.remove(v);
                let be = by_end.remove(flip(v));
                assert forall|x: (i32, i32)| bs.values().contains(x) implies by_start.values().contains(x) by {
                    let k = choose|k: (i32, i32)| bs.contains_key(k) && bs[k] == x;
                    assert(by_start.contains_key(k) && by_start[k] == x);
                }
                assert forall|x: (i32, i32)| be.values().contains(x) implies by_end.values().contains(x) by {
                    let k = choose|k: (i32, i32)| be.contains_key(k) && be[k] == x;
                    assert(by_end.contains_key(k) && by_end[k] == x);
                }
                assert forall|k: (i32, i32)| #[trigger] bs.contains_key(k) <==> be.contains_key(flip(k)) by {
                    assert(by_start.contains_key(k) <==> by_end.contains_key(flip(k)));
                    assert(flip(k) == flip(v) <==> k == v);
                }
            }
        },
    }
}

/// An answer is found by splitting it into its part from below and its part
/// from the top node.
proof fn lemma_answers_intro(t: Shape, p: i32, s: Seq<(i32, i32)>, k: int)
    requires
        0 <= k <= s.len(),
        match t {
            Shape::Leaf => false,
            Shape::Node { center, by_start, by_end, l, r } => if p < center {
                answers(*l, p, s.take(k)) && hits_by_start(by_start, p, s.skip(k))
            } else {
                answers(*r, p, s.take(k)) && hits_by_end(by_end, p, s.skip(k))
            },
        },
    ensures
        answers(t, p, s),
{
}

/// Every interval that a query for `p` reports contains `p` and is held in
/// the tree.
pub proof fn law_answers_contain_point(t: Shape, p: i32, s: Seq<(i32, i32)>)
    requires
        t.wf(),
        answers(t, p, s),
    ensures
        forall|i: int| 0 <= i < s.len() ==> #[trigger] t.stored().contains(s[i]) && s[i].0 <= p && p < s[i].1,
    decreases t,
{
    match t {
        Shape::Leaf => {
            assert(s.len() == 0);
        },
        Shape::Node { center, by_start, by_end, l, r } => {
            assert(t.stored() == by_start.values() + by_end.values() + l.stored() + r.stored());
            let k = choose|k: int|
                0 <= k <= s.len() && if p < center {
                    answers(*l, p, s.take(k)) && hits_by_start(by_start, p, #[trigger] s.skip(k))
                } else {
                    answers(*r, p, s.take(k)) && hits_by_end(by_end, p, #[trigger] s.skip(k))
                };
            let below = s.take(k);
            let here = s.skip(k);
            if p < center {
                law_answers_contain_point(*l, p, below);
            } else {
                law_answers_contain_point(*r, p, below);
            }
            assert forall|i: int| 0 <= i < s.len() implies #[trigger] t.stored().contains(s[i]) && s[i].0 <= p && p < s[i].1 by {
                if i < k {
                    assert(s[i] == below[i]);
                    if p < center {
                        assert(l.stored().contains(below[i]));
                    } else {
                        assert(r.stored().contains(below[i]));
                    }
                } else {
                    let v = here[i - k];
                    assert(s[i] == v);
                    if p < center {
                        assert(by_start.contains_key(v) && by_start[v] == v);
                        assert(by_start.dom().contains(v));
                        lemma_fits_between(center, v);
                    } else {
                        assert(by_end.contains_key(flip(v)) && by_end[flip(v)] == v);
                        assert(by_end.dom().contains(flip(v)));
                        assert(flip(flip(v)) == v);
                        lemma_fits_between(center, v);
                    }
                }
            }
        },
    }
}

/// A query for `p` reports exactly the stored intervals that hold `p`, and,
/// when every stored interval has its midpoint before its end, each of them
/// once.
pub proof fn law_answers_exact(t: Shape, p: i32, s: Seq<(i32, i32)>, v: (i32, i32))
    requires
        t.wf(),
        answers(t, p, s),
    ensures
        s.contains(v) <==> (t.stored().contains(v) && v.0 <= p && p < v.1),
        (forall|w: (i32, i32)| #[trigger] t.stored().contains(w) ==> center_of(w.0, w.1) < w.1) ==> s.no_duplicates(),
    decreases t,
{
    law_answers_contain_point(t, p, s);
    match t {
        Shape::Leaf => {},
        Shape::Node { center, by_start, by_end, l, r } => {
            let k = choose|k: int|
                0 <= k <= s.len() && if p < center {
                    answers(*l, p, s.take(k)) && hits_by_start(by_start, p, #[trigger] s.skip(k))
                } else {
                    answers(*r, p, s.take(k)) && hits_by_end(by_end, p, #[trigger] s.skip(k))
                };
            let below = s.take(k);
            let here = s.skip(k);
            assert(s =~= below + here);
            if p < center {
                law_answers_exact(*l, p, below, v);
                law_answers_contain_point(*l, p, below);
            } else {
                law_answers_exact(*r, p, below, v);
                law_answers_contain_point(*r, p, below);
            }
            if t.stored().contains(v) && v.0 <= p && p < v.1 {
                let at_node = by_start.values().contains(v) || by_end.values().contains(v);
                if at_node {
                    if by_end.values().contains(v) {
                        let key = choose|key: (i32, i32)| by_end.contains_key(key) && by_end[key] == v;
                        assert(flip(key) == v);
                        assert(flip(v) == key);
                        assert(by_start.contains_key(v));
                    } else {
                        let key = choose|key: (i32, i32)| by_start.contains_key(key) && by_start[key] == v;
                        assert(key == v);
                    }
                    assert(by_start.contains_key(v));
                    assert(by_end.contains_key(flip(v)));
                    let i = if p < center {
                        choose|i: int| 0 <= i < here.len() && here[i] == v
                    } else {
                        choose|i: int| 0 <= i < here.len() && flip(here[i]) == flip(v)
                    };
                    assert(here[i] == v);
                    assert(s[k + i] == v);
                } else if p < center {
                    if r.stored().contains(v) {
                        assert(v.0 > center);
                    }
                    assert(l.stored().contains(v));
                    let i = choose|i: int| 0 <= i < below.len() && below[i] == v;
                    assert(s[i] == v);
                } else {
                    if l.stored().contains(v) {
                        assert(v.1 <= center);
                    }
                    assert(r.stored().contains(v));
                    let i = choose|i: int| 0 <= i < below.len() && below[i] == v;
                    assert(s[i] == v);
                }
            }
            if forall|w: (i32, i32)| #[trigger] t.stored().contains(w) ==> center_of(w.0, w.1) < w.1 {
                if p < center {
                    assert forall|w: (i32, i32)| #[trigger] l.stored().contains(w) implies center_of(w.0, w.1) < w.1 by {
                        assert(t.stored().contains(w));
                    }
                    law_answers_exact(*l, p, below, v);
                } else {
                    assert forall|w: (i32, i32)| #[trigger] r.stored().contains(w) implies center_of(w.0, w.1) < w.1 by {
                        assert(t.stored().contains(w));
                    }
                    law_answers_exact(*r, p, below, v);
                }
                assert forall|i: int, j: int| 0 <= i < s.len() && 0 <= j < s.len() && i != j implies s[i] != s[j] by {
                    if i < k && j < k {
                        assert(s[i] == below[i] && s[j] == below[j]);
                    } else if i >= k && j >= k {
                        assert(s[i] == here[i - k] && s[j] == here[j - k]);
                        if i < j {
                            assert(if p < center { lex_lt(here[i - k], here[j - k]) } else { lex_lt(flip(here[i - k]), flip(here[j - k])) });
                        } else {
                            assert(if p < center { lex_lt(here[j - k], here[i - k]) } else { lex_lt(flip(here[j - k]), flip(here[i - k])) });
                        }
                    } else {
                        let (a, b) = if i < k { (i, j) } else { (j, i) };
                        let w = below[a];
                        assert(s[a] == w);
                        let h = here[b - k];
                        assert(s[b] == h);
                        if w == h {
                            assert(w.0 <= p && p < w.1);
                            lemma_center_between(w.0, w.1);
                            if p < center {
                                assert(l.stored().contains(w));
                                assert(by_start.contains_key(h) && by_start[h] == h);
                                assert(fits(center, h));
                                assert(t.stored().contains(w));
                            } else {
                                assert(r.stored().contains(w));
                                assert(by_end.contains_key(flip(h)));
                                assert(fits(center, flip(flip(h))));
                                assert(flip(flip(h)) == h);
                            }
                        }
                    }
                }
            }
        },
    }
}

/// After inserting `s..e`, a query for any point of `s..e` reports it.
pub proof fn law_insert_then_query(t: Shape, s: i32, e: i32, p: i32, r: Seq<(i32, i32)>)
    requires
        s <= p < e,
        answers(t.insert(s, e), p, r),
    ensures
        r.contains((s, e)),
    decreases t,
{
    let v = (s, e);
    let n = t.insert(s, e);
    match n {
        Shape::Leaf => {},
        Shape::Node { center, by_start, by_end, l, r: rt } => {
            let k = choose|k: int|
                0 <= k <= r.len() && if p < center {
                    answers(*l, p, r.take(k)) && hits_by_start(by_start, p, #[trigger] r.skip(k))
                } else {
                    answers(*rt, p, r.take(k)) && hits_by_end(by_end, p, #[trigger] r.skip(k))
                };
            let here = r.skip(k);
            let mut found_here = false;
            match t {
                Shape::Leaf => {
                    found_here = true;
                },
                Shape::Node { center: c0, by_start: bs0, by_end: be0, l: l0, r: r0 } => {
                    if Shape::goes_left(c0, s, e) {
                        law_insert_then_query(*l0, s, e, p, r.take(k));
                        let i = choose|i: int| 0 <= i < r.take(k).len() && r.take(k)[i] == v;
                        assert(r[i] == v);
                    } else if Shape::goes_right(c0, s, e) {
                        law_insert_then_query(*r0, s, e, p, r.take(k));
                        let i = choose|i: int| 0 <= i < r.take(k).len() && r.take(k)[i] == v;
                        assert(r[i] == v);
                    } else {
                        found_here = true;
                    }
                },
            }
            if found_here {
                if p < center {
                    assert(by_start.contains_key(v) && by_start[v] == v);
                    let i = choose|i: int| 0 <= i < here.len() && here[i] == v;
                    assert(r[k + i] == v);
                } else {
                    assert(by_end.contains_key(flip(v)) && by_end[flip(v)] == v);
                    let i = choose|i: int| 0 <= i < here.len() && flip(here[i]) == flip(v);
                    assert(here[i] == v);
                    assert(r[k + i] == v);
                }
            }
        },
    }
}

/// After removing `s..e` from a well-formed tree, the tree no longer holds
/// it, so no query reports it. This holds when the midpoint of `s..e` lies
/// before its end; it fails for an interval such as `-3..-2`, whose midpoint
/// rounds up to its end: such an interval may be held at two nodes, and a
/// removal reaches only one of them.
pub proof fn law_remove_forgets(t: Shape, s: i32, e: i32)
    requires
        t.wf(),
        center_of(s, e) < e,
    ensures
        !t.remove(s, e).stored().contains((s, e)),
    decreases t,
{
    let v = (s, e);
    lemma_center_between(s, e);
    match t {
        Shape::Leaf => {},
        Shape::Node { center, by_start, by_end, l, r } => {
            let m = if Shape::goes_left(center, s, e) {
                Shape::Node { center, by_start, by_end, l: Box::new(l.remove(s, e)), r }
            } else if Shape::goes_right(center, s, e) {
                Shape::Node { center, by_start, by_end, l, r: Box::new(r.remove(s, e)) }
            } else {
                Shape::Node { center, by_start: by_start.remove((s, e)), by_end: by_end.remove((e, s)), l, r }
            };
            if Shape::goes_left(center, s, e) {
                law_remove_forgets(*l, s, e);
                assert(!by_start.values().contains(v));
                assert(!by_end.values().contains(v));
                assert(!r.stored().contains(v));
            } else if Shape::goes_right(center, s, e) {
                law_remove_forgets(*r, s, e);
                assert(!by_start.values().contains(v));
                assert(!by_end.values().contains(v));
                assert(!l.stored().contains(v));
            } else {
                assert(!by_start.remove(v).values().contains(v));
                assert(!by_end.remove(flip(v)).values().contains(v));
                assert(!l.stored().contains(v));
                assert(!r.stored().contains(v));
            }
            assert(!m.stored().contains(v));
        },
    }
}

/// A well-formed tree none of whose nodes holds an interval stores nothing.
proof fn lemma_empty_stores_nothing(t: Shape, w: (i32, i32))
    requires
        t.wf(),
        t.is_empty(),
    ensures
        !t.stored().contains(w),
    decreases t,
{
    match t {
        Shape::Leaf => {},
        Shape::Node { center, by_start, by_end, l, r } => {
            lemma_empty_stores_nothing(*l, w);
            lemma_empty_stores_nothing(*r, w);
            if by_end.values().contains(w) {
                let k = choose|k: (i32, i32)| by_end.contains_key(k) && by_end[k] == w;
                assert(flip(flip(k)) == k);
                assert(by_start.contains_key(flip(k)));
            }
            if by_start.values().contains(w) {
                let k = choose|k: (i32, i32)| by_start.contains_key(k) && by_start[k] == w;
                assert(by_start.dom().contains(k));
            }
        },
    }
}

/// Removing `s..e` from a well-formed tree keeps every other stored
/// interval.
pub proof fn law_remove_keeps_the_rest(t: Shape, s: i32, e: i32, w: (i32, i32))
    requires
        t.wf(),
    ensures
        w != (s, e) ==> (t.remove(s, e).stored().contains(w) == t.stored().contains(w)),
    decreases t,
{
    let v = (s, e);
    lemma_remove_wf(t, s, e);
    match t {
        Shape::Leaf => {},
        Shape::Node { center, by_start, by_end, l, r } => {
            let left = Shape::goes_left(center, s, e);
            let right = Shape::goes_right(center, s, e);
            let nl = if left { l.remove(s, e) } else { *l };
            let nr = if !left && right { r.remove(s, e) } else { *r };
            let bs = if left || right { by_start } else { by_start.remove(v) };
            let be = if left || right { by_end } else { by_end.remove(flip(v)) };
            let m = Shape::Node { center, by_start: bs, by_end: be, l: Box::new(nl), r: Box::new(nr) };
            if left {
                law_remove_keeps_the_rest(*l, s, e, w);
                lemma_remove_wf(*l, s, e);
            } else if right {
                law_remove_keeps_the_rest(*r, s, e, w);
                lemma_remove_wf(*r, s, e);
            }
            assert forall|k: (i32, i32)| #[trigger] be.contains_key(k) implies bs.contains_key(flip(k)) by {
                assert(flip(flip(k)) == k);
                assert(by_start.contains_key(flip(k)) <==> by_end.contains_key(flip(flip(k))));
            }
            if w != v {
                assert(bs.values().contains(w) == by_start.values().contains(w)) by {
                    if by_start.values().contains(w) {
                        let k = choose|k: (i32, i32)| by_start.contains_key(k) && by_start[k] == w;
                        assert(bs.contains_key(k) && bs[k] == w);
                    }
                    if bs.values().contains(w) {
                        let k = choose|k: (i32, i32)| bs.contains_key(k) && bs[k] == w;
                        assert(by_start.contains_key(k) && by_start[k] == w);
                    }
                }
                assert(be.values().contains(w) == by_end.values().contains(w)) by {
                    if by_end.values().contains(w) {
                        let k = choose|k: (i32, i32)| by_end.contains_key(k) && by_end[k] == w;
                        assert(flip(k) == w);
                        assert(k != flip(v));
                        assert(be.contains_key(k) && be[k] == w);
                    }
                    if be.values().contains(w) {
                        let k = choose|k: (i32, i32)| be.contains_key(k) && be[k] == w;
                        assert(by_end.contains_key(k) && by_end[k] == w);
                    }
                }
                assert(m.stored().contains(w) == t.stored().contains(w));
                if m.is_empty() {
                    lemma_empty_stores_nothing(nl, w);
                    lemma_empty_stores_nothing(nr, w);
                    if be.values().contains(w) {
                        let k = choose|k: (i32, i32)| be.contains_key(k) && be[k] == w;
                        assert(bs.contains_key(flip(k)));
                    }
                    if bs.values().contains(w) {
                        let k = choose|k: (i32, i32)| bs.contains_key(k) && bs[k] == w;
                        assert(bs.dom().contains(k));
                    }
                    assert(!m.stored().contains(w));
                }
            }
        },
    }
}

/// When the midpoint of `s..e` lies before its end, removing `s..e` from a
/// well-formed tree leaves exactly the stored intervals other than `s..e`.
/// (An interval whose midpoint rounds to its end, such as `-3..-2`, may be
/// stored at two nodes, and a removal takes only one of them.)
pub proof fn law_remove_exact(t: Shape, s: i32, e: i32)
    requires
        t.wf(),
        center_of(s, e) < e,
    ensures
        t.remove(s, e).stored() == t.stored().remove((s, e)),
{
    law_remove_forgets(t, s, e);
    assert forall|x: (i32, i32)| t.remove(s, e).stored().contains(x) <==> t.stored().remove((s, e)).contains(x) by {
        law_remove_keeps_the_rest(t, s, e, x);
    }
    assert(t.remove(s, e).stored() =~= t.stored().remove((s, e)));
}

/// The pairs of the given ranges.
pub open spec fn pairs(v: Seq<Range<i32>>) -> Seq<(i32, i32)> {
    v.map_values(|x: Range<i32>| (x.start, x.end))
}

/// The pairs of the values of a map of ranges.
pub open spec fn pair_values(m: Map<(i32, i32), Range<i32>>) -> Map<(i32, i32), (i32, i32)> {
    m.map_values(|x: Range<i32>| (x.start, x.end))
}

/// The keys of a map with pairs of `i32` as keys compare in dictionary
/// order.
proof fn lemma_pair_keys_ordered()
    ensures
        key_obeys_cmp_spec::<(i32, i32)>(),
{
    assert(obeys_cmp::<i32>());
    assert(obeys_cmp::<(i32, i32)>());
}

/// A sequence of pairs that the map iterator reports as increasing is
/// strictly increasing in dictionary order.
proof fn lemma_increasing_keys(s: Seq<(i32, i32)>)
    requires
        increasing_seq(s),
    ensures
        forall|i: int, j: int| 0 <= i < j < s.len() ==> lex_lt(s[i], s[j]),
{
    assert(obeys_cmp::<i32>());
    assert(obeys_cmp::<(i32, i32)>());
    assert forall|i: int, j: int| 0 <= i < j < s.len() implies lex_lt(s[i], s[j]) by {
        assert(s[i].cmp_spec(&s[j]) is Less);
        assert(s[i].0.cmp_spec(&s[j].0) is Less || (s[i].0.cmp_spec(&s[j].0) is Equal
            && s[i].1.cmp_spec(&s[j].1) is Less));
    }
}

/// Whether a key is kept by a query at `p`: its first component is the
/// start (`by_start`) or the end of an interval.
pub open spec fn kept(by_start: bool, k: (i32, i32), p: i32) -> bool {
    if by_start {
        k.0 <= p
    } else {
        k.0 > p
    }
}

/// How a map keys its ranges: by `(start, end)` (`by_start`) or by
/// `(end, start)`.
pub open spec fn keyed(by_start: bool, k: (i32, i32), v: Range<i32>) -> bool {
    if by_start {
        k == (v.start, v.end)
    } else {
        k == (v.end, v.start)
    }
}

/// The items kept by a query, given by their increasing positions `picked`
/// among the map's items in increasing key order, answer the query.
proof fn lemma_hits_from_picks(
    m: Map<(i32, i32), Range<i32>>,
    p: i32,
    by_start: bool,
    keys: Seq<(i32, i32)>,
    picked: Seq<int>,
    s: Seq<Range<i32>>,
)
    requires
        forall|i: int, j: int| 0 <= i < j < keys.len() ==> lex_lt(keys[i], keys[j]),
        forall|j: int| 0 <= j < keys.len() ==> m.contains_key(#[trigger] keys[j]),
        forall|k: (i32, i32)| #[trigger] m.contains_key(k) ==> exists|j: int| 0 <= j < keys.len() && keys[j] == k,
        forall|k: (i32, i32)| #[trigger] m.contains_key(k) ==> keyed(by_start, k, m[k]),
        picked.len() == s.len(),
        forall|i: int| 0 <= i < picked.len() ==> 0 <= #[trigger] picked[i] < keys.len(),
        forall|i: int| 0 <= i < picked.len() ==> kept(by_start, keys[#[trigger] picked[i]], p),
        forall|i: int| 0 <= i < picked.len() ==> s[i] == m[keys[#[trigger] picked[i]]],
        forall|i: int, i2: int| 0 <= i < i2 < picked.len() ==> picked[i] < picked[i2],
        forall|j: int| 0 <= j < keys.len() && kept(by_start, #[trigger] keys[j], p) ==> exists|i: int|
            0 <= i < picked.len() && picked[i] == j,
    ensures
        by_start ==> hits_by_start(pair_values(m), p, pairs(s)),
        !by_start ==> hits_by_end(pair_values(m), p, pairs(s)),
{
    let ps = pairs(s);
    let bm = pair_values(m);
    assert forall|i: int| 0 <= i < ps.len() implies (if by_start {
        ps[i] == keys[picked[i]] && ps[i].0 <= p && bm.contains_key(ps[i]) && bm[ps[i]] == ps[i]
    } else {
        flip(ps[i]) == keys[picked[i]] && ps[i].1 > p && bm.contains_key(flip(ps[i])) && bm[flip(ps[i])] == ps[i]
    }) by {
        let k = keys[picked[i]];
        assert(m.contains_key(k));
        assert(keyed(by_start, k, m[k]));
    }
    assert forall|i: int, i2: int| 0 <= i < i2 < ps.len() implies (if by_start {
        lex_lt(ps[i], ps[i2])
    } else {
        lex_lt(flip(ps[i]), flip(ps[i2]))
    }) by {
        let k = keys[picked[i]];
        let k2 = keys[picked[i2]];
        assert(m.contains_key(k) && m.contains_key(k2));
        assert(keyed(by_start, k, m[k]) && keyed(by_start, k2, m[k2]));
    }
    assert forall|k: (i32, i32)| #[trigger] bm.contains_key(k) && kept(by_start, k, p) implies exists|i: int|
        0 <= i < ps.len() && (if by_start { ps[i] == k } else { flip(ps[i]) == k }) by {
        assert(m.contains_key(k));
        let j = choose|j: int| 0 <= j < keys.len() && keys[j] == k;
        let i = choose|i: int| 0 <= i < picked.len() && picked[i] == j;
        assert(keyed(by_start, k, m[k]));
        assert(ps[i] == (s[i].start, s[i].end));
    }
    if by_start {
        assert(hits_by_start(bm, p, ps));
    } else {
        assert(hits_by_end(bm, p, ps));
    }
}

/// The ranges of `m` whose key's first component is at most `p`
/// (`by_start`) or more than `p` (otherwise), in increasing order of key,
/// appended to `out`.
fn collect_hits(m: &BTreeMap<(i32, i32), Range<i32>>, p: i32, by_start: bool, out: &mut Vec<Range<i32>>)
    requires
        forall|k: (i32, i32)| #[trigger] m@.contains_key(k) ==> keyed(by_start, k, m@[k]),
    ensures
        final(out)@.len() >= old(out)@.len(),
        final(out)@.take(old(out)@.len() as int) == old(out)@,
        by_start ==> hits_by_start(pair_values(m@), p, pairs(final(out)@.skip(old(out)@.len() as int))),
        !by_start ==> hits_by_end(pair_values(m@), p, pairs(final(out)@.skip(old(out)@.len() as int))),
{
    let ghost n0 = out@.len() as int;
    let ghost out0 = out@;
    proof {
        lemma_pair_keys_ordered();
    }
    let iter = m.iter();
    let ghost items = iter.remaining();
    let ghost keys = items.map_values(|kv: (&(i32, i32), &Range<i32>)| *kv.0);
    proof {
        lemma_increasing_keys(keys);
        assert forall|j: int| 0 <= j < keys.len() implies m@.contains_key(#[trigger] keys[j]) by {
            assert(keys[j] == *items[j].0);
        }
        assert forall|k: (i32, i32)| #[trigger] m@.contains_key(k) implies exists|j: int| 0 <= j < keys.len() && keys[j] == k by {
            assert(items.contains((&k, &m@[k])));
            let j = choose|j: int| 0 <= j < items.len() && items[j] == (&k, &m@[k]);
            assert(keys[j] == k);
        }
    }
    let ghost mut picked: Seq<int> = Seq::empty();
    for kv in it: iter
        invariant
            it.seq() == items,
            keys == items.map_values(|kv: (&(i32, i32), &Range<i32>)| *kv.0),
            forall|j: int| 0 <= j < items.len() ==> m@[*items[j].0] == *items[j].1,
            0 <= n0,
            out@.len() == n0 + picked.len(),
            out@.take(n0) == out0,
            forall|i: int| 0 <= i < picked.len() ==> 0 <= #[trigger] picked[i] < it.index(),
            forall|i: int| 0 <= i < picked.len() ==> kept(by_start, keys[#[trigger] picked[i]], p),
            forall|i: int| 0 <= i < picked.len() ==> out@[n0 + i] == m@[keys[#[trigger] picked[i]]],
            forall|i: int, i2: int| 0 <= i < i2 < picked.len() ==> picked[i] < picked[i2],
            forall|j: int| 0 <= j < it.index() && kept(by_start, #[trigger] keys[j], p) ==> exists|i: int|
                0 <= i < picked.len() && picked[i] == j,
    {
        let (key, v) = kv;
        let ghost j0 = it.index() as int;
        let ghost before = out@;
        proof {
            assert(kv == items[j0]);
            assert(keys[j0] == *key);
        }
        let keep = if by_start { key.0 <= p } else { key.0 > p };
        if keep {
            out.push(Range { start: v.start, end: v.end });
            let ghost picked0 = picked;
            proof {
                picked = picked.push(j0);
                assert(out@.take(n0) =~= before.take(n0));
                assert forall|j: int| 0 <= j < j0 + 1 && kept(by_start, #[trigger] keys[j], p) implies exists|i: int|
                    0 <= i < picked.len() && picked[i] == j by {
                    if j == j0 {
                        assert(picked[picked.len() - 1] == j0);
                    } else {
                        let i = choose|i: int| 0 <= i < picked0.len() && picked0[i] == j;
                        assert(picked[i] == j);
                    }
                }
            }
        }
    }
    proof {
        let s = out@.skip(n0);
        assert forall|i: int| 0 <= i < picked.len() implies s[i] == m@[keys[#[trigger] picked[i]]] by {
            assert(s[i] == out@[n0 + i]);
        }
        lemma_hits_from_picks(m@, p, by_start, keys, picked, s);
    }
}

/// The ways an interval can lie relative to a point.
pub(crate) enum Containment {
    /// The interval lies to the left of the point.
    L,
    /// The interval lies to the right of the point.
    R,
    /// The interval contains the point.
    C,
}

impl Containment {
    pub(crate) fn from(interval: &Range<i32>, point: i32) -> (c: Containment)
        ensures
            (c is L) == Shape::goes_left(point, interval.start, interval.end),
            (c is R) == Shape::goes_right(point, interval.start, interval.end),
            c is C ==> interval.start <= point && point < interval.end,
    {
        if interval.end <= point {
            Containment::L
        } else if interval.start > point {
            Containment::R
        } else {
            Containment::C
        }
    }
}

/// A node of a centered interval tree: a center, the intervals straddling
/// it keyed by `(start, end)` (`cl`) and by `(end, start)` (`cr`), and two
/// subtrees.
pub struct Node {
    center: i32,
    cl: BTreeMap<(i32, i32), Range<i32>>,
    cr: BTreeMap<(i32, i32), Range<i32>>,
    l: Option<Box<Node>>,
    r: Option<Box<Node>>,
}

/// The model of an optional node.
pub closed spec fn shape_of(n: Option<Box<Node>>) -> Shape
    decreases n,
{
    match n {
        None => Shape::Leaf,
        Some(b) => Shape::Node {
            center: b.center,
            by_start: pair_values(b.cl@),
            by_end: pair_values(b.cr@),
            l: Box::new(shape_of(b.l)),
            r: Box::new(shape_of(b.r)),
        },
    }
}

/// An absent node is a leaf, and a present one is the node itself.
pub proof fn lemma_shape_of(n: Option<Box<Node>>)
    ensures
        (shape_of(n) is Leaf) == (n is None),
        n is Some ==> shape_of(n) == n.unwrap().shape(),
{
}

impl Node {
    pub open spec fn shape(self) -> Shape {
        shape_of(Some(Box::new(self)))
    }

    /// A node holding the single interval `interval`, centered on its
    /// midpoint.
    pub(crate) fn new(interval: Range<i32>) -> (n: Node)
        ensures
            n.shape() == Shape::Leaf.insert(interval.start, interval.end),
    {
        let t: i64 = interval.start as i64 + interval.end as i64;
        let c: i64 = if t >= 0 {
            t / 2
        } else {
            -((-t) / 2)
        };
        let center = c as i32;
        let mut cl = BTreeMap::new();
        let mut cr = BTreeMap::new();
        cl.insert((interval.start, interval.end), Range { start: interval.start, end: interval.end });
        cr.insert((interval.end, interval.start), interval);
        let n = Node { center, cl, cr, l: None, r: None };
        proof {
            assert(center == center_of(interval.start, interval.end));
            assert(shape_of(n.l) == Shape::Leaf);
            assert(pair_values(n.cl@) =~= map![(interval.start, interval.end) => (interval.start, interval.end)]);
            assert(pair_values(n.cr@) =~= map![(interval.end, interval.start) => (interval.start, interval.end)]);
        }
        n
    }

    /// The number of intervals, counted node by node.
    pub(crate) fn len(&self) -> (n: usize)
        requires
            self.shape().len() <= usize::MAX,
        ensures
            n == self.shape().len(),
        decreases self,
    {
        proof {
            lemma_pair_keys_ordered();
            assert(pair_values(self.cl@).dom() =~= self.cl@.dom());
        }
        assert(self.shape().len() == pair_values(self.cl@).len() + shape_of(self.l).len() + shape_of(self.r).len());
        let a: usize = match &self.l {
            Some(l) => l.len(),
            None => 0,
        };
        assert(a == shape_of(self.l).len());
        let b: usize = match &self.r {
            Some(r) => r.len(),
            None => 0,
        };
        assert(b == shape_of(self.r).len());
        let c = self.cl.len();
        assert(c == pair_values(self.cl@).len());
        a + b + c
    }

    /// Whether no node of this subtree holds an interval.
    pub(crate) fn is_empty(&self) -> (b: bool)
        ensures
            b == self.shape().is_empty(),
        decreases self,
    {
        proof {
            assert(pair_values(self.cl@).dom() =~= self.cl@.dom());
        }
        assert(self.shape().is_empty() == (pair_values(self.cl@).is_empty() && shape_of(self.l).is_empty()
            && shape_of(self.r).is_empty()));
        self.cl.is_empty() && match &self.l {
            Some(l) => l.is_empty(),
            None => true,
        } && match &self.r {
            Some(r) => r.is_empty(),
            None => true,
        }
    }

    /// File `interval` under `(start, end)` and `(end, start)` at the first
    /// node on its way down that it does not pass by, or at a new node.
    pub(crate) fn insert(node: &mut Option<Box<Node>>, interval: Range<i32>)
        ensures
            shape_of(*final(node)) == shape_of(*old(node)).insert(interval.start, interval.end),
        decreases *old(node),
    {
        if node.is_some() {
            let mut n = node.take().unwrap();
            let ghost n0 = *n;
            let place = Containment::from(&interval, n.center);
            if let Containment::L = place {
                Node::insert(&mut n.l, interval);
            } else if let Containment::R = place {
                Node::insert(&mut n.r, interval);
            } else {
                let s = interval.start;
                let e = interval.end;
                n.cl.insert((s, e), Range { start: s, end: e });
                n.cr.insert((e, s), interval);
                proof {
                    assert(pair_values(n.cl@) =~= pair_values(n0.cl@).insert((s, e), (s, e)));
                    assert(pair_values(n.cr@) =~= pair_values(n0.cr@).insert((e, s), (s, e)));
                }
            }
            *node = Some(n);
        } else {
            *node = Some(Box::new(Node::new(interval)));
        }
    }

    /// Remove `interval` at the node where it would be filed, dropping each
    /// node on the way that is left empty.
    pub(crate) fn remove(node: &mut Option<Box<Node>>, interval: &Range<i32>)
        ensures
            shape_of(*final(node)) == shape_of(*old(node)).remove(interval.start, interval.end),
        decreases *old(node),
    {
        if node.is_some() {
            let mut n = node.take().unwrap();
            let ghost n0 = *n;
            if interval.end <= n.center {
                Node::remove(&mut n.l, interval);
            } else if interval.start > n.center {
                Node::remove(&mut n.r, interval);
            } else {
                n.cl.remove(&(interval.start, interval.end));
                n.cr.remove(&(interval.end, interval.start));
                proof {
                    assert(pair_values(n.cl@) =~= pair_values(n0.cl@).remove((interval.start, interval.end)));
                    assert(pair_values(n.cr@) =~= pair_values(n0.cr@).remove((interval.end, interval.start)));
                }
            }
            if n.is_empty() {
                *node = None;
            } else {
                *node = Some(n);
            }
        }
    }

    /// The intervals that a query for `point` reports (see [`answers`]).
    pub(crate) fn containing(&self, point: i32) -> (out: Vec<Range<i32>>)
        requires
            self.shape().wf(),
        ensures
            answers(self.shape(), point, pairs(out@)),
        decreases self,
    {
        let mut result: Vec<Range<i32>> = Vec::new();
        let by_start = point < self.center;
        if by_start {
            match &self.l {
                Some(l) => {
                    result = l.containing(point);
                },
                None => {},
            }
        } else {
            match &self.r {
                Some(r) => {
                    result = r.containing(point);
                },
                None => {},
            }
        }
        let ghost below = result@;
        proof {
            assert forall|k: (i32, i32)| #[trigger] self.cl@.contains_key(k) implies keyed(true, k, self.cl@[k]) by {
                assert(pair_values(self.cl@).contains_key(k));
            }
            assert forall|k: (i32, i32)| #[trigger] self.cr@.contains_key(k) implies keyed(false, k, self.cr@[k]) by {
                assert(pair_values(self.cr@).contains_key(k));
            }
        }
        if by_start {
            collect_hits(&self.cl, point, true, &mut result);
        } else {
            collect_hits(&self.cr, point, false, &mut result);
        }
        proof {
            let t = self.shape();
            let s = pairs(result@);
            let k = below.len() as int;
            assert(s.take(k) =~= pairs(below));
            assert(s.skip(k) =~= pairs(result@.skip(k)));
            if by_start {
                assert(answers(shape_of(self.l), point, pairs(below)));
                assert(hits_by_start(pair_values(self.cl@), point, s.skip(k)));
            } else {
                assert(answers(shape_of(self.r), point, pairs(below)));
                assert(hits_by_end(pair_values(self.cr@), point, s.skip(k)));
            }
            assert(0 <= k <= s.len());
            lemma_answers_intro(t, point, s, k);
        }
        result
    }
}

/// A centered interval tree of `i32` intervals.
pub struct CenteredIntervalTree {
    pub root: Option<Box<Node>>,
}

impl CenteredIntervalTree {
    /// The functional model of this tree.
    pub closed spec fn shape(&self) -> Shape {
        shape_of(self.root)
    }

    pub open spec fn wf(&self) -> bool {
        self.shape().wf()
    }

    pub fn new() -> (t: Self)
        ensures
            t.wf(),
            t.shape() == Shape::Leaf,
            t.root.is_none(),
    {
        CenteredIntervalTree { root: None }
    }

    /// The number of intervals, counted node by node.
    pub fn len(&self) -> (n: usize)
        requires
            self.shape().len() <= usize::MAX,
        ensures
            n == self.shape().len(),
    {
        match &self.root {
            Some(root) => root.len(),
            None => 0,
        }
    }

    pub fn is_empty(&self) -> (b: bool)
        ensures
            b == self.shape().is_empty(),
    {
        match &self.root {
            Some(root) => root.is_empty(),
            None => true,
        }
    }

    /// Insert a non-empty interval (see [`Shape::insert`]).
    pub fn insert(&mut self, interval: Range<i32>)
        requires
            old(self).wf(),
            interval.start < interval.end,
        ensures
            final(self).wf(),
            final(self).shape() == old(self).shape().insert(interval.start, interval.end),
    {
        proof {
            lemma_insert_wf(self.shape(), interval.start, interval.end);
        }
        Node::insert(&mut self.root, interval)
    }

    /// The stored intervals that hold `point`, in the order of [`answers`];
    /// each comes once unless the tree holds an interval whose midpoint
    /// rounds to its end (such an interval can be filed at two nodes).
    pub fn containing(&self, point: i32) -> (out: Vec<Range<i32>>)
        requires
            self.wf(),
        ensures
            answers(self.shape(), point, pairs(out@)),
            forall|v: (i32, i32)| #[trigger] pairs(out@).contains(v) <==> (self.shape().stored().contains(v) && v.0 <= point
                && point < v.1),
            (forall|w: (i32, i32)| #[trigger] self.shape().stored().contains(w) ==> center_of(w.0, w.1) < w.1)
                ==> pairs(out@).no_duplicates(),
    {
        let out = self.query(point);
        proof {
            assert forall|v: (i32, i32)| #[trigger] pairs(out@).contains(v) <==> (self.shape().stored().contains(v)
                && v.0 <= point && point < v.1) by {
                law_answers_exact(self.shape(), point, pairs(out@), v);
            }
            law_answers_exact(self.shape(), point, pairs(out@), (0, 0));
        }
        out
    }

    /// The answer to a query for `point`.
    fn query(&self, point: i32) -> (out: Vec<Range<i32>>)
        requires
            self.wf(),
        ensures
            answers(self.shape(), point, pairs(out@)),
    {
        match &self.root {
            Some(root) => root.containing(point),
            None => Vec::new(),
        }
    }

    /// Remove an interval (see [`Shape::remove`]).
    pub fn remove(&mut self, interval: &Range<i32>)
        requires
            old(self).wf(),
        ensures
            final(self).wf(),
            final(self).shape() == old(self).shape().remove(interval.start, interval.end),
            final(self).root.is_none() == final(self).shape() is Leaf,
            forall|w: (i32, i32)| w != (interval.start, interval.end) ==> (#[trigger] final(self).shape().stored().contains(w)
                == old(self).shape().stored().contains(w)),
    {
        proof {
            lemma_remove_wf(self.shape(), interval.start, interval.end);
            assert forall|w: (i32, i32)| w != (interval.start, interval.end) implies
                (#[trigger] self.shape().remove(interval.start, interval.end).stored().contains(w)
                == self.shape().stored().contains(w)) by {
                law_remove_keeps_the_rest(self.shape(), interval.start, interval.end, w);
            }
        }
        Node::remove(&mut self.root, interval)
    }
}

impl Default for CenteredIntervalTree {
    fn default() -> (t: Self)
        ensures
            t.wf(),
            t.shape() == Shape::Leaf,
    {
        Self::new()
    }
}

} // verus!
