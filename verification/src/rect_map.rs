//! An associative map whose keys are rectangles (pairs of half-open integer
//! intervals), with point, rectangle and bounds queries.
use vstd::prelude::*;
use core::ops::Range;
use crate::aug_node::{Node, kpair, deref_entries, holds_point, bit_len};
use crate::interval_map::{IntervalMap, law_query_point_exact, law_query_range_exact};
use crate::overlap::{Overlap, Bound, overlap_spec};

verus! {

/// A 2d range.
pub type Rectangle = (Range<i64>, Range<i64>);

/// The key of a rectangle: the (start, end) pairs of its two ranges.
pub open spec fn rect_key(di: Range<i64>, dj: Range<i64>) -> ((i64, i64), (i64, i64)) {
    (kpair(di), kpair(dj))
}

/// Pair each entry of an inner map with the outer interval it sits under.
pub open spec fn tag_entries<V>(di: Range<i64>, s: Seq<(Range<i64>, V)>) -> Seq<(Rectangle, V)> {
    s.map_values(|e: (Range<i64>, V)| ((di, e.0), e.1))
}

/// The rectangles under a list of outer entries, taking from each inner map
/// the entries that `sel` picks, in order.
pub open spec fn flatten_with<V>(
    outer: Seq<(Range<i64>, IntervalMap<V>)>,
    sel: spec_fn(IntervalMap<V>) -> Seq<(Range<i64>, V)>,
) -> Seq<(Rectangle, V)>
    decreases outer.len(),
{
    if outer.len() == 0 {
        Seq::empty()
    } else {
        flatten_with(outer.drop_last(), sel) + tag_entries(outer.last().0, sel(outer.last().1))
    }
}

/// Strip the references from a list of borrowed rectangle entries.
pub open spec fn deref_rects<V>(s: Seq<((&Range<i64>, &Range<i64>), &V)>) -> Seq<(Rectangle, V)> {
    s.map_values(|e: ((&Range<i64>, &Range<i64>), &V)| ((*e.0.0, *e.0.1), *e.1))
}

/// What a traversal takes from each inner map.
pub enum InnerQuery {
    All,
    Point(i64),
    Bounds(Bound, Bound),
}

/// The entries of an inner map that a query picks, in pre-order.
pub open spec fn pick<V>(q: InnerQuery) -> spec_fn(IntervalMap<V>) -> Seq<(Range<i64>, V)> {
    |m: IntervalMap<V>| match q {
        InnerQuery::All => m.entries(),
        InnerQuery::Point(p) => m.entries().filter(Node::<V>::point_pred(p)),
        InnerQuery::Bounds(lo, hi) => m.entries().filter(Node::<V>::overlap_pred(lo, hi)),
    }
}

pub proof fn lemma_flatten_add<V>(
    a: Seq<(Range<i64>, IntervalMap<V>)>,
    b: Seq<(Range<i64>, IntervalMap<V>)>,
    sel: spec_fn(IntervalMap<V>) -> Seq<(Range<i64>, V)>,
)
    ensures
        flatten_with(a + b, sel) == flatten_with(a, sel) + flatten_with(b, sel),
    decreases b.len(),
{
    if b.len() == 0 {
        assert(a + b =~= a);
        assert(flatten_with(a, sel) + flatten_with(b, sel) =~= flatten_with(a, sel));
    } else {
        lemma_flatten_add(a, b.drop_last(), sel);
        assert((a + b).drop_last() =~= a + b.drop_last());
        assert((a + b).last() == b.last());
        assert(flatten_with(a + b, sel) =~= flatten_with(a, sel) + flatten_with(b, sel));
    }
}

/// The map that a list of rectangle entries gives when they are inserted in turn.
pub open spec fn rect_map_of_entries<V>(s: Seq<(Rectangle, V)>) -> Map<((i64, i64), (i64, i64)), V>
    decreases s.len(),
{
    if s.len() == 0 {
        Map::empty()
    } else {
        rect_map_of_entries(s.drop_last()).insert(rect_key(s.last().0.0, s.last().0.1), s.last().1)
    }
}

/// An associative map where the keys are `Rectangle` objects. Supports
/// point, rectangle and generic 2d range-based queries.
pub struct RectangleMap<V> {
    map: IntervalMap<IntervalMap<V>>,
}

impl<V> View for RectangleMap<V> {
    type V = Map<((i64, i64), (i64, i64)), V>;

    closed spec fn view(&self) -> Map<((i64, i64), (i64, i64)), V> {
        Map::new(
            |k: ((i64, i64), (i64, i64))| self.map@.dom().contains(k.0) && self.map@[k.0]@.dom().contains(k.1),
            |k: ((i64, i64), (i64, i64))| self.map@[k.0]@[k.1],
        )
    }
}

impl<V> RectangleMap<V> {
    /// The outer map is well formed, and every inner map is well formed and
    /// not empty.
    pub closed spec fn wf(&self) -> bool {
        &&& self.map.wf()
        &&& forall|a| #[trigger] self.map@.dom().contains(a) ==> self.map@[a].wf() && self.map@[a]@.len() > 0
    }

    /// The map from first ranges to the maps of the second ranges under them.
    pub closed spec fn outer(&self) -> IntervalMap<IntervalMap<V>> {
        self.map
    }

    /// Every tree, the outer one and each inner one, has the least height
    /// for the number of its entries.
    pub open spec fn balanced(&self) -> bool {
        &&& self.outer().tree_height() == bit_len(self.outer()@.len())
        &&& forall|a| #[trigger] self.outer()@.dom().contains(a)
            ==> self.outer()@[a].tree_height() == bit_len(self.outer()@[a]@.len())
    }

    pub fn new() -> (m: Self)
        ensures
            m.wf(),
            m@ == Map::<((i64, i64), (i64, i64)), V>::empty(),
    {
        let m = RectangleMap { map: IntervalMap::new() };
        proof {
            assert(m@ =~= Map::<((i64, i64), (i64, i64)), V>::empty());
        }
        m
    }

    pub fn is_empty(&self) -> (r: bool)
        requires
            self.wf(),
        ensures
            r == (self@.dom() == Set::<((i64, i64), (i64, i64))>::empty()),
    {
        let r = self.map.is_empty();
        proof {
            self.map.lemma_wf();
            if r {
                assert(self.map@.dom() =~= Set::empty());
                assert(self@.dom() =~= Set::empty());
            } else {
                let a = self.map@.dom().choose();
                assert(self.map@.dom().contains(a));
                self.map@[a].lemma_wf();
                let b = self.map@[a]@.dom().choose();
                assert(self@.dom().contains((a, b)));
            }
        }
        r
    }

    pub fn contains(&self, key: (&Range<i64>, &Range<i64>)) -> (r: bool)
        requires
            self.wf(),
        ensures
            r == self@.dom().contains(rect_key(*key.0, *key.1)),
    {
        match self.map.get(key.0) {
            Some(m) => m.contains(key.1),
            None => false,
        }
    }

    pub fn get(&self, key: (&Range<i64>, &Range<i64>)) -> (r: Option<&V>)
        requires
            self.wf(),
        ensures
            r.is_some() == self@.dom().contains(rect_key(*key.0, *key.1)),
            r.is_some() ==> *r.unwrap() == self@[rect_key(*key.0, *key.1)],
    {
        match self.map.get(key.0) {
            Some(m) => m.get(key.1),
            None => None,
        }
    }

    pub fn get_mut(&mut self, key: (&Range<i64>, &Range<i64>)) -> (r: Option<&mut V>)
        requires
            old(self).wf(),
        ensures
            final(self).wf(),
            r.is_some() == old(self)@.dom().contains(rect_key(*key.0, *key.1)),
            r.is_none() ==> final(self)@ == old(self)@,
            r.is_some() ==> *r.unwrap() == old(self)@[rect_key(*key.0, *key.1)]
                && final(self)@ == old(self)@.insert(rect_key(*key.0, *key.1), *final(r.unwrap())),
    {
        if self.map.contains(key.0) {
            let m = self.map.get_mut(key.0).unwrap();
            m.get_mut(key.1)
        } else {
            None
        }
    }

    /// Insert a value at the given rectangle, replacing any value already
    /// there, and return a mutable reference to the stored value.
    pub fn insert(&mut self, space: Rectangle, value: V) -> (r: &mut V)
        requires
            old(self).wf(),
        ensures
            final(self).wf(),
            *r == value,
            final(self)@ == old(self)@.insert(rect_key(space.0, space.1), *final(r)),
            final(self)@.dom().finite(),
    {
        proof {
            self.lemma_view_finite();
        }
        let (di, dj) = space;
        if !self.map.contains(&di) {
            self.map.insert(di.start..di.end, IntervalMap::new());
        }
        let ghost mid = self.map@;
        proof {
            assert forall|a| #[trigger] mid.dom().contains(a) implies mid[a].wf() && (a != kpair(di) ==> mid[a]@.len() > 0) by {
                if a != kpair(di) {
                    assert(old(self).map@.dom().contains(a));
                }
            }
        }
        let inner = self.map.get_mut(&di).unwrap();
        let r = inner.insert(dj, value);
        r
    }

    /// A mutable reference to the value at the given rectangle, which is
    /// first created with the default value if it is absent.
    pub fn require(&mut self, area: Rectangle) -> (r: &mut V)
        where V: Default,
        requires
            old(self).wf(),
        ensures
            final(self).wf(),
            old(self)@.dom().contains(rect_key(area.0, area.1)) ==> *r == old(self)@[rect_key(area.0, area.1)],
            !old(self)@.dom().contains(rect_key(area.0, area.1)) ==> call_ensures(V::default, (), *r),
            final(self)@ == old(self)@.insert(rect_key(area.0, area.1), *final(r)),
            final(self)@.dom().finite(),
    {
        proof {
            self.lemma_view_finite();
        }
        let (di, dj) = area;
        if !self.map.contains(&di) {
            self.map.insert(di.start..di.end, IntervalMap::new());
        }
        let ghost mid = self.map@;
        proof {
            assert forall|a| #[trigger] mid.dom().contains(a) implies mid[a].wf() && (a != kpair(di) ==> mid[a]@.len() > 0) by {
                if a != kpair(di) {
                    assert(old(self).map@.dom().contains(a));
                }
            }
        }
        let inner = self.map.get_mut(&di).unwrap();
        inner.require(dj)
    }

    /// Remove the value at the given rectangle, if any.
    pub fn remove(&mut self, key: (&Range<i64>, &Range<i64>))
        requires
            old(self).wf(),
            old(self)@.len() <= usize::MAX,
        ensures
            final(self).wf(),
            final(self)@ == old(self)@.remove(rect_key(*key.0, *key.1)),
            final(self)@.dom().finite(),
    {
        proof {
            self.lemma_entries_count();
        }
        if self.map.contains(key.0) {
            let empty = {
                let m = self.map.get_mut(key.0).unwrap();
                m.remove(key.1);
                m.is_empty()
            };
            let ghost mid = self.map@;
            proof {
                let k0 = kpair(*key.0);
                assert(mid.dom() =~= old(self).map@.dom());
                old(self).map@[k0].lemma_wf();
                mid[k0].lemma_wf();
                vstd::set_lib::lemma_len_subset(mid[k0]@.dom(), old(self).map@[k0]@.dom());
            }
            if empty {
                self.map.remove(key.0);
                proof {
                    self.map.lemma_wf();
                    old(self).map.lemma_wf();
                    vstd::set_lib::lemma_len_subset(self.map@.dom(), old(self).map@.dom());
                }
            }
            proof {
                let k0 = kpair(*key.0);
                assert forall|a| #[trigger] self.map@.dom().contains(a) implies self.map@[a].wf()
                    && self.map@[a]@.len() > 0 by {
                    if a != k0 {
                        assert(old(self).map@.dom().contains(a));
                    }
                }
                assert(self@ =~= old(self)@.remove(rect_key(*key.0, *key.1)));
            }
        } else {
            proof {
                assert(self@ =~= old(self)@.remove(rect_key(*key.0, *key.1)));
            }
        }
    }

    /// Gather, for each outer entry in turn, the inner entries that the
    /// query picks, tagged with the outer interval.
    fn collect_flat<'a>(outer: &Vec<(&'a Range<i64>, &'a IntervalMap<V>)>, q: &InnerQuery) -> (out: Vec<((&'a Range<i64>, &'a Range<i64>), &'a V)>)
        requires
            forall|i: int| 0 <= i < outer@.len() ==> (#[trigger] outer@[i]).1.wf(),
        ensures
            deref_rects(out@) == flatten_with(deref_entries(outer@), pick::<V>(*q)),
    {
        let ghost sel = pick::<V>(*q);
        let ghost all = deref_entries(outer@);
        let mut out: Vec<((&'a Range<i64>, &'a Range<i64>), &'a V)> = Vec::new();
        let mut i: usize = 0;
        proof {
            assert(all.take(0) =~= Seq::<(Range<i64>, IntervalMap<V>)>::empty());
            assert(deref_rects(out@) =~= Seq::<(Rectangle, V)>::empty());
        }
        while i < outer.len()
            invariant
                i <= outer@.len(),
                all == deref_entries(outer@),
                sel == pick::<V>(*q),
                forall|k: int| 0 <= k < outer@.len() ==> (#[trigger] outer@[k]).1.wf(),
                deref_rects(out@) == flatten_with(all.take(i as int), sel),
            decreases outer@.len() - i,
        {
            let (di, m) = outer[i];
            proof {
                assert(outer@[i as int].1.wf());
            }
            let inner = match q {
                InnerQuery::All => m.iter(),
                InnerQuery::Point(p) => m.query_point(*p),
                InnerQuery::Bounds(lo, hi) => m.query_range((*lo, *hi)),
            };
            proof {
                assert(deref_entries(inner@) == sel(*m));
            }
            let ghost base = deref_rects(out@);
            let mut j: usize = 0;
            proof {
                assert(base + tag_entries(*di, deref_entries(inner@).take(0)) =~= base);
            }
            while j < inner.len()
                invariant
                    j <= inner@.len(),
                    deref_rects(out@) == base + tag_entries(*di, deref_entries(inner@).take(j as int)),
                decreases inner@.len() - j,
            {
                let (dj, v) = inner[j];
                let ghost before = out@;
                out.push(((di, dj), v));
                proof {
                    assert(deref_entries(inner@)[j as int] == (*dj, *v));
                    assert(deref_rects(out@) =~= deref_rects(before).push(((*di, *dj), *v)));
                    assert(tag_entries(*di, deref_entries(inner@).take(j + 1)) =~= tag_entries(*di, deref_entries(inner@).take(j as int)).push(((*di, *dj), *v)));
                    assert(deref_entries(inner@).take(j + 1) =~= deref_entries(inner@).take(j as int).push((*dj, *v)));
                    assert(deref_rects(out@) =~= base + tag_entries(*di, deref_entries(inner@).take(j + 1)));
                }
                j = j + 1;
            }
            proof {
                assert(deref_entries(inner@).take(inner@.len() as int) =~= deref_entries(inner@));
                assert(all.take(i + 1).drop_last() =~= all.take(i as int));
                assert(all.take(i + 1).last() == (*di, *m));
            }
            i = i + 1;
        }
        proof {
            assert(all.take(outer@.len() as int) =~= all);
        }
        out
    }

    /// Every entry of a list drawn from the outer map holds a well-formed inner map.
    proof fn lemma_outer_wf(&self, s: Seq<(Range<i64>, IntervalMap<V>)>)
        requires
            self.wf(),
            forall|i: int| 0 <= i < s.len() ==> self.map.entries().contains(#[trigger] s[i]),
        ensures
            forall|i: int| 0 <= i < s.len() ==> (#[trigger] s[i]).1.wf(),
    {
        self.map.lemma_wf();
        assert forall|i: int| 0 <= i < s.len() implies (#[trigger] s[i]).1.wf() by {
            let e = self.map.entries();
            let k = choose|k: int| 0 <= k < e.len() && e[k] == s[i];
            assert(self.map@.dom().contains(kpair(e[k].0)));
        }
    }

    /// The entries of the map, rectangle by rectangle: the outer intervals
    /// in pre-order, and under each the inner intervals in pre-order.
    pub closed spec fn entries(&self) -> Seq<(Rectangle, V)> {
        flatten_with(self.map.entries(), pick::<V>(InnerQuery::All))
    }

    /// The entries list each stored rectangle once, so there are as many as
    /// the map holds; the outer map and each inner map hold no more.
    proof fn lemma_entries_count(&self)
        requires
            self.wf(),
        ensures
            distinct_rects(self.entries()),
            self@.dom().finite(),
            self.entries().len() == self@.len(),
            self.map@.len() <= self@.len(),
            forall|a| #[trigger] self.map@.dom().contains(a) ==> self.map@[a]@.len() <= self@.len(),
    {
        let outer = self.map.entries();
        let sel = pick::<V>(InnerQuery::All);
        let e = self.entries();
        self.map.lemma_wf();
        lemma_map_entries_once(&self.map);
        self.lemma_outer_wf(outer);
        assert forall|i: int| 0 <= i < outer.len() implies distinct_intervals(sel(#[trigger] outer[i].1))
            && sel(outer[i].1).len() >= 1 && sel(outer[i].1).len() == outer[i].1@.len() by {
            assert(self.map@.dom().contains(kpair(outer[i].0)));
            lemma_map_entries_once(&outer[i].1);
            outer[i].1.lemma_wf();
        }
        lemma_flatten_once(outer, sel);
        lemma_flatten_len(outer, sel);
        let ks = e.map_values(|x: (Rectangle, V)| rect_key(x.0.0, x.0.1));
        assert(ks.no_duplicates()) by {
            assert forall|i: int, j: int| 0 <= i < ks.len() && 0 <= j < ks.len() && i != j implies ks[i] != ks[j] by {
                if i < j {
                    assert(rect_key(e[i].0.0, e[i].0.1) != rect_key(e[j].0.0, e[j].0.1));
                } else {
                    assert(rect_key(e[j].0.0, e[j].0.1) != rect_key(e[i].0.0, e[i].0.1));
                }
            }
        }
        ks.unique_seq_to_set();
        assert forall|k| ks.to_set().contains(k) <==> self@.dom().contains(k) by {
            if ks.to_set().contains(k) {
                let i = choose|i: int| 0 <= i < ks.len() && ks[i] == k;
                assert(e.contains(e[i]));
                lemma_flatten_contains(outer, sel, e[i].0, e[i].1);
                let j = choose|j: int| 0 <= j < outer.len() && outer[j].0 == e[i].0.0
                    && #[trigger] sel(outer[j].1).contains((e[i].0.1, e[i].1));
                let m = outer[j].1;
                assert(self.map@.dom().contains(kpair(outer[j].0)));
                m.lemma_wf();
                let t = choose|t: int| 0 <= t < m.entries().len() && m.entries()[t] == (e[i].0.1, e[i].1);
                assert(m@.dom().contains(kpair(m.entries()[t].0)));
            }
            if self@.dom().contains(k) {
                let m = self.map@[k.0];
                m.lemma_wf();
                let j = choose|j: int| 0 <= j < outer.len() && kpair(outer[j].0) == k.0;
                assert(outer[j].1 == m);
                let t = choose|t: int| 0 <= t < m.entries().len() && kpair(m.entries()[t].0) == k.1;
                let rect = (outer[j].0, m.entries()[t].0);
                assert(sel(outer[j].1).contains((rect.1, m.entries()[t].1)));
                lemma_flatten_contains(outer, sel, rect, m.entries()[t].1);
                let i = choose|i: int| 0 <= i < e.len() && e[i] == (rect, m.entries()[t].1);
                assert(ks[i] == k);
            }
        }
        assert(ks.to_set() =~= self@.dom());
        broadcast use vstd::seq_lib::seq_to_set_is_finite;
        assert forall|a| #[trigger] self.map@.dom().contains(a) implies self.map@[a]@.len() <= self@.len() by {
            let j = choose|j: int| 0 <= j < outer.len() && kpair(outer[j].0) == a;
            assert(outer[j].1 == self.map@[a]);
        }
    }

    /// A well-formed map holds finitely many rectangles.
    pub proof fn lemma_view_finite(&self)
        requires
            self.wf(),
        ensures
            self@.dom().finite(),
    {
        self.lemma_entries_count();
    }

    /// References to all entries, in the order of `entries`.
    pub fn iter(&self) -> (r: Vec<((&Range<i64>, &Range<i64>), &V)>)
        requires
            self.wf(),
        ensures
            deref_rects(r@) == self.entries(),
    {
        let outer = self.map.iter();
        proof {
            self.map.lemma_wf();
            assert forall|i: int| 0 <= i < deref_entries(outer@).len() implies
                self.map.entries().contains(#[trigger] deref_entries(outer@)[i]) by {
                assert(deref_entries(outer@)[i] == self.map.entries()[i]);
            }
            self.lemma_outer_wf(deref_entries(outer@));
            assert forall|i: int| 0 <= i < outer@.len() implies (#[trigger] outer@[i]).1.wf() by {
                assert(deref_entries(outer@)[i].1 == *outer@[i].1);
            }
        }
        Self::collect_flat(&outer, &InnerQuery::All)
    }

    /// The rectangles that hold a point, in the order of `entries`.
    pub closed spec fn point_hits(&self, point: (i64, i64)) -> Seq<(Rectangle, V)> {
        flatten_with(self.map.entries().filter(Node::<IntervalMap<V>>::point_pred(point.0)), pick::<V>(InnerQuery::Point(point.1)))
    }

    /// References to the entries whose rectangle holds the point.
    pub fn query_point(&self, point: (i64, i64)) -> (r: Vec<((&Range<i64>, &Range<i64>), &V)>)
        requires
            self.wf(),
        ensures
            deref_rects(r@) == self.point_hits(point),
    {
        broadcast use Seq::lemma_filter_contains_rev;
        let outer = self.map.query_point(point.0);
        proof {
            let f = self.map.entries().filter(Node::<IntervalMap<V>>::point_pred(point.0));
            assert forall|i: int| 0 <= i < f.len() implies self.map.entries().contains(#[trigger] f[i]) by {
                assert(f.contains(f[i]));
            }
            self.lemma_outer_wf(f);
            assert forall|i: int| 0 <= i < outer@.len() implies (#[trigger] outer@[i]).1.wf() by {
                assert(deref_entries(outer@)[i].1 == *outer@[i].1);
            }
        }
        Self::collect_flat(&outer, &InnerQuery::Point(point.1))
    }

    /// The rectangles that overlap the given bounds on both axes.
    pub closed spec fn bounds_hits(&self, r_lo: Bound, r_hi: Bound, s_lo: Bound, s_hi: Bound) -> Seq<(Rectangle, V)> {
        flatten_with(self.map.entries().filter(Node::<IntervalMap<V>>::overlap_pred(r_lo, r_hi)), pick::<V>(InnerQuery::Bounds(s_lo, s_hi)))
    }

    /// References to the entries whose rectangle overlaps `r` on the first
    /// axis and `s` on the second.
    pub fn query_bounds<R: Overlap, S: Overlap>(&self, r: R, s: S) -> (res: Vec<((&Range<i64>, &Range<i64>), &V)>)
        requires
            self.wf(),
        ensures
            deref_rects(res@) == self.bounds_hits(r.lower_spec(), r.upper_spec(), s.lower_spec(), s.upper_spec()),
    {
        broadcast use Seq::lemma_filter_contains_rev;
        let s_lo = s.start_bound();
        let s_hi = s.end_bound();
        let outer = self.map.query_range(r);
        proof {
            let f = self.map.entries().filter(Node::<IntervalMap<V>>::overlap_pred(r.lower_spec(), r.upper_spec()));
            assert forall|i: int| 0 <= i < f.len() implies self.map.entries().contains(#[trigger] f[i]) by {
                assert(f.contains(f[i]));
            }
            self.lemma_outer_wf(f);
            assert forall|i: int| 0 <= i < outer@.len() implies (#[trigger] outer@[i]).1.wf() by {
                assert(deref_entries(outer@)[i].1 == *outer@[i].1);
            }
        }
        Self::collect_flat(&outer, &InnerQuery::Bounds(s_lo, s_hi))
    }

    /// References to the entries whose rectangle overlaps the given one.
    pub fn query_rect(&self, space: Rectangle) -> (res: Vec<((&Range<i64>, &Range<i64>), &V)>)
        requires
            self.wf(),
        ensures
            deref_rects(res@) == self.bounds_hits(
                Bound::Included(space.0.start), Bound::Excluded(space.0.end),
                Bound::Included(space.1.start), Bound::Excluded(space.1.end)),
    {
        let (r, s) = space;
        self.query_bounds(r, s)
    }

    /// The number of entries.
    pub fn len(&self) -> (r: usize)
        requires
            self.wf(),
            self@.len() <= usize::MAX,
        ensures
            r == self@.len(),
    {
        proof {
            self.lemma_entries_count();
        }
        let outer = self.map.iter();
        let ghost sel = pick::<V>(InnerQuery::All);
        let ghost all = deref_entries(outer@);
        proof {
            self.map.lemma_wf();
            assert forall|i: int| 0 <= i < all.len() implies self.map.entries().contains(#[trigger] all[i]) by {
                assert(all[i] == self.map.entries()[i]);
            }
            self.lemma_outer_wf(all);
            assert(all.take(0) =~= Seq::<(Range<i64>, IntervalMap<V>)>::empty());
        }
        let mut total: usize = 0;
        let mut i: usize = 0;
        while i < outer.len()
            invariant
                i <= outer@.len(),
                all == deref_entries(outer@),
                all == self.map.entries(),
                sel == pick::<V>(InnerQuery::All),
                forall|k: int| 0 <= k < all.len() ==> (#[trigger] all[k]).1.wf(),
                flatten_with(all, sel).len() <= usize::MAX,
                total == flatten_with(all.take(i as int), sel).len(),
            decreases outer@.len() - i,
        {
            let (_, m) = outer[i];
            proof {
                assert(all[i as int].1 == *m);
                m.lemma_wf();
                lemma_flatten_add(all.take(i + 1), all.skip(i + 1), sel);
                assert(all.take(i + 1) + all.skip(i + 1) =~= all);
                assert(all.take(i + 1).drop_last() =~= all.take(i as int));
                assert(all.take(i + 1).last() == all[i as int]);
            }
            total = total + m.len();
            i = i + 1;
        }
        proof {
            assert(all.take(all.len() as int) =~= all);
        }
        total
    }

    /// The same entries, with the outer map and every inner map rebuilt as
    /// trees of least height.
    pub fn into_balanced(self) -> (r: Self)
        requires
            self.wf(),
        ensures
            r.wf(),
            r@ == self@,
            r.balanced(),
    {
        proof {
            self.map.lemma_wf();
        }
        let ghost old_map = self.map@;
        let ghost se = self.map.sorted_entries();
        let sorted = self.map.into_sorted();
        let mut out: Vec<(Range<i64>, IntervalMap<V>)> = Vec::new();
        let ghost all = sorted@;
        for item in it: sorted
            invariant
                it.seq() == all,
                all == se,
                crate::aug_node::strictly_sorted(all),
                forall|i: int| 0 <= i < all.len() ==>
                    old_map.dom().contains(#[trigger] kpair(all[i].0)) && old_map[kpair(all[i].0)] == all[i].1,
                forall|a| #[trigger] old_map.dom().contains(a) ==> old_map[a].wf() && old_map[a]@.len() > 0,
                out@.len() == it.index(),
                forall|i: int| 0 <= i < it.index() ==> (#[trigger] out@[i]).0 == all[i].0 && out@[i].1.wf()
                    && out@[i].1@ == all[i].1@ && out@[i].1.tree_height() == bit_len(out@[i].1@.len()),
        {
            let (k, m) = item;
            proof {
                assert(old_map.dom().contains(kpair(all[it.index() as int].0)));
            }
            let b = m.into_balanced();
            out.push((k, b));
        }
        proof {
            assert forall|i: int, j: int| 0 <= i < j < out@.len() implies
                crate::aug_node::key_lt(#[trigger] kpair(out@[i].0), #[trigger] kpair(out@[j].0)) by {
                assert(out@[i].0 == all[i].0);
                assert(out@[j].0 == all[j].0);
            }
        }
        let map = IntervalMap::from_sorted_entries(out);
        let r = RectangleMap { map };
        proof {
            assert forall|a| map@.dom().contains(a) <==> old_map.dom().contains(a) by {
                if map@.dom().contains(a) {
                    let i = choose|i: int| 0 <= i < out@.len() && kpair(out@[i].0) == a;
                    assert(kpair(all[i].0) == a);
                }
                if old_map.dom().contains(a) {
                    let i = choose|i: int| 0 <= i < se.len() && kpair(se[i].0) == a;
                    assert(kpair(out@[i].0) == a);
                    assert(map@.dom().contains(kpair(out@[i].0)));
                }
            }
            assert forall|a| #[trigger] map@.dom().contains(a) implies map@[a].wf() && map@[a]@ == old_map[a]@
                && map@[a].tree_height() == bit_len(map@[a]@.len()) by {
                let i = choose|i: int| 0 <= i < out@.len() && kpair(out@[i].0) == a;
                assert(map@[kpair(out@[i].0)] == out@[i].1);
                assert(kpair(all[i].0) == a);
            }
            assert(r@ =~= self@);
        }
        r
    }

    /// A map holding the given entries; a later entry replaces an earlier
    /// one with the same rectangle.
    pub fn from_entries(items: Vec<(Rectangle, V)>) -> (m: Self)
        ensures
            m.wf(),
            m@ == rect_map_of_entries(items@),
    {
        let mut result = Self::new();
        let ghost all = items@;
        for item in it: items
            invariant
                it.seq() == all,
                result.wf(),
                result@ == rect_map_of_entries(all.take(it.index() as int)),
        {
            proof {
                assert(all.take(it.index() + 1).drop_last() =~= all.take(it.index() as int));
            }
            let (rect, value) = item;
            result.insert(rect, value);
        }
        proof {
            assert(all.take(all.len() as int) =~= all);
        }
        result
    }

    /// Consume the map, returning its entries in the order of `entries`.
    pub fn into_entries(self) -> (r: Vec<(Rectangle, V)>)
        ensures
            r@ == self.entries(),
    {
        let outer = self.map.into_entries();
        let ghost sel = pick::<V>(InnerQuery::All);
        let ghost all = outer@;
        let mut out: Vec<(Rectangle, V)> = Vec::new();
        proof {
            assert(all.take(0) =~= Seq::<(Range<i64>, IntervalMap<V>)>::empty());
            assert(out@ =~= flatten_with(all.take(0), sel));
        }
        for item in it: outer
            invariant
                it.seq() == all,
                sel == pick::<V>(InnerQuery::All),
                out@ == flatten_with(all.take(it.index() as int), sel),
        {
            let (di, l) = item;
            let ghost lm = l;
            let inner = l.into_entries();
            let ghost base = out@;
            let ghost ie = inner@;
            proof {
                assert(base + tag_entries(di, ie.take(0)) =~= base);
            }
            for e in jt: inner
                invariant
                    jt.seq() == ie,
                    out@ == base + tag_entries(di, ie.take(jt.index() as int)),
            {
                let (dj, v) = e;
                out.push(((di.start..di.end, dj), v));
                proof {
                    assert(tag_entries(di, ie.take(jt.index() + 1)) =~= tag_entries(di, ie.take(jt.index() as int)).push(((di, ie[jt.index() as int].0), ie[jt.index() as int].1)));
                }
            }
            proof {
                assert(ie.take(ie.len() as int) =~= ie);
                assert(ie == lm.entries());
                assert(all.take(it.index() + 1).drop_last() =~= all.take(it.index() as int));
                assert(all.take(it.index() + 1).last() == (di, lm));
            }
        }
        proof {
            assert(all.take(all.len() as int) =~= all);
        }
        out
    }
}

impl<V> Default for RectangleMap<V> {
    fn default() -> (m: Self)
        ensures
            m.wf(),
            m@ == Map::<((i64, i64), (i64, i64)), V>::empty(),
    {
        Self::new()
    }
}

/// A rectangle entry is among the flattened entries exactly when some outer
/// entry has its first range and the inner selection of that entry holds
/// its second range with its value.
pub proof fn lemma_flatten_contains<V>(
    outer: Seq<(Range<i64>, IntervalMap<V>)>,
    sel: spec_fn(IntervalMap<V>) -> Seq<(Range<i64>, V)>,
    rect: Rectangle,
    value: V,
)
    ensures
        flatten_with(outer, sel).contains((rect, value)) <==> exists|i: int|
            0 <= i < outer.len() && outer[i].0 == rect.0 && #[trigger] sel(outer[i].1).contains((rect.1, value)),
    decreases outer.len(),
{
    if outer.len() > 0 {
        let init = outer.drop_last();
        let last = outer.last();
        lemma_flatten_contains(init, sel, rect, value);
        let a = flatten_with(init, sel);
        let b = tag_entries(last.0, sel(last.1));
        assert(flatten_with(outer, sel) == a + b);
        if flatten_with(outer, sel).contains((rect, value)) {
            let k = choose|k: int| 0 <= k < (a + b).len() && (a + b)[k] == (rect, value);
            if k < a.len() {
                assert(a[k] == (rect, value));
                let i = choose|i: int|
                    0 <= i < init.len() && init[i].0 == rect.0 && #[trigger] sel(init[i].1).contains((rect.1, value));
                assert(outer[i] == init[i]);
            } else {
                let j = k - a.len();
                assert(b[j] == (rect, value));
                assert(sel(last.1)[j] == (rect.1, value));
                assert(sel(outer[outer.len() - 1].1).contains((rect.1, value)));
            }
        }
        if exists|i: int| 0 <= i < outer.len() && outer[i].0 == rect.0 && #[trigger] sel(outer[i].1).contains((rect.1, value)) {
            let i = choose|i: int| 0 <= i < outer.len() && outer[i].0 == rect.0 && #[trigger] sel(outer[i].1).contains((rect.1, value));
            if i < outer.len() - 1 {
                assert(init[i] == outer[i]);
                assert(sel(init[i].1).contains((rect.1, value)));
                let k = choose|k: int| 0 <= k < a.len() && a[k] == (rect, value);
                assert((a + b)[k] == (rect, value));
            } else {
                let sl = sel(last.1);
                assert(sl.contains((rect.1, value)));
                let j = choose|j: int| 0 <= j < sl.len() && sl[j] == (rect.1, value);
                assert(b[j] == (rect, value));
                assert((a + b)[a.len() + j] == (rect, value));
            }
        }
    }
}

/// A point query lists exactly the stored rectangles that hold the point,
/// each with its value.
pub proof fn law_query_point_exact_2d<V>(m: &RectangleMap<V>, point: (i64, i64), rect: Rectangle, value: V)
    requires
        m.wf(),
    ensures
        m.point_hits(point).contains((rect, value)) <==> (m@.dom().contains(rect_key(rect.0, rect.1))
            && m@[rect_key(rect.0, rect.1)] == value && holds_point(rect.0, point.0) && holds_point(
            rect.1,
            point.1,
        )),
{
    broadcast use Seq::lemma_filter_contains_rev;
    let f = m.map.entries().filter(Node::<IntervalMap<V>>::point_pred(point.0));
    let sel = pick::<V>(InnerQuery::Point(point.1));
    lemma_flatten_contains(f, sel, rect, value);
    m.map.lemma_wf();
    if m.point_hits(point).contains((rect, value)) {
        let i = choose|i: int| 0 <= i < f.len() && f[i].0 == rect.0 && #[trigger] sel(f[i].1).contains((rect.1, value));
        let inner = f[i].1;
        assert(f.contains(f[i]));
        law_query_point_exact(&m.map, point.0, rect.0, inner);
        assert(m.map@.dom().contains(kpair(rect.0)));
        assert(inner.wf());
        law_query_point_exact(&inner, point.1, rect.1, value);
    }
    if m@.dom().contains(rect_key(rect.0, rect.1)) && m@[rect_key(rect.0, rect.1)] == value && holds_point(rect.0, point.0)
        && holds_point(rect.1, point.1) {
        let inner = m.map@[kpair(rect.0)];
        assert(m.map@.dom().contains(kpair(rect.0)));
        law_query_point_exact(&m.map, point.0, rect.0, inner);
        let j = choose|j: int| 0 <= j < f.len() && f[j] == (rect.0, inner);
        law_query_point_exact(&inner, point.1, rect.1, value);
        assert(sel(f[j].1).contains((rect.1, value)));
    }
}

/// A bounds query lists exactly the stored rectangles whose first range
/// overlaps the first pair of bounds and whose second range overlaps the
/// second pair, each with its value.
pub proof fn law_query_bounds_exact_2d<V>(
    m: &RectangleMap<V>,
    r_lo: Bound,
    r_hi: Bound,
    s_lo: Bound,
    s_hi: Bound,
    rect: Rectangle,
    value: V,
)
    requires
        m.wf(),
    ensures
        m.bounds_hits(r_lo, r_hi, s_lo, s_hi).contains((rect, value)) <==> (m@.dom().contains(rect_key(rect.0, rect.1))
            && m@[rect_key(rect.0, rect.1)] == value
            && overlap_spec(r_lo, r_hi, Bound::Included(rect.0.start), Bound::Excluded(rect.0.end))
            && overlap_spec(s_lo, s_hi, Bound::Included(rect.1.start), Bound::Excluded(rect.1.end))),
{
    broadcast use Seq::lemma_filter_contains_rev;
    let pred = Node::<IntervalMap<V>>::overlap_pred(r_lo, r_hi);
    let f = m.map.entries().filter(pred);
    let sel = pick::<V>(InnerQuery::Bounds(s_lo, s_hi));
    lemma_flatten_contains(f, sel, rect, value);
    m.map.lemma_wf();
    if m.bounds_hits(r_lo, r_hi, s_lo, s_hi).contains((rect, value)) {
        let i = choose|i: int| 0 <= i < f.len() && f[i].0 == rect.0 && #[trigger] sel(f[i].1).contains((rect.1, value));
        let inner = f[i].1;
        assert(f.contains(f[i]));
        law_query_range_exact(&m.map, r_lo, r_hi, rect.0, inner);
        assert(m.map@.dom().contains(kpair(rect.0)));
        assert(inner.wf());
        law_query_range_exact(&inner, s_lo, s_hi, rect.1, value);
    }
    if m@.dom().contains(rect_key(rect.0, rect.1)) && m@[rect_key(rect.0, rect.1)] == value
        && overlap_spec(r_lo, r_hi, Bound::Included(rect.0.start), Bound::Excluded(rect.0.end))
        && overlap_spec(s_lo, s_hi, Bound::Included(rect.1.start), Bound::Excluded(rect.1.end)) {
        let inner = m.map@[kpair(rect.0)];
        assert(m.map@.dom().contains(kpair(rect.0)));
        law_query_range_exact(&m.map, r_lo, r_hi, rect.0, inner);
        let j = choose|j: int| 0 <= j < f.len() && f[j] == (rect.0, inner);
        law_query_range_exact(&inner, s_lo, s_hi, rect.1, value);
        assert(sel(f[j].1).contains((rect.1, value)));
    }
}

/// The entries list exactly the stored rectangles, each with its value.
pub proof fn lemma_entries_exact<V>(m: &RectangleMap<V>, rect: Rectangle, value: V)
    requires
        m.wf(),
    ensures
        m.entries().contains((rect, value)) <==> (m@.dom().contains(rect_key(rect.0, rect.1))
            && m@[rect_key(rect.0, rect.1)] == value),
{
    let outer = m.map.entries();
    let sel = pick::<V>(InnerQuery::All);
    lemma_flatten_contains(outer, sel, rect, value);
    m.map.lemma_wf();
    if m.entries().contains((rect, value)) {
        let i = choose|i: int| 0 <= i < outer.len() && outer[i].0 == rect.0 && #[trigger] sel(outer[i].1).contains((rect.1, value));
        let inner = outer[i].1;
        assert(m.map@.dom().contains(kpair(outer[i].0)));
        assert(inner.wf());
        inner.lemma_wf();
        let t = choose|t: int| 0 <= t < inner.entries().len() && inner.entries()[t] == (rect.1, value);
        assert(inner@.dom().contains(kpair(inner.entries()[t].0)));
    }
    if m@.dom().contains(rect_key(rect.0, rect.1)) && m@[rect_key(rect.0, rect.1)] == value {
        let inner = m.map@[kpair(rect.0)];
        assert(m.map@.dom().contains(kpair(rect.0)));
        let j = choose|j: int| 0 <= j < outer.len() && kpair(outer[j].0) == kpair(rect.0);
        assert(outer[j].1 == inner);
        assert(outer[j].0 == rect.0);
        inner.lemma_wf();
        let t = choose|t: int| 0 <= t < inner.entries().len() && kpair(inner.entries()[t].0) == kpair(rect.1);
        assert(inner.entries()[t].0 == rect.1);
        assert(inner.entries()[t] == (rect.1, value));
        assert(sel(outer[j].1).contains((rect.1, value)));
    }
}

/// A read gives back the last write: once `insert(rect, value)` has run,
/// the map holds `value` under `rect`; once `remove(rect)` has run, it holds
/// nothing there; either way every other rectangle keeps what it had.
pub proof fn law_read_after_write<V>(m: &RectangleMap<V>, rect: Rectangle, value: V, other: Rectangle)
    requires
        m.wf(),
    ensures
        m@.insert(rect_key(rect.0, rect.1), value).dom().contains(rect_key(rect.0, rect.1)),
        m@.insert(rect_key(rect.0, rect.1), value)[rect_key(rect.0, rect.1)] == value,
        !m@.remove(rect_key(rect.0, rect.1)).dom().contains(rect_key(rect.0, rect.1)),
        rect_key(other.0, other.1) != rect_key(rect.0, rect.1) ==> {
            let k = rect_key(rect.0, rect.1);
            let o = rect_key(other.0, other.1);
            &&& m@.insert(k, value).dom().contains(o) == m@.dom().contains(o)
            &&& m@.remove(k).dom().contains(o) == m@.dom().contains(o)
            &&& m@.dom().contains(o) ==> m@.insert(k, value)[o] == m@[o]
            &&& m@.dom().contains(o) ==> m@.remove(k)[o] == m@[o]
        },
{
}

/// No two entries share an interval.
pub open spec fn distinct_intervals<W>(s: Seq<(Range<i64>, W)>) -> bool {
    forall|i: int, j: int| 0 <= i < j < s.len() ==> kpair(#[trigger] s[i].0) != kpair(#[trigger] s[j].0)
}

/// No two entries share a rectangle.
pub open spec fn distinct_rects<W>(s: Seq<(Rectangle, W)>) -> bool {
    forall|i: int, j: int| 0 <= i < j < s.len() ==>
        rect_key((#[trigger] s[i]).0.0, s[i].0.1) != rect_key((#[trigger] s[j]).0.0, s[j].0.1)
}

/// Entries whose intervals lie in a finite set as large as their number,
/// and cover it, list each interval once.
proof fn lemma_keys_once<W>(s: Seq<(Range<i64>, W)>, dom: Set<(i64, i64)>)
    requires
        dom.finite(),
        s.len() == dom.len(),
        forall|i: int| 0 <= i < s.len() ==> dom.contains(#[trigger] kpair(s[i].0)),
        forall|k| #[trigger] dom.contains(k) ==> exists|i: int| 0 <= i < s.len() && kpair(s[i].0) == k,
    ensures
        distinct_intervals(s),
{
    let ks = s.map_values(|e: (Range<i64>, W)| kpair(e.0));
    assert forall|k| ks.to_set().contains(k) <==> dom.contains(k) by {
        if ks.to_set().contains(k) {
            let i = choose|i: int| 0 <= i < ks.len() && ks[i] == k;
            assert(dom.contains(kpair(s[i].0)));
        }
        if dom.contains(k) {
            let i = choose|i: int| 0 <= i < s.len() && kpair(s[i].0) == k;
            assert(ks[i] == k);
        }
    }
    assert(ks.to_set() =~= dom);
    ks.lemma_no_dup_set_cardinality();
    assert forall|i: int, j: int| 0 <= i < j < s.len() implies kpair(#[trigger] s[i].0) != kpair(#[trigger] s[j].0) by {
        assert(ks[i] == kpair(s[i].0));
        assert(ks[j] == kpair(s[j].0));
    }
}

/// The entries of a well-formed interval map list each interval once.
proof fn lemma_map_entries_once<W>(m: &IntervalMap<W>)
    requires
        m.wf(),
    ensures
        distinct_intervals(m.entries()),
{
    m.lemma_wf();
    lemma_keys_once(m.entries(), m@.dom());
}

/// Keeping some entries keeps them apart.
proof fn lemma_filter_once<W>(s: Seq<(Range<i64>, W)>, pred: spec_fn((Range<i64>, W)) -> bool)
    requires
        distinct_intervals(s),
    ensures
        distinct_intervals(s.filter(pred)),
    decreases s.len(),
{
    broadcast use Seq::lemma_filter_contains_rev;
    if s.len() > 0 {
        let d = s.drop_last();
        assert(distinct_intervals(d)) by {
            assert forall|i: int, j: int| 0 <= i < j < d.len() implies kpair(#[trigger] d[i].0) != kpair(#[trigger] d[j].0) by {
                assert(d[i] == s[i] && d[j] == s[j]);
            }
        }
        lemma_filter_once(d, pred);
        let f = d.filter(pred);
        assert(d.push(s.last()) =~= s);
        d.lemma_filter_push(s.last(), pred);
        if !pred(s.last()) {
            assert(s.filter(pred) == f);
        } else {
            let g = s.filter(pred);
            assert(g == f.push(s.last()));
            assert forall|i: int, j: int| 0 <= i < j < g.len() implies kpair(#[trigger] g[i].0) != kpair(#[trigger] g[j].0) by {
                if j == g.len() - 1 {
                    assert(f.contains(g[i]));
                    assert(d.contains(g[i]));
                    let k = choose|k: int| 0 <= k < d.len() && d[k] == g[i];
                    assert(s[k] == d[k]);
                    assert(g[j] == s[s.len() - 1]);
                } else {
                    assert(g[i] == f[i] && g[j] == f[j]);
                }
            }
        }
    }
}

/// Flattening keeps rectangles apart when the outer intervals are apart and
/// each inner selection lists its intervals once.
proof fn lemma_flatten_once<V>(outer: Seq<(Range<i64>, IntervalMap<V>)>, sel: spec_fn(IntervalMap<V>) -> Seq<(Range<i64>, V)>)
    requires
        distinct_intervals(outer),
        forall|i: int| 0 <= i < outer.len() ==> distinct_intervals(sel(#[trigger] outer[i].1)),
    ensures
        distinct_rects(flatten_with(outer, sel)),
    decreases outer.len(),
{
    if outer.len() > 0 {
        let init = outer.drop_last();
        let last = outer.last();
        assert(distinct_intervals(init)) by {
            assert forall|i: int, j: int| 0 <= i < j < init.len() implies kpair(#[trigger] init[i].0) != kpair(#[trigger] init[j].0) by {
                assert(init[i] == outer[i] && init[j] == outer[j]);
            }
        }
        assert forall|i: int| 0 <= i < init.len() implies distinct_intervals(sel(#[trigger] init[i].1)) by {
            assert(init[i] == outer[i]);
        }
        lemma_flatten_once(init, sel);
        let a = flatten_with(init, sel);
        let b = tag_entries(last.0, sel(last.1));
        let f = flatten_with(outer, sel);
        assert(f == a + b);
        assert(distinct_intervals(sel(outer[outer.len() - 1].1)));
        assert forall|i: int, j: int| 0 <= i < j < f.len() implies
            rect_key((#[trigger] f[i]).0.0, f[i].0.1) != rect_key((#[trigger] f[j]).0.0, f[j].0.1) by {
            if j < a.len() {
                assert(f[i] == a[i] && f[j] == a[j]);
            } else if i >= a.len() {
                let sl = sel(last.1);
                assert(f[i] == b[i - a.len()] && f[j] == b[j - a.len()]);
                assert(b[i - a.len()].0.1 == sl[i - a.len()].0);
                assert(b[j - a.len()].0.1 == sl[j - a.len()].0);
            } else {
                assert(f[i] == a[i]);
                assert(a.contains(a[i]));
                lemma_flatten_contains(init, sel, a[i].0, a[i].1);
                let k = choose|k: int| 0 <= k < init.len() && init[k].0 == a[i].0.0
                    && #[trigger] sel(init[k].1).contains((a[i].0.1, a[i].1));
                assert(init[k] == outer[k]);
                assert(f[j] == b[j - a.len()]);
                assert(f[j].0.0 == last.0);
                assert(kpair(outer[k].0) != kpair(outer[outer.len() - 1].0));
            }
        }
    }
}

/// When every inner selection holds at least one entry, the flattened list
/// is at least as long as the outer list, and as long as any one selection.
proof fn lemma_flatten_len<V>(outer: Seq<(Range<i64>, IntervalMap<V>)>, sel: spec_fn(IntervalMap<V>) -> Seq<(Range<i64>, V)>)
    requires
        forall|i: int| 0 <= i < outer.len() ==> sel(#[trigger] outer[i].1).len() >= 1,
    ensures
        flatten_with(outer, sel).len() >= outer.len(),
        forall|i: int| 0 <= i < outer.len() ==> sel(#[trigger] outer[i].1).len() <= flatten_with(outer, sel).len(),
    decreases outer.len(),
{
    if outer.len() > 0 {
        let init = outer.drop_last();
        assert forall|i: int| 0 <= i < init.len() implies sel(#[trigger] init[i].1).len() >= 1 by {
            assert(init[i] == outer[i]);
        }
        lemma_flatten_len(init, sel);
        assert forall|i: int| 0 <= i < outer.len() implies sel(#[trigger] outer[i].1).len() <= flatten_with(outer, sel).len() by {
            if i < init.len() {
                assert(init[i] == outer[i]);
            }
        }
    }
}

/// A point query and a bounds query each list a stored rectangle at most
/// once.
pub proof fn law_hits_once<V>(m: &RectangleMap<V>, point: (i64, i64), r_lo: Bound, r_hi: Bound, s_lo: Bound, s_hi: Bound)
    requires
        m.wf(),
    ensures
        distinct_rects(m.point_hits(point)),
        distinct_rects(m.bounds_hits(r_lo, r_hi, s_lo, s_hi)),
{
    broadcast use Seq::lemma_filter_contains_rev;
    let all = m.map.entries();
    lemma_map_entries_once(&m.map);
    m.map.lemma_wf();
    let fp = all.filter(Node::<IntervalMap<V>>::point_pred(point.0));
    let fb = all.filter(Node::<IntervalMap<V>>::overlap_pred(r_lo, r_hi));
    lemma_filter_once(all, Node::<IntervalMap<V>>::point_pred(point.0));
    lemma_filter_once(all, Node::<IntervalMap<V>>::overlap_pred(r_lo, r_hi));
    let sp = pick::<V>(InnerQuery::Point(point.1));
    let sb = pick::<V>(InnerQuery::Bounds(s_lo, s_hi));
    assert forall|i: int| 0 <= i < fp.len() implies distinct_intervals(sp(#[trigger] fp[i].1)) by {
        assert(fp.contains(fp[i]));
        let k = choose|k: int| 0 <= k < all.len() && all[k] == fp[i];
        assert(m.map@.dom().contains(kpair(all[k].0)));
        lemma_map_entries_once(&fp[i].1);
        lemma_filter_once(fp[i].1.entries(), Node::<V>::point_pred(point.1));
    }
    assert forall|i: int| 0 <= i < fb.len() implies distinct_intervals(sb(#[trigger] fb[i].1)) by {
        assert(fb.contains(fb[i]));
        let k = choose|k: int| 0 <= k < all.len() && all[k] == fb[i];
        assert(m.map@.dom().contains(kpair(all[k].0)));
        lemma_map_entries_once(&fb[i].1);
        lemma_filter_once(fb[i].1.entries(), Node::<V>::overlap_pred(s_lo, s_hi));
    }
    lemma_flatten_once(fp, sp);
    lemma_flatten_once(fb, sb);
}

} // verus!
