//! A minimal directed graph that stores only edges, indexed both by source
//! and by target.
use vstd::prelude::*;
use vstd::std_specs::iter::IteratorSpec;
use std::collections::HashMap;

verus! {

broadcast use vstd::std_specs::hash::group_hash_axioms;

/// The targets of the edges leaving `a`, in the order the edges were added.
pub open spec fn targets(edges: Seq<(u64, u64)>, a: u64) -> Seq<u64>
    decreases edges.len(),
{
    if edges.len() == 0 {
        Seq::empty()
    } else if edges.last().0 == a {
        targets(edges.drop_last(), a).push(edges.last().1)
    } else {
        targets(edges.drop_last(), a)
    }
}

/// The sources of the edges entering `b`, in the order the edges were added.
pub open spec fn sources(edges: Seq<(u64, u64)>, b: u64) -> Seq<u64>
    decreases edges.len(),
{
    if edges.len() == 0 {
        Seq::empty()
    } else if edges.last().1 == b {
        sources(edges.drop_last(), b).push(edges.last().0)
    } else {
        sources(edges.drop_last(), b)
    }
}

/// The sequence with every occurrence of `x` left out.
pub open spec fn without(s: Seq<u64>, x: u64) -> Seq<u64>
    decreases s.len(),
{
    if s.len() == 0 {
        Seq::empty()
    } else if s.last() == x {
        without(s.drop_last(), x)
    } else {
        without(s.drop_last(), x).push(s.last())
    }
}

/// The edges with every copy of the edge `a -> b` left out.
pub open spec fn without_edge(edges: Seq<(u64, u64)>, a: u64, b: u64) -> Seq<(u64, u64)>
    decreases edges.len(),
{
    if edges.len() == 0 {
        Seq::empty()
    } else if edges.last() == (a, b) {
        without_edge(edges.drop_last(), a, b)
    } else {
        without_edge(edges.drop_last(), a, b).push(edges.last())
    }
}

/// The total number of sources over the given target keys.
pub open spec fn sum_sources(edges: Seq<(u64, u64)>, keys: Seq<u64>) -> nat
    decreases keys.len(),
{
    if keys.len() == 0 {
        0
    } else {
        sum_sources(edges, keys.drop_last()) + sources(edges, keys.last()).len()
    }
}

pub proof fn lemma_targets_without_edge(edges: Seq<(u64, u64)>, a: u64, b: u64, x: u64)
    ensures
        targets(without_edge(edges, a, b), x) == if x == a { without(targets(edges, a), b) } else { targets(edges, x) },
    decreases edges.len(),
{
    if edges.len() > 0 {
        let d = edges.drop_last();
        let e = edges.last();
        lemma_targets_without_edge(d, a, b, x);
        let w = without_edge(edges, a, b);
        let wd = without_edge(d, a, b);
        if e != (a, b) {
            assert(w == wd.push(e));
            assert(w.drop_last() =~= wd);
            assert(w.last() == e);
        }
        if e.0 == a {
            let ta = targets(d, a);
            assert(targets(edges, a) == ta.push(e.1));
            assert(ta.push(e.1).drop_last() =~= ta);
            assert(ta.push(e.1).last() == e.1);
        }
    }
}

pub proof fn lemma_sources_without_edge(edges: Seq<(u64, u64)>, a: u64, b: u64, y: u64)
    ensures
        sources(without_edge(edges, a, b), y) == if y == b { without(sources(edges, b), a) } else { sources(edges, y) },
    decreases edges.len(),
{
    if edges.len() > 0 {
        let d = edges.drop_last();
        let e = edges.last();
        lemma_sources_without_edge(d, a, b, y);
        let w = without_edge(edges, a, b);
        let wd = without_edge(d, a, b);
        if e != (a, b) {
            assert(w == wd.push(e));
            assert(w.drop_last() =~= wd);
            assert(w.last() == e);
        }
        if e.1 == b {
            let sb = sources(d, b);
            assert(sources(edges, b) == sb.push(e.0));
            assert(sb.push(e.0).drop_last() =~= sb);
            assert(sb.push(e.0).last() == e.0);
        }
    }
}

pub proof fn lemma_targets_contains(edges: Seq<(u64, u64)>, a: u64, b: u64)
    ensures
        targets(edges, a).contains(b) <==> edges.contains((a, b)),
    decreases edges.len(),
{
    if edges.len() > 0 {
        let d = edges.drop_last();
        lemma_targets_contains(d, a, b);
        if edges.contains((a, b)) {
            let i = choose|i: int| 0 <= i < edges.len() && edges[i] == (a, b);
            if i < edges.len() - 1 {
                assert(d[i] == (a, b));
            }
        }
        if d.contains((a, b)) {
            let i = choose|i: int| 0 <= i < d.len() && d[i] == (a, b);
            assert(edges[i] == (a, b));
        }
        let td = targets(d, a);
        if edges.last().0 == a {
            assert(targets(edges, a) == td.push(edges.last().1));
            if targets(edges, a).contains(b) {
                let i = choose|i: int| 0 <= i < td.len() + 1 && td.push(edges.last().1)[i] == b;
                if i < td.len() {
                    assert(td[i] == b);
                } else {
                    assert(edges[edges.len() - 1] == (a, b));
                }
            }
            if td.contains(b) {
                let i = choose|i: int| 0 <= i < td.len() && td[i] == b;
                assert(td.push(edges.last().1)[i] == b);
            }
            if edges.last() == (a, b) {
                assert(td.push(edges.last().1)[td.len() as int] == b);
            }
        } else {
            assert(targets(edges, a) == td);
            if edges.contains((a, b)) {
                let i = choose|i: int| 0 <= i < edges.len() && edges[i] == (a, b);
                assert(i < edges.len() - 1);
            }
        }
    }
}

pub proof fn lemma_sources_contains(edges: Seq<(u64, u64)>, a: u64, b: u64)
    ensures
        sources(edges, b).contains(a) <==> edges.contains((a, b)),
    decreases edges.len(),
{
    if edges.len() > 0 {
        let d = edges.drop_last();
        lemma_sources_contains(d, a, b);
        lemma_drop_last_contains(edges, (a, b));
        let sd = sources(d, b);
        if edges.last().1 == b {
            assert(sources(edges, b) == sd.push(edges.last().0));
            lemma_push_contains(sd, edges.last().0, a);
        } else {
            assert(sources(edges, b) == sd);
        }
    }
}

/// A sequence holds `x` exactly when its prefix without the last element
/// does, or the last element is `x`.
proof fn lemma_drop_last_contains<A>(s: Seq<A>, x: A)
    requires
        s.len() > 0,
    ensures
        s.contains(x) <==> (s.drop_last().contains(x) || s.last() == x),
{
    let d = s.drop_last();
    if s.contains(x) {
        let i = choose|i: int| 0 <= i < s.len() && s[i] == x;
        if i < s.len() - 1 {
            assert(d[i] == x);
        }
    }
    if d.contains(x) {
        let i = choose|i: int| 0 <= i < d.len() && d[i] == x;
        assert(s[i] == x);
    }
    if s.last() == x {
        assert(s[s.len() - 1] == x);
    }
}

/// Pushing `y` onto a sequence makes it hold `x` exactly when it held `x`
/// before or `y` is `x`.
proof fn lemma_push_contains<A>(s: Seq<A>, y: A, x: A)
    ensures
        s.push(y).contains(x) <==> (s.contains(x) || y == x),
{
    assert(s.push(y).drop_last() =~= s);
    lemma_drop_last_contains(s.push(y), x);
}

/// Leaving out the copies of `a -> b` keeps exactly the other edges.
pub proof fn lemma_without_edge_contains(edges: Seq<(u64, u64)>, a: u64, b: u64, e: (u64, u64))
    ensures
        without_edge(edges, a, b).contains(e) <==> (edges.contains(e) && e != (a, b)),
    decreases edges.len(),
{
    if edges.len() > 0 {
        let d = edges.drop_last();
        lemma_without_edge_contains(d, a, b, e);
        lemma_drop_last_contains(edges, e);
        if edges.last() != (a, b) {
            lemma_push_contains(without_edge(d, a, b), edges.last(), e);
        }
    }
}

/// Every edge is seen from both of its ends: `b` is among the targets of
/// `a` exactly when `a` is among the sources of `b`, which is exactly when
/// the graph holds the edge `a -> b`.
pub proof fn law_edge_seen_from_both_ends(edges: Seq<(u64, u64)>, a: u64, b: u64)
    ensures
        targets(edges, a).contains(b) <==> edges.contains((a, b)),
        sources(edges, b).contains(a) <==> edges.contains((a, b)),
{
    lemma_targets_contains(edges, a, b);
    lemma_sources_contains(edges, a, b);
}

/// An inserted edge is contained; a removed edge is not, and removing it
/// keeps every other edge.
pub proof fn law_insert_contains_remove_forgets(edges: Seq<(u64, u64)>, a: u64, b: u64, e: (u64, u64))
    ensures
        edges.push((a, b)).contains((a, b)),
        !without_edge(edges, a, b).contains((a, b)),
        e != (a, b) ==> (without_edge(edges, a, b).contains(e) <==> edges.contains(e)),
{
    lemma_push_contains(edges, (a, b), (a, b));
    lemma_without_edge_contains(edges, a, b, (a, b));
    lemma_without_edge_contains(edges, a, b, e);
}

pub proof fn lemma_without_not_contains(s: Seq<u64>, x: u64)
    ensures
        !without(s, x).contains(x),
    decreases s.len(),
{
    if s.len() > 0 {
        lemma_without_not_contains(s.drop_last(), x);
    }
}

pub proof fn lemma_sum_push(edges: Seq<(u64, u64)>, a: u64, b: u64, keys: Seq<u64>)
    requires
        keys.no_duplicates(),
    ensures
        sum_sources(edges.push((a, b)), keys) == sum_sources(edges, keys) + (if keys.contains(b) { 1nat } else { 0nat }),
    decreases keys.len(),
{
    if keys.len() > 0 {
        let d = keys.drop_last();
        assert(d.no_duplicates());
        lemma_sum_push(edges, a, b, d);
        assert(edges.push((a, b)).drop_last() == edges);
        if keys.last() == b {
            assert(!d.contains(b)) by {
                if d.contains(b) {
                    let i = choose|i: int| 0 <= i < d.len() && d[i] == b;
                    assert(keys[i] == keys[keys.len() - 1]);
                }
            }
            assert(keys.contains(b)) by {
                assert(keys[keys.len() - 1] == b);
            }
        } else {
            assert(keys.contains(b) <==> d.contains(b)) by {
                if keys.contains(b) {
                    let i = choose|i: int| 0 <= i < keys.len() && keys[i] == b;
                    assert(d[i] == b);
                }
                if d.contains(b) {
                    let i = choose|i: int| 0 <= i < d.len() && d[i] == b;
                    assert(keys[i] == b);
                }
            }
        }
    }
}

/// Summing the sources over distinct keys that include every target counts
/// every edge once.
pub proof fn lemma_sum_all(edges: Seq<(u64, u64)>, keys: Seq<u64>)
    requires
        keys.no_duplicates(),
        forall|i: int| 0 <= i < edges.len() ==> keys.contains(#[trigger] edges[i].1),
    ensures
        sum_sources(edges, keys) == edges.len(),
    decreases edges.len(),
{
    if edges.len() == 0 {
        lemma_sum_empty(edges, keys);
    } else {
        let d = edges.drop_last();
        assert forall|i: int| 0 <= i < d.len() implies keys.contains(#[trigger] d[i].1) by {
            assert(d[i] == edges[i]);
        }
        lemma_sum_all(d, keys);
        assert(keys.contains(edges[edges.len() - 1].1));
        assert(d.push(edges.last()) == edges);
        lemma_sum_push(d, edges.last().0, edges.last().1, keys);
    }
}

pub proof fn lemma_sum_empty(edges: Seq<(u64, u64)>, keys: Seq<u64>)
    requires
        edges.len() == 0,
    ensures
        sum_sources(edges, keys) == 0,
    decreases keys.len(),
{
    if keys.len() > 0 {
        lemma_sum_empty(edges, keys.drop_last());
    }
}

pub proof fn lemma_sources_nonempty(edges: Seq<(u64, u64)>, i: int)
    requires
        0 <= i < edges.len(),
    ensures
        sources(edges, edges[i].1).len() > 0,
    decreases edges.len(),
{
    let d = edges.drop_last();
    if i < edges.len() - 1 {
        assert(d[i] == edges[i]);
        lemma_sources_nonempty(d, i);
    }
}

pub proof fn lemma_sum_prefix(edges: Seq<(u64, u64)>, keys: Seq<u64>, i: int)
    requires
        0 <= i <= keys.len(),
    ensures
        sum_sources(edges, keys.take(i)) <= sum_sources(edges, keys),
    decreases keys.len(),
{
    if i < keys.len() {
        assert(keys.drop_last().take(i) =~= keys.take(i));
        lemma_sum_prefix(edges, keys.drop_last(), i);
    } else {
        assert(keys.take(i) =~= keys);
    }
}

/// A minimal directed graph structure that stores only edges.
pub struct AdjacencyList {
    outgoing: HashMap<u64, Vec<u64>>,
    incoming: HashMap<u64, Vec<u64>>,
    edges: Ghost<Seq<(u64, u64)>>,
}

impl View for AdjacencyList {
    type V = Seq<(u64, u64)>;

    /// The edges, in the order they were added.
    closed spec fn view(&self) -> Seq<(u64, u64)> {
        self.edges@
    }
}

impl AdjacencyList {
    /// Both indexes agree with the edge list.
    pub closed spec fn wf(&self) -> bool {
        &&& forall|a: u64| #[trigger] self.outgoing@.contains_key(a) ==> self.outgoing@[a]@ == targets(self.edges@, a)
        &&& forall|a: u64| !self.outgoing@.contains_key(a) ==> #[trigger] targets(self.edges@, a).len() == 0
        &&& forall|b: u64| #[trigger] self.incoming@.contains_key(b) ==> self.incoming@[b]@ == sources(self.edges@, b)
        &&& forall|b: u64| !self.incoming@.contains_key(b) ==> #[trigger] sources(self.edges@, b).len() == 0
    }

    pub fn new() -> (g: Self)
        ensures
            g.wf(),
            g@ == Seq::<(u64, u64)>::empty(),
    {
        AdjacencyList { outgoing: HashMap::new(), incoming: HashMap::new(), edges: Ghost(Seq::empty()) }
    }

    /// The total length of the target index lists, and whether all are empty.
    fn count_incoming(&self) -> (r: usize)
        requires
            self.wf(),
            self@.len() <= usize::MAX,
        ensures
            r == self@.len(),
    {
        let ghost e = self.edges@;
        let mut total: usize = 0;
        let iter0 = self.incoming.iter();
        let ghost pairs = iter0.remaining();
        let ghost keys = pairs.map_values(|p: (&u64, &Vec<u64>)| *p.0);
        proof {
            assert forall|i: int, j: int| 0 <= i < j < keys.len() implies keys[i] != keys[j] by {
                if keys[i] == keys[j] {
                    assert(self.incoming@[*pairs[i].0] == *pairs[i].1);
                    assert(self.incoming@[*pairs[j].0] == *pairs[j].1);
                    assert(pairs[i] == pairs[j]);
                }
            }
            assert forall|i: int| 0 <= i < e.len() implies keys.contains(#[trigger] e[i].1) by {
                lemma_sources_nonempty(e, i);
                let b = e[i].1;
                assert(self.incoming@.contains_key(b));
                assert(pairs.contains((&b, &self.incoming@[b])));
                let k = choose|k: int| 0 <= k < pairs.len() && pairs[k] == (&b, &self.incoming@[b]);
                assert(keys[k] == b);
            }
            lemma_sum_all(e, keys);
            assert(keys.take(0) =~= Seq::<u64>::empty());
        }
        for p in it: iter0
            invariant
                it.seq() == pairs,
                e == self.edges@,
                self.wf(),
                keys == pairs.map_values(|p: (&u64, &Vec<u64>)| *p.0),
                sum_sources(e, keys) == e.len(),
                e.len() <= usize::MAX,
                forall|i: int| 0 <= i < pairs.len() ==> self.incoming@.contains_key(*(#[trigger] pairs[i]).0)
                    && self.incoming@[*pairs[i].0] == *pairs[i].1,
                total == sum_sources(e, keys.take(it.index() as int)),
        {
            let (_, edges) = p;
            proof {
                let i = it.index() as int;
                assert(keys.take(i + 1).drop_last() =~= keys.take(i));
                assert(keys.take(i + 1).last() == *pairs[i].0);
                assert(edges@ == sources(e, *pairs[i].0));
                lemma_sum_prefix(e, keys, i + 1);
            }
            total = total + edges.len();
        }
        proof {
            assert(keys.take(keys.len() as int) =~= keys);
        }
        total
    }

    /// Return the number of edges in the graph.
    pub fn len(&self) -> (r: usize)
        requires
            self.wf(),
            self@.len() <= usize::MAX,
        ensures
            r == self@.len(),
    {
        self.count_incoming()
    }

    /// Determine whether there are any edges in the graph.
    pub fn is_empty(&self) -> (r: bool)
        requires
            self.wf(),
        ensures
            r == (self@.len() == 0),
    {
        let ghost e = self.edges@;
        let iter0 = self.incoming.iter();
        let ghost pairs = iter0.remaining();
        let mut all_empty = true;
        for p in it: iter0
            invariant
                it.seq() == pairs,
                e == self.edges@,
                self.wf(),
                forall|i: int| 0 <= i < pairs.len() ==> self.incoming@.contains_key(*(#[trigger] pairs[i]).0)
                    && self.incoming@[*pairs[i].0] == *pairs[i].1,
                forall|k: u64| #[trigger] self.incoming@.contains_key(k) ==> pairs.contains((&k, &self.incoming@[k])),
                all_empty == (forall|j: int| 0 <= j < it.index() ==> (#[trigger] pairs[j]).1@.len() == 0),
        {
            let (_, edges) = p;
            all_empty = all_empty && edges.len() == 0;
        }
        proof {
            if e.len() > 0 {
                lemma_sources_nonempty(e, 0);
                let b = e[0].1;
                assert(self.incoming@.contains_key(b));
                let k = choose|k: int| 0 <= k < pairs.len() && pairs[k] == (&b, &self.incoming@[b]);
                assert(pairs[k].1@.len() > 0);
            }
            if !all_empty {
                let j = choose|j: int| 0 <= j < pairs.len() && (#[trigger] pairs[j]).1@.len() != 0;
                assert(self.incoming@.contains_key(*pairs[j].0));
                let b = *pairs[j].0;
                if e.len() == 0 {
                    assert(sources(e, b).len() == 0);
                }
            }
        }
        all_empty
    }

    /// Insert an edge from a to b. Duplicate and circular edges are allowed.
    pub fn insert(&mut self, a0: u64, b0: u64)
        requires
            old(self).wf(),
        ensures
            final(self).wf(),
            final(self)@ == old(self)@.push((a0, b0)),
    {
        let ghost e0 = self.edges@;
        let a1 = a0;
        let b1 = b0;
        let mut out = match self.outgoing.remove(&a0) {
            Some(v) => v,
            None => Vec::new(),
        };
        out.push(b0);
        self.outgoing.insert(a0, out);
        let mut inc = match self.incoming.remove(&b1) {
            Some(v) => v,
            None => Vec::new(),
        };
        inc.push(a1);
        self.incoming.insert(b1, inc);
        self.edges = Ghost(e0.push((a0, b0)));
        proof {
            let e1 = e0.push((a0, b0));
            assert(e1.drop_last() == e0);
            assert forall|a: u64| #[trigger] self.outgoing@.contains_key(a) implies self.outgoing@[a]@ == targets(e1, a) by {
                if a == a0 {
                    if !old(self).outgoing@.contains_key(a0) {
                        assert(targets(e0, a0) =~= Seq::<u64>::empty());
                    }
                }
            }
            assert forall|b: u64| #[trigger] self.incoming@.contains_key(b) implies self.incoming@[b]@ == sources(e1, b) by {
                if b == b0 {
                    if !old(self).incoming@.contains_key(b0) {
                        assert(sources(e0, b0) =~= Seq::<u64>::empty());
                    }
                }
            }
            assert forall|a: u64| !self.outgoing@.contains_key(a) implies #[trigger] targets(e1, a).len() == 0 by {
                assert(a != a0);
                assert(!old(self).outgoing@.contains_key(a));
                assert(targets(e1, a) == targets(e0, a));
            }
            assert forall|b: u64| !self.incoming@.contains_key(b) implies #[trigger] sources(e1, b).len() == 0 by {
                assert(b != b0);
                assert(!old(self).incoming@.contains_key(b));
                assert(sources(e1, b) == sources(e0, b));
            }
        }
    }

    /// Determine whether the given edge exists.
    pub fn contains(&mut self, a: &u64, b: &u64) -> (r: bool)
        requires
            old(self).wf(),
        ensures
            *final(self) == *old(self),
            r == old(self)@.contains((*a, *b)),
    {
        proof {
            lemma_targets_contains(self.edges@, *a, *b);
        }
        match self.outgoing.get(a) {
            Some(edges) => {
                proof {
                    assert(self.outgoing@.contains_key(*a));
                    assert(edges@ == targets(self.edges@, *a));
                }
                let mut i: usize = 0;
                while i < edges.len()
                    invariant
                        i <= edges@.len(),
                        edges@ == targets(self.edges@, *a),
                        forall|j: int| 0 <= j < i ==> edges@[j] != *b,
                    decreases edges@.len() - i,
                {
                    if edges[i] == *b {
                        proof {
                            assert(targets(self.edges@, *a)[i as int] == *b);
                            lemma_targets_contains(self.edges@, *a, *b);
                        }
                        return true;
                    }
                    i = i + 1;
                }
                false
            },
            None => {
                proof {
                    if targets(self.edges@, *a).contains(*b) {
                        assert(targets(self.edges@, *a).len() > 0);
                    }
                }
                false
            },
        }
    }

    /// Remove every copy of an edge, if it exists.
    pub fn remove(&mut self, a0: u64, b0: u64)
        requires
            old(self).wf(),
        ensures
            final(self).wf(),
            final(self)@ == without_edge(old(self)@, a0, b0),
    {
        let ghost e0 = self.edges@;
        let ghost e1 = without_edge(e0, a0, b0);
        if let Some(v) = self.outgoing.remove(&a0) {
            let kept = Self::retain_other(v, b0);
            self.outgoing.insert(a0, kept);
        }
        if let Some(v) = self.incoming.remove(&b0) {
            let kept = Self::retain_other(v, a0);
            self.incoming.insert(b0, kept);
        }
        self.edges = Ghost(e1);
        proof {
            assert forall|a: u64| #[trigger] self.outgoing@.contains_key(a) implies self.outgoing@[a]@ == targets(e1, a) by {
                lemma_targets_without_edge(e0, a0, b0, a);
            }
            assert forall|a: u64| !self.outgoing@.contains_key(a) implies #[trigger] targets(e1, a).len() == 0 by {
                lemma_targets_without_edge(e0, a0, b0, a);
            }
            assert forall|b: u64| #[trigger] self.incoming@.contains_key(b) implies self.incoming@[b]@ == sources(e1, b) by {
                lemma_sources_without_edge(e0, a0, b0, b);
            }
            assert forall|b: u64| !self.incoming@.contains_key(b) implies #[trigger] sources(e1, b).len() == 0 by {
                lemma_sources_without_edge(e0, a0, b0, b);
            }
        }
    }

    /// The elements of a list that differ from `x`, in order.
    fn retain_other(v: Vec<u64>, x: u64) -> (r: Vec<u64>)
        ensures
            r@ == without(v@, x),
    {
        let mut out: Vec<u64> = Vec::new();
        let mut i: usize = 0;
        while i < v.len()
            invariant
                i <= v@.len(),
                out@ == without(v@.take(i as int), x),
            decreases v@.len() - i,
        {
            proof {
                assert(v@.take(i + 1).drop_last() =~= v@.take(i as int));
                assert(v@.take(i + 1).last() == v@[i as int]);
            }
            if v[i] != x {
                out.push(v[i]);
            }
            i = i + 1;
        }
        proof {
            assert(v@.take(v@.len() as int) =~= v@);
        }
        out
    }

    /// References to the vertices that edges from `a` point to.
    pub fn outgoing_edges(&self, a: &u64) -> (r: Vec<&u64>)
        requires
            self.wf(),
        ensures
            r@.len() == targets(self@, *a).len(),
            forall|i: int| 0 <= i < r@.len() ==> *r@[i] == targets(self@, *a)[i],
    {
        match self.outgoing.get(a) {
            Some(edges) => Self::refs(edges),
            None => Vec::new(),
        }
    }

    /// References to the vertices whose edges point to `b`.
    pub fn incoming_edges(&self, b: &u64) -> (r: Vec<&u64>)
        requires
            self.wf(),
        ensures
            r@.len() == sources(self@, *b).len(),
            forall|i: int| 0 <= i < r@.len() ==> *r@[i] == sources(self@, *b)[i],
    {
        match self.incoming.get(b) {
            Some(edges) => Self::refs(edges),
            None => Vec::new(),
        }
    }

    /// References to the elements of a list, in order.
    fn refs<'a>(v: &'a Vec<u64>) -> (r: Vec<&'a u64>)
        ensures
            r@.len() == v@.len(),
            forall|i: int| 0 <= i < r@.len() ==> *r@[i] == v@[i],
    {
        let mut out: Vec<&'a u64> = Vec::new();
        let mut i: usize = 0;
        while i < v.len()
            invariant
                i <= v@.len(),
                out@.len() == i,
                forall|j: int| 0 <= j < i ==> *out@[j] == v@[j],
            decreases v@.len() - i,
        {
            out.push(&v[i]);
            i = i + 1;
        }
        out
    }
}

impl Default for AdjacencyList {
    fn default() -> (g: Self)
        ensures
            g.wf(),
            g@ == Seq::<(u64, u64)>::empty(),
    {
        Self::new()
    }
}

} // verus!
