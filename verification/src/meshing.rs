//! The topology of a mesh of patches: which patches supply the guard zones
//! of which others.
use vstd::prelude::*;
use core::ops::Range;
use crate::adjacency_list::AdjacencyList;
use crate::index_space::IndexSpace;
use crate::overlap::{Bound, overlap_spec};
use crate::rect_map::{Rectangle, RectangleMap, deref_rects, law_query_bounds_exact_2d, lemma_entries_exact};

verus! {

/// A vertex of a mesh graph: the rectangle under which a patch is stored,
/// and the patch's refinement level.
pub type Vertex = (Rectangle, u32);

/// What the topology needs to know of a patch: its index space at its own
/// refinement level, and that level.
pub type Extent = (IndexSpace, u32);

/// The space can be grown by `g` on every side without leaving the `i64`
/// range or losing its volume.
pub open spec fn grows(s: IndexSpace, g: int) -> bool {
    &&& i64::MIN <= s.lo_i() - g
    &&& s.hi_i() + g <= i64::MAX
    &&& i64::MIN <= s.lo_j() - g
    &&& s.hi_j() + g <= i64::MAX
    &&& IndexSpace::valid_bounds(s.lo_i() - g, s.hi_i() + g, s.lo_j() - g, s.hi_j() + g)
}

/// The entries of `m` whose rectangle meets `space` grown by `g` on every
/// side, in the order of a rectangle query.
pub open spec fn guard_hits(m: RectangleMap<Extent>, space: IndexSpace, g: int) -> Seq<(Rectangle, Extent)> {
    m.bounds_hits(
        Bound::Included((space.lo_i() - g) as i64),
        Bound::Excluded((space.hi_i() + g) as i64),
        Bound::Included((space.lo_j() - g) as i64),
        Bound::Excluded((space.hi_j() + g) as i64),
    )
}

/// The edges into the patch `b` from the patches of `hits` other than
/// itself, in order.
pub open spec fn edges_into(hits: Seq<(Rectangle, Extent)>, b: (Rectangle, Extent)) -> Seq<(Vertex, Vertex)>
    decreases hits.len(),
{
    if hits.len() == 0 {
        Seq::empty()
    } else {
        let rest = edges_into(hits.drop_last(), b);
        let a = hits.last();
        if a.0 == b.0 {
            rest
        } else {
            rest.push(((a.0, a.1.1), (b.0, b.1.1)))
        }
    }
}

/// The edges of the mesh `m` into the patches of `targets`, taken in order:
/// an edge `a -> b` for every other patch `a` whose rectangle meets the
/// index space of `b` grown by `g` guard zones.
pub open spec fn mesh_edges(m: RectangleMap<Extent>, targets: Seq<(Rectangle, Extent)>, g: int) -> Seq<(Vertex, Vertex)>
    decreases targets.len(),
{
    if targets.len() == 0 {
        Seq::empty()
    } else {
        let b = targets.last();
        mesh_edges(m, targets.drop_last(), g) + edges_into(guard_hits(m, b.1.0, g), b)
    }
}

/// The vertex list with `v` appended, unless it is listed already.
pub open spec fn with_vertex(keys: Seq<Vertex>, v: Vertex) -> Seq<Vertex> {
    if keys.contains(v) {
        keys
    } else {
        keys.push(v)
    }
}

/// The vertices of a list of edges, each numbered by its first appearance
/// (the source of an edge before its target).
pub open spec fn numbering(edges: Seq<(Vertex, Vertex)>) -> Seq<Vertex>
    decreases edges.len(),
{
    if edges.len() == 0 {
        Seq::empty()
    } else {
        let e = edges.last();
        with_vertex(with_vertex(numbering(edges.drop_last()), e.0), e.1)
    }
}

/// The edges between vertex numbers stand for `edges` under the numbering
/// `keys`.
pub open spec fn numbered(numbers: Seq<(u64, u64)>, keys: Seq<Vertex>, edges: Seq<(Vertex, Vertex)>) -> bool {
    &&& numbers.len() == edges.len()
    &&& forall|i: int| 0 <= i < numbers.len() ==> {
        &&& (#[trigger] numbers[i]).0 < keys.len()
        &&& numbers[i].1 < keys.len()
        &&& (keys[numbers[i].0 as int], keys[numbers[i].1 as int]) == edges[i]
    }
}

/// A container whose items form a graph. The intended use is a map of
/// patches, where an edge from patch `A` to patch `B` means that `A` is
/// upstream of `B`: guard zones from `A` are needed to extend `B`, and in
/// parallel executions messages pass in the direction of the edges.
pub trait GraphTopology: Sized {
    /// The type of key used to identify vertices.
    type Key;

    /// An additional parameter, in context probably the number of guard
    /// zones, which in general influences which patches are neighbors.
    type Parameter;

    /// The parameter can be used with this container.
    spec fn admits(&self, parameter: Self::Parameter) -> bool;

    /// Return the edges derived from this container, between vertex
    /// numbers, and the key of each vertex number.
    fn adjacency_list(&self, parameter: Self::Parameter) -> (AdjacencyList, Vec<Self::Key>)
        requires
            self.admits(parameter),
    ;
}

/// Two vertices are the same.
fn same_vertex(a: &Vertex, b: &Vertex) -> (r: bool)
    ensures
        r == (*a == *b),
{
    a.0.0.start == b.0.0.start && a.0.0.end == b.0.0.end && a.0.1.start == b.0.1.start
        && a.0.1.end == b.0.1.end && a.1 == b.1
}

/// The number of a vertex, numbering it anew if it is not yet known.
fn vertex_number(key: Vertex, keys: &mut Vec<Vertex>) -> (n: u64)
    requires
        old(keys)@.no_duplicates(),
    ensures
        final(keys)@ == with_vertex(old(keys)@, key),
        final(keys)@.no_duplicates(),
        n < final(keys)@.len(),
        final(keys)@[n as int] == key,
{
    let mut i: usize = 0;
    while i < keys.len()
        invariant
            i <= keys@.len(),
            keys@ == old(keys)@,
            keys@.no_duplicates(),
            forall|j: int| 0 <= j < i ==> keys@[j] != key,
        decreases keys@.len() - i,
    {
        if same_vertex(&keys[i], &key) {
            proof {
                assert(keys@.contains(key));
            }
            return i as u64;
        }
        i = i + 1;
    }
    proof {
        assert(!keys@.contains(key));
    }
    keys.push(key);
    (keys.len() - 1) as u64
}

/// The rectangle and level of a stored patch, as an owned vertex.
fn vertex_of(rect: (&Range<i64>, &Range<i64>), extent: &Extent) -> (v: Vertex)
    ensures
        v == ((*rect.0, *rect.1), extent.1),
{
    ((rect.0.start..rect.0.end, rect.1.start..rect.1.end), extent.1)
}

proof fn lemma_with_vertex_prefix(keys: Seq<Vertex>, v: Vertex)
    ensures
        with_vertex(keys, v).len() >= keys.len(),
        forall|j: int| 0 <= j < keys.len() ==> with_vertex(keys, v)[j] == keys[j],
{
}

impl GraphTopology for RectangleMap<Extent> {
    type Key = Vertex;

    type Parameter = i64;

    /// The map is well formed and every patch can be grown by the number of
    /// guard zones.
    open spec fn admits(&self, num_guard: i64) -> bool {
        &&& self.wf()
        &&& forall|k: int| 0 <= k < self.entries().len() ==> grows(#[trigger] self.entries()[k].1.0, num_guard as int)
    }

    /// For each patch `b`, an edge from every other patch whose rectangle
    /// meets the index space of `b` grown by `num_guard`, in the order of
    /// the entries and of the queries.
    fn adjacency_list(&self, num_guard: i64) -> (r: (AdjacencyList, Vec<Vertex>))
        ensures
            r.0.wf(),
            r.1@ == numbering(mesh_edges(*self, self.entries(), num_guard as int)),
            r.1@.no_duplicates(),
            numbered(r.0@, r.1@, mesh_edges(*self, self.entries(), num_guard as int)),
    {
        let ghost g = num_guard as int;
        let ghost entries = self.entries();
        let mut edges = AdjacencyList::new();
        let mut keys: Vec<Vertex> = Vec::new();
        let all = self.iter();
        let mut bi: usize = 0;
        while bi < all.len()
            invariant
                self.admits(num_guard),
                entries == self.entries(),
                g == num_guard as int,
                deref_rects(all@) == entries,
                bi <= all@.len(),
                edges.wf(),
                keys@.no_duplicates(),
                keys@ == numbering(mesh_edges(*self, entries.take(bi as int), g)),
                numbered(edges@, keys@, mesh_edges(*self, entries.take(bi as int), g)),
            decreases all@.len() - bi,
        {
            let ghost done = mesh_edges(*self, entries.take(bi as int), g);
            let (brect, bval) = all[bi];
            proof {
                assert(deref_rects(all@)[bi as int] == entries[bi as int]);
                assert(grows(entries[bi as int].1.0, g));
            }
            let grown = bval.0.extend_all(num_guard);
            let hits = self.query_rect(grown.into_rect());
            let ghost b = entries[bi as int];
            let ghost found = guard_hits(*self, b.1.0, g);
            proof {
                assert(deref_rects(hits@) == found);
            }
            let mut hi: usize = 0;
            while hi < hits.len()
                invariant
                    deref_rects(hits@) == found,
                    b == ((*brect.0, *brect.1), *bval),
                    hi <= hits@.len(),
                    edges.wf(),
                    keys@.no_duplicates(),
                    keys@ == numbering(done + edges_into(found.take(hi as int), b)),
                    numbered(edges@, keys@, done + edges_into(found.take(hi as int), b)),
                decreases hits@.len() - hi,
            {
                let ghost before = done + edges_into(found.take(hi as int), b);
                let ghost keys0 = keys@;
                let (arect, aval) = hits[hi];
                proof {
                    assert(deref_rects(hits@)[hi as int] == found[hi as int]);
                    assert(found.take(hi + 1).drop_last() =~= found.take(hi as int));
                    assert(found.take(hi + 1).last() == found[hi as int]);
                }
                let same = arect.0.start == brect.0.start && arect.0.end == brect.0.end
                    && arect.1.start == brect.1.start && arect.1.end == brect.1.end;
                if !same {
                    let ka = vertex_of(arect, aval);
                    let kb = vertex_of(brect, bval);
                    let na = vertex_number(ka, &mut keys);
                    let ghost keys1 = keys@;
                    let nb = vertex_number(kb, &mut keys);
                    proof {
                        lemma_with_vertex_prefix(keys0, ka);
                        lemma_with_vertex_prefix(keys1, kb);
                    }
                    let ghost edges0 = edges@;
                    edges.insert(na, nb);
                    proof {
                        let e = (ka, kb);
                        let after = before.push(e);
                        assert(edges_into(found.take(hi + 1), b) == edges_into(found.take(hi as int), b).push(e));
                        assert(done + edges_into(found.take(hi + 1), b) =~= after);
                        assert(after.drop_last() =~= before);
                        assert(numbering(after) == with_vertex(with_vertex(numbering(before), ka), kb));
                        assert forall|i: int| 0 <= i < edges@.len() implies {
                            &&& (#[trigger] edges@[i]).0 < keys@.len()
                            &&& edges@[i].1 < keys@.len()
                            &&& (keys@[edges@[i].0 as int], keys@[edges@[i].1 as int]) == after[i]
                        } by {
                            if i < before.len() {
                                assert(edges@[i] == edges0[i]);
                                assert(after[i] == before[i]);
                            }
                        }
                    }
                } else {
                    proof {
                        assert(found[hi as int].0 == b.0);
                        assert(edges_into(found.take(hi + 1), b) == edges_into(found.take(hi as int), b));
                    }
                }
                hi = hi + 1;
            }
            proof {
                assert(found.take(hits@.len() as int) =~= found);
                assert(entries.take(bi + 1).drop_last() =~= entries.take(bi as int));
                assert(entries.take(bi + 1).last() == b);
            }
            bi = bi + 1;
        }
        proof {
            assert(entries.take(all@.len() as int) =~= entries);
        }
        (edges, keys)
    }
}

/// `x` lies in the half-open range `[s, e)`.
pub open spec fn in_range(x: int, s: int, e: int) -> bool {
    s <= x < e
}

/// The half-open ranges `[s, e)` and `[lo, hi)` share an index.
pub open spec fn share_index(s: int, e: int, lo: int, hi: int) -> bool {
    exists|x: int| #[trigger] in_range(x, s, e) && lo <= x < hi
}

/// A range with finite bounds `lo` and `hi` overlaps `[s, e)` exactly when
/// the two share an index.
proof fn lemma_overlap_shares(lo: int, hi: int, s: i64, e: i64)
    requires
        i64::MIN <= lo <= i64::MAX,
        i64::MIN <= hi <= i64::MAX,
    ensures
        overlap_spec(Bound::Included(lo as i64), Bound::Excluded(hi as i64), Bound::Included(s), Bound::Excluded(e))
            == share_index(s as int, e as int, lo, hi),
{
    let x = if s < lo { lo } else { s as int };
    if s < hi && lo < e && s < e && lo < hi {
        assert(in_range(x, s as int, e as int));
    }
}

/// The edges of `hits` into `b` are the pairs from each hit other than `b`
/// itself.
proof fn lemma_edges_into_contains(hits: Seq<(Rectangle, Extent)>, b: (Rectangle, Extent), e: (Vertex, Vertex))
    ensures
        edges_into(hits, b).contains(e) <==> exists|k: int|
            0 <= k < hits.len() && (#[trigger] hits[k]).0 != b.0 && e == ((hits[k].0, hits[k].1.1), (b.0, b.1.1)),
    decreases hits.len(),
{
    if hits.len() > 0 {
        let init = hits.drop_last();
        lemma_edges_into_contains(init, b, e);
        let rest = edges_into(init, b);
        let a = hits.last();
        if edges_into(hits, b).contains(e) {
            if a.0 != b.0 && e == ((a.0, a.1.1), (b.0, b.1.1)) {
                assert(hits[hits.len() - 1] == a);
            } else {
                if a.0 != b.0 {
                    let t = choose|t: int| 0 <= t < rest.push(((a.0, a.1.1), (b.0, b.1.1))).len()
                        && rest.push(((a.0, a.1.1), (b.0, b.1.1)))[t] == e;
                    assert(rest[t] == e);
                }
                assert(rest.contains(e));
                let k = choose|k: int|
                    0 <= k < init.len() && (#[trigger] init[k]).0 != b.0 && e == ((init[k].0, init[k].1.1), (b.0, b.1.1));
                assert(hits[k] == init[k]);
            }
        }
        if exists|k: int|
            0 <= k < hits.len() && (#[trigger] hits[k]).0 != b.0 && e == ((hits[k].0, hits[k].1.1), (b.0, b.1.1)) {
            let k = choose|k: int|
                0 <= k < hits.len() && (#[trigger] hits[k]).0 != b.0 && e == ((hits[k].0, hits[k].1.1), (b.0, b.1.1));
            if k == hits.len() - 1 {
                let pushed = rest.push(((a.0, a.1.1), (b.0, b.1.1)));
                assert(pushed[rest.len() as int] == e);
            } else {
                assert(init[k] == hits[k]);
                assert(rest.contains(e));
                let t = choose|t: int| 0 <= t < rest.len() && rest[t] == e;
                if a.0 != b.0 {
                    assert(rest.push(((a.0, a.1.1), (b.0, b.1.1)))[t] == e);
                }
            }
        }
    }
}

/// The mesh edges into `targets` are the edges into each target from the
/// patches its grown space meets.
proof fn lemma_mesh_edges_contains(m: RectangleMap<Extent>, targets: Seq<(Rectangle, Extent)>, g: int, e: (Vertex, Vertex))
    ensures
        mesh_edges(m, targets, g).contains(e) <==> exists|j: int|
            0 <= j < targets.len() && #[trigger] edges_into(guard_hits(m, targets[j].1.0, g), targets[j]).contains(e),
    decreases targets.len(),
{
    if targets.len() > 0 {
        let init = targets.drop_last();
        lemma_mesh_edges_contains(m, init, g, e);
        let b = targets.last();
        let x = mesh_edges(m, init, g);
        let y = edges_into(guard_hits(m, b.1.0, g), b);
        assert(mesh_edges(m, targets, g) == x + y);
        if (x + y).contains(e) {
            let t = choose|t: int| 0 <= t < (x + y).len() && (x + y)[t] == e;
            if t < x.len() {
                assert(x[t] == e);
                let j = choose|j: int|
                    0 <= j < init.len() && #[trigger] edges_into(guard_hits(m, init[j].1.0, g), init[j]).contains(e);
                assert(targets[j] == init[j]);
            } else {
                assert(y[t - x.len()] == e);
                assert(targets[targets.len() - 1] == b);
                assert(edges_into(guard_hits(m, targets[targets.len() - 1].1.0, g), targets[targets.len() - 1]).contains(e));
            }
        }
        if exists|j: int|
            0 <= j < targets.len() && #[trigger] edges_into(guard_hits(m, targets[j].1.0, g), targets[j]).contains(e) {
            let j = choose|j: int|
                0 <= j < targets.len() && #[trigger] edges_into(guard_hits(m, targets[j].1.0, g), targets[j]).contains(e);
            if j < targets.len() - 1 {
                assert(init[j] == targets[j]);
                assert(edges_into(guard_hits(m, init[j].1.0, g), init[j]).contains(e));
                let t = choose|t: int| 0 <= t < x.len() && x[t] == e;
                assert((x + y)[t] == e);
            } else {
                let t = choose|t: int| 0 <= t < y.len() && y[t] == e;
                assert((x + y)[x.len() + t] == e);
            }
        }
    }
}

/// For two patches `a` and `b` of the map, the mesh has an edge from `a` to
/// `b` exactly when `a`'s rectangle shares an index with `b`'s index space
/// grown by `g` guard zones on both ends of both axes: along `i` with
/// `[lo_i - g, hi_i + g)`, and along `j` with `[lo_j - g, hi_j + g)`.
pub proof fn law_mesh_edge_exact(m: RectangleMap<Extent>, g: int, a: (Rectangle, Extent), b: (Rectangle, Extent))
    requires
        m.wf(),
        m.entries().contains(a),
        m.entries().contains(b),
        a.0 != b.0,
        grows(b.1.0, g),
    ensures
        mesh_edges(m, m.entries(), g).contains(((a.0, a.1.1), (b.0, b.1.1))) <==> {
            &&& share_index(a.0.0.start as int, a.0.0.end as int, b.1.0.lo_i() - g, b.1.0.hi_i() + g)
            &&& share_index(a.0.1.start as int, a.0.1.end as int, b.1.0.lo_j() - g, b.1.0.hi_j() + g)
        },
{
    let s = b.1.0;
    let e = ((a.0, a.1.1), (b.0, b.1.1));
    let entries = m.entries();
    let r_lo = Bound::Included((s.lo_i() - g) as i64);
    let r_hi = Bound::Excluded((s.hi_i() + g) as i64);
    let s_lo = Bound::Included((s.lo_j() - g) as i64);
    let s_hi = Bound::Excluded((s.hi_j() + g) as i64);
    lemma_overlap_shares(s.lo_i() - g, s.hi_i() + g, a.0.0.start, a.0.0.end);
    lemma_overlap_shares(s.lo_j() - g, s.hi_j() + g, a.0.1.start, a.0.1.end);
    lemma_mesh_edges_contains(m, entries, g, e);
    lemma_entries_exact(&m, a.0, a.1);
    lemma_entries_exact(&m, b.0, b.1);
    if mesh_edges(m, entries, g).contains(e) {
        let j = choose|j: int|
            0 <= j < entries.len() && #[trigger] edges_into(guard_hits(m, entries[j].1.0, g), entries[j]).contains(e);
        let t = entries[j];
        let hits = guard_hits(m, t.1.0, g);
        lemma_edges_into_contains(hits, t, e);
        let k = choose|k: int|
            0 <= k < hits.len() && (#[trigger] hits[k]).0 != t.0 && e == ((hits[k].0, hits[k].1.1), (t.0, t.1.1));
        assert(entries.contains(t));
        lemma_entries_exact(&m, t.0, t.1);
        assert(t.1 == b.1);
        assert(hits.contains(hits[k]));
        law_query_bounds_exact_2d(&m, r_lo, r_hi, s_lo, s_hi, hits[k].0, hits[k].1);
    }
    if share_index(a.0.0.start as int, a.0.0.end as int, s.lo_i() - g, s.hi_i() + g)
        && share_index(a.0.1.start as int, a.0.1.end as int, s.lo_j() - g, s.hi_j() + g) {
        let hits = guard_hits(m, s, g);
        law_query_bounds_exact_2d(&m, r_lo, r_hi, s_lo, s_hi, a.0, a.1);
        assert(hits.contains(a));
        let k = choose|k: int| 0 <= k < hits.len() && hits[k] == a;
        lemma_edges_into_contains(hits, b, e);
        assert(hits[k].0 != b.0);
        assert(edges_into(hits, b).contains(e));
        let j = choose|j: int| 0 <= j < entries.len() && entries[j] == b;
        assert(edges_into(guard_hits(m, entries[j].1.0, g), entries[j]).contains(e));
    }
}

/// Every edge of the mesh joins two different patches of the map: its source
/// is the vertex of one patch and its target that of another.
pub proof fn law_mesh_edges_join_distinct_patches(m: RectangleMap<Extent>, g: int, e: (Vertex, Vertex))
    requires
        m.wf(),
        mesh_edges(m, m.entries(), g).contains(e),
    ensures
        exists|a: (Rectangle, Extent), b: (Rectangle, Extent)|
            #![trigger m.entries().contains(a), m.entries().contains(b)]
            m.entries().contains(a) && m.entries().contains(b) && a.0 != b.0 && e == ((a.0, a.1.1), (b.0, b.1.1)),
{
    let entries = m.entries();
    lemma_mesh_edges_contains(m, entries, g, e);
    let j = choose|j: int|
        0 <= j < entries.len() && #[trigger] edges_into(guard_hits(m, entries[j].1.0, g), entries[j]).contains(e);
    let t = entries[j];
    let s = t.1.0;
    let hits = guard_hits(m, s, g);
    lemma_edges_into_contains(hits, t, e);
    let k = choose|k: int|
        0 <= k < hits.len() && (#[trigger] hits[k]).0 != t.0 && e == ((hits[k].0, hits[k].1.1), (t.0, t.1.1));
    let a = hits[k];
    assert(hits.contains(a));
    law_query_bounds_exact_2d(
        &m,
        Bound::Included((s.lo_i() - g) as i64),
        Bound::Excluded((s.hi_i() + g) as i64),
        Bound::Included((s.lo_j() - g) as i64),
        Bound::Excluded((s.hi_j() + g) as i64),
        a.0,
        a.1,
    );
    lemma_entries_exact(&m, a.0, a.1);
    assert(entries.contains(t));
    assert(entries.contains(a) && entries.contains(t) && a.0 != t.0 && e == ((a.0, a.1.1), (t.0, t.1.1)));
}

/// The guard regions of a patch covering `whole` around its valid region
/// `valid`: left and right of it along the first axis (spanning the valid
/// region's second axis), and below and above it along the second axis
/// (spanning its first axis). The corners are left out.
pub fn guard_regions(valid: &IndexSpace, whole: &IndexSpace) -> (r: (IndexSpace, IndexSpace, IndexSpace, IndexSpace))
    requires
        IndexSpace::valid_bounds(whole.lo_i() as int, valid.lo_i() as int, valid.lo_j() as int, valid.hi_j() as int),
        IndexSpace::valid_bounds(valid.lo_i() as int, valid.hi_i() as int, whole.lo_j() as int, valid.lo_j() as int),
        IndexSpace::valid_bounds(valid.hi_i() as int, whole.hi_i() as int, valid.lo_j() as int, valid.hi_j() as int),
        IndexSpace::valid_bounds(valid.lo_i() as int, valid.hi_i() as int, valid.hi_j() as int, whole.hi_j() as int),
    ensures
        r.0.spans(whole.lo_i() as int, valid.lo_i() as int, valid.lo_j() as int, valid.hi_j() as int),
        r.1.spans(valid.lo_i() as int, valid.hi_i() as int, whole.lo_j() as int, valid.lo_j() as int),
        r.2.spans(valid.hi_i() as int, whole.hi_i() as int, valid.lo_j() as int, valid.hi_j() as int),
        r.3.spans(valid.lo_i() as int, valid.hi_i() as int, valid.hi_j() as int, whole.hi_j() as int),
{
    let (i0, j0) = valid.start();
    let (i1, j1) = valid.end();
    let (x0, y0) = whole.start();
    let (x1, y1) = whole.end();
    (
        IndexSpace::new(x0..i0, j0..j1),
        IndexSpace::new(i0..i1, y0..j0),
        IndexSpace::new(i1..x1, j0..j1),
        IndexSpace::new(i0..i1, j1..y1),
    )
}

/// Every index of the whole patch outside its valid region and outside the
/// corners lies in exactly one guard region, and no guard region holds an
/// index of the valid region.
pub proof fn law_guard_regions_partition(
    valid: IndexSpace,
    whole: IndexSpace,
    r: (IndexSpace, IndexSpace, IndexSpace, IndexSpace),
    index: (i64, i64),
)
    requires
        whole.lo_i() <= valid.lo_i() <= valid.hi_i() <= whole.hi_i(),
        whole.lo_j() <= valid.lo_j() <= valid.hi_j() <= whole.hi_j(),
        r.0.spans(whole.lo_i() as int, valid.lo_i() as int, valid.lo_j() as int, valid.hi_j() as int),
        r.1.spans(valid.lo_i() as int, valid.hi_i() as int, whole.lo_j() as int, valid.lo_j() as int),
        r.2.spans(valid.hi_i() as int, whole.hi_i() as int, valid.lo_j() as int, valid.hi_j() as int),
        r.3.spans(valid.lo_i() as int, valid.hi_i() as int, valid.hi_j() as int, whole.hi_j() as int),
    ensures
        valid.holds(index) ==> !r.0.holds(index) && !r.1.holds(index) && !r.2.holds(index) && !r.3.holds(index),
        whole.holds(index) && !valid.holds(index)
            && (valid.lo_i() <= index.0 < valid.hi_i() || valid.lo_j() <= index.1 < valid.hi_j()) ==> {
            let n = (if r.0.holds(index) { 1int } else { 0int }) + (if r.1.holds(index) { 1int } else { 0int })
                + (if r.2.holds(index) { 1int } else { 0int }) + (if r.3.holds(index) { 1int } else { 0int });
            n == 1
        },
{
}

} // verus!
