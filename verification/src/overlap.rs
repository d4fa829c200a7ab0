//! Overlap of one-dimensional ranges given by their bounds.
use vstd::prelude::*;
use core::ops::Range;

verus! {

/// An endpoint of a range: included, excluded, or absent.
#[derive(Clone, Copy, Debug, PartialEq, Eq, Structural)]
pub enum Bound {
    Included(i64),
    Excluded(i64),
    Unbounded,
}

/// The finite value of a bound, if it has one.
pub open spec fn finite(b: Bound) -> Option<i64> {
    match b {
        Bound::Included(x) => Some(x),
        Bound::Excluded(x) => Some(x),
        Bound::Unbounded => None,
    }
}

/// The tighter of two lower bounds, as a finite value (`None` if both are absent).
pub open spec fn join_lower(a: Bound, b: Bound) -> Option<i64> {
    match (finite(a), finite(b)) {
        (None, None) => None,
        (Some(x), None) => Some(x),
        (None, Some(y)) => Some(y),
        (Some(x), Some(y)) => Some(if x < y { y } else { x }),
    }
}

/// The tighter of two upper bounds, as a finite value (`None` if both are absent).
pub open spec fn join_upper(a: Bound, b: Bound) -> Option<i64> {
    match (finite(a), finite(b)) {
        (None, None) => None,
        (Some(x), None) => Some(x),
        (None, Some(y)) => Some(y),
        (Some(x), Some(y)) => Some(if x < y { x } else { y }),
    }
}

/// Two ranges overlap unless both their combined bounds are finite and the
/// combined lower one is not below the combined upper one. Ranges that meet
/// end-to-end do not overlap, whether the touching endpoints are included or
/// excluded.
pub open spec fn overlap_spec(a_lo: Bound, a_hi: Bound, b_lo: Bound, b_hi: Bound) -> bool {
    match (join_lower(a_lo, b_lo), join_upper(a_hi, b_hi)) {
        (None, _) => true,
        (_, None) => true,
        (Some(l), Some(r)) => l < r,
    }
}

/// A range of integers described by a lower and an upper bound.
pub trait Overlap {
    spec fn lower_spec(&self) -> Bound;

    spec fn upper_spec(&self) -> Bound;

    fn start_bound(&self) -> (b: Bound)
        ensures
            b == self.lower_spec(),
    ;

    fn end_bound(&self) -> (b: Bound)
        ensures
            b == self.upper_spec(),
    ;
}

/// Whether this range and another overlap.
pub fn overlaps<R: Overlap, S: Overlap>(a: &R, s: &S) -> (r: bool)
    ensures
        r == overlap_spec(a.lower_spec(), a.upper_spec(), s.lower_spec(), s.upper_spec()),
{
    let lower = match (a.start_bound(), s.start_bound()) {
        (Bound::Unbounded, Bound::Unbounded) => Bound::Unbounded,
        (Bound::Included(l0), Bound::Unbounded) => Bound::Included(l0),
        (Bound::Unbounded, Bound::Included(l1)) => Bound::Included(l1),
        (Bound::Excluded(l0), Bound::Unbounded) => Bound::Excluded(l0),
        (Bound::Unbounded, Bound::Excluded(l1)) => Bound::Excluded(l1),
        (Bound::Included(l0), Bound::Included(l1)) => Bound::Included(if l0 < l1 { l1 } else { l0 }),
        (Bound::Included(l0), Bound::Excluded(l1)) => Bound::Excluded(if l0 < l1 { l1 } else { l0 }),
        (Bound::Excluded(l0), Bound::Included(l1)) => Bound::Excluded(if l0 < l1 { l1 } else { l0 }),
        (Bound::Excluded(l0), Bound::Excluded(l1)) => Bound::Excluded(if l0 < l1 { l1 } else { l0 }),
    };
    let upper = match (a.end_bound(), s.end_bound()) {
        (Bound::Unbounded, Bound::Unbounded) => Bound::Unbounded,
        (Bound::Included(r0), Bound::Unbounded) => Bound::Included(r0),
        (Bound::Unbounded, Bound::Included(r1)) => Bound::Included(r1),
        (Bound::Excluded(r0), Bound::Unbounded) => Bound::Excluded(r0),
        (Bound::Unbounded, Bound::Excluded(r1)) => Bound::Excluded(r1),
        (Bound::Included(r0), Bound::Included(r1)) => Bound::Included(if r0 < r1 { r0 } else { r1 }),
        (Bound::Included(r0), Bound::Excluded(r1)) => Bound::Excluded(if r0 < r1 { r0 } else { r1 }),
        (Bound::Excluded(r0), Bound::Included(r1)) => Bound::Excluded(if r0 < r1 { r0 } else { r1 }),
        (Bound::Excluded(r0), Bound::Excluded(r1)) => Bound::Excluded(if r0 < r1 { r0 } else { r1 }),
    };
    match (lower, upper) {
        (Bound::Unbounded, _) => true,
        (_, Bound::Unbounded) => true,
        (Bound::Included(l), Bound::Included(r)) => l < r,
        (Bound::Included(l), Bound::Excluded(r)) => l < r,
        (Bound::Excluded(l), Bound::Included(r)) => l < r,
        (Bound::Excluded(l), Bound::Excluded(r)) => l < r,
    }
}

impl Overlap for Range<i64> {
    open spec fn lower_spec(&self) -> Bound {
        Bound::Included(self.start)
    }

    open spec fn upper_spec(&self) -> Bound {
        Bound::Excluded(self.end)
    }

    fn start_bound(&self) -> (b: Bound) {
        Bound::Included(self.start)
    }

    fn end_bound(&self) -> (b: Bound) {
        Bound::Excluded(self.end)
    }
}

impl Overlap for (Bound, Bound) {
    open spec fn lower_spec(&self) -> Bound {
        self.0
    }

    open spec fn upper_spec(&self) -> Bound {
        self.1
    }

    fn start_bound(&self) -> (b: Bound) {
        self.0
    }

    fn end_bound(&self) -> (b: Bound) {
        self.1
    }
}

/// A range that overlaps an interval starting at or after `s0` also overlaps
/// the unbounded range starting at `s0`.
pub proof fn lemma_overlap_from(lo: Bound, hi: Bound, s0: i64, s: i64, e: i64)
    requires
        s0 <= s,
        overlap_spec(lo, hi, Bound::Included(s), Bound::Excluded(e)),
    ensures
        overlap_spec(lo, hi, Bound::Included(s0), Bound::Unbounded),
{
}

/// A range that overlaps an interval ending at or before `m` also overlaps
/// the unbounded range ending at `m`.
pub proof fn lemma_overlap_to(lo: Bound, hi: Bound, m: i64, s: i64, e: i64)
    requires
        e <= m,
        overlap_spec(lo, hi, Bound::Included(s), Bound::Excluded(e)),
    ensures
        overlap_spec(lo, hi, Bound::Unbounded, Bound::Excluded(m)),
{
}

} // verus!
