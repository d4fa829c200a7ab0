//! Rectangular regions of a two-dimensional discrete index space.
use vstd::prelude::*;
use core::ops::Range;
use vstd::math::{max, min};

verus! {

/// Identifier for a Cartesian axis.
#[derive(Clone, Copy, Debug, PartialEq, Eq, Structural)]
pub enum Axis {
    I,
    J,
}

impl Axis {
    /// The other axis.
    pub fn dual(&self) -> (r: Axis)
        ensures
            r != *self,
    {
        match self {
            Axis::I => Axis::J,
            Axis::J => Axis::I,
        }
    }
}

/// Represents a rectangular region in a discrete index space.
#[derive(Debug)]
pub struct IndexSpace {
    di: Range<i64>,
    dj: Range<i64>,
}

/// A two-dimensional memory region within a contiguous row-major buffer:
/// `count` elements on each axis, starting at `start`, in a buffer of
/// `shape` elements on each axis.
#[derive(Debug)]
pub struct MemoryRegion {
    pub start: (usize, usize),
    pub count: (usize, usize),
    pub shape: (usize, usize),
}

/// Less imposing factory function to construct an `IndexSpace` object.
pub fn range2d(di: Range<i64>, dj: Range<i64>) -> (s: IndexSpace)
    requires
        IndexSpace::valid_bounds(di.start as int, di.end as int, dj.start as int, dj.end as int),
    ensures
        s.spans(di.start as int, di.end as int, dj.start as int, dj.end as int),
{
    IndexSpace::new(di, dj)
}

/// The indexes of a rectangle `[i0, i0 + ni) x [j0, j0 + nj)` in row-major
/// order: the final index increases fastest.
pub open spec fn row_major(i0: int, j0: int, ni: nat, nj: nat) -> Seq<(i64, i64)> {
    Seq::new(ni * nj, |k: int| ((i0 + k / (nj as int)) as i64, (j0 + k % (nj as int)) as i64))
}

impl IndexSpace {
    pub closed spec fn lo_i(&self) -> i64 {
        self.di.start
    }

    pub closed spec fn hi_i(&self) -> i64 {
        self.di.end
    }

    pub closed spec fn lo_j(&self) -> i64 {
        self.dj.start
    }

    pub closed spec fn hi_j(&self) -> i64 {
        self.dj.end
    }

    /// The space spans the given four bounds.
    pub open spec fn spans(&self, i0: int, i1: int, j0: int, j1: int) -> bool {
        self.lo_i() == i0 && self.hi_i() == i1 && self.lo_j() == j0 && self.hi_j() == j1
    }

    /// The bounds describe a space of non-negative extent on both axes: no
    /// range is reversed.
    pub open spec fn valid_bounds(i0: int, i1: int, j0: int, j1: int) -> bool {
        i0 <= i1 && j0 <= j1
    }

    /// The index is inside the space.
    pub open spec fn holds(&self, index: (i64, i64)) -> bool {
        self.lo_i() <= index.0 < self.hi_i() && self.lo_j() <= index.1 < self.hi_j()
    }

    /// The number of indexes on each axis, when the space has non-negative volume.
    pub open spec fn extent_i(&self) -> int {
        self.hi_i() - self.lo_i()
    }

    pub open spec fn extent_j(&self) -> int {
        self.hi_j() - self.lo_j()
    }

    /// Create the index space `di x dj`. Either range may be empty, but
    /// neither may be reversed (that would be a negative volume).
    pub fn new(di: Range<i64>, dj: Range<i64>) -> (s: Self)
        requires
            Self::valid_bounds(di.start as int, di.end as int, dj.start as int, dj.end as int),
        ensures
            s.spans(di.start as int, di.end as int, dj.start as int, dj.end as int),
    {
        IndexSpace { di, dj }
    }

    /// Determine whether this index space is empty.
    pub fn is_empty(&self) -> (r: bool)
        ensures
            r == (self.hi_i() <= self.lo_i() || self.hi_j() <= self.lo_j()),
    {
        !(self.di.start < self.di.end) || !(self.dj.start < self.dj.end)
    }

    /// Return the number of indexes on each axis.
    pub fn dim(&self) -> (r: (usize, usize))
        requires
            i64::MIN <= self.extent_i() <= i64::MAX,
            i64::MIN <= self.extent_j() <= i64::MAX,
        ensures
            r.0 == (self.extent_i() as i64) as usize,
            r.1 == (self.extent_j() as i64) as usize,
            0 <= self.extent_i() <= usize::MAX ==> r.0 == self.extent_i(),
            0 <= self.extent_j() <= usize::MAX ==> r.1 == self.extent_j(),
    {
        let a = self.di.end - self.di.start;
        let b = self.dj.end - self.dj.start;
        (a as usize, b as usize)
    }

    /// Return the number of elements in this index space.
    pub fn len(&self) -> (r: usize)
        requires
            0 <= self.extent_i() <= i64::MAX,
            0 <= self.extent_j() <= i64::MAX,
            self.extent_i() <= usize::MAX,
            self.extent_j() <= usize::MAX,
            self.extent_i() * self.extent_j() <= usize::MAX,
        ensures
            r == self.extent_i() * self.extent_j(),
    {
        let (l, m) = self.dim();
        l * m
    }

    /// Return the minimum index (inclusive).
    pub fn start(&self) -> (r: (i64, i64))
        ensures
            r == (self.lo_i(), self.lo_j()),
    {
        (self.di.start, self.dj.start)
    }

    /// Return the maximum index (exclusive).
    pub fn end(&self) -> (r: (i64, i64))
        ensures
            r == (self.hi_i(), self.hi_j()),
    {
        (self.di.end, self.dj.end)
    }

    /// Return the index space as a pair of range references.
    pub fn to_rect_ref(&self) -> (r: (&Range<i64>, &Range<i64>))
        ensures
            r.0.start == self.lo_i() && r.0.end == self.hi_i(),
            r.1.start == self.lo_j() && r.1.end == self.hi_j(),
    {
        (&self.di, &self.dj)
    }

    /// Convert this index space into a pair of ranges.
    pub fn into_rect(self) -> (r: (Range<i64>, Range<i64>))
        ensures
            r.0.start == self.lo_i() && r.0.end == self.hi_i(),
            r.1.start == self.lo_j() && r.1.end == self.hi_j(),
    {
        (self.di, self.dj)
    }

    /// Determine whether this index space contains the given index.
    pub fn contains(&self, index: (i64, i64)) -> (r: bool)
        ensures
            r == self.holds(index),
    {
        self.di.start <= index.0 && index.0 < self.di.end && self.dj.start <= index.1 && index.1 < self.dj.end
    }

    /// Determine whether another index space is a subset of this one.
    pub fn contains_space(&self, other: &Self) -> (r: bool)
        ensures
            r == (other.lo_i() >= self.lo_i() && other.hi_i() <= self.hi_i() && other.lo_j() >= self.lo_j()
                && other.hi_j() <= self.hi_j()),
    {
        other.di.start >= self.di.start && other.di.end <= self.di.end && other.dj.start >= self.dj.start
            && other.dj.end <= self.dj.end
    }

    /// Return the overlapping region between two index spaces.
    pub fn intersect(&self, other: IndexSpace) -> (s: Self)
        requires
            Self::valid_bounds(
                max(self.lo_i() as int, other.lo_i() as int),
                min(self.hi_i() as int, other.hi_i() as int),
                max(self.lo_j() as int, other.lo_j() as int),
                min(self.hi_j() as int, other.hi_j() as int),
            ),
        ensures
            s.spans(
                max(self.lo_i() as int, other.lo_i() as int),
                min(self.hi_i() as int, other.hi_i() as int),
                max(self.lo_j() as int, other.lo_j() as int),
                min(self.hi_j() as int, other.hi_j() as int),
            ),
    {
        let i0 = if self.di.start < other.di.start { other.di.start } else { self.di.start };
        let j0 = if self.dj.start < other.dj.start { other.dj.start } else { self.dj.start };
        let i1 = if self.di.end < other.di.end { self.di.end } else { other.di.end };
        let j1 = if self.dj.end < other.dj.end { self.dj.end } else { other.dj.end };
        Self::new(i0..i1, j0..j1)
    }

    /// Extend this index space by the given number of elements on both sides
    /// of each axis.
    pub fn extend_all(&self, delta: i64) -> (s: Self)
        requires
            i64::MIN <= self.lo_i() - delta,
            self.hi_i() + delta <= i64::MAX,
            i64::MIN <= self.lo_j() - delta,
            self.hi_j() + delta <= i64::MAX,
            Self::valid_bounds(self.lo_i() - delta, self.hi_i() + delta, self.lo_j() - delta, self.hi_j() + delta),
        ensures
            s.spans(self.lo_i() - delta, self.hi_i() + delta, self.lo_j() - delta, self.hi_j() + delta),
    {
        Self::new(
            self.di.start - delta..self.di.end + delta,
            self.dj.start - delta..self.dj.end + delta,
        )
    }

    /// The bounds of this space with both ends of one axis moved outward.
    pub open spec fn extended(&self, lo: int, hi: int, axis: Axis) -> (int, int, int, int) {
        match axis {
            Axis::I => (self.lo_i() - lo, self.hi_i() + hi, self.lo_j() as int, self.hi_j() as int),
            Axis::J => (self.lo_i() as int, self.hi_i() as int, self.lo_j() - lo, self.hi_j() + hi),
        }
    }

    /// The bounds fit in `i64` and describe a valid space.
    pub open spec fn fits(b: (int, int, int, int)) -> bool {
        &&& i64::MIN <= b.0 <= i64::MAX
        &&& i64::MIN <= b.1 <= i64::MAX
        &&& i64::MIN <= b.2 <= i64::MAX
        &&& i64::MIN <= b.3 <= i64::MAX
        &&& Self::valid_bounds(b.0, b.1, b.2, b.3)
    }

    /// Extend both ends of the given axis by a certain amount.
    pub fn extend(&self, delta: i64, axis: Axis) -> (s: Self)
        requires
            Self::fits(self.extended(delta as int, delta as int, axis)),
        ensures
            s.spans(self.extended(delta as int, delta as int, axis).0, self.extended(delta as int, delta as int, axis).1,
                self.extended(delta as int, delta as int, axis).2, self.extended(delta as int, delta as int, axis).3),
            axis == Axis::I ==> s.spans(self.lo_i() - delta, self.hi_i() + delta, self.lo_j() as int, self.hi_j() as int),
            axis == Axis::J ==> s.spans(self.lo_i() as int, self.hi_i() as int, self.lo_j() - delta, self.hi_j() + delta),
    {
        match axis {
            Axis::I => Self::new(self.di.start - delta..self.di.end + delta, self.dj.start..self.dj.end),
            Axis::J => Self::new(self.di.start..self.di.end, self.dj.start - delta..self.dj.end + delta),
        }
    }

    /// Extend just the lower end of the given axis by a certain amount.
    pub fn extend_lower(&self, delta: i64, axis: Axis) -> (s: Self)
        requires
            Self::fits(self.extended(delta as int, 0, axis)),
        ensures
            s.spans(self.extended(delta as int, 0, axis).0, self.extended(delta as int, 0, axis).1,
                self.extended(delta as int, 0, axis).2, self.extended(delta as int, 0, axis).3),
            axis == Axis::I ==> s.spans(self.lo_i() - delta, self.hi_i() as int, self.lo_j() as int, self.hi_j() as int),
            axis == Axis::J ==> s.spans(self.lo_i() as int, self.hi_i() as int, self.lo_j() - delta, self.hi_j() as int),
    {
        match axis {
            Axis::I => Self::new(self.di.start - delta..self.di.end, self.dj.start..self.dj.end),
            Axis::J => Self::new(self.di.start..self.di.end, self.dj.start - delta..self.dj.end),
        }
    }

    /// Extend just the upper end of the given axis by a certain amount.
    pub fn extend_upper(&self, delta: i64, axis: Axis) -> (s: Self)
        requires
            Self::fits(self.extended(0, delta as int, axis)),
        ensures
            s.spans(self.extended(0, delta as int, axis).0, self.extended(0, delta as int, axis).1,
                self.extended(0, delta as int, axis).2, self.extended(0, delta as int, axis).3),
            axis == Axis::I ==> s.spans(self.lo_i() as int, self.hi_i() + delta, self.lo_j() as int, self.hi_j() as int),
            axis == Axis::J ==> s.spans(self.lo_i() as int, self.hi_i() as int, self.lo_j() as int, self.hi_j() + delta),
    {
        match axis {
            Axis::I => Self::new(self.di.start..self.di.end + delta, self.dj.start..self.dj.end),
            Axis::J => Self::new(self.di.start..self.di.end, self.dj.start..self.dj.end + delta),
        }
    }

    /// Trim this index space by the given number of elements on both sides
    /// of each axis.
    pub fn trim_all(&self, delta: i64) -> (s: Self)
        requires
            delta != i64::MIN,
            i64::MIN <= self.lo_i() + delta,
            self.hi_i() - delta <= i64::MAX,
            i64::MIN <= self.lo_j() + delta,
            self.hi_j() - delta <= i64::MAX,
            Self::valid_bounds(self.lo_i() + delta, self.hi_i() - delta, self.lo_j() + delta, self.hi_j() - delta),
        ensures
            s.spans(self.lo_i() + delta, self.hi_i() - delta, self.lo_j() + delta, self.hi_j() - delta),
    {
        self.extend_all(-delta)
    }

    /// Trim both ends of the given axis by a certain amount.
    pub fn trim(&self, delta: i64, axis: Axis) -> (s: Self)
        requires
            delta != i64::MIN,
            Self::fits(self.extended(-delta, -delta, axis)),
        ensures
            s.spans(self.extended(-delta, -delta, axis).0, self.extended(-delta, -delta, axis).1,
                self.extended(-delta, -delta, axis).2, self.extended(-delta, -delta, axis).3),
            axis == Axis::I ==> s.spans(self.lo_i() + delta, self.hi_i() - delta, self.lo_j() as int, self.hi_j() as int),
            axis == Axis::J ==> s.spans(self.lo_i() as int, self.hi_i() as int, self.lo_j() + delta, self.hi_j() - delta),
    {
        self.extend(-delta, axis)
    }

    /// Trim just the lower end of the given axis by a certain amount.
    pub fn trim_lower(&self, delta: i64, axis: Axis) -> (s: Self)
        requires
            delta != i64::MIN,
            Self::fits(self.extended(-delta, 0, axis)),
        ensures
            s.spans(self.extended(-delta, 0, axis).0, self.extended(-delta, 0, axis).1,
                self.extended(-delta, 0, axis).2, self.extended(-delta, 0, axis).3),
            axis == Axis::I ==> s.spans(self.lo_i() + delta, self.hi_i() as int, self.lo_j() as int, self.hi_j() as int),
            axis == Axis::J ==> s.spans(self.lo_i() as int, self.hi_i() as int, self.lo_j() + delta, self.hi_j() as int),
    {
        self.extend_lower(-delta, axis)
    }

    /// Trim just the upper end of the given axis by a certain amount.
    pub fn trim_upper(&self, delta: i64, axis: Axis) -> (s: Self)
        requires
            delta != i64::MIN,
            Self::fits(self.extended(0, -delta, axis)),
        ensures
            s.spans(self.extended(0, -delta, axis).0, self.extended(0, -delta, axis).1,
                self.extended(0, -delta, axis).2, self.extended(0, -delta, axis).3),
            axis == Axis::I ==> s.spans(self.lo_i() as int, self.hi_i() - delta, self.lo_j() as int, self.hi_j() as int),
            axis == Axis::J ==> s.spans(self.lo_i() as int, self.hi_i() as int, self.lo_j() as int, self.hi_j() - delta),
    {
        self.extend_upper(-delta, axis)
    }

    /// Shift this index space along the given axis.
    pub fn translate(&self, delta: i64, axis: Axis) -> (s: Self)
        requires
            Self::fits(self.extended(-delta, delta as int, axis)),
        ensures
            s.spans(self.extended(-delta, delta as int, axis).0, self.extended(-delta, delta as int, axis).1,
                self.extended(-delta, delta as int, axis).2, self.extended(-delta, delta as int, axis).3),
            axis == Axis::I ==> s.spans(self.lo_i() + delta, self.hi_i() + delta, self.lo_j() as int, self.hi_j() as int),
            axis == Axis::J ==> s.spans(self.lo_i() as int, self.hi_i() as int, self.lo_j() + delta, self.hi_j() + delta),
    {
        match axis {
            Axis::I => Self::new(self.di.start + delta..self.di.end + delta, self.dj.start..self.dj.end),
            Axis::J => Self::new(self.di.start..self.di.end, self.dj.start + delta..self.dj.end + delta),
        }
    }

    /// Increase the resolution of this index space by the given factor.
    pub fn refine_by(&self, factor: u32) -> (s: Self)
        requires
            i64::MIN <= self.lo_i() * factor <= i64::MAX,
            i64::MIN <= self.hi_i() * factor <= i64::MAX,
            i64::MIN <= self.lo_j() * factor <= i64::MAX,
            i64::MIN <= self.hi_j() * factor <= i64::MAX,
            Self::valid_bounds(self.lo_i() * factor, self.hi_i() * factor, self.lo_j() * factor, self.hi_j() * factor),
        ensures
            s.spans(self.lo_i() * factor, self.hi_i() * factor, self.lo_j() * factor, self.hi_j() * factor),
    {
        let factor = factor as i64;
        Self::new(
            self.di.start * factor..self.di.end * factor,
            self.dj.start * factor..self.dj.end * factor,
        )
    }

    /// Decrease the resolution of this index space by the given factor, which
    /// must divide every bound.
    pub fn coarsen_by(&self, factor: u32) -> (s: Self)
        requires
            factor > 0,
            (self.lo_i() as int) % (factor as int) == 0,
            (self.lo_j() as int) % (factor as int) == 0,
            (self.hi_i() as int) % (factor as int) == 0,
            (self.hi_j() as int) % (factor as int) == 0,
            Self::valid_bounds((self.lo_i() as int) / (factor as int), (self.hi_i() as int) / (factor as int),
                (self.lo_j() as int) / (factor as int), (self.hi_j() as int) / (factor as int)),
        ensures
            s.spans((self.lo_i() as int) / (factor as int), (self.hi_i() as int) / (factor as int),
                (self.lo_j() as int) / (factor as int), (self.hi_j() as int) / (factor as int)),
    {
        let factor = factor as i64;
        Self::new(
            Self::exact_div(self.di.start, factor)..Self::exact_div(self.di.end, factor),
            Self::exact_div(self.dj.start, factor)..Self::exact_div(self.dj.end, factor),
        )
    }

    /// Divide a multiple of a positive factor by it.
    fn exact_div(x: i64, factor: i64) -> (q: i64)
        requires
            factor > 0,
            x % factor == 0,
        ensures
            q == x / factor,
    {
        proof {
            vstd::arithmetic::div_mod::lemma_fundamental_div_mod(x as int, factor as int);
        }
        if x >= 0 {
            x / factor
        } else {
            let y: i64 = -(x + 1);
            let q = y / factor;
            proof {
                vstd::arithmetic::div_mod::lemma_fundamental_div_mod(y as int, factor as int);
                let k = (x as int) / (factor as int);
                assert(x == factor * k);
                assert(y == -(factor * k) - 1);
                assert((-k - 1) * factor + (factor - 1) == -(factor * k) - 1) by (nonlinear_arith);
                vstd::arithmetic::div_mod::lemma_fundamental_div_mod_converse(y as int, factor as int, -k - 1, factor - 1);
            }
            -q - 1
        }
    }

    /// The offset of an index in a row-major buffer aligned with the start of
    /// this index space.
    pub open spec fn offset_of(&self, index: (i64, i64)) -> int {
        ((index.0 - self.lo_i()) as i64 as usize) * ((self.hi_j() - self.lo_j()) as i64 as usize)
            + ((index.1 - self.lo_j()) as i64 as usize)
    }

    /// Return the linear offset of the given index in a row-major buffer
    /// aligned with the start of this index space.
    pub fn row_major_offset(&self, index: (i64, i64)) -> (r: usize)
        requires
            i64::MIN <= index.0 - self.lo_i() <= i64::MAX,
            i64::MIN <= index.1 - self.lo_j() <= i64::MAX,
            i64::MIN <= self.extent_j() <= i64::MAX,
            self.offset_of(index) <= usize::MAX,
        ensures
            r == self.offset_of(index),
    {
        let i = (index.0 - self.di.start) as usize;
        let j = (index.1 - self.dj.start) as usize;
        let m = (self.dj.end - self.dj.start) as usize;
        proof {
            assert(0 <= i * m) by (nonlinear_arith)
                requires 0 <= i, 0 <= m;
            assert(i * m <= usize::MAX);
        }
        i * m + j
    }

    /// Return a memory region covering a buffer mapped to this index space.
    pub fn memory_region(&self) -> (r: MemoryRegion)
        requires
            i64::MIN <= self.extent_i() <= i64::MAX,
            i64::MIN <= self.extent_j() <= i64::MAX,
        ensures
            r.start == (0usize, 0usize),
            r.count == ((self.extent_i() as i64) as usize, (self.extent_j() as i64) as usize),
            r.shape == r.count,
    {
        let start = (0, 0);
        let count = self.dim();
        let shape = self.dim();
        MemoryRegion { start, count, shape }
    }

    /// Return a memory region selecting this index space in a buffer mapped
    /// to another one.
    pub fn memory_region_in(&self, parent: Self) -> (r: MemoryRegion)
        requires
            i64::MIN <= self.extent_i() <= i64::MAX,
            i64::MIN <= self.extent_j() <= i64::MAX,
            i64::MIN <= parent.extent_i() <= i64::MAX,
            i64::MIN <= parent.extent_j() <= i64::MAX,
            i64::MIN <= self.lo_i() - parent.lo_i() <= i64::MAX,
            i64::MIN <= self.lo_j() - parent.lo_j() <= i64::MAX,
        ensures
            r.start == (((self.lo_i() - parent.lo_i()) as i64) as usize, ((self.lo_j() - parent.lo_j()) as i64) as usize),
            r.count == ((self.extent_i() as i64) as usize, (self.extent_j() as i64) as usize),
            r.shape == ((parent.extent_i() as i64) as usize, (parent.extent_j() as i64) as usize),
    {
        let start = ((self.di.start - parent.di.start) as usize, (self.dj.start - parent.dj.start) as usize);
        let count = self.dim();
        let shape = parent.dim();
        MemoryRegion { start, count, shape }
    }

    /// All the indexes of this space, in row-major order (the final index
    /// increases fastest).
    pub fn iter(&self) -> (r: Vec<(i64, i64)>)
        ensures
            (self.lo_i() < self.hi_i() && self.lo_j() < self.hi_j()) ==>
                r@ == row_major(self.lo_i() as int, self.lo_j() as int, self.extent_i() as nat, self.extent_j() as nat),
            !(self.lo_i() < self.hi_i() && self.lo_j() < self.hi_j()) ==> r@.len() == 0,
    {
        let mut out: Vec<(i64, i64)> = Vec::new();
        if !(self.di.start < self.di.end && self.dj.start < self.dj.end) {
            return out;
        }
        let ghost nj = self.extent_j();
        proof {
            assert(row_major(self.lo_i() as int, self.lo_j() as int, 0, nj as nat) =~= Seq::<(i64, i64)>::empty());
        }
        let mut i = self.di.start;
        while i < self.di.end
            invariant
                self.lo_i() <= i <= self.hi_i(),
                self.lo_j() < self.hi_j(),
                nj == self.extent_j(),
                out@ == row_major(self.lo_i() as int, self.lo_j() as int, (i - self.lo_i()) as nat, nj as nat),
            decreases self.hi_i() - i,
        {
            proof {
                let a = i - self.lo_i();
                assert(a * nj <= (a + 1) * nj) by (nonlinear_arith)
                    requires a >= 0, nj > 0;
            }
            let mut j = self.dj.start;
            while j < self.dj.end
                invariant
                    self.lo_i() <= i < self.hi_i(),
                    self.lo_j() <= j <= self.hi_j(),
                    nj == self.extent_j(),
                    out@.len() == (i - self.lo_i()) * nj + (j - self.lo_j()),
                    forall|k: int| 0 <= k < out@.len() ==>
                        #[trigger] out@[k] == row_major(self.lo_i() as int, self.lo_j() as int, (i - self.lo_i() + 1) as nat, nj as nat)[k],
                decreases self.hi_j() - j,
            {
                proof {
                    let a = i - self.lo_i();
                    let b = j - self.lo_j();
                    let k = a * nj + b;
                    vstd::arithmetic::div_mod::lemma_fundamental_div_mod_converse(k, nj, a, b);
                    assert(k < (a + 1) * nj) by (nonlinear_arith)
                        requires k == a * nj + b, b < nj;
                }
                out.push((i, j));
                j = j + 1;
            }
            proof {
                let a = i - self.lo_i();
                assert((a + 1) * nj == a * nj + nj) by (nonlinear_arith);
                assert(out@ =~= row_major(self.lo_i() as int, self.lo_j() as int, (a + 1) as nat, nj as nat));
            }
            i = i + 1;
        }
        out
    }
}

impl IndexSpace {
    /// The index space with exactly the given ranges, whatever they are.
    pub closed spec fn from_ranges(di: Range<i64>, dj: Range<i64>) -> IndexSpace {
        IndexSpace { di, dj }
    }

    pub proof fn lemma_from_ranges(di: Range<i64>, dj: Range<i64>)
        ensures
            Self::from_ranges(di, dj).spans(di.start as int, di.end as int, dj.start as int, dj.end as int),
    {
    }
}

impl From<(Range<i64>, Range<i64>)> for IndexSpace {
    fn from(range: (Range<i64>, Range<i64>)) -> (s: Self)
        ensures
            s.spans(range.0.start as int, range.0.end as int, range.1.start as int, range.1.end as int),
    {
        IndexSpace { di: range.0, dj: range.1 }
    }
}

impl vstd::std_specs::convert::FromSpecImpl<(Range<i64>, Range<i64>)> for IndexSpace {
    open spec fn obeys_from_spec() -> bool {
        true
    }

    open spec fn from_spec(range: (Range<i64>, Range<i64>)) -> Self {
        IndexSpace::from_ranges(range.0, range.1)
    }
}

impl<'a> From<(&'a Range<i64>, &'a Range<i64>)> for IndexSpace {
    fn from(range: (&'a Range<i64>, &'a Range<i64>)) -> (s: Self)
        ensures
            s.spans(range.0.start as int, range.0.end as int, range.1.start as int, range.1.end as int),
    {
        IndexSpace { di: range.0.start..range.0.end, dj: range.1.start..range.1.end }
    }
}

impl<'a> vstd::std_specs::convert::FromSpecImpl<(&'a Range<i64>, &'a Range<i64>)> for IndexSpace {
    open spec fn obeys_from_spec() -> bool {
        true
    }

    open spec fn from_spec(range: (&'a Range<i64>, &'a Range<i64>)) -> Self {
        IndexSpace::from_ranges(*range.0, *range.1)
    }
}

impl From<IndexSpace> for (Range<i64>, Range<i64>) {
    fn from(space: IndexSpace) -> (r: Self)
        ensures
            r.0.start == space.lo_i() && r.0.end == space.hi_i(),
            r.1.start == space.lo_j() && r.1.end == space.hi_j(),
    {
        (space.di, space.dj)
    }
}

impl vstd::std_specs::convert::FromSpecImpl<IndexSpace> for (Range<i64>, Range<i64>) {
    open spec fn obeys_from_spec() -> bool {
        true
    }

    open spec fn from_spec(space: IndexSpace) -> Self {
        (Range { start: space.lo_i(), end: space.hi_i() }, Range { start: space.lo_j(), end: space.hi_j() })
    }
}

/// Coarsening a refined index space by the same factor gives back the
/// bounds it started from.
pub proof fn law_refine_then_coarsen(lo_i: int, hi_i: int, lo_j: int, hi_j: int, factor: int)
    requires
        factor > 0,
    ensures
        (lo_i * factor) % factor == 0,
        (hi_i * factor) % factor == 0,
        (lo_j * factor) % factor == 0,
        (hi_j * factor) % factor == 0,
        (lo_i * factor) / factor == lo_i,
        (hi_i * factor) / factor == hi_i,
        (lo_j * factor) / factor == lo_j,
        (hi_j * factor) / factor == hi_j,
{
    vstd::arithmetic::div_mod::lemma_fundamental_div_mod_converse(lo_i * factor, factor, lo_i, 0);
    vstd::arithmetic::div_mod::lemma_fundamental_div_mod_converse(hi_i * factor, factor, hi_i, 0);
    vstd::arithmetic::div_mod::lemma_fundamental_div_mod_converse(lo_j * factor, factor, lo_j, 0);
    vstd::arithmetic::div_mod::lemma_fundamental_div_mod_converse(hi_j * factor, factor, hi_j, 0);
}

/// The row-major offset of an index inside a space is its position in the
/// row-major traversal of that space.
pub proof fn law_offset_is_traversal_position(s: &IndexSpace, index: (i64, i64))
    requires
        s.holds(index),
        s.extent_i() <= i64::MAX,
        s.extent_j() <= i64::MAX,
        s.extent_i() * s.extent_j() <= usize::MAX,
    ensures
        s.offset_of(index) == (index.0 - s.lo_i()) * s.extent_j() + (index.1 - s.lo_j()),
        0 <= s.offset_of(index) < s.extent_i() * s.extent_j(),
        row_major(s.lo_i() as int, s.lo_j() as int, s.extent_i() as nat, s.extent_j() as nat)[s.offset_of(index)] == index,
{
    let a = index.0 - s.lo_i();
    let b = index.1 - s.lo_j();
    let ni = s.extent_i();
    let nj = s.extent_j();
    assert(a * nj + b < ni * nj) by (nonlinear_arith)
        requires 0 <= a < ni, 0 <= b < nj;
    assert(0 <= a * nj) by (nonlinear_arith)
        requires 0 <= a, 0 <= nj;
    assert(a <= usize::MAX && b <= usize::MAX && nj <= usize::MAX) by (nonlinear_arith)
        requires 0 <= a < ni, 0 <= b < nj, ni * nj <= usize::MAX, 1 <= ni, 1 <= nj;
    vstd::arithmetic::div_mod::lemma_fundamental_div_mod_converse(a * nj + b, nj, a, b);
}

/// The offsets of the indices of a space are exactly `0..len`, each once:
/// the `k`-th index of the row-major traversal lies in the space and has
/// offset `k`, and distinct indices of the space have distinct offsets
/// (when the volume fits in a `usize`).
pub proof fn law_offsets_cover_once(s: &IndexSpace, k: int, a: (i64, i64), b: (i64, i64))
    requires
        0 <= s.extent_i() <= i64::MAX,
        0 <= s.extent_j() <= i64::MAX,
        s.extent_i() * s.extent_j() <= usize::MAX,
    ensures
        0 <= k < s.extent_i() * s.extent_j() ==> {
            let x = row_major(s.lo_i() as int, s.lo_j() as int, s.extent_i() as nat, s.extent_j() as nat)[k];
            s.holds(x) && s.offset_of(x) == k
        },
        s.holds(a) && s.holds(b) && a != b ==> s.offset_of(a) != s.offset_of(b),
{
    let ni = s.extent_i();
    let nj = s.extent_j();
    if 0 <= k < ni * nj {
        assert(nj > 0) by (nonlinear_arith)
            requires 0 <= k < ni * nj, 0 <= ni, 0 <= nj;
        let q = k / nj;
        let r = k % nj;
        assert(0 <= q < ni) by (nonlinear_arith)
            requires 0 <= k < ni * nj, nj > 0, q == k / nj;
        assert(0 <= r < nj);
        assert(k == q * nj + r) by (nonlinear_arith)
            requires nj > 0, q == k / nj, r == k % nj;
        let x = row_major(s.lo_i() as int, s.lo_j() as int, ni as nat, nj as nat)[k];
        assert(x == ((s.lo_i() + q) as i64, (s.lo_j() + r) as i64));
        assert(s.holds(x));
        law_offset_is_traversal_position(s, x);
    }
    if s.holds(a) && s.holds(b) && a != b {
        law_offset_is_traversal_position(s, a);
        law_offset_is_traversal_position(s, b);
    }
}

/// Growing along an axis moves its lower end down by `lo` and its upper end
/// up by `hi`, and leaves the other axis as it is; so a translation by
/// `delta` (`lo == -delta`, `hi == delta`) moves both ends of the axis up by
/// `delta`, and translating back by `-delta` restores the bounds.
pub proof fn law_extended_moves_ends(s: &IndexSpace, lo: int, hi: int, delta: int)
    ensures
        s.extended(lo, hi, Axis::I) == (s.lo_i() - lo, s.hi_i() + hi, s.lo_j() as int, s.hi_j() as int),
        s.extended(lo, hi, Axis::J) == (s.lo_i() as int, s.hi_i() as int, s.lo_j() - lo, s.hi_j() + hi),
        s.extended(-delta, delta, Axis::I).0 == s.lo_i() + delta,
        s.extended(-delta, delta, Axis::I).1 == s.hi_i() + delta,
        s.extended(-delta, delta, Axis::I).1 - s.extended(-delta, delta, Axis::I).0 == s.extent_i(),
        s.extended(-delta, delta, Axis::J).3 - s.extended(-delta, delta, Axis::J).2 == s.extent_j(),
{
}

/// The intersection with a contained space is that space.
pub proof fn law_intersect_contained(s: &IndexSpace, other: &IndexSpace)
    requires
        other.lo_i() >= s.lo_i() && other.hi_i() <= s.hi_i() && other.lo_j() >= s.lo_j() && other.hi_j() <= s.hi_j(),
    ensures
        max(s.lo_i() as int, other.lo_i() as int) == other.lo_i(),
        min(s.hi_i() as int, other.hi_i() as int) == other.hi_i(),
        max(s.lo_j() as int, other.lo_j() as int) == other.lo_j(),
        min(s.hi_j() as int, other.hi_j() as int) == other.hi_j(),
{
}

/// The offsets of the elements of a region, row by row: in a row-major
/// buffer `width` elements wide whose elements hold `chunk` values each,
/// element `k` of the region is at row `i0 + k / nj` and column
/// `j0 + k % nj`.
pub open spec fn region_offsets(i0: int, j0: int, ni: nat, nj: nat, width: int, chunk: int) -> Seq<int> {
    Seq::new(ni * nj, |k: int| ((i0 + k / (nj as int)) * width + (j0 + k % (nj as int))) * chunk)
}

impl MemoryRegion {
    /// The offsets in the buffer of the `chunk`-value elements that this
    /// region selects, row by row.
    pub fn chunk_offsets(&self, chunk: usize) -> (v: Vec<usize>)
        requires
            self.start.0 + self.count.0 <= usize::MAX,
            self.start.1 + self.count.1 <= self.shape.1,
            self.shape.1 * chunk <= usize::MAX,
            (self.start.0 + self.count.0) * (self.shape.1 * chunk) <= usize::MAX,
        ensures
            v@.map_values(|x: usize| x as int) == region_offsets(
                self.start.0 as int,
                self.start.1 as int,
                self.count.0 as nat,
                self.count.1 as nat,
                self.shape.1 as int,
                chunk as int,
            ),
    {
        let (s0, s1) = self.start;
        let (c0, c1) = self.count;
        let w = self.shape.1;
        let q = w * chunk;
        let ghost f = region_offsets(s0 as int, s1 as int, c0 as nat, c1 as nat, w as int, chunk as int);
        let mut v: Vec<usize> = Vec::new();
        let mut i: usize = 0;
        while i < c0
            invariant
                s0 + c0 <= usize::MAX,
                s1 + c1 <= w,
                q == w * chunk,
                (s0 + c0) * q <= usize::MAX,
                f == region_offsets(s0 as int, s1 as int, c0 as nat, c1 as nat, w as int, chunk as int),
                i <= c0,
                v@.len() == i * c1,
                forall|k: int| 0 <= k < v@.len() ==> v@[k] as int == f[k],
            decreases c0 - i,
        {
            let mut j: usize = 0;
            while j < c1
                invariant
                    s0 + c0 <= usize::MAX,
                    s1 + c1 <= w,
                    q == w * chunk,
                    (s0 + c0) * q <= usize::MAX,
                    f == region_offsets(s0 as int, s1 as int, c0 as nat, c1 as nat, w as int, chunk as int),
                    i < c0,
                    j <= c1,
                    v@.len() == i * c1 + j,
                    forall|k: int| 0 <= k < v@.len() ==> v@[k] as int == f[k],
                decreases c1 - j,
            {
                proof {
                    assert((s0 + i) * q + (s1 + j) * chunk <= (s0 + i + 1) * q) by (nonlinear_arith)
                        requires
                            s1 + j < w,
                            q == w * chunk,
                            chunk >= 0,
                    ;
                    assert((s0 + i + 1) * q <= (s0 + c0) * q) by (nonlinear_arith)
                        requires
                            i + 1 <= c0,
                            q >= 0,
                    ;
                    assert(0 <= (s0 + i) * q && 0 <= (s1 + j) * chunk && (s0 + i) * q <= (s0 + c0) * q) by (nonlinear_arith)
                        requires
                            q >= 0,
                            chunk >= 0,
                            i <= c0,
                    ;
                    assert((s0 + i) * q + (s1 + j) * chunk == ((s0 + i) * w + (s1 + j)) * chunk) by (nonlinear_arith)
                        requires
                            q == w * chunk,
                    ;
                    assert(i * c1 + j < c0 * c1) by (nonlinear_arith)
                        requires
                            i < c0,
                            j < c1,
                    ;
                    vstd::arithmetic::div_mod::lemma_fundamental_div_mod_converse(
                        (i * c1 + j) as int,
                        c1 as int,
                        i as int,
                        j as int,
                    );
                }
                let off = (s0 + i) * q + (s1 + j) * chunk;
                v.push(off);
                proof {
                    let k = (i * c1 + j) as int;
                    assert(f[k] == ((s0 + i) * w + (s1 + j)) * chunk);
                }
                j += 1;
            }
            proof {
                assert((i + 1) * c1 == i * c1 + c1) by (nonlinear_arith);
            }
            i += 1;
        }
        proof {
            assert(v@.map_values(|x: usize| x as int) =~= f);
        }
        v
    }
}

/// The offsets of the elements of a three-dimensional region, with the
/// final axis fastest: in a row-major buffer of `shape` elements of `chunk`
/// values each, element `n` of the region lies at `start` plus
/// `(n / c2 / c1, n / c2 % c1, n % c2)`, for `count == (_, c1, c2)`.
pub open spec fn region_offsets_3d(
    start: (usize, usize, usize),
    count: (usize, usize, usize),
    shape: (usize, usize, usize),
    chunk: int,
) -> Seq<int> {
    let c1 = count.1 as int;
    let c2 = count.2 as int;
    Seq::new(
        (count.0 * count.1 * count.2) as nat,
        |n: int|
            (((start.0 + n / c2 / c1) * shape.1 + (start.1 + n / c2 % c1)) * shape.2 + (start.2 + n % c2)) * chunk,
    )
}

/// The offsets in a row-major buffer of `shape` elements, each `chunk`
/// values wide, of the elements of the region of `count` elements starting
/// at `start`, with the final axis fastest.
pub fn chunk_offsets_3d(
    start: (usize, usize, usize),
    count: (usize, usize, usize),
    shape: (usize, usize, usize),
    chunk: usize,
) -> (v: Vec<usize>)
    requires
        start.0 + count.0 <= usize::MAX,
        start.1 + count.1 <= shape.1,
        start.2 + count.2 <= shape.2,
        shape.2 * chunk <= usize::MAX,
        shape.1 * (shape.2 * chunk) <= usize::MAX,
        (start.0 + count.0) * (shape.1 * (shape.2 * chunk)) <= usize::MAX,
    ensures
        v@.map_values(|x: usize| x as int) == region_offsets_3d(start, count, shape, chunk as int),
{
    let (s0, s1, s2) = start;
    let (c0, c1, c2) = count;
    let r = shape.2 * chunk;
    let q = shape.1 * r;
    let ghost f = region_offsets_3d(start, count, shape, chunk as int);
    let mut v: Vec<usize> = Vec::new();
    let mut i: usize = 0;
    while i < c0
        invariant
            start == (s0, s1, s2),
            count == (c0, c1, c2),
            s0 + c0 <= usize::MAX,
            s1 + c1 <= shape.1,
            s2 + c2 <= shape.2,
            r == shape.2 * chunk,
            q == shape.1 * r,
            (s0 + c0) * q <= usize::MAX,
            f == region_offsets_3d(start, count, shape, chunk as int),
            i <= c0,
            v@.len() == i * c1 * c2,
            forall|n: int| 0 <= n < v@.len() ==> v@[n] as int == f[n],
        decreases c0 - i,
    {
        let mut j: usize = 0;
        while j < c1
            invariant
                start == (s0, s1, s2),
                count == (c0, c1, c2),
                s0 + c0 <= usize::MAX,
                s1 + c1 <= shape.1,
                s2 + c2 <= shape.2,
                r == shape.2 * chunk,
                q == shape.1 * r,
                (s0 + c0) * q <= usize::MAX,
                f == region_offsets_3d(start, count, shape, chunk as int),
                i < c0,
                j <= c1,
                v@.len() == (i * c1 + j) * c2,
                forall|n: int| 0 <= n < v@.len() ==> v@[n] as int == f[n],
            decreases c1 - j,
        {
            let mut k: usize = 0;
            while k < c2
                invariant
                    start == (s0, s1, s2),
                    count == (c0, c1, c2),
                    s0 + c0 <= usize::MAX,
                    s1 + c1 <= shape.1,
                    s2 + c2 <= shape.2,
                    r == shape.2 * chunk,
                    q == shape.1 * r,
                    (s0 + c0) * q <= usize::MAX,
                    f == region_offsets_3d(start, count, shape, chunk as int),
                    i < c0,
                    j < c1,
                    k <= c2,
                    v@.len() == (i * c1 + j) * c2 + k,
                    forall|n: int| 0 <= n < v@.len() ==> v@[n] as int == f[n],
                decreases c2 - k,
            {
                proof {
                    let w1 = shape.1 as int;
                    let w2 = shape.2 as int;
                    assert((s1 + j) * r + (s2 + k) * chunk <= q) by (nonlinear_arith)
                        requires
                            s1 + j < w1,
                            s2 + k < w2,
                            r == w2 * chunk,
                            q == w1 * r,
                            chunk >= 0,
                    ;
                    assert((s0 + i + 1) * q <= (s0 + c0) * q && (s0 + i) * q + q == (s0 + i + 1) * q) by (nonlinear_arith)
                        requires
                            i + 1 <= c0,
                            q >= 0,
                    ;
                    assert(0 <= (s0 + i) * q && 0 <= (s1 + j) * r && 0 <= (s2 + k) * chunk && (s0 + i) * q <= (s0
                        + c0) * q && (s1 + j) * r <= q) by (nonlinear_arith)
                        requires
                            q >= 0,
                            r >= 0,
                            chunk >= 0,
                            i <= c0,
                            s1 + j < w1,
                            q == w1 * r,
                    ;
                    assert((s0 + i) * q + (s1 + j) * r + (s2 + k) * chunk == (((s0 + i) * w1 + (s1 + j)) * w2 + (s2
                        + k)) * chunk) by (nonlinear_arith)
                        requires
                            r == w2 * chunk,
                            q == w1 * r,
                    ;
                    let m = i * c1 + j;
                    let n = m * c2 + k;
                    assert(m < c0 * c1 && n < c0 * c1 * c2) by (nonlinear_arith)
                        requires
                            i < c0,
                            j < c1,
                            k < c2,
                            m == i * c1 + j,
                            n == m * c2 + k,
                    ;
                    vstd::arithmetic::div_mod::lemma_fundamental_div_mod_converse(n, c2 as int, m, k as int);
                    vstd::arithmetic::div_mod::lemma_fundamental_div_mod_converse(m, c1 as int, i as int, j as int);
                    assert(f[n] == (((s0 + i) * w1 + (s1 + j)) * w2 + (s2 + k)) * chunk);
                }
                let off = (s0 + i) * q + (s1 + j) * r + (s2 + k) * chunk;
                v.push(off);
                k += 1;
            }
            proof {
                assert((i * c1 + j + 1) * c2 == (i * c1 + j) * c2 + c2) by (nonlinear_arith);
            }
            j += 1;
        }
        proof {
            assert((i + 1) * c1 * c2 == i * c1 * c2 + c1 * c2 && (i * c1 + c1) * c2 == i * c1 * c2 + c1 * c2)
                by (nonlinear_arith);
        }
        i += 1;
    }
    proof {
        assert(v@.map_values(|x: usize| x as int) =~= f);
    }
    v
}

} // verus!
