//! One-dimensional index ranges for quilts of patches.
use vstd::prelude::*;
use std::ops::Range;

verus! {

/// The half-open range of indexes `self.0..self.1`.
#[derive(Clone, Copy, Debug)]
pub struct Area(pub i64, pub i64);

impl Area {
    /// The area `0..size`.
    pub fn with_shape(size: usize) -> (a: Self)
        ensures
            a.0 == 0,
            a.1 == size as i64,
    {
        Area(0, size as i64)
    }

    /// The area `i0..i1`.
    pub fn covering(i0: usize, i1: usize) -> (a: Self)
        ensures
            a.0 == i0 as i64,
            a.1 == i1 as i64,
    {
        Area(i0 as i64, i1 as i64)
    }

    pub fn contains(&self, i: i64) -> (b: bool)
        ensures
            b == (self.0 <= i && i < self.1),
    {
        self.0 <= i && i < self.1
    }

    /// The area grown by `amount` on both sides.
    pub fn expand(&self, amount: i64) -> (a: Self)
        requires
            i64::MIN <= self.0 - amount <= i64::MAX,
            i64::MIN <= self.1 + amount <= i64::MAX,
        ensures
            a.0 == self.0 - amount,
            a.1 == self.1 + amount,
    {
        Area(self.0 - amount, self.1 + amount)
    }

    /// The indexes of the area, in increasing order.
    pub fn iter(&self) -> (r: Range<i64>)
        ensures
            r.start == self.0,
            r.end == self.1,
    {
        self.0..self.1
    }
}

} // verus!
