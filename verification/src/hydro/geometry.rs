//! Directions in three-dimensional space.
use vstd::prelude::*;

verus! {

/// A unit vector along one of the three axes.
#[derive(Clone, Copy, Debug, PartialEq, Eq, Structural)]
pub enum Direction {
    I,
    J,
    K,
}

} // verus!
