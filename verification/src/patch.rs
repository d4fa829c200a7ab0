//! Where patch data resides on the mesh.
use vstd::prelude::*;

verus! {

/// Identifies the part of the mesh where patch data resides, one per axis:
/// `Cell` regions are the spaces between `Node` points. For example in a 3D
/// array, `(Cell, Cell, Cell)` refers to 3D cell volumes, `(Node, Cell,
/// Cell)` to the 2D `i`-directed cell faces, and `(Node, Node, Cell)` to
/// the 1D `k`-directed cell edges. Data can only be sampled up and down on
/// its cell-like axes.
#[derive(Clone, Copy, Debug, PartialEq, Eq, Structural)]
pub enum MeshLocation {
    Cell,
    Node,
}

} // verus!
