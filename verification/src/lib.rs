use vstd::prelude::*;

pub mod pairs;
pub mod quadtree;
pub mod tree;
pub mod subseq;
pub mod leaves;

verus! {

/// Deepest level a node of the tree may reach.
pub const QT_MAX_DEPTH: usize = 15;

/// Number of objects a leaf above the deepest level holds before it splits.
pub const QT_MAX_OBJECTS: usize = 1;

} // verus!
