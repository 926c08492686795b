use vstd::prelude::*;

verus! {

/// Returned by [`crate::tree::Octree::push`] when a point lies outside the
/// root volume of the tree.
#[derive(Debug, Clone, Copy)]
pub struct OutOfRangeError;

/// Returned by [`crate::tree::Octree::new`] when some component of the
/// requested ranges is negative.
#[derive(Debug, Clone, Copy)]
pub struct NegativeRangeError;

} // verus!
