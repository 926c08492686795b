use vstd::prelude::*;

verus! {

/// A subdivided region: holds no points itself, only its geometry. Its up to
/// eight children are addressed by derived path codes, not stored here.
#[derive(Debug)]
pub struct Node {
    pub center: [i64; 3],
    pub ranges: [i64; 3],
}

/// A region that holds point/data pairs, in the order the pushes landed in
/// it. It is eligible for splitting once its count exceeds the tree's
/// threshold, unless it sits at the maximum depth.
#[derive(Debug)]
pub struct Leaf<U> {
    pub center: [i64; 3],
    pub ranges: [i64; 3],
    pub points: Vec<([i64; 3], U)>,
}

/// One cubic region of the tree: either a subdivided node or a point-bearing
/// leaf. Both variants carry the same geometry: a center and per-axis
/// ranges.
pub enum Octant<U> {
    Node(Node),
    Leaf(Leaf<U>),
}

impl<U> Octant<U> {
    /// The center of this octant's region.
    pub open spec fn spec_center(&self) -> [i64; 3] {
        match self {
            Octant::Node(node) => node.center,
            Octant::Leaf(leaf) => leaf.center,
        }
    }

    /// The per-axis ranges of this octant's region.
    pub open spec fn spec_ranges(&self) -> [i64; 3] {
        match self {
            Octant::Node(node) => node.ranges,
            Octant::Leaf(leaf) => leaf.ranges,
        }
    }

    /// How many points this octant holds: a node holds none.
    pub open spec fn point_count(&self) -> nat {
        match self {
            Octant::Node(_) => 0,
            Octant::Leaf(leaf) => leaf.points@.len(),
        }
    }

    pub fn center(&self) -> (c: &[i64; 3])
        ensures
            *c == self.spec_center(),
    {
        match self {
            Octant::Node(node) => &node.center,
            Octant::Leaf(leaf) => &leaf.center,
        }
    }

    pub fn ranges(&self) -> (r: &[i64; 3])
        ensures
            *r == self.spec_ranges(),
    {
        match self {
            Octant::Node(node) => &node.ranges,
            Octant::Leaf(leaf) => &leaf.ranges,
        }
    }

    /// The points of a leaf, or `None` for a node.
    pub fn points(&self) -> (p: Option<&Vec<([i64; 3], U)>>)
        ensures
            match p {
                Some(points) => self is Leaf && points@ == self->Leaf_0.points@,
                None => self is Node,
            },
    {
        match self {
            Octant::Node(_) => None,
            Octant::Leaf(leaf) => Some(&leaf.points),
        }
    }
}

} // verus!
