//! An incremental, bounded-depth octree: 3-dimensional points with attached
//! payload data are bucketed into recursively subdivided cubic regions. A
//! region splits once it holds more than a configurable number of points,
//! down to a hard maximum depth, at which a leaf accepts any number of
//! points. Every node and leaf is addressed by a compact path code ([`Id`])
//! instead of parent/child pointers.

pub mod error;
pub mod octant;
pub mod octant_id;
pub mod sign;
pub mod tree;
pub mod util;

pub use octant::Leaf;
pub use octant_id::Id;
pub use tree::Octree;
