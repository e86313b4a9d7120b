//! A sparse, depth-bounded octree that maps signed 3D integer coordinates to
//! payloads. The path from the root to a cell is read, four bits per level,
//! from a Morton key that interleaves the bits of the three axes.

pub mod bits;
pub mod error;
pub mod morton;
pub mod node;
pub mod octree;
pub mod tree;

pub use crate::bits::Interleavable;
pub use crate::error::{OctreeError, OctreeResult};
pub use crate::node::TreeNode;
pub use crate::octree::Octree;
