//! What an insertion into a tree can fail with.

use vstd::prelude::*;

verus! {

/// The ways in which an insertion fails. Neither happens in a tree that was
/// built by insertions at one depth alone.
#[derive(Debug, Clone, Copy, PartialEq, Eq, Structural)]
pub enum OctreeError {
    /// The walk stood in a branch after it had gone down as many levels as
    /// the tree has.
    DepthExceeded,
    /// The walk met a leaf at `level`, above the level where the leaves of
    /// the tree lie.
    MalformedTree { level: u32 },
}

/// The result of an operation that may fail with an `OctreeError`.
pub type OctreeResult<T> = Result<T, OctreeError>;

} // verus!
