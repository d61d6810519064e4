//! Error kinds returned by the aggregate's structural operations.

use vstd::prelude::*;

verus! {

/// Identifier of a node inside one aggregate. Fresh values are drawn from a
/// version-4 UUID; the 128 bits are the identity, the textual form is derived.
pub type NodeId = u128;

/// Identifier of a whole aggregate.
pub type BookId = u128;

/// Failure of a structural operation on the aggregate. Every operation
/// validates before mutating, so an error always leaves the tree unchanged.
#[derive(Debug, Clone, Copy, PartialEq, Eq, Structural)]
pub enum DomainError {
    /// The named identifier is absent from the aggregate.
    NodeNotFound(NodeId),
    /// The change would push a node beyond the configured maximum depth.
    MaxDepthExceeded { node_id: NodeId, max: u8 },
    /// The move target is the node itself or one of its own descendants.
    CyclicMove(NodeId),
}

} // verus!
