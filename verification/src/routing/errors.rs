use vstd::prelude::*;
use crate::network::errors::NetworkError;

verus! {

/// Errors of a single k-bucket.
#[derive(Debug, Clone, Copy, PartialEq, Eq, Structural)]
pub enum BucketError {
    /// No entry with the requested identifier is in the bucket.
    NodeNotFound,
}

/// The node identifier could not be derived from the node's public key and
/// protocol version.
#[derive(Debug, Clone, Copy, PartialEq, Eq, Structural)]
pub struct IdError;

/// Errors of the routing table.
#[derive(Debug, Clone, Copy, PartialEq, Eq, Structural)]
pub enum RoutingError {
    /// The node tried to insert itself.
    SelfNode,
    NetworkError(NetworkError),
    BucketError(BucketError),
}

} // verus!
