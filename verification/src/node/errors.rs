use vstd::prelude::*;
use crate::routing::errors::IdError;

verus! {

/// Errors of a node.
#[derive(Debug, Clone, Copy, PartialEq, Eq, Structural)]
pub enum NodeError {
    IdError(IdError),
}

} // verus!
