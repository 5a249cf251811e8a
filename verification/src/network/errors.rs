use vstd::prelude::*;

verus! {

/// Errors raised by the network layer.
#[derive(Debug, Clone, Copy, PartialEq, Eq, Structural)]
pub enum NetworkError {
    Connection,
    Timeout,
    Write,
    Read,
    CouldNotParseRPC,
    Send,
}

} // verus!
