//! Kademlia-style distributed hash table: identifiers and the XOR metric,
//! k-buckets and the routing table, the RPC wire format and the bookkeeping
//! of pending transactions.
use vstd::prelude::*;

pub mod consts;
pub mod network;
pub mod node;
pub mod primitives;
pub mod routing;
pub mod storage;
pub mod utils;

verus! {

} // verus!
