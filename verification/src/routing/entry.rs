use vstd::prelude::*;
use crate::network::addr::NodeAddr;
use crate::primitives::{U256, is_zero_bytes};

verus! {

/// What the routing table knows of a peer.
#[derive(Debug, Clone, Copy)]
pub struct NodeEntry {
    pub id: U256,
    pub addr: NodeAddr,
    pub score: U256,
    /// Round-trip time of the last successful ping, in nanoseconds.
    pub respond_time: u64,
    pub distance: U256,
}

impl NodeEntry {
    /// An entry for a peer that answered a ping in `respond_time`
    /// nanoseconds; score and distance start at zero.
    pub fn new(id: U256, addr: NodeAddr, respond_time: u64) -> (r: NodeEntry)
        ensures
            r.id == id,
            r.addr == addr,
            r.respond_time == respond_time,
            is_zero_bytes(r.score@),
            r.score@.len() == 32,
            is_zero_bytes(r.distance@),
            r.distance@.len() == 32,
    {
        NodeEntry { id, addr, score: U256::zero(), respond_time, distance: U256::zero() }
    }

    /// Records a new round-trip time.
    pub fn update_respond_time(&mut self, duration: u64)
        ensures
            *final(self) == (NodeEntry { respond_time: duration, ..*old(self) }),
    {
        self.respond_time = duration;
    }
}

} // verus!
