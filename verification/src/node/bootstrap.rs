use vstd::prelude::*;
use crate::network::addr::{NodeAddr, NodeAddrView, is_loopback_view, port_of};
use crate::primitives::{U256, is_zero_bytes};

verus! {

/// Port of the well-known bootstrap node.
pub const BOOTSTRAP_PORT: u16 = 5734;

/// The well-known bootstrap nodes: the node with identifier zero on
/// `127.0.0.1:5734`.
pub fn bootstraps_address() -> (r: Vec<(U256, NodeAddr)>)
    ensures
        r@.len() == 1,
        is_zero_bytes(r@[0].0@),
        r@[0].0@.len() == 32,
        r@[0].1@ == (NodeAddrView::V4 { ip: seq![127u8, 0u8, 0u8, 1u8], port: BOOTSTRAP_PORT }),
{
    let mut r: Vec<(U256, NodeAddr)> = Vec::new();
    let ip: [u8; 4] = [127, 0, 0, 1];
    assert(ip@ =~= seq![127u8, 0u8, 0u8, 1u8]);
    r.push((U256::zero(), NodeAddr::V4 { ip, port: BOOTSTRAP_PORT }));
    r
}

/// The address is this node's own listening address on the loopback
/// interface.
pub open spec fn is_own_address(addr: NodeAddrView, listening_port: u16) -> bool {
    is_loopback_view(addr) && port_of(addr) == listening_port
}

/// The bootstrap nodes of `s` that are not this node itself, in order.
pub open spec fn other_bootstraps(s: Seq<(U256, NodeAddr)>, listening_port: u16) -> Seq<
    (U256, NodeAddr),
>
    decreases s.len(),
{
    if s.len() == 0 {
        Seq::empty()
    } else if is_own_address(s.last().1@, listening_port) {
        other_bootstraps(s.drop_last(), listening_port)
    } else {
        other_bootstraps(s.drop_last(), listening_port).push(s.last())
    }
}

/// Whether `addr` is this node's own listening address on loopback.
pub fn is_own_address_exec(addr: &NodeAddr, listening_port: u16) -> (r: bool)
    ensures
        r == is_own_address(addr@, listening_port),
{
    addr.is_loopback() && addr.port() == listening_port
}

/// The nodes of `all` that a node listening on `listening_port` contacts
/// when it starts: all but itself.
pub fn bootstrap_targets(all: &Vec<(U256, NodeAddr)>, listening_port: u16) -> (r: Vec<(U256, NodeAddr)>)
    ensures
        r@ == other_bootstraps(all@, listening_port),
{
    let ghost s = all@;
    let mut out: Vec<(U256, NodeAddr)> = Vec::new();
    let n = all.len();
    let mut i: usize = 0;
    while i < n
        invariant
            0 <= i <= n,
            n == s.len(),
            s == all@,
            out@ == other_bootstraps(s.take(i as int), listening_port),
        decreases n - i,
    {
        let entry = all[i];
        proof {
            assert(s.take(i + 1).drop_last() =~= s.take(i as int));
            assert(s.take(i + 1).last() == entry);
        }
        if !is_own_address_exec(&entry.1, listening_port) {
            out.push(entry);
        }
        i = i + 1;
    }
    proof {
        assert(s.take(n as int) =~= s);
    }
    out
}

/// Exactly the bootstrap nodes whose address is not the node's own are
/// contacted: every other one is kept, and no other comes in.
pub proof fn lemma_other_bootstraps_members(s: Seq<(U256, NodeAddr)>, listening_port: u16)
    ensures
        forall|x: (U256, NodeAddr)|
            #[trigger] other_bootstraps(s, listening_port).contains(x) <==> (s.contains(x)
                && !is_own_address(x.1@, listening_port)),
    decreases s.len(),
{
    if s.len() > 0 {
        let init = s.drop_last();
        lemma_other_bootstraps_members(init, listening_port);
        let r = other_bootstraps(s, listening_port);
        let ri = other_bootstraps(init, listening_port);
        assert forall|x: (U256, NodeAddr)|
            #[trigger] r.contains(x) <==> (s.contains(x) && !is_own_address(
                x.1@,
                listening_port,
            )) by {
            if s.contains(x) {
                let k = choose|k: int| 0 <= k < s.len() && s[k] == x;
                if k < s.len() - 1 {
                    assert(init[k] == x);
                    assert(init.contains(x));
                }
            }
            if init.contains(x) {
                let k = choose|k: int| 0 <= k < init.len() && init[k] == x;
                assert(s[k] == x);
            }
            if is_own_address(s.last().1@, listening_port) {
                assert(r == ri);
            } else {
                assert(r == ri.push(s.last()));
                if ri.contains(x) {
                    let k = choose|k: int| 0 <= k < ri.len() && ri[k] == x;
                    assert(r[k] == x);
                }
                if x == s.last() {
                    assert(r[r.len() - 1] == x);
                }
                if r.contains(x) && x != s.last() {
                    let k = choose|k: int| 0 <= k < r.len() && r[k] == x;
                    assert(ri[k] == x);
                }
            }
        }
    }
}

} // verus!
