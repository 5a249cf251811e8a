use vstd::prelude::*;

verus! {

/// A peer's transport address: an IP address and a port.
#[derive(Debug, Clone, Copy)]
pub enum NodeAddr {
    V4 { ip: [u8; 4], port: u16 },
    V6 { ip: [u8; 16], port: u16 },
}

/// What a `NodeAddr` denotes: the address octets and the port.
pub enum NodeAddrView {
    V4 { ip: Seq<u8>, port: u16 },
    V6 { ip: Seq<u8>, port: u16 },
}

impl View for NodeAddr {
    type V = NodeAddrView;

    open spec fn view(&self) -> NodeAddrView {
        match self {
            NodeAddr::V4 { ip, port } => NodeAddrView::V4 { ip: ip@, port: *port },
            NodeAddr::V6 { ip, port } => NodeAddrView::V6 { ip: ip@, port: *port },
        }
    }
}

/// `127.0.0.0/8` for IPv4, `::1` for IPv6.
pub open spec fn is_loopback_view(a: NodeAddrView) -> bool {
    match a {
        NodeAddrView::V4 { ip, .. } => ip[0] == 127,
        NodeAddrView::V6 { ip, .. } => is_v6_loopback_octets(ip),
    }
}

/// The octets of `::1`.
pub open spec fn is_v6_loopback_octets(ip: Seq<u8>) -> bool {
    forall|i: int| 0 <= i < 16 ==> ip[i] == (if i == 15 { 1u8 } else { 0u8 })
}

pub open spec fn port_of(a: NodeAddrView) -> u16 {
    match a {
        NodeAddrView::V4 { port, .. } => port,
        NodeAddrView::V6 { port, .. } => port,
    }
}

fn is_v6_loopback(ip: &[u8; 16]) -> (r: bool)
    ensures
        r == is_v6_loopback_octets(ip@),
{
    let mut i: usize = 0;
    while i < 16
        invariant
            0 <= i <= 16,
            ip@.len() == 16,
            forall|j: int| 0 <= j < i ==> ip@[j] == (if j == 15 { 1u8 } else { 0u8 }),
        decreases 16 - i,
    {
        let expected: u8 = if i == 15 { 1 } else { 0 };
        if ip[i] != expected {
            assert(ip@[i as int] != (if i as int == 15 { 1u8 } else { 0u8 }));
            return false;
        }
        i = i + 1;
    }
    true
}

impl NodeAddr {
    /// The port.
    pub fn port(&self) -> (r: u16)
        ensures
            r == port_of(self@),
    {
        match self {
            NodeAddr::V4 { port, .. } => *port,
            NodeAddr::V6 { port, .. } => *port,
        }
    }

    /// Whether the address is a loopback address.
    pub fn is_loopback(&self) -> (r: bool)
        ensures
            r == is_loopback_view(self@),
    {
        match self {
            NodeAddr::V4 { ip, .. } => ip[0] == 127,
            NodeAddr::V6 { ip, .. } => {
                is_v6_loopback(ip)
            },
        }
    }
}

/// The only IPv6 loopback address is `::1`: fifteen zero octets, then 1.
pub proof fn lemma_v6_loopback_is_only_one(ip: Seq<u8>, port: u16)
    requires
        ip.len() == 16,
    ensures
        is_loopback_view(NodeAddrView::V6 { ip, port }) <==> ip == seq![
            0u8,
            0u8,
            0u8,
            0u8,
            0u8,
            0u8,
            0u8,
            0u8,
            0u8,
            0u8,
            0u8,
            0u8,
            0u8,
            0u8,
            0u8,
            1u8,
        ],
{
    let one = seq![0u8, 0u8, 0u8, 0u8, 0u8, 0u8, 0u8, 0u8, 0u8, 0u8, 0u8, 0u8, 0u8, 0u8, 0u8, 1u8];
    if is_loopback_view(NodeAddrView::V6 { ip, port }) {
        assert forall|i: int| 0 <= i < 16 implies ip[i] == one[i] by {
            assert(ip[i] == (if i == 15 { 1u8 } else { 0u8 }));
        }
        assert(ip =~= one);
    }
    if ip == one {
        assert forall|i: int| 0 <= i < 16 implies ip[i] == (if i == 15 { 1u8 } else { 0u8 }) by {}
    }
}

/// An IPv4 address is loopback exactly when it lies in `127.0.0.0/8`.
pub proof fn lemma_v4_loopback_is_127(ip: Seq<u8>, port: u16)
    requires
        ip.len() == 4,
    ensures
        is_loopback_view(NodeAddrView::V4 { ip, port }) <==> ip[0] == 127u8,
{
}

} // verus!
