use vstd::prelude::*;
use vstd::slice::slice_subrange;
use crate::consts::ALPHA;
use crate::network::addr::{NodeAddr, NodeAddrView};
use crate::primitives::U256;

verus! {

/// Four bytes that pair a request with its reply.
pub type TransactionId = [u8; 4];

/// A message of the node-to-node protocol.
#[derive(Debug, Clone)]
pub enum Rpc {
    Ping(TransactionId),
    Pong(TransactionId),
    FindNode(TransactionId, U256),
    FoundNodes(TransactionId, Vec<(U256, NodeAddr)>),
    FindValue(TransactionId, U256),
    FoundValue(TransactionId, U256, Vec<u8>),
    StoreValue(TransactionId, Vec<u8>),
    Ack(TransactionId),
    Error(TransactionId),
}

/// What an `Rpc` denotes: transaction ids and identifiers as byte strings.
pub enum RpcView {
    Ping(Seq<u8>),
    Pong(Seq<u8>),
    FindNode(Seq<u8>, Seq<u8>),
    FoundNodes(Seq<u8>, Seq<(Seq<u8>, NodeAddrView)>),
    FindValue(Seq<u8>, Seq<u8>),
    FoundValue(Seq<u8>, Seq<u8>, Seq<u8>),
    StoreValue(Seq<u8>, Seq<u8>),
    Ack(Seq<u8>),
    Error(Seq<u8>),
}

pub open spec fn peer_view(p: (U256, NodeAddr)) -> (Seq<u8>, NodeAddrView) {
    (p.0@, p.1@)
}

pub open spec fn peers_view(ps: Seq<(U256, NodeAddr)>) -> Seq<(Seq<u8>, NodeAddrView)> {
    ps.map_values(|p: (U256, NodeAddr)| peer_view(p))
}

impl View for Rpc {
    type V = RpcView;

    open spec fn view(&self) -> RpcView {
        match self {
            Rpc::Ping(t) => RpcView::Ping(t@),
            Rpc::Pong(t) => RpcView::Pong(t@),
            Rpc::FindNode(t, id) => RpcView::FindNode(t@, id@),
            Rpc::FoundNodes(t, ps) => RpcView::FoundNodes(t@, peers_view(ps@)),
            Rpc::FindValue(t, id) => RpcView::FindValue(t@, id@),
            Rpc::FoundValue(t, k, v) => RpcView::FoundValue(t@, k@, v@),
            Rpc::StoreValue(t, v) => RpcView::StoreValue(t@, v@),
            Rpc::Ack(t) => RpcView::Ack(t@),
            Rpc::Error(t) => RpcView::Error(t@),
        }
    }
}

// ---------------------------------------------------------------------------
// The wire format
// ---------------------------------------------------------------------------

/// Big-endian encoding of a 16-bit integer.
pub open spec fn be16(x: u16) -> Seq<u8> {
    seq![(x / 256) as u8, (x % 256) as u8]
}

/// Big-endian encoding of a 32-bit integer.
pub open spec fn be32(x: u32) -> Seq<u8> {
    seq![(x / 0x100_0000) as u8, ((x / 0x1_0000) % 256) as u8, ((x / 256) % 256) as u8, (x % 256) as u8]
}

/// The 16-bit integer that `s[i], s[i + 1]` encode, most significant first.
pub open spec fn read_be16(s: Seq<u8>, i: int) -> u16 {
    (s[i] * 256 + s[i + 1]) as u16
}

/// The 32-bit integer that `s[i..i + 4]` encodes, most significant first.
pub open spec fn read_be32(s: Seq<u8>, i: int) -> nat {
    (s[i] * 0x100_0000 + s[i + 1] * 0x1_0000 + s[i + 2] * 256 + s[i + 3]) as nat
}

/// Address tag, octets, port.
pub open spec fn addr_bytes(a: NodeAddrView) -> Seq<u8> {
    match a {
        NodeAddrView::V4 { ip, port } => seq![4u8] + ip + be16(port),
        NodeAddrView::V6 { ip, port } => seq![6u8] + ip + be16(port),
    }
}

/// Identifier followed by the address.
pub open spec fn peer_bytes(p: (Seq<u8>, NodeAddrView)) -> Seq<u8> {
    p.0 + addr_bytes(p.1)
}

/// The peers' encodings, one after the other.
pub open spec fn peers_bytes(ps: Seq<(Seq<u8>, NodeAddrView)>) -> Seq<u8>
    decreases ps.len(),
{
    if ps.len() == 0 {
        Seq::empty()
    } else {
        peers_bytes(ps.drop_last()) + peer_bytes(ps.last())
    }
}

/// The bytes that `as_bytes` produces for a message: a tag byte, the
/// transaction id, then the payload.
pub open spec fn rpc_bytes(m: RpcView) -> Seq<u8> {
    match m {
        RpcView::Ping(t) => seq![0u8] + t,
        RpcView::Pong(t) => seq![1u8] + t,
        RpcView::FindNode(t, id) => seq![2u8] + t + id,
        RpcView::FoundNodes(t, ps) => seq![3u8] + t + seq![ps.len() as u8] + peers_bytes(ps),
        RpcView::FindValue(t, id) => seq![4u8] + t + id,
        RpcView::FoundValue(t, k, v) => seq![5u8] + t + k + be32(v.len() as u32) + v,
        RpcView::StoreValue(t, v) => seq![6u8] + t + be32(v.len() as u32) + v,
        RpcView::Ack(t) => seq![7u8] + t,
        RpcView::Error(t) => seq![8u8] + t,
    }
}

/// An IPv4 address: four octets and a port.
pub open spec fn parse_ipv4(s: Seq<u8>) -> Option<NodeAddrView> {
    if s.len() < 6 {
        None
    } else {
        Some(NodeAddrView::V4 { ip: s.subrange(0, 4), port: read_be16(s, 4) })
    }
}

/// An IPv6 address: sixteen octets and a port.
pub open spec fn parse_ipv6(s: Seq<u8>) -> Option<NodeAddrView> {
    if s.len() < 18 {
        None
    } else {
        Some(NodeAddrView::V6 { ip: s.subrange(0, 16), port: read_be16(s, 16) })
    }
}

pub open spec fn prepend_peer(
    p: (Seq<u8>, NodeAddrView),
    rest: Option<Seq<(Seq<u8>, NodeAddrView)>>,
) -> Option<Seq<(Seq<u8>, NodeAddrView)>> {
    match rest {
        Some(ps) => Some(seq![p] + ps),
        None => None,
    }
}

/// The list of peers in a `FoundNodes` payload. An entry is a 32-byte
/// identifier, an address tag (`4` or `6`) and the address: its octets and
/// its port. Reading resumes behind the address; an unknown tag ends the
/// list.
pub open spec fn parse_peers(s: Seq<u8>) -> Option<Seq<(Seq<u8>, NodeAddrView)>>
    decreases s.len(),
{
    if s.len() == 0 {
        Some(Seq::empty())
    } else if s.len() <= 32 {
        None
    } else {
        let id = s.subrange(0, 32);
        let rest = s.skip(33);
        if s[32] == 4 {
            match parse_ipv4(rest) {
                Some(a) => prepend_peer((id, a), parse_peers(rest.skip(6))),
                None => None,
            }
        } else if s[32] == 6 {
            match parse_ipv6(rest) {
                Some(a) => prepend_peer((id, a), parse_peers(rest.skip(18))),
                None => None,
            }
        } else {
            Some(Seq::empty())
        }
    }
}

/// The message that `from_bytes` reads from `b`, if any.
pub open spec fn parse_rpc(b: Seq<u8>) -> Option<RpcView> {
    if b.len() < 5 {
        None
    } else {
        let t = b.subrange(1, 5);
        if b[0] == 0 {
            Some(RpcView::Ping(t))
        } else if b[0] == 1 {
            Some(RpcView::Pong(t))
        } else if b[0] == 2 {
            if b.len() < 37 { None } else { Some(RpcView::FindNode(t, b.subrange(5, 37))) }
        } else if b[0] == 3 {
            if b.len() <= 6 || b[5] == 0 || b[5] > ALPHA {
                None
            } else {
                match parse_peers(b.skip(6)) {
                    Some(ps) => Some(RpcView::FoundNodes(t, ps)),
                    None => None,
                }
            }
        } else if b[0] == 4 {
            if b.len() < 37 { None } else { Some(RpcView::FindValue(t, b.subrange(5, 37))) }
        } else if b[0] == 5 {
            if b.len() < 41 || b.len() != 41 + read_be32(b, 37) {
                None
            } else {
                Some(RpcView::FoundValue(t, b.subrange(5, 37), b.skip(41)))
            }
        } else if b[0] == 6 {
            if b.len() < 9 || b.len() != 9 + read_be32(b, 5) {
                None
            } else {
                Some(RpcView::StoreValue(t, b.skip(9)))
            }
        } else if b[0] == 7 {
            Some(RpcView::Ack(t))
        } else if b[0] == 8 {
            Some(RpcView::Error(t))
        } else {
            None
        }
    }
}

// ---------------------------------------------------------------------------
// Byte-level helpers
// ---------------------------------------------------------------------------

fn push_all(out: &mut Vec<u8>, src: &[u8])
    ensures
        final(out)@ == old(out)@ + src@,
{
    let mut i: usize = 0;
    while i < src.len()
        invariant
            0 <= i <= src@.len(),
            out@ == old(out)@ + src@.subrange(0, i as int),
        decreases src@.len() - i,
    {
        out.push(src[i]);
        i = i + 1;
        assert(out@ =~= old(out)@ + src@.subrange(0, i as int));
    }
    assert(src@.subrange(0, src@.len() as int) =~= src@);
}

fn push_be16(out: &mut Vec<u8>, x: u16)
    ensures
        final(out)@ == old(out)@ + be16(x),
{
    out.push((x / 256) as u8);
    out.push((x % 256) as u8);
    assert(out@ =~= old(out)@ + be16(x));
}

fn push_be32(out: &mut Vec<u8>, x: u32)
    ensures
        final(out)@ == old(out)@ + be32(x),
{
    out.push((x / 0x100_0000) as u8);
    out.push(((x / 0x1_0000) % 256) as u8);
    out.push(((x / 256) % 256) as u8);
    out.push((x % 256) as u8);
    assert(out@ =~= old(out)@ + be32(x));
}

fn push_addr(out: &mut Vec<u8>, addr: &NodeAddr)
    ensures
        final(out)@ == old(out)@ + addr_bytes(addr@),
{
    match addr {
        NodeAddr::V4 { ip, port } => {
            out.push(4u8);
            push_all(out, ip.as_slice());
            push_be16(out, *port);
        },
        NodeAddr::V6 { ip, port } => {
            out.push(6u8);
            push_all(out, ip.as_slice());
            push_be16(out, *port);
        },
    }
    assert(out@ =~= old(out)@ + addr_bytes(addr@));
}

/// Copies `dst.len()` bytes of `src` from `start` on into `dst`.
fn copy_from(dst: &mut [u8], src: &[u8], start: usize)
    requires
        start + old(dst)@.len() <= src@.len(),
    ensures
        final(dst)@ == src@.subrange(start as int, start + old(dst)@.len()),
{
    let n = dst.len();
    let m = src.len();
    let mut i: usize = 0;
    while i < n
        invariant
            0 <= i <= n,
            m == src@.len(),
            n == old(dst)@.len(),
            dst@.len() == n,
            start + n <= src@.len(),
            forall|j: int| 0 <= j < i ==> dst@[j] == src@[start + j],
        decreases n - i,
    {
        dst[i] = src[start + i];
        i = i + 1;
    }
    assert(dst@ =~= src@.subrange(start as int, start + n));
}

fn read_be16_at(s: &[u8], i: usize) -> (r: u16)
    requires
        i + 2 <= s@.len(),
    ensures
        r == read_be16(s@, i as int),
{
    (s[i] as u16) * 256 + (s[i + 1] as u16)
}

fn read_be32_at(s: &[u8], i: usize) -> (r: u32)
    requires
        i + 4 <= s@.len(),
    ensures
        r == read_be32(s@, i as int),
{
    (s[i] as u32) * 0x100_0000 + (s[i + 1] as u32) * 0x1_0000 + (s[i + 2] as u32) * 256 + (
    s[i + 3] as u32)
}

pub open spec fn prepend_peers(
    ps: Seq<(Seq<u8>, NodeAddrView)>,
    rest: Option<Seq<(Seq<u8>, NodeAddrView)>>,
) -> Option<Seq<(Seq<u8>, NodeAddrView)>> {
    match rest {
        Some(r) => Some(ps + r),
        None => None,
    }
}

fn push_peers(out: &mut Vec<u8>, nodes: &Vec<(U256, NodeAddr)>)
    ensures
        final(out)@ == old(out)@ + peers_bytes(peers_view(nodes@)),
{
    let n = nodes.len();
    let mut i: usize = 0;
    assert(peers_view(nodes@.take(0)) =~= Seq::empty());
    while i < n
        invariant
            0 <= i <= n,
            n == nodes@.len(),
            out@ == old(out)@ + peers_bytes(peers_view(nodes@.take(i as int))),
        decreases n - i,
    {
        let id = nodes[i].0;
        let addr = nodes[i].1;
        push_all(out, id.bytes.as_slice());
        push_addr(out, &addr);
        proof {
            let prev = peers_view(nodes@.take(i as int));
            let next = peers_view(nodes@.take(i + 1));
            assert(next.drop_last() =~= prev);
            assert(next.last() == peer_view(nodes@[i as int]));
            assert(out@ =~= old(out)@ + peers_bytes(next));
        }
        i = i + 1;
    }
    assert(nodes@.take(n as int) =~= nodes@);
}

fn parse_ipv4_from(s: &[u8]) -> (r: Option<NodeAddr>)
    ensures
        match r {
            Some(a) => parse_ipv4(s@) == Some(a@),
            None => parse_ipv4(s@) is None,
        },
{
    if s.len() < 6 {
        return None;
    }
    let mut ip = [0u8; 4];
    copy_from(&mut ip, s, 0);
    let port = read_be16_at(s, 4);
    Some(NodeAddr::V4 { ip, port })
}

fn parse_ipv6_from(s: &[u8]) -> (r: Option<NodeAddr>)
    ensures
        match r {
            Some(a) => parse_ipv6(s@) == Some(a@),
            None => parse_ipv6(s@) is None,
        },
{
    if s.len() < 18 {
        return None;
    }
    let mut ip = [0u8; 16];
    copy_from(&mut ip, s, 0);
    let port = read_be16_at(s, 16);
    Some(NodeAddr::V6 { ip, port })
}

/// Reads an identifier from the first 32 bytes of `s`.
fn parse_id(s: &[u8]) -> (r: Option<U256>)
    ensures
        match r {
            Some(id) => s@.len() >= 32 && id@ == s@.subrange(0, 32),
            None => s@.len() < 32,
        },
{
    if s.len() < 32 {
        return None;
    }
    let mut target_bytes = [0u8; 32];
    copy_from(&mut target_bytes, s, 0);
    Some(U256::from_bytes(target_bytes))
}

fn parse_peers_from(s: &[u8]) -> (r: Option<Vec<(U256, NodeAddr)>>)
    ensures
        match r {
            Some(ps) => parse_peers(s@) == Some(peers_view(ps@)),
            None => parse_peers(s@) is None,
        },
{
    let n = s.len();
    let mut nodes: Vec<(U256, NodeAddr)> = Vec::new();
    let mut i: usize = 0;
    proof {
        assert(s@.skip(0) =~= s@);
        assert(peers_view(nodes@) =~= Seq::empty());
        assert(Seq::<(Seq<u8>, NodeAddrView)>::empty() + Seq::empty() =~= Seq::<(Seq<u8>, NodeAddrView)>::empty());
        match parse_peers(s@) {
            Some(ps) => { assert(Seq::<(Seq<u8>, NodeAddrView)>::empty() + ps =~= ps); },
            None => {},
        }
    }
    while i < n
        invariant
            0 <= i <= n,
            n == s@.len(),
            parse_peers(s@) == prepend_peers(peers_view(nodes@), parse_peers(s@.skip(i as int))),
        decreases n - i,
    {
        let ghost tail = s@.skip(i as int);
        if n - i < 32 {
            return None;
        }
        let mut id_bytes = [0u8; 32];
        copy_from(&mut id_bytes, s, i);
        let id = U256::from_bytes(id_bytes);
        if n - i == 32 {
            return None;
        }
        let addr_type = s[i + 32];
        let rest = slice_subrange(s, i + 33, n);
        proof {
            assert(tail.subrange(0, 32) =~= id@);
            assert(tail[32] == addr_type);
            assert(tail.skip(33) =~= rest@);
            assert(s@.skip(i + 33) =~= rest@);
        }
        let (addr, width) = if addr_type == 4 {
            match parse_ipv4_from(rest) {
                Some(a) => (a, 6usize),
                None => {
                    return None;
                },
            }
        } else if addr_type == 6 {
            match parse_ipv6_from(rest) {
                Some(a) => (a, 18usize),
                None => {
                    return None;
                },
            }
        } else {
            proof {
                assert(peers_view(nodes@) + Seq::empty() =~= peers_view(nodes@));
            }
            return Some(nodes);
        };
        let ghost next = rest@.skip(width as int);
        let ghost before = peers_view(nodes@);
        nodes.push((id, addr));
        proof {
            let p = (id@, addr@);
            assert(peers_view(nodes@) =~= before.push(p));
            assert(parse_peers(tail) == prepend_peer(p, parse_peers(next)));
            match parse_peers(next) {
                Some(r) => {
                    assert(before + (seq![p] + r) =~= before.push(p) + r);
                },
                None => {},
            }
            assert(s@.skip(i + 33 + width) =~= next);
        }
        i = i + 33 + width;
    }
    proof {
        assert(s@.skip(n as int) =~= Seq::<u8>::empty());
        assert(peers_view(nodes@) + Seq::empty() =~= peers_view(nodes@));
    }
    Some(nodes)
}

impl Rpc {
    /// Encodes the message: a tag byte, the transaction id, then the payload.
    pub fn as_bytes(&self) -> (r: Vec<u8>)
        ensures
            r@ == rpc_bytes(self@),
    {
        let mut bytes: Vec<u8> = Vec::new();
        match self {
            Rpc::Ping(tx_id) => {
                bytes.push(0u8);
                push_all(&mut bytes, tx_id.as_slice());
            },
            Rpc::Pong(tx_id) => {
                bytes.push(1u8);
                push_all(&mut bytes, tx_id.as_slice());
            },
            Rpc::FindNode(tx_id, target) => {
                bytes.push(2u8);
                push_all(&mut bytes, tx_id.as_slice());
                push_all(&mut bytes, target.bytes.as_slice());
            },
            Rpc::FoundNodes(tx_id, nodes) => {
                bytes.push(3u8);
                push_all(&mut bytes, tx_id.as_slice());
                bytes.push(nodes.len() as u8);
                push_peers(&mut bytes, nodes);
            },
            Rpc::FindValue(tx_id, target) => {
                bytes.push(4u8);
                push_all(&mut bytes, tx_id.as_slice());
                push_all(&mut bytes, target.bytes.as_slice());
            },
            Rpc::FoundValue(tx_id, key, value) => {
                bytes.push(5u8);
                push_all(&mut bytes, tx_id.as_slice());
                push_all(&mut bytes, key.bytes.as_slice());
                push_be32(&mut bytes, value.len() as u32);
                push_all(&mut bytes, value.as_slice());
            },
            Rpc::StoreValue(tx_id, value) => {
                bytes.push(6u8);
                push_all(&mut bytes, tx_id.as_slice());
                push_be32(&mut bytes, value.len() as u32);
                push_all(&mut bytes, value.as_slice());
            },
            Rpc::Ack(tx_id) => {
                bytes.push(7u8);
                push_all(&mut bytes, tx_id.as_slice());
            },
            Rpc::Error(tx_id) => {
                bytes.push(8u8);
                push_all(&mut bytes, tx_id.as_slice());
            },
        }
        assert(bytes@ =~= rpc_bytes(self@));
        bytes
    }

    /// Decodes a message; `None` where the bytes are not one.
    pub fn from_bytes(bytes: &[u8]) -> (r: Option<Rpc>)
        ensures
            match r {
                Some(m) => parse_rpc(bytes@) == Some(m@),
                None => parse_rpc(bytes@) is None,
            },
    {
        let n = bytes.len();
        if n < 5 {
            return None;
        }
        let mut tx_id = [0u8; 4];
        copy_from(&mut tx_id, bytes, 1);
        let tag = bytes[0];
        if tag == 0 {
            Some(Rpc::Ping(tx_id))
        } else if tag == 1 {
            Some(Rpc::Pong(tx_id))
        } else if tag == 2 {
            let rest = slice_subrange(bytes, 5, n);
            match parse_id(rest) {
                Some(id) => {
                    assert(id@ =~= bytes@.subrange(5, 37));
                    Some(Rpc::FindNode(tx_id, id))
                },
                None => None,
            }
        } else if tag == 3 {
            Self::parse_found_nodes(tx_id, bytes)
        } else if tag == 4 {
            let rest = slice_subrange(bytes, 5, n);
            match parse_id(rest) {
                Some(id) => {
                    assert(id@ =~= bytes@.subrange(5, 37));
                    Some(Rpc::FindValue(tx_id, id))
                },
                None => None,
            }
        } else if tag == 5 {
            Self::parse_found_value(tx_id, bytes)
        } else if tag == 6 {
            Self::parse_store_value(tx_id, bytes)
        } else if tag == 7 {
            Some(Rpc::Ack(tx_id))
        } else if tag == 8 {
            Some(Rpc::Error(tx_id))
        } else {
            None
        }
    }
    /// The `FoundNodes` message of `bytes`, whose tag says it is one.
    fn parse_found_nodes(tx_id: TransactionId, bytes: &[u8]) -> (r: Option<Rpc>)
        requires
            bytes@.len() >= 5,
            bytes@[0] == 3,
            tx_id@ == bytes@.subrange(1, 5),
        ensures
            match r {
                Some(m) => parse_rpc(bytes@) == Some(m@),
                None => parse_rpc(bytes@) is None,
            },
    {
        let n = bytes.len();
        if n <= 6 || bytes[5] == 0 || bytes[5] > ALPHA as u8 {
            return None;
        }
        let rest = slice_subrange(bytes, 6, n);
        assert(rest@ =~= bytes@.skip(6));
        match parse_peers_from(rest) {
            Some(nodes) => Some(Rpc::FoundNodes(tx_id, nodes)),
            None => None,
        }
    }

    /// The `FoundValue` message of `bytes`, whose tag says it is one.
    fn parse_found_value(tx_id: TransactionId, bytes: &[u8]) -> (r: Option<Rpc>)
        requires
            bytes@.len() >= 5,
            bytes@[0] == 5,
            tx_id@ == bytes@.subrange(1, 5),
        ensures
            match r {
                Some(m) => parse_rpc(bytes@) == Some(m@),
                None => parse_rpc(bytes@) is None,
            },
    {
        let n = bytes.len();
        if n < 41 {
            return None;
        }
        let mut key_bytes = [0u8; 32];
        copy_from(&mut key_bytes, bytes, 5);
        let key = U256::from_bytes(key_bytes);
        let len = read_be32_at(bytes, 37);
        if n - 41 != len as usize {
            return None;
        }
        let value = vstd::slice::slice_to_vec(slice_subrange(bytes, 41, n));
        assert(value@ =~= bytes@.skip(41));
        Some(Rpc::FoundValue(tx_id, key, value))
    }

    /// The `StoreValue` message of `bytes`, whose tag says it is one.
    fn parse_store_value(tx_id: TransactionId, bytes: &[u8]) -> (r: Option<Rpc>)
        requires
            bytes@.len() >= 5,
            bytes@[0] == 6,
            tx_id@ == bytes@.subrange(1, 5),
        ensures
            match r {
                Some(m) => parse_rpc(bytes@) == Some(m@),
                None => parse_rpc(bytes@) is None,
            },
    {
        let n = bytes.len();
        if n < 9 {
            return None;
        }
        let len = read_be32_at(bytes, 5);
        if n - 9 != len as usize {
            return None;
        }
        let value = vstd::slice::slice_to_vec(slice_subrange(bytes, 9, n));
        assert(value@ =~= bytes@.skip(9));
        Some(Rpc::StoreValue(tx_id, value))
    }
}

// ---------------------------------------------------------------------------
// Laws of the wire format
// ---------------------------------------------------------------------------

proof fn lemma_be32_read(x: u32)
    ensures
        read_be32(be32(x), 0) == x,
{
    assert(((x / 0x100_0000) as u8) as u32 * 0x100_0000u32 + (((x / 0x1_0000) % 256) as u8) as u32
        * 0x1_0000u32 + (((x / 256) % 256) as u8) as u32 * 256u32 + ((x % 256) as u8) as u32 == x)
        by (bit_vector);
}

/// The message fits its wire format: a `FoundNodes` reply carries between
/// one and `ALPHA` nodes, and a value's length fits the 32-bit length field.
pub open spec fn lengths_fit(m: RpcView) -> bool {
    match m {
        RpcView::FoundNodes(_, ps) => 1 <= ps.len() <= ALPHA,
        RpcView::FoundValue(_, _, v) => v.len() <= u32::MAX,
        RpcView::StoreValue(_, v) => v.len() <= u32::MAX,
        _ => true,
    }
}

/// A peer as the wire carries it: a 32-byte identifier and an address of
/// 4 or 16 octets.
pub open spec fn peer_wf(p: (Seq<u8>, NodeAddrView)) -> bool {
    &&& p.0.len() == 32
    &&& match p.1 {
        NodeAddrView::V4 { ip, .. } => ip.len() == 4,
        NodeAddrView::V6 { ip, .. } => ip.len() == 16,
    }
}

proof fn lemma_be16_read(x: u16)
    ensures
        read_be16(be16(x), 0) == x,
{
    assert(((x / 256) as u8) as u16 * 256u16 + ((x % 256) as u8) as u16 == x) by (bit_vector);
}

proof fn lemma_peers_bytes_first(ps: Seq<(Seq<u8>, NodeAddrView)>)
    requires
        ps.len() >= 1,
    ensures
        peers_bytes(ps) == peer_bytes(ps[0]) + peers_bytes(ps.drop_first()),
    decreases ps.len(),
{
    if ps.len() == 1 {
        assert(peers_bytes(ps.drop_last()) =~= Seq::<u8>::empty());
        assert(peers_bytes(ps.drop_first()) =~= Seq::<u8>::empty());
        assert(peers_bytes(ps) =~= peer_bytes(ps[0]) + peers_bytes(ps.drop_first()));
    } else {
        let init = ps.drop_last();
        lemma_peers_bytes_first(init);
        assert(init.drop_first() =~= ps.drop_first().drop_last());
        assert(ps.drop_first().last() == ps.last());
        assert(peers_bytes(ps) =~= peer_bytes(ps[0]) + peers_bytes(ps.drop_first()));
    }
}

proof fn lemma_parse_peer_prefix(p: (Seq<u8>, NodeAddrView), rest: Seq<u8>)
    requires
        peer_wf(p),
    ensures
        parse_peers(peer_bytes(p) + rest) == prepend_peer(p, parse_peers(rest)),
{
    let s = peer_bytes(p) + rest;
    assert(s.subrange(0, 32) =~= p.0);
    match p.1 {
        NodeAddrView::V4 { ip, port } => {
            lemma_be16_read(port);
            let r = s.skip(33);
            assert(r =~= ip + be16(port) + rest);
            assert(s[32] == 4);
            assert(r.subrange(0, 4) =~= ip);
            assert(read_be16(r, 4) == read_be16(be16(port), 0));
            assert(r.skip(6) =~= rest);
        },
        NodeAddrView::V6 { ip, port } => {
            lemma_be16_read(port);
            let r = s.skip(33);
            assert(r =~= ip + be16(port) + rest);
            assert(s[32] == 6);
            assert(r.subrange(0, 16) =~= ip);
            assert(read_be16(r, 16) == read_be16(be16(port), 0));
            assert(r.skip(18) =~= rest);
        },
    }
}

/// Reading a list of well-formed peers back from its encoding gives the
/// list.
pub proof fn lemma_parse_peers_bytes(ps: Seq<(Seq<u8>, NodeAddrView)>)
    requires
        forall|i: int| 0 <= i < ps.len() ==> #[trigger] peer_wf(ps[i]),
    ensures
        parse_peers(peers_bytes(ps)) == Some(ps),
    decreases ps.len(),
{
    if ps.len() == 0 {
        assert(peers_bytes(ps) =~= Seq::<u8>::empty());
    } else {
        let tail = ps.drop_first();
        assert forall|i: int| 0 <= i < tail.len() implies #[trigger] peer_wf(tail[i]) by {
            assert(tail[i] == ps[i + 1]);
        }
        lemma_parse_peers_bytes(tail);
        lemma_peers_bytes_first(ps);
        assert(peer_wf(ps[0]));
        lemma_parse_peer_prefix(ps[0], peers_bytes(tail));
        assert(seq![ps[0]] + tail =~= ps);
    }
}

/// Decoding undoes encoding: `from_bytes` applied to the output of
/// `as_bytes` gives the message back, for every message that fits its wire
/// format.
pub proof fn lemma_decode_encode(m: Rpc)
    requires
        lengths_fit(m@),
    ensures
        parse_rpc(rpc_bytes(m@)) == Some(m@),
{
    let b = rpc_bytes(m@);
    match m {
        Rpc::Ping(t) => {
            assert(b.subrange(1, 5) =~= t@);
        },
        Rpc::Pong(t) => {
            assert(b.subrange(1, 5) =~= t@);
        },
        Rpc::FindNode(t, id) => {
            assert(b.subrange(1, 5) =~= t@);
            assert(b.subrange(5, 37) =~= id@);
        },
        Rpc::FindValue(t, id) => {
            assert(b.subrange(1, 5) =~= t@);
            assert(b.subrange(5, 37) =~= id@);
        },
        Rpc::FoundValue(t, k, v) => {
            let x = v@.len() as u32;
            lemma_be32_read(x);
            let e = be32(x);
            assert(b.subrange(1, 5) =~= t@);
            assert(b.subrange(5, 37) =~= k@);
            assert(b.skip(41) =~= v@);
            assert(b[37] == e[0] && b[38] == e[1] && b[39] == e[2] && b[40] == e[3]);
        },
        Rpc::StoreValue(t, v) => {
            let x = v@.len() as u32;
            lemma_be32_read(x);
            let e = be32(x);
            assert(b.subrange(1, 5) =~= t@);
            assert(b.skip(9) =~= v@);
            assert(b[5] == e[0] && b[6] == e[1] && b[7] == e[2] && b[8] == e[3]);
        },
        Rpc::Ack(t) => {
            assert(b.subrange(1, 5) =~= t@);
        },
        Rpc::Error(t) => {
            assert(b.subrange(1, 5) =~= t@);
        },
        Rpc::FoundNodes(t, nodes) => {
            let ps = peers_view(nodes@);
            assert forall|i: int| 0 <= i < ps.len() implies #[trigger] peer_wf(ps[i]) by {
                assert(ps[i] == peer_view(nodes@[i]));
            }
            lemma_parse_peers_bytes(ps);
            assert(b.subrange(1, 5) =~= t@);
            assert(b[5] == ps.len() as u8);
            assert(b.skip(6) =~= peers_bytes(ps));
        },
    }
}

proof fn lemma_be32_write(s: Seq<u8>, i: int)
    requires
        0 <= i,
        i + 4 <= s.len(),
    ensures
        be32(read_be32(s, i) as u32) =~= s.subrange(i, i + 4),
{
    let (a, b, c, d) = (s[i], s[i + 1], s[i + 2], s[i + 3]);
    let x = read_be32(s, i) as u32;
    assert(x == a as u32 * 0x100_0000u32 + b as u32 * 0x1_0000u32 + c as u32 * 256u32 + d as u32);
    assert((((a as u32 * 0x100_0000u32 + b as u32 * 0x1_0000u32 + c as u32 * 256u32 + d as u32)
        / 0x100_0000) as u8) == a) by (bit_vector);
    assert(((((a as u32 * 0x100_0000u32 + b as u32 * 0x1_0000u32 + c as u32 * 256u32 + d as u32)
        / 0x1_0000) % 256) as u8) == b) by (bit_vector);
    assert(((((a as u32 * 0x100_0000u32 + b as u32 * 0x1_0000u32 + c as u32 * 256u32 + d as u32)
        / 256) % 256) as u8) == c) by (bit_vector);
    assert((((a as u32 * 0x100_0000u32 + b as u32 * 0x1_0000u32 + c as u32 * 256u32 + d as u32)
        % 256) as u8) == d) by (bit_vector);
}

/// Encoding undoes decoding: whenever `from_bytes` reads a message other
/// than `FoundNodes` from `b`, `as_bytes` of that message is the prefix of
/// `b` that was read, and all of `b` for `FoundValue` and `StoreValue`.
pub proof fn lemma_encode_decode(b: Seq<u8>)
    requires
        parse_rpc(b) is Some,
        !(parse_rpc(b)->0 is FoundNodes),
    ensures
        rpc_bytes(parse_rpc(b)->0) =~= b.take(rpc_bytes(parse_rpc(b)->0).len() as int),
        (parse_rpc(b)->0 is FoundValue || parse_rpc(b)->0 is StoreValue) ==> rpc_bytes(
            parse_rpc(b)->0,
        ) =~= b,
{
    let m = parse_rpc(b)->0;
    if b[0] == 5 {
        lemma_be32_write(b, 37);
        assert(rpc_bytes(m) =~= b);
    } else if b[0] == 6 {
        lemma_be32_write(b, 5);
        assert(rpc_bytes(m) =~= b);
    }
}

} // verus!
