use kadnet::consts::ALPHA;
use kadnet::network::addr::NodeAddr;
use kadnet::network::errors::NetworkError;
use kadnet::network::rpc::message::Rpc;
use kadnet::network::tcp::{dispatch, rpc_from_read, ConnectionAction};
use kadnet::primitives::U256;

fn id_with(first: u8, last: u8) -> U256 {
    let mut bytes = [0u8; 32];
    bytes[0] = first;
    bytes[31] = last;
    U256::from_bytes(bytes)
}

fn same(a: &Rpc, b: &Rpc) -> bool {
    a.as_bytes() == b.as_bytes()
}

#[test]
fn ping_encoding() {
    let bytes = Rpc::Ping([1, 2, 3, 4]).as_bytes();
    assert_eq!(bytes, vec![0, 1, 2, 3, 4]);
}

#[test]
fn tags_of_every_message() {
    let t = [9, 8, 7, 6];
    let id = id_with(0xAB, 0xCD);
    let cases: Vec<(Rpc, u8)> = vec![
        (Rpc::Ping(t), 0),
        (Rpc::Pong(t), 1),
        (Rpc::FindNode(t, id), 2),
        (Rpc::FoundNodes(t, vec![]), 3),
        (Rpc::FindValue(t, id), 4),
        (Rpc::FoundValue(t, id, vec![1]), 5),
        (Rpc::StoreValue(t, vec![1]), 6),
        (Rpc::Ack(t), 7),
        (Rpc::Error(t), 8),
    ];
    for (rpc, tag) in cases {
        let bytes = rpc.as_bytes();
        assert_eq!(bytes[0], tag);
        assert_eq!(&bytes[1..5], &t[..]);
    }
}

#[test]
fn find_node_encoding() {
    let id = id_with(0x80, 0x01);
    let bytes = Rpc::FindNode([0, 0, 0, 1], id).as_bytes();
    assert_eq!(bytes.len(), 37);
    assert_eq!(bytes[5], 0x80);
    assert_eq!(bytes[36], 0x01);
}

#[test]
fn store_value_encoding_has_big_endian_length() {
    let value: Vec<u8> = (0..300u32).map(|i| (i % 251) as u8).collect();
    let bytes = Rpc::StoreValue([1, 1, 1, 1], value.clone()).as_bytes();
    assert_eq!(&bytes[5..9], &[0, 0, 1, 44]);
    assert_eq!(&bytes[9..], &value[..]);
}

#[test]
fn found_value_encoding() {
    let key = id_with(5, 6);
    let bytes = Rpc::FoundValue([2, 2, 2, 2], key, vec![7, 8, 9]).as_bytes();
    assert_eq!(bytes.len(), 44);
    assert_eq!(&bytes[37..41], &[0, 0, 0, 3]);
    assert_eq!(&bytes[41..], &[7, 8, 9]);
}

#[test]
fn found_nodes_encoding() {
    let id = id_with(1, 2);
    let nodes = vec![
        (id, NodeAddr::V4 { ip: [10, 0, 0, 1], port: 0x1234 }),
        (id, NodeAddr::V6 { ip: [0xfe; 16], port: 80 }),
    ];
    let bytes = Rpc::FoundNodes([3, 3, 3, 3], nodes).as_bytes();
    assert_eq!(bytes[5], 2);
    assert_eq!(bytes.len(), 6 + (32 + 1 + 4 + 2) + (32 + 1 + 16 + 2));
    assert_eq!(&bytes[38..45], &[4, 10, 0, 0, 1, 0x12, 0x34]);
    assert_eq!(bytes[77], 6);
    assert_eq!(&bytes[94..96], &[0, 80]);
}

#[test]
fn roundtrip_of_every_message() {
    let t = [4, 3, 2, 1];
    let id = id_with(0xFF, 0x00);
    let cases = vec![
        Rpc::Ping(t),
        Rpc::Pong(t),
        Rpc::FindNode(t, id),
        Rpc::FindValue(t, id),
        Rpc::FoundValue(t, id, vec![]),
        Rpc::FoundValue(t, id, vec![1, 2, 3]),
        Rpc::StoreValue(t, vec![]),
        Rpc::StoreValue(t, vec![42; 1000]),
        Rpc::Ack(t),
        Rpc::Error(t),
        Rpc::FoundNodes(t, vec![(id, NodeAddr::V4 { ip: [127, 0, 0, 1], port: 5734 })]),
        Rpc::FoundNodes(
            t,
            vec![
                (id, NodeAddr::V6 { ip: [0xfe; 16], port: 80 }),
                (id_with(1, 2), NodeAddr::V4 { ip: [10, 0, 0, 1], port: 1 }),
                (id_with(3, 4), NodeAddr::V6 { ip: [1; 16], port: 65535 }),
            ],
        ),
    ];
    for rpc in cases {
        let decoded = Rpc::from_bytes(&rpc.as_bytes()).expect("decodes");
        assert!(same(&decoded, &rpc));
    }
}

#[test]
fn found_nodes_reply_is_read_back() {
    let mut bytes = vec![3, 0, 0, 0, 1, 1];
    bytes.extend_from_slice(&[0u8; 32]);
    bytes.extend_from_slice(&[0x04, 127, 0, 0, 1, 0x16, 0x66]);
    assert_eq!(Rpc::FoundNodes([0, 0, 0, 1], vec![(U256::zero(), NodeAddr::V4 { ip: [127, 0, 0, 1], port: 5734 })]).as_bytes(), bytes);
    match Rpc::from_bytes(&bytes) {
        Some(Rpc::FoundNodes(t, nodes)) => {
            assert_eq!(t, [0, 0, 0, 1]);
            assert_eq!(nodes.len(), 1);
            assert!(nodes[0].0.is_zero());
            match nodes[0].1 {
                NodeAddr::V4 { ip, port } => {
                    assert_eq!(ip, [127, 0, 0, 1]);
                    assert_eq!(port, 5734);
                }
                _ => panic!("expected an IPv4 address"),
            }
        }
        _ => panic!("expected a FoundNodes reply"),
    }
}

#[test]
fn found_nodes_with_truncated_address_is_refused() {
    let mut bytes = vec![3, 0, 0, 0, 1, 1];
    bytes.extend_from_slice(&[0u8; 32]);
    bytes.extend_from_slice(&[0x06, 1, 2, 3]);
    assert!(Rpc::from_bytes(&bytes).is_none());
}

#[test]
fn found_nodes_unknown_tag_ends_list() {
    let mut bytes = vec![3, 0, 0, 0, 0, 1];
    bytes.extend_from_slice(&[9u8; 32]);
    bytes.push(0x05);
    match Rpc::from_bytes(&bytes) {
        Some(Rpc::FoundNodes(_, nodes)) => assert!(nodes.is_empty()),
        _ => panic!("expected an empty FoundNodes"),
    }
}

#[test]
fn found_nodes_count_is_checked() {
    let mut zero = vec![3, 0, 0, 0, 0, 0];
    zero.extend_from_slice(&[9u8; 33]);
    assert!(Rpc::from_bytes(&zero).is_none());
    let mut too_many = vec![3, 0, 0, 0, 0, (ALPHA + 1) as u8];
    too_many.extend_from_slice(&[9u8; 33]);
    assert!(Rpc::from_bytes(&too_many).is_none());
    assert!(Rpc::from_bytes(&[3, 0, 0, 0, 0, 1]).is_none());
}

#[test]
fn short_and_unknown_inputs_are_refused() {
    assert!(Rpc::from_bytes(&[]).is_none());
    assert!(Rpc::from_bytes(&[0, 1, 2, 3]).is_none());
    assert!(Rpc::from_bytes(&[9, 0, 0, 0, 0]).is_none());
    assert!(Rpc::from_bytes(&[2, 0, 0, 0, 0, 1, 2]).is_none());
}

#[test]
fn trailing_bytes_after_ping_are_ignored() {
    match Rpc::from_bytes(&[0, 5, 6, 7, 8, 99, 99]) {
        Some(Rpc::Ping(t)) => assert_eq!(t, [5, 6, 7, 8]),
        _ => panic!("expected a ping"),
    }
}

#[test]
fn value_length_must_match() {
    let mut bytes = Rpc::StoreValue([0; 4], vec![1, 2, 3]).as_bytes();
    bytes.push(4);
    assert!(Rpc::from_bytes(&bytes).is_none());
    let mut found = Rpc::FoundValue([0; 4], id_with(1, 1), vec![1, 2]).as_bytes();
    found.pop();
    assert!(Rpc::from_bytes(&found).is_none());
}

#[test]
fn read_outcomes() {
    let buffer = [0u8, 1, 2, 3, 4, 0, 0];
    assert_eq!(rpc_from_read(None, &buffer).err(), Some(NetworkError::Read));
    assert_eq!(rpc_from_read(Some(0), &buffer).err(), Some(NetworkError::Connection));
    assert_eq!(rpc_from_read(Some(3), &buffer).err(), Some(NetworkError::CouldNotParseRPC));
    match rpc_from_read(Some(5), &buffer) {
        Ok(Rpc::Ping(t)) => assert_eq!(t, [1, 2, 3, 4]),
        _ => panic!("expected a ping"),
    }
}

#[test]
fn dispatch_decisions() {
    let t = [1, 2, 3, 4];
    assert!(matches!(dispatch(Ok(Rpc::Ping(t))), ConnectionAction::Pong(x) if x == t));
    assert!(matches!(dispatch(Ok(Rpc::FindNode(t, id_with(1, 1)))), ConnectionAction::FindNode(..)));
    assert!(matches!(dispatch(Ok(Rpc::FindValue(t, id_with(1, 1)))), ConnectionAction::FindValue(..)));
    assert!(matches!(dispatch(Ok(Rpc::StoreValue(t, vec![5]))), ConnectionAction::StoreValue(_, v) if v == vec![5]));
    assert!(matches!(dispatch(Ok(Rpc::Ack(t))), ConnectionAction::ReleaseTransaction(x) if x == t));
    assert!(matches!(dispatch(Ok(Rpc::Error(t))), ConnectionAction::ReleaseTransaction(x) if x == t));
    assert!(matches!(dispatch(Ok(Rpc::Pong(t))), ConnectionAction::Ignore));
    assert!(matches!(dispatch(Err(NetworkError::Read)), ConnectionAction::Ignore));
}

#[test]
fn reencoding_gives_back_the_bytes_read() {
    let mut ping = vec![0, 1, 2, 3, 4, 77, 78];
    let decoded = Rpc::from_bytes(&ping).expect("ping");
    ping.truncate(5);
    assert_eq!(decoded.as_bytes(), ping);

    let mut find = vec![2, 9, 9, 9, 9];
    find.extend_from_slice(&[0x5a; 32]);
    find.push(0xee);
    let decoded = Rpc::from_bytes(&find).expect("find node");
    assert_eq!(decoded.as_bytes(), find[..37].to_vec());

    let store = vec![6, 1, 2, 3, 4, 0, 0, 0, 2, 0xaa, 0xbb];
    let decoded = Rpc::from_bytes(&store).expect("store");
    assert_eq!(decoded.as_bytes(), store);
}
