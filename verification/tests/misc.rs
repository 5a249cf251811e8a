use kadnet::network::addr::NodeAddr;
use kadnet::node::bootstrap::{bootstrap_targets, bootstraps_address, is_own_address_exec};
use kadnet::node::errors::NodeError;
use kadnet::routing::errors::IdError;
use kadnet::storage::LocalStorage;

#[test]
fn loopback_addresses() {
    assert!(NodeAddr::V4 { ip: [127, 0, 0, 1], port: 1 }.is_loopback());
    assert!(NodeAddr::V4 { ip: [127, 9, 9, 9], port: 1 }.is_loopback());
    assert!(!NodeAddr::V4 { ip: [10, 0, 0, 1], port: 1 }.is_loopback());
    let mut one = [0u8; 16];
    one[15] = 1;
    assert!(NodeAddr::V6 { ip: one, port: 1 }.is_loopback());
    assert!(!NodeAddr::V6 { ip: [0; 16], port: 1 }.is_loopback());
    assert_eq!(NodeAddr::V6 { ip: one, port: 9 }.port(), 9);
}

#[test]
fn bootstrap_node_skips_itself() {
    let all = bootstraps_address();
    assert_eq!(all.len(), 1);
    assert!(bootstrap_targets(&all, 5734).is_empty());
    assert_eq!(bootstrap_targets(&all, 5735).len(), 1);
    assert!(is_own_address_exec(&all[0].1, 5734));
    assert!(!is_own_address_exec(&NodeAddr::V4 { ip: [192, 168, 0, 1], port: 5734 }, 5734));
}

#[test]
fn node_error_wraps_id_error() {
    assert_eq!(NodeError::IdError(IdError), NodeError::IdError(IdError));
    let _ = LocalStorage::new();
}
