use kadnet::network::rpc::id::{
    cleanup_expired, generate_id, ids, new_tid, remove_tid, TRANSACTION_TIMEOUT_NANOS,
};
use kadnet::utils::rng::{bytes_from_words, random_fill};

#[test]
fn issued_ids_are_distinct_and_released_once() {
    let mut table = ids();
    let a = new_tid(&mut table, 10);
    let b = new_tid(&mut table, 20);
    assert_ne!(a, b);
    assert!(remove_tid(&mut table, &a));
    assert!(!remove_tid(&mut table, &a));
    assert!(remove_tid(&mut table, &b));
}

#[test]
fn release_of_unknown_id() {
    let mut table = ids();
    assert!(!remove_tid(&mut table, &[1, 2, 3, 4]));
}

#[test]
fn cleanup_drops_only_expired() {
    let mut table = ids();
    let old = new_tid(&mut table, 0);
    let young = new_tid(&mut table, TRANSACTION_TIMEOUT_NANOS);
    cleanup_expired(&mut table, TRANSACTION_TIMEOUT_NANOS);
    assert!(!remove_tid(&mut table, &old));
    assert!(remove_tid(&mut table, &young));
}

#[test]
fn cleanup_keeps_one_nanosecond_short() {
    let mut table = ids();
    let id = new_tid(&mut table, 1);
    cleanup_expired(&mut table, TRANSACTION_TIMEOUT_NANOS);
    assert!(remove_tid(&mut table, &id));
}

#[test]
fn cleanup_keeps_future_reservations() {
    let mut table = ids();
    let id = new_tid(&mut table, 5 * TRANSACTION_TIMEOUT_NANOS);
    cleanup_expired(&mut table, 0);
    assert!(remove_tid(&mut table, &id));
}

#[test]
fn many_ids_are_distinct() {
    let mut table = ids();
    let mut seen = Vec::new();
    for i in 0..500u64 {
        let id = new_tid(&mut table, i);
        assert!(!seen.contains(&id));
        seen.push(id);
    }
}

#[test]
fn random_fill_fills() {
    let mut buf = [0u8; 64];
    random_fill(&mut buf);
    assert!(buf.iter().any(|b| *b != 0));
    let mut other = [0u8; 64];
    random_fill(&mut other);
    assert_ne!(buf, other);
    let _ = generate_id();
}

#[test]
fn words_spread_least_significant_byte_first() {
    let words = vec![0x0807_0605_0403_0201u64, 0x0000_0000_0000_0a09u64];
    assert_eq!(bytes_from_words(&words, 10), vec![1, 2, 3, 4, 5, 6, 7, 8, 9, 10]);
    assert_eq!(bytes_from_words(&words, 3), vec![1, 2, 3]);
    assert!(bytes_from_words(&words, 0).is_empty());
}

#[test]
fn random_fill_keeps_length_of_odd_buffers() {
    let mut buf = [0u8; 13];
    random_fill(&mut buf);
    let mut empty: [u8; 0] = [];
    random_fill(&mut empty);
}
