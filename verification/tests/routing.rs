use kadnet::network::addr::NodeAddr;
use kadnet::primitives::U256;
use kadnet::routing::entry::NodeEntry;
use kadnet::routing::errors::{BucketError, RoutingError};
use kadnet::routing::kbucket::{InsertDecision, KBucket};
use kadnet::routing::table::RoutingTable;

fn id_from(last_two: u16) -> U256 {
    let mut bytes = [0u8; 32];
    bytes[30] = (last_two >> 8) as u8;
    bytes[31] = (last_two & 0xff) as u8;
    U256::from_bytes(bytes)
}

fn entry(last_two: u16) -> NodeEntry {
    NodeEntry::new(id_from(last_two), NodeAddr::V4 { ip: [10, 0, 0, 1], port: last_two }, 1000)
}

fn ids_of(entries: &[NodeEntry]) -> Vec<u8> {
    entries.iter().map(|e| e.id.bytes[31]).collect()
}

#[test]
fn u256_basics() {
    let zero = U256::zero();
    assert!(zero.is_zero());
    assert_eq!(zero.leading_zeros(), 256);
    let one = id_from(1);
    assert_eq!(one.leading_zeros(), 255);
    let mut top = [0u8; 32];
    top[0] = 0x80;
    assert_eq!(U256::from_bytes(top).leading_zeros(), 0);
    let mut mid = [0u8; 32];
    mid[2] = 0x10;
    assert_eq!(U256::from_bytes(mid).leading_zeros(), 19);
    assert!(one.equals(&id_from(1)));
    assert!(!one.equals(&id_from(2)));
    assert_eq!(id_from(3).xor(&id_from(5)).bytes[31], 6);
    assert!(id_from(7).xor(&id_from(7)).is_zero());
}

#[test]
fn entry_starts_with_zero_score() {
    let e = entry(9);
    assert!(e.score.is_zero());
    assert!(e.distance.is_zero());
    assert_eq!(e.respond_time, 1000);
    let mut e2 = e;
    e2.update_respond_time(5);
    assert_eq!(e2.respond_time, 5);
}

#[test]
fn bucket_appends_until_full() {
    let mut b = KBucket::new(2);
    assert!(matches!(b.try_insert(entry(1)), InsertDecision::Inserted));
    assert!(!b.is_full());
    assert!(matches!(b.try_insert(entry(2)), InsertDecision::Inserted));
    assert!(b.is_full());
    match b.try_insert(entry(3)) {
        InsertDecision::PingOldest(oldest) => assert_eq!(oldest.id.bytes[31], 1),
        _ => panic!("expected the oldest entry"),
    }
    assert_eq!(ids_of(&b.snapshot()), vec![1, 2]);
}

#[test]
fn bucket_refresh_moves_entry_to_back() {
    let mut b = KBucket::new(3);
    b.try_insert(entry(1));
    b.try_insert(entry(2));
    b.try_insert(entry(3));
    assert!(matches!(b.try_insert(entry(1)), InsertDecision::Refreshed));
    assert_eq!(ids_of(&b.snapshot()), vec![2, 3, 1]);
    assert_eq!(b.len(), 3);
}

#[test]
fn bucket_remove() {
    let mut b = KBucket::new(3);
    b.try_insert(entry(1));
    b.try_insert(entry(2));
    assert_eq!(b.remove(entry(1)), Ok(()));
    assert_eq!(b.remove(entry(1)), Err(BucketError::NodeNotFound));
    assert_eq!(ids_of(&b.snapshot()), vec![2]);
}

#[test]
fn bucket_force_insert_ignores_capacity() {
    let mut b = KBucket::new(1);
    b.try_insert(entry(1));
    b.force_insert(entry(2));
    assert_eq!(b.len(), 2);
    assert_eq!(b.capacity(), 1);
}

#[test]
fn bucket_ping_results() {
    let mut b = KBucket::new(3);
    b.try_insert(entry(1));
    b.try_insert(entry(2));
    b.update_entry_respond_time(&entry(2), 77);
    assert_eq!(b.snapshot()[1].respond_time, 77);
    b.apply_ping_result(&entry(1), Some(12));
    assert_eq!(b.snapshot()[0].respond_time, 12);
    b.apply_ping_result(&entry(1), None);
    assert_eq!(ids_of(&b.snapshot()), vec![2]);
}

#[test]
fn bucket_of_a_target() {
    let table = RoutingTable::new_from_id(U256::zero());
    assert_eq!(table.find_corresponding_bucket(&U256::zero()), None);
    assert_eq!(table.find_corresponding_bucket(&id_from(1)), Some(0));
    assert_eq!(table.find_corresponding_bucket(&id_from(2)), Some(1));
    assert_eq!(table.find_corresponding_bucket(&id_from(3)), Some(1));
    assert_eq!(table.find_corresponding_bucket(&id_from(0x100)), Some(8));
    let mut top = [0u8; 32];
    top[0] = 0xFF;
    assert_eq!(table.find_corresponding_bucket(&U256::from_bytes(top)), Some(255));
}

#[test]
fn bucket_index_is_symmetric() {
    let a = RoutingTable::new_from_id(id_from(0x1234));
    let b = RoutingTable::new_from_id(id_from(0x0034));
    assert_eq!(a.find_corresponding_bucket(&id_from(0x0034)), Some(12));
    assert_eq!(b.find_corresponding_bucket(&id_from(0x1234)), Some(12));
}

#[test]
fn table_refuses_itself() {
    let mut table = RoutingTable::new_from_id(id_from(1));
    assert_eq!(table.insert(entry(1)).err(), Some(RoutingError::SelfNode));
}

#[test]
fn table_insert_and_refresh() {
    let mut table = RoutingTable::new_from_id(U256::zero());
    // bucket 1 holds distances 2 and 3 and has room for two entries
    assert!(matches!(table.insert(entry(2)), Ok(None)));
    assert!(matches!(table.insert(entry(3)), Ok(None)));
    assert!(matches!(table.insert(entry(1)), Ok(None)));
    assert_eq!(ids_of(&table.bucket_entries(1)), vec![2, 3]);
    assert_eq!(ids_of(&table.bucket_entries(0)), vec![1]);
    assert!(matches!(table.insert(entry(2)), Ok(None)));
    assert_eq!(ids_of(&table.bucket_entries(1)), vec![3, 2]);
}

fn fill_bucket_six(table: &mut RoutingTable) {
    // bucket 6 holds distances 64..128 and has room for 32 entries
    for d in 64..96u16 {
        assert!(matches!(table.insert(entry(d)), Ok(None)));
    }
    assert_eq!(table.bucket_entries(6).len(), 32);
}

#[test]
fn full_bucket_hands_back_eviction() {
    let mut table = RoutingTable::new_from_id(U256::zero());
    fill_bucket_six(&mut table);
    let pending = table.insert(entry(100)).unwrap().expect("eviction");
    assert_eq!(pending.bucket_id, 6);
    assert_eq!(pending.oldest.id.bytes[31], 64);
    assert_eq!(pending.entry.id.bytes[31], 100);
    // the bucket is unchanged until the eviction completes
    assert_eq!(table.bucket_entries(6)[0].id.bytes[31], 64);
    assert_eq!(table.bucket_entries(6).len(), 32);
}

#[test]
fn eviction_of_dead_oldest() {
    let mut table = RoutingTable::new_from_id(U256::zero());
    fill_bucket_six(&mut table);
    let pending = table.insert(entry(100)).unwrap().expect("eviction");
    assert_eq!(table.complete_insert(&pending, false), Ok(()));
    let ids = ids_of(&table.bucket_entries(6));
    assert_eq!(ids.len(), 32);
    assert_eq!(ids[0], 65);
    assert_eq!(ids[31], 100);
    assert!(!ids.contains(&64));
}

#[test]
fn live_oldest_stays() {
    let mut table = RoutingTable::new_from_id(U256::zero());
    fill_bucket_six(&mut table);
    let pending = table.insert(entry(100)).unwrap().expect("eviction");
    assert_eq!(table.complete_insert(&pending, true), Ok(()));
    let ids = ids_of(&table.bucket_entries(6));
    assert_eq!(ids[0], 64);
    assert!(!ids.contains(&100));
}

#[test]
fn eviction_of_vanished_oldest_fails() {
    let mut table = RoutingTable::new_from_id(U256::zero());
    fill_bucket_six(&mut table);
    let pending = table.insert(entry(100)).unwrap().expect("eviction");
    table.record_ping(6, &entry(64), None);
    assert_eq!(
        table.complete_insert(&pending, false),
        Err(RoutingError::BucketError(BucketError::NodeNotFound))
    );
    assert_eq!(table.bucket_entries(6).len(), 31);
}

#[test]
fn record_ping_updates_time() {
    let mut table = RoutingTable::new_from_id(U256::zero());
    assert!(matches!(table.insert(entry(5)), Ok(None)));
    table.record_ping(2, &entry(5), Some(33));
    assert_eq!(table.bucket_entries(2)[0].respond_time, 33);
}

fn distance(a: &U256, b: &U256) -> u16 {
    let d = a.xor(b);
    ((d.bytes[30] as u16) << 8) | d.bytes[31] as u16
}

#[test]
fn xor_distance_is_a_metric() {
    let ids: Vec<U256> = [0u16, 1, 0x00f0, 0x0f0f, 0x1234, 0xffff].iter().map(|v| id_from(*v)).collect();
    for a in &ids {
        assert_eq!(distance(a, a), 0);
        for b in &ids {
            assert_eq!(distance(a, b), distance(b, a));
            for c in &ids {
                assert!(distance(a, c) as u32 <= distance(a, b) as u32 + distance(b, c) as u32);
            }
        }
    }
}
