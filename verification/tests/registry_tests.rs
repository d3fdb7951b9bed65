use presence_registry::protocol::{ClientInfo, NetAddress};
use presence_registry::registry::Registry;

fn addr(ip: u128, port: u16) -> NetAddress {
    NetAddress { ip, port }
}

fn info(ip: u128, label: &[u8], last_seen: u64) -> ClientInfo {
    ClientInfo { address: addr(ip, 9000), device_type: label.to_vec(), last_seen }
}

#[test]
fn insert_then_lookup() {
    let mut reg = Registry::new();
    reg.insert(7, info(1, b"Desktop", 10));
    let found = reg.lookup(7).expect("inserted identity must be found");
    assert_eq!(found.address, addr(1, 9000));
    assert_eq!(found.device_type, b"Desktop".to_vec());
    assert_eq!(found.last_seen, 10);
    assert!(reg.lookup(8).is_none());
}

#[test]
fn insert_overwrites_whole_record() {
    let mut reg = Registry::new();
    reg.insert(7, info(1, b"Desktop", 10));
    reg.insert(7, info(2, b"Phone", 20));
    let found = reg.lookup(7).expect("identity must still be present");
    assert_eq!(found.address, addr(2, 9000));
    assert_eq!(found.device_type, b"Phone".to_vec());
    assert_eq!(found.last_seen, 20);
    assert_eq!(reg.snapshot_identities(), vec![7u128]);
}

#[test]
fn touch_refreshes_known_identity() {
    let mut reg = Registry::new();
    reg.insert(7, info(1, b"Desktop", 10));
    assert!(reg.touch(7, 30));
    let found = reg.lookup(7).expect("touched identity must remain");
    assert_eq!(found.last_seen, 30);
    assert_eq!(found.device_type, b"Desktop".to_vec());
}

#[test]
fn touch_unknown_identity_changes_nothing() {
    let mut reg = Registry::new();
    reg.insert(7, info(1, b"Desktop", 10));
    assert!(!reg.touch(99, 30));
    assert_eq!(reg.snapshot_identities(), vec![7u128]);
    assert_eq!(reg.lookup(7).unwrap().last_seen, 10);
}

#[test]
fn repeated_touch_is_idempotent_on_key_set() {
    let mut reg = Registry::new();
    reg.insert(1, info(1, b"A", 0));
    reg.insert(2, info(2, b"B", 0));
    for t in [5u64, 6, 7, 7, 8] {
        assert!(reg.touch(1, t));
    }
    let mut ids = reg.snapshot_identities();
    ids.sort();
    assert_eq!(ids, vec![1u128, 2]);
    assert_eq!(reg.lookup(1).unwrap().last_seen, 8);
    assert_eq!(reg.lookup(2).unwrap().last_seen, 0);
    assert_eq!(reg.lookup(1).unwrap().device_type, b"A".to_vec());
}

#[test]
fn snapshot_lists_each_identity_once() {
    let mut reg = Registry::new();
    for id in [3u128, 1, 2] {
        reg.insert(id, info(id, b"X", 0));
    }
    reg.insert(2, info(9, b"Y", 1));
    let mut ids = reg.snapshot_identities();
    ids.sort();
    assert_eq!(ids, vec![1u128, 2, 3]);
}

#[test]
fn sweep_evicts_only_stale_records() {
    let mut reg = Registry::new();
    reg.insert(1, info(1, b"old", 0));
    reg.insert(2, info(2, b"fresh", 10));
    // TTL 15 at time 16: the record last seen at 0 is 16 old and goes,
    // the one last seen at 10 is 6 old and stays.
    let removed = reg.sweep(15, 16);
    assert_eq!(removed, vec![1u128]);
    assert!(reg.lookup(1).is_none());
    let kept = reg.lookup(2).expect("fresh record must survive");
    assert_eq!(kept.device_type, b"fresh".to_vec());
    assert_eq!(kept.last_seen, 10);
}

#[test]
fn sweep_keeps_record_touched_within_ttl() {
    let mut reg = Registry::new();
    reg.insert(1, info(1, b"A", 0));
    assert!(reg.touch(1, 12));
    let removed = reg.sweep(15, 20);
    assert!(removed.is_empty());
    assert_eq!(reg.lookup(1).unwrap().last_seen, 12);
}

#[test]
fn sweep_at_exact_ttl_boundary_keeps_record() {
    let mut reg = Registry::new();
    reg.insert(1, info(1, b"A", 5));
    // age is exactly the TTL: not older than the window, so it stays
    assert!(reg.sweep(15, 20).is_empty());
    // one tick later it is older than the window and goes
    assert_eq!(reg.sweep(15, 21), vec![1u128]);
    assert!(reg.lookup(1).is_none());
}

#[test]
fn sweep_empty_registry_removes_nothing() {
    let mut reg = Registry::new();
    assert!(reg.sweep(15, 1000).is_empty());
    assert!(reg.snapshot_identities().is_empty());
}

#[test]
fn interleaved_operations_leave_whole_records() {
    // a serialized interleaving of inserts, touches and sweeps: every record
    // observable afterwards is one whole write, with at most its stamp
    // refreshed by one touch
    let mut reg = Registry::new();
    reg.insert(1, info(1, b"A", 0));
    reg.insert(2, info(2, b"B", 1));
    reg.touch(1, 9);
    reg.insert(3, info(3, b"C", 10));
    reg.sweep(15, 17);
    reg.touch(2, 18);
    let a = reg.lookup(1).expect("touched within window");
    assert_eq!((a.address, a.device_type.clone(), a.last_seen), (addr(1, 9000), b"A".to_vec(), 9));
    let b = reg.lookup(2);
    // record 2 was 16 old at the sweep and was evicted; the later touch missed
    assert!(b.is_none());
    let c = reg.lookup(3).expect("young record survives");
    assert_eq!((c.address, c.device_type.clone(), c.last_seen), (addr(3, 9000), b"C".to_vec(), 10));
}
