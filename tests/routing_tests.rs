use kademlia::key::{Distance, Key, ID_BITS};
use kademlia::routing::{NodeInfo, RoutingTable, BUCKET_SIZE};

fn key_of(first: u8, second: u8, last: u8) -> Key {
    let mut b = [0u8; 20];
    b[0] = first;
    b[1] = second;
    b[19] = last;
    Key::from_bytes(b)
}

fn node(id: Key, addr: &str) -> NodeInfo {
    NodeInfo { id, addr: addr.to_string() }
}

#[test]
fn new_table_holds_local_in_last_bucket() {
    let t = RoutingTable::new(node(key_of(0, 0, 0), "127.0.0.1:9000"));
    assert_eq!(t.bucket(ID_BITS - 1).len(), 1);
    assert_eq!(t.bucket(0).len(), 0);
    assert_eq!(t.local().addr, "127.0.0.1:9000");
}

#[test]
fn update_inserts_into_prefix_bucket() {
    let mut t = RoutingTable::new(node(key_of(0, 0, 0), "a"));
    assert!(t.update(node(key_of(0x40, 0, 0), "b")).is_none());
    assert_eq!(t.lookup_bucket_index(key_of(0x40, 0, 0)), 1);
    assert_eq!(t.bucket(1).len(), 1);
    assert_eq!(t.bucket(1)[0].addr, "b");
}

#[test]
fn update_refreshes_known_node_with_new_address() {
    let mut t = RoutingTable::new(node(key_of(0, 0, 0), "a"));
    t.update(node(key_of(0x80, 1, 0), "x1"));
    t.update(node(key_of(0x80, 2, 0), "y"));
    t.update(node(key_of(0x80, 1, 0), "x2"));
    let b = t.bucket(0);
    assert_eq!(b.len(), 2);
    assert_eq!(b[0].addr, "y");
    assert_eq!(b[1].addr, "x2");
    assert!(b[1].id == key_of(0x80, 1, 0));
}

#[test]
fn repeated_update_is_idempotent() {
    let mut t = RoutingTable::new(node(key_of(0, 0, 0), "a"));
    let n = node(key_of(0x80, 7, 0), "n");
    t.update(node(key_of(0x80, 8, 0), "m"));
    t.update(n.clone());
    t.update(n.clone());
    t.update(n.clone());
    let b = t.bucket(0);
    assert_eq!(b.len(), 2);
    assert!(b[1].id == n.id);
}

#[test]
fn full_bucket_keeps_old_entries_and_names_probe() {
    let mut t = RoutingTable::new(node(key_of(0, 0, 0), "a"));
    for i in 0..BUCKET_SIZE {
        assert!(t.update(node(key_of(0x80, i as u8, 0), &format!("n{}", i))).is_none());
    }
    let probe = t.update(node(key_of(0x80, 200, 0), "late"));
    assert_eq!(probe.unwrap().addr, "n0");
    assert_eq!(t.bucket(0).len(), BUCKET_SIZE);
    assert!(t.bucket(0).iter().all(|n| n.addr != "late"));
}

#[test]
fn lookup_nodes_sorted_and_bounded() {
    let mut t = RoutingTable::new(node(key_of(0, 0, 0), "a"));
    t.update(node(key_of(0x80, 0, 0), "b"));
    t.update(node(key_of(0x40, 0, 0), "c"));
    t.update(node(key_of(0x01, 0, 0), "d"));
    t.update(node(key_of(0xc0, 0, 0), "e"));
    let target = key_of(0xc1, 0, 0);
    let r = t.lookup_nodes(target, 3);
    let addrs: Vec<&str> = r.iter().map(|n| n.addr.as_str()).collect();
    assert_eq!(addrs, vec!["e", "b", "c"]);
    let all = t.lookup_nodes(target, 50);
    assert_eq!(all.len(), 5);
    for w in all.windows(2) {
        let d0 = Distance::dist(w[0].id, target);
        let d1 = Distance::dist(w[1].id, target);
        assert!(!d1.closer_than(&d0));
    }
}

#[test]
fn lookup_nodes_zero_count_is_empty() {
    let mut t = RoutingTable::new(node(key_of(0, 0, 0), "a"));
    t.update(node(key_of(0x80, 0, 0), "b"));
    assert!(t.lookup_nodes(key_of(1, 2, 3), 0).is_empty());
}

#[test]
fn find_closest_nodes_gives_distances() {
    let mut t = RoutingTable::new(node(key_of(0, 0, 0), "a"));
    t.update(node(key_of(0x80, 0, 0), "b"));
    let r = t.find_closest_nodes(key_of(0x80, 0, 1), 1);
    assert_eq!(r.len(), 1);
    assert_eq!(r[0].0.addr, "b");
    assert_eq!(r[0].1, Distance::dist(key_of(0x80, 0, 0), key_of(0x80, 0, 1)));
    assert_eq!(r[0].1.0[19], 1);
}

#[test]
fn stale_entry_is_replaced_after_failed_probe() {
    let mut t = RoutingTable::new(node(key_of(0, 0, 0), "a"));
    for i in 0..BUCKET_SIZE {
        t.update(node(key_of(0x80, i as u8, 0), &format!("n{}", i)));
    }
    let newcomer = node(key_of(0x80, 200, 0), "late");
    let stale = t.update(newcomer.clone()).unwrap();
    assert!(t.replace_stale(stale.id, newcomer.clone()));
    let b = t.bucket(0);
    assert_eq!(b.len(), BUCKET_SIZE);
    assert_eq!(b[0].addr, "n1");
    assert_eq!(b[BUCKET_SIZE - 1].addr, "late");
    // A second eviction of the same entry finds nothing to do.
    assert!(!t.replace_stale(stale.id, node(key_of(0x80, 201, 0), "later")));
}

#[test]
fn scan_stops_early_but_stays_exact() {
    let mut t = RoutingTable::new(node(key_of(0, 0, 0), "a"));
    t.update(node(key_of(0x80, 0, 0), "far"));
    t.update(node(key_of(0x00, 0x80, 0), "mid"));
    t.update(node(key_of(0x00, 0x40, 0), "near"));
    t.update(node(key_of(0x00, 0x41, 0), "nearest"));
    // The target shares nine leading bits with the local identifier.
    let target = key_of(0x00, 0x41, 1);
    assert_eq!(t.lookup_bucket_index(target), 9);
    let one = t.lookup_nodes(target, 1);
    assert_eq!(one.len(), 1);
    assert_eq!(one[0].addr, "nearest");
    let three = t.lookup_nodes(target, 3);
    let addrs: Vec<&str> = three.iter().map(|n| n.addr.as_str()).collect();
    assert_eq!(addrs, vec!["nearest", "near", "a"]);
    let all = t.lookup_nodes(target, 10);
    let addrs: Vec<&str> = all.iter().map(|n| n.addr.as_str()).collect();
    assert_eq!(addrs, vec!["nearest", "near", "a", "mid", "far"]);
}

#[test]
fn lookup_two_nearest_without_repeats() {
    let mut t = RoutingTable::new(node(key_of(0, 0, 0), "a"));
    t.update(node(key_of(0x80, 0, 0), "b"));
    t.update(node(key_of(0x40, 0, 0), "c"));
    let r = t.lookup_nodes(key_of(0x81, 0, 0), 2);
    let addrs: Vec<&str> = r.iter().map(|n| n.addr.as_str()).collect();
    assert_eq!(addrs, vec!["b", "a"]);
    assert!(r[0].id == key_of(0x80, 0, 0));
    assert!(r[1].id == key_of(0, 0, 0));
}
