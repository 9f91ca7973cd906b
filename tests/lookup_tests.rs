use kademlia::key::Key;
use kademlia::lookup::{Lookup, ALPHA, MAX_ROUNDS};
use kademlia::node::K;
use kademlia::routing::NodeInfo;

fn key_of(first: u8, last: u8) -> Key {
    let mut b = [0u8; 20];
    b[0] = first;
    b[19] = last;
    Key::from_bytes(b)
}

fn info(first: u8) -> NodeInfo {
    NodeInfo { id: key_of(first, 0), addr: format!("10.0.0.{}:1", first) }
}

fn firsts(v: &[NodeInfo]) -> Vec<u8> {
    v.iter().map(|n| n.id.0[0]).collect()
}

#[test]
fn candidates_are_kept_nearest_first() {
    let mut l = Lookup::new(key_of(0, 0), key_of(0xff, 0xff));
    assert!(l.on_reply(&vec![info(9), info(3), info(5)]));
    assert_eq!(firsts(&l.result()), vec![3, 5, 9]);
    assert!(!l.on_reply(&vec![info(7)]));
    assert!(l.on_reply(&vec![info(1)]));
    assert_eq!(firsts(&l.result()), vec![1, 3, 5, 7, 9]);
}

#[test]
fn local_node_and_duplicates_are_turned_away() {
    let mut l = Lookup::new(key_of(0, 0), key_of(4, 0));
    assert!(!l.add_candidate(info(4)));
    assert!(l.add_candidate(info(2)));
    assert!(!l.add_candidate(info(2)));
    assert_eq!(l.result().len(), 1);
}

#[test]
fn shortlist_is_capped_at_k() {
    let mut l = Lookup::new(key_of(0, 0), key_of(0xff, 0xff));
    let many: Vec<NodeInfo> = (1..=30u8).map(info).collect();
    l.on_reply(&many);
    let r = l.result();
    assert_eq!(r.len(), K);
    assert_eq!(r[0].id.0[0], 1);
    assert_eq!(r[K - 1].id.0[0], 20);
    assert!(!l.add_candidate(info(40)));
}

#[test]
fn batches_take_the_nearest_unasked() {
    let mut l = Lookup::new(key_of(0, 0), key_of(0xff, 0xff));
    l.on_reply(&vec![info(6), info(2), info(4), info(8), info(1)]);
    let b1 = l.next_batch(ALPHA);
    assert_eq!(firsts(&b1), vec![1, 2, 4]);
    assert!(!l.is_done());
    let b2 = l.next_batch(ALPHA);
    assert_eq!(firsts(&b2), vec![6, 8]);
    assert!(l.is_done());
    assert!(l.next_batch(ALPHA).is_empty());
}

#[test]
fn failed_peer_leaves_and_never_returns() {
    let mut l = Lookup::new(key_of(0, 0), key_of(0xff, 0xff));
    l.on_reply(&vec![info(1), info(2)]);
    l.on_failure(key_of(1, 0));
    assert_eq!(firsts(&l.result()), vec![2]);
    assert!(!l.add_candidate(info(1)));
    assert_eq!(firsts(&l.result()), vec![2]);
}

#[test]
fn offered_peers_enter_unless_nearer_ones_fill_the_list() {
    let mut l = Lookup::new(key_of(0, 0), key_of(0xff, 0xff));
    let near: Vec<NodeInfo> = (1..=20u8).map(info).collect();
    l.on_reply(&near);
    // A farther peer finds the list full of nearer ones.
    assert!(!l.on_reply(&vec![info(50)]));
    assert_eq!(l.result().len(), K);
    assert!(l.result().iter().all(|n| n.id.0[0] <= 20));
    // A nearer peer gets in and the farthest leaves.
    let mut m = Lookup::new(key_of(0, 0), key_of(0xff, 0xff));
    m.on_reply(&(2..=21u8).map(info).collect());
    assert!(m.on_reply(&vec![info(1)]));
    let firsts: Vec<u8> = m.result().iter().map(|n| n.id.0[0]).collect();
    assert_eq!(firsts[0], 1);
    assert_eq!(firsts[K - 1], 20);
}

#[test]
fn search_stops_without_progress_or_candidates() {
    let mut l = Lookup::new(key_of(0, 0), key_of(0xff, 0xff));
    let improved = l.on_reply(&vec![info(3), info(4)]);
    assert!(l.keep_going(improved, 0));
    assert!(!l.keep_going(false, 0));
    assert!(!l.keep_going(true, MAX_ROUNDS));
    l.next_batch(ALPHA);
    assert!(!l.keep_going(true, 1));
}

#[test]
fn earlier_candidates_stay_after_a_reply() {
    let mut l = Lookup::new(key_of(0, 0), key_of(0xff, 0xff));
    l.on_reply(&vec![info(5), info(6)]);
    l.on_reply(&vec![info(9)]);
    assert_eq!(firsts(&l.result()), vec![5, 6, 9]);
}
