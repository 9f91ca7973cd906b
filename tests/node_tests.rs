use kademlia::key::Key;
use kademlia::message::{Message, Payload, Reply, Request};
use kademlia::node::{DhtNode, K};
use kademlia::routing::NodeInfo;
use kademlia::store::MAX_VALUE_LEN;

fn key_of(first: u8, last: u8) -> Key {
    let mut b = [0u8; 20];
    b[0] = first;
    b[19] = last;
    Key::from_bytes(b)
}

fn info(id: Key, addr: &str) -> NodeInfo {
    NodeInfo { id, addr: addr.to_string() }
}

fn msg(net: &str, src: &NodeInfo, token: Key, payload: Payload) -> Message {
    Message { net_id: net.to_string(), src: src.clone(), token, payload }
}

fn find_node_ids(m: &Message) -> Vec<Key> {
    match &m.payload {
        Payload::Reply(Reply::FindNodeReply(v)) => v.iter().map(|n| n.id).collect(),
        _ => panic!("not a FIND_NODE reply"),
    }
}

#[test]
fn ping_echoes_token_and_learns_sender() {
    let a = info(key_of(0x10, 0), "127.0.0.1:9000");
    let b = info(key_of(0x90, 0), "127.0.0.1:9001");
    let mut na = DhtNode::new("net".to_string(), a.clone(), 60);
    let token = key_of(0xee, 0x11);
    let (reply, probe) = na.handle_request(&msg("net", &b, token, Payload::Request(Request::PingRequest)), 0);
    assert!(probe.is_none());
    assert!(reply.token == token);
    assert!(reply.src.id == a.id);
    assert!(matches!(reply.payload, Payload::Reply(Reply::PingReply)));
    assert!(na.closest(b.id, 1)[0].id == b.id);
}

#[test]
fn bootstrap_scenario_find_node_returns_a() {
    let a = info(Key::random().unwrap(), "127.0.0.1:9000");
    let b = info(key_of(0x33, 0x44), "127.0.0.1:9001");
    let mut na = DhtNode::new("net".to_string(), a.clone(), 60);
    let mut nb = DhtNode::new("net".to_string(), b.clone(), 60);
    // B pings A and takes in A's reply.
    let token = Key::random().unwrap();
    nb.register(token, a.id);
    let (pong, _) = na.handle_request(&msg("net", &b, token, Payload::Request(Request::PingRequest)), 0);
    let (delivered, _) = nb.handle_reply(&pong);
    assert!(delivered);
    // A FIND_NODE for any target answered by B lists A.
    let c = info(key_of(0x01, 0x02), "127.0.0.1:9002");
    let (r, _) = nb.handle_request(
        &msg("net", &c, key_of(9, 9), Payload::Request(Request::FindNodeRequest(key_of(0x77, 0)))),
        0,
    );
    assert!(find_node_ids(&r).contains(&a.id));
}

#[test]
fn unmatched_reply_has_no_effect() {
    let a = info(key_of(0x10, 0), "a");
    let b = info(key_of(0x90, 0), "b");
    let mut na = DhtNode::new("net".to_string(), a.clone(), 60);
    na.register(key_of(1, 1), b.id);
    let stray = msg("net", &b, key_of(2, 2), Payload::Reply(Reply::PingReply));
    let (delivered, probe) = na.handle_reply(&stray);
    assert!(!delivered);
    assert!(probe.is_none());
    assert_eq!(na.closest(b.id, 10).len(), 1);
    // The registration is still there and answers the right reply once.
    let good = msg("net", &b, key_of(1, 1), Payload::Reply(Reply::PingReply));
    assert!(na.handle_reply(&good).0);
    assert_eq!(na.closest(b.id, 10).len(), 2);
    assert!(!na.handle_reply(&good).0);
}

#[test]
fn reply_from_other_peer_is_not_matched() {
    let a = info(key_of(0x10, 0), "a");
    let b = info(key_of(0x90, 0), "b");
    let c = info(key_of(0x91, 0), "c");
    let mut na = DhtNode::new("net".to_string(), a, 60);
    na.register(key_of(1, 1), b.id);
    assert!(!na.handle_reply(&msg("net", &c, key_of(1, 1), Payload::Reply(Reply::PingReply))).0);
    assert!(na.expire(key_of(1, 1), b.id));
    assert!(!na.expire(key_of(1, 1), b.id));
}

#[test]
fn other_overlay_is_not_accepted() {
    let a = info(key_of(0x10, 0), "a");
    let na = DhtNode::new("net".to_string(), a.clone(), 60);
    assert!(na.accepts(&msg("net", &a, key_of(0, 0), Payload::Request(Request::PingRequest))));
    assert!(!na.accepts(&msg("other", &a, key_of(0, 0), Payload::Request(Request::PingRequest))));
}

#[test]
fn store_then_find_value() {
    let a = info(key_of(0x10, 0), "a");
    let b = info(key_of(0x90, 0), "b");
    let mut na = DhtNode::new("net".to_string(), a, 60);
    let k = key_of(0x42, 0x42);
    let (r, _) = na.handle_request(
        &msg("net", &b, key_of(5, 5), Payload::Request(Request::StoreRequest(k, b"v".to_vec()))),
        100,
    );
    assert!(matches!(r.payload, Payload::Reply(Reply::StoreReply(true))));
    let (r, _) = na.handle_request(&msg("net", &b, key_of(6, 6), Payload::Request(Request::FindValueRequest(k))), 120);
    match r.payload {
        Payload::Reply(Reply::FindValueReply(v)) => assert_eq!(v, b"v".to_vec()),
        _ => panic!("value expected"),
    }
    // After the lifetime the closest peers come back instead.
    let (r, _) = na.handle_request(&msg("net", &b, key_of(7, 7), Payload::Request(Request::FindValueRequest(k))), 160);
    assert_eq!(find_node_ids(&r).len(), 2);
    assert_eq!(na.get_local(k, 160), None);
}

#[test]
fn oversized_store_request_is_refused() {
    let a = info(key_of(0x10, 0), "a");
    let b = info(key_of(0x90, 0), "b");
    let mut na = DhtNode::new("net".to_string(), a, 60);
    let k = key_of(0x42, 0x42);
    let big = vec![1u8; MAX_VALUE_LEN + 1];
    let (r, _) = na.handle_request(&msg("net", &b, key_of(5, 5), Payload::Request(Request::StoreRequest(k, big))), 0);
    assert!(matches!(r.payload, Payload::Reply(Reply::StoreReply(false))));
    assert_eq!(na.get_local(k, 0), None);
}

#[test]
fn put_then_get_across_five_nodes() {
    let infos: Vec<NodeInfo> = (0..5u8)
        .map(|i| info(key_of(i.wrapping_mul(53).wrapping_add(7), i), &format!("127.0.0.1:{}", 9000 + i as u16)))
        .collect();
    let mut nodes: Vec<DhtNode> = infos.iter().map(|n| DhtNode::new("net".to_string(), n.clone(), 600)).collect();
    // Everyone pings everyone, so each table knows the overlay.
    for i in 0..5 {
        for j in 0..5 {
            if i != j {
                let m = msg("net", &infos[i], key_of(i as u8, j as u8), Payload::Request(Request::PingRequest));
                nodes[j].handle_request(&m, 0);
            }
        }
    }
    // put on node 0: store on the K closest it knows.
    let k = key_of(0x99, 0x01);
    let targets = nodes[0].closest(k, K);
    assert_eq!(targets.len(), 5);
    let replica = &targets[0];
    let idx = infos.iter().position(|n| n.id == replica.id).unwrap();
    let m = msg("net", &infos[0], key_of(1, 0), Payload::Request(Request::StoreRequest(k, b"v".to_vec())));
    let (r, _) = nodes[idx].handle_request(&m, 1);
    assert!(matches!(r.payload, Payload::Reply(Reply::StoreReply(true))));
    // get from node 3: ask the nodes nearest to the key until one has it.
    let mut found = None;
    for n in nodes[3].closest(k, K) {
        let j = infos.iter().position(|x| x.id == n.id).unwrap();
        let m = msg("net", &infos[3], key_of(3, 3), Payload::Request(Request::FindValueRequest(k)));
        let (r, _) = nodes[j].handle_request(&m, 2);
        if let Payload::Reply(Reply::FindValueReply(v)) = r.payload {
            found = Some(v);
            break;
        }
    }
    assert_eq!(found, Some(b"v".to_vec()));
}

#[test]
fn new_node_knows_only_itself() {
    let a = info(key_of(0x10, 0), "a");
    let na = DhtNode::new("net".to_string(), a.clone(), 60);
    let all = na.closest(key_of(0xff, 0xff), 10);
    assert_eq!(all.len(), 1);
    assert!(all[0].id == a.id);
}

#[test]
fn pending_pair_is_registered_once_and_answered_once() {
    let a = info(key_of(0x10, 0), "a");
    let b = info(key_of(0x90, 0), "b");
    let mut na = DhtNode::new("net".to_string(), a, 60);
    assert!(na.register(key_of(1, 1), b.id));
    assert!(!na.register(key_of(1, 1), b.id));
    assert!(na.is_pending(key_of(1, 1), b.id));
    let reply = msg("net", &b, key_of(1, 1), Payload::Reply(Reply::PingReply));
    assert!(na.handle_reply(&reply).0);
    assert!(!na.is_pending(key_of(1, 1), b.id));
    assert!(!na.handle_reply(&reply).0);
}

#[test]
fn late_reply_after_timeout_is_dropped() {
    let a = info(key_of(0x10, 0), "a");
    let b = info(key_of(0x90, 0), "b");
    let mut na = DhtNode::new("net".to_string(), a, 60);
    na.register(key_of(4, 4), b.id);
    assert!(na.expire(key_of(4, 4), b.id));
    let late = msg("net", &b, key_of(4, 4), Payload::Reply(Reply::PingReply));
    assert!(!na.handle_reply(&late).0);
    assert_eq!(na.closest(b.id, 10).len(), 1);
}

#[test]
fn bootstrap_ping_reply_is_matched_by_token() {
    let a = info(key_of(0x10, 0), "127.0.0.1:9000");
    let b = info(key_of(0x90, 0), "127.0.0.1:9001");
    let mut nb = DhtNode::new("net".to_string(), b.clone(), 60);
    let token = key_of(8, 8);
    assert!(nb.register_bootstrap(token));
    assert!(!nb.register_bootstrap(token));
    // A reply under another token is not taken in.
    assert!(!nb.handle_reply(&msg("net", &a, key_of(9, 9), Payload::Reply(Reply::PingReply))).0);
    assert_eq!(nb.closest(a.id, 10).len(), 1);
    // The reply under the bootstrap token is, once.
    let pong = msg("net", &a, token, Payload::Reply(Reply::PingReply));
    assert!(nb.handle_reply(&pong).0);
    assert!(nb.closest(a.id, 10).iter().any(|n| n.id == a.id));
    assert!(!nb.is_booting(token));
    assert!(!nb.handle_reply(&pong).0);
}

#[test]
fn bootstrap_ping_can_time_out() {
    let b = info(key_of(0x90, 0), "b");
    let mut nb = DhtNode::new("net".to_string(), b, 60);
    nb.register_bootstrap(key_of(8, 8));
    assert!(nb.expire_bootstrap(key_of(8, 8)));
    assert!(!nb.expire_bootstrap(key_of(8, 8)));
}

#[test]
fn store_plan_splits_local_and_remote() {
    let a = info(key_of(0x10, 0), "a");
    let b = info(key_of(0x90, 0), "b");
    let c = info(key_of(0x91, 0), "c");
    let na = DhtNode::new("net".to_string(), a.clone(), 60);
    let (here, others) = na.store_plan(&vec![b.clone(), a.clone(), c.clone()]);
    assert!(here);
    let addrs: Vec<&str> = others.iter().map(|n| n.addr.as_str()).collect();
    assert_eq!(addrs, vec!["b", "c"]);
    let (here, others) = na.store_plan(&vec![b.clone()]);
    assert!(!here);
    assert_eq!(others.len(), 1);
    let (here, others) = na.store_plan(&vec![]);
    assert!(here);
    assert!(others.is_empty());
}

#[test]
fn put_succeeds_with_one_replica() {
    assert!(kademlia::node::put_succeeded(true, &vec![]));
    assert!(kademlia::node::put_succeeded(false, &vec![false, true]));
    assert!(!kademlia::node::put_succeeded(false, &vec![false, false]));
    assert!(!kademlia::node::put_succeeded(false, &vec![]));
}
