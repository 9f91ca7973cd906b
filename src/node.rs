//! What one node decides on each datagram: the answer to a request, what a
//! reply changes, and the bookkeeping of requests awaiting their reply. The
//! socket, the threads and the timers stand outside and feed these.
use vstd::prelude::*;
use crate::key::{Key, ID_BITS};
use crate::routing::{
    NodeInfo, NodeView, RoutingTable, TableView, bucket_index, has_id, is_closest,
    table_after_update, table_after_eviction, table_wf, BUCKET_SIZE,
};
use crate::store::{ValueStore, StoreError, is_live, MAX_VALUE_LEN};
use crate::message::{Message, Payload, Request, Reply};

verus! {

/// Number of peers a node returns for a FIND_NODE, and the number of replicas
/// a value is stored on.
pub const K: usize = 20;

/// A request sent and not yet answered: its token and the peer asked.
#[derive(Clone, Copy, Debug)]
pub struct PendingRequest {
    pub token: Key,
    pub peer: Key,
}

/// The state of one node.
pub struct DhtNode {
    net_id: String,
    table: RoutingTable,
    store: ValueStore,
    pending: Vec<PendingRequest>,
    bootstrap: Vec<Key>,
}

/// The identifiers of a list of keys.
pub open spec fn tokens_view(v: Seq<Key>) -> Seq<Seq<u8>> {
    v.map_values(|k: Key| k@)
}

/// Takes `token` out of `v`, if it is there; the result says whether it was.
fn take_token(v: &mut Vec<Key>, token: Key) -> (r: bool)
    requires
        tokens_view(old(v)@).no_duplicates(),
    ensures
        tokens_view(final(v)@).no_duplicates(),
        !tokens_view(final(v)@).contains(token@),
        r == tokens_view(old(v)@).contains(token@),
        !r ==> final(v)@ == old(v)@,
        r ==> exists|j: int|
            0 <= j < old(v)@.len() && old(v)@[j]@ == token@ && tokens_view(final(v)@) == tokens_view(
                old(v)@,
            ).remove(j),
{
    let mut j: usize = 0;
    while j < v.len()
        invariant
            0 <= j <= v@.len(),
            v@ == old(v)@,
            tokens_view(old(v)@).no_duplicates(),
            forall|k: int| 0 <= k < j ==> (#[trigger] tokens_view(v@)[k]) != token@,
        decreases v@.len() - j,
    {
        if v[j] == token {
            let ghost before = tokens_view(v@);
            assert(before[j as int] == token@);
            v.remove(j);
            assert(tokens_view(v@) =~= before.remove(j as int));
            proof {
                let after = tokens_view(v@);
                assert forall|k: int| 0 <= k < after.len() implies after[k] != token@ by {
                    if k < j {
                        assert(after[k] == before[k]);
                    } else {
                        assert(after[k] == before[k + 1]);
                    }
                }
                assert forall|a: int, b: int| 0 <= a < after.len() && 0 <= b < after.len() && a != b implies after[a]
                    != after[b] by {
                    let ia = if a < j { a } else { a + 1 };
                    let ib = if b < j { b } else { b + 1 };
                    assert(after[a] == before[ia] && after[b] == before[ib]);
                }
            }
            return true;
        }
        j = j + 1;
    }
    assert forall|k: int| 0 <= k < tokens_view(old(v)@).len() implies tokens_view(old(v)@)[k] != token@ by {
        assert(tokens_view(v@)[k] != token@);
    }
    false
}

/// The view of a list of pending requests: pairs of token and peer.
pub open spec fn pending_view(p: Seq<PendingRequest>) -> Seq<(Seq<u8>, Seq<u8>)> {
    p.map_values(|q: PendingRequest| (q.token@, q.peer@))
}

/// The view of a reply listing peers.
pub open spec fn nodes_view(v: Seq<NodeInfo>) -> Seq<NodeView> {
    v.map_values(|n: NodeInfo| n@)
}

/// Whether `p` answers a FIND_NODE for `target` on table `t`.
pub open spec fn is_find_node_reply(p: Payload, t: TableView, target: Seq<u8>) -> bool {
    match p {
        Payload::Reply(Reply::FindNodeReply(v)) => is_closest(t, target, K as nat, nodes_view(v@)),
        _ => false,
    }
}

/// What the probe of a full bucket is, after peer `n` was seen by table `t`:
/// the bucket's least recently seen entry, or nothing when `n` found its place.
pub open spec fn probe_ok(t: TableView, n: NodeView, r: Option<NodeInfo>) -> bool {
    let b = t.buckets[bucket_index(t.node.id, n.id)];
    &&& r.is_some() == (!has_id(b, n.id) && b.len() >= BUCKET_SIZE)
    &&& r.is_some() ==> r.unwrap()@ == b[0]
}

/// Whether a put succeeded: it did when the value was stored here, or when
/// some replica acknowledged its STORE.
pub fn put_succeeded(stored_here: bool, acks: &Vec<bool>) -> (r: bool)
    ensures
        r == (stored_here || exists|k: int| 0 <= k < acks@.len() && acks@[k]),
{
    if stored_here {
        return true;
    }
    let mut k: usize = 0;
    while k < acks.len()
        invariant
            0 <= k <= acks@.len(),
            forall|q: int| 0 <= q < k ==> !acks@[q],
        decreases acks@.len() - k,
    {
        if acks[k] {
            return true;
        }
        k = k + 1;
    }
    false
}

impl DhtNode {
    pub closed spec fn wf(&self) -> bool {
        self.table.wf() && self.store.wf() && pending_view(self.pending@).no_duplicates()
            && tokens_view(self.bootstrap@).no_duplicates()
    }

    /// A well-formed node has a well-formed routing table: among other
    /// things, no bucket holds more than `BUCKET_SIZE` entries.
    pub proof fn lemma_wf_table(&self)
        requires
            self.wf(),
        ensures
            table_wf(self.table_view()),
    {
    }

    /// The tokens of pings sent to bootstrap addresses whose peer is not
    /// known yet, awaiting their reply.
    pub closed spec fn boot(&self) -> Seq<Seq<u8>> {
        tokens_view(self.bootstrap@)
    }

    /// The overlay this node belongs to.
    pub closed spec fn net(&self) -> Seq<char> {
        self.net_id@
    }

    /// The routing table.
    pub closed spec fn table_view(&self) -> TableView {
        self.table@
    }

    /// The stored values.
    pub closed spec fn store_view(&self) -> Map<Seq<u8>, (Seq<u8>, u64)> {
        self.store@
    }

    /// How long a stored value stays live.
    pub closed spec fn ttl(&self) -> u64 {
        self.store.ttl()
    }

    /// The requests awaiting a reply.
    pub closed spec fn pending(&self) -> Seq<(Seq<u8>, Seq<u8>)> {
        pending_view(self.pending@)
    }

    /// A node of overlay `net_id` that knows only itself and stores nothing;
    /// its values live for `ttl` time units.
    pub fn new(net_id: String, local: NodeInfo, ttl: u64) -> (r: DhtNode)
        ensures
            r.wf(),
            r.net() == net_id@,
            r.table_view().node == local@,
            r.table_view().buckets.len() == ID_BITS,
            r.table_view().buckets[ID_BITS - 1] == seq![local@],
            forall|i: int| 0 <= i < ID_BITS - 1 ==> (#[trigger] r.table_view().buckets[i]).len() == 0,
            r.store_view() == Map::<Seq<u8>, (Seq<u8>, u64)>::empty(),
            r.ttl() == ttl,
            r.pending() == Seq::<(Seq<u8>, Seq<u8>)>::empty(),
            r.boot() == Seq::<Seq<u8>>::empty(),
    {
        let r = DhtNode {
            net_id,
            table: RoutingTable::new(local),
            store: ValueStore::new(ttl),
            pending: Vec::new(),
            bootstrap: Vec::new(),
        };
        assert(r.pending() =~= Seq::<(Seq<u8>, Seq<u8>)>::empty());
        assert(r.boot() =~= Seq::<Seq<u8>>::empty());
        r
    }

    /// The local peer.
    pub fn local(&self) -> (r: NodeInfo)
        ensures
            r@ == self.table_view().node,
    {
        self.table.local().clone_info()
    }

    /// How a put stores a value on the peers `targets` nearest its key: the
    /// first result says whether this node stores it itself, which it does
    /// when it is among the targets or no target is known; the second lists
    /// the other targets, in order, each to be sent a STORE.
    pub fn store_plan(&self, targets: &Vec<NodeInfo>) -> (r: (bool, Vec<NodeInfo>))
        ensures
            r.0 == (targets@.len() == 0 || exists|k: int|
                0 <= k < targets@.len() && (#[trigger] targets@[k]).id@ == self.table_view().node.id),
            r.1@.len() <= targets@.len(),
            forall|k: int|
                0 <= k < r.1@.len() ==> nodes_view(targets@).contains(#[trigger] nodes_view(r.1@)[k])
                    && r.1@[k].id@ != self.table_view().node.id,
            forall|k: int|
                0 <= k < targets@.len() && (#[trigger] targets@[k]).id@ != self.table_view().node.id
                    ==> nodes_view(r.1@).contains(targets@[k]@),
    {
        let local = self.table.local().id;
        let mut here = targets.len() == 0;
        let mut others: Vec<NodeInfo> = Vec::new();
        let mut k: usize = 0;
        while k < targets.len()
            invariant
                0 <= k <= targets@.len(),
                local@ == self.table_view().node.id,
                here == (targets@.len() == 0 || exists|q: int|
                    0 <= q < k && (#[trigger] targets@[q]).id@ == local@),
                others@.len() <= k,
                forall|q: int|
                    0 <= q < others@.len() ==> nodes_view(targets@).contains(#[trigger] nodes_view(others@)[q])
                        && others@[q].id@ != local@,
                forall|q: int|
                    0 <= q < k && (#[trigger] targets@[q]).id@ != local@ ==> nodes_view(others@).contains(
                        targets@[q]@,
                    ),
            decreases targets@.len() - k,
        {
            let ghost before = others@;
            if targets[k].id == local {
                here = true;
            } else {
                others.push(targets[k].clone_info());
                proof {
                    assert(nodes_view(others@) =~= nodes_view(before).push(targets@[k as int]@));
                    assert(nodes_view(targets@)[k as int] == targets@[k as int]@);
                    assert forall|q: int| 0 <= q < k && (#[trigger] targets@[q]).id@ != local@ implies nodes_view(
                        others@,
                    ).contains(targets@[q]@) by {
                        let w = choose|w: int| 0 <= w < nodes_view(before).len() && nodes_view(before)[w] == targets@[q]@;
                        assert(nodes_view(others@)[w] == targets@[q]@);
                    }
                    assert(nodes_view(others@)[before.len() as int] == targets@[k as int]@);
                }
            }
            k = k + 1;
        }
        assert forall|q: int| 0 <= q < others@.len() implies nodes_view(targets@).contains(
            #[trigger] nodes_view(others@)[q],
        ) && others@[q].id@ != self.table_view().node.id by {
            assert(nodes_view(others@)[q] == others@[q]@);
        }
        (here, others)
    }

    /// Whether `msg` belongs to this node's overlay.
    pub fn accepts(&self, msg: &Message) -> (r: bool)
        ensures
            r == (msg.net_id@ == self.net()),
    {
        msg.net_id == self.net_id
    }

    /// The envelope of a reply from this node to `token`.
    fn reply(&self, token: Key, payload: Payload) -> (r: Message)
        ensures
            r.net_id@ == self.net(),
            r.src@ == self.table_view().node,
            r.token == token,
            r.payload == payload,
    {
        Message { net_id: self.net_id.clone(), src: self.table.local().clone_info(), token, payload }
    }

    /// Answers the request in `msg` at time `now`. The sender counts as seen:
    /// it enters the routing table first, and when its bucket is full the
    /// second result is the entry to probe for eviction. The reply echoes
    /// the request's token.
    pub fn handle_request(&mut self, msg: &Message, now: u64) -> (r: (Message, Option<NodeInfo>))
        requires
            old(self).wf(),
            msg.payload is Request,
        ensures
            final(self).wf(),
            final(self).net() == old(self).net(),
            final(self).ttl() == old(self).ttl(),
            final(self).boot() == old(self).boot(),
            final(self).pending() == old(self).pending(),
            final(self).table_view() == table_after_update(old(self).table_view(), msg.src@),
            probe_ok(old(self).table_view(), msg.src@, r.1),
            r.0.net_id@ == old(self).net(),
            r.0.src@ == old(self).table_view().node,
            r.0.token == msg.token,
            match msg.payload {
                Payload::Request(Request::StoreRequest(k, v)) => {
                    &&& r.0.payload == Payload::Reply(Reply::StoreReply(v@.len() <= MAX_VALUE_LEN))
                    &&& v@.len() <= MAX_VALUE_LEN ==> final(self).store_view() == old(
                        self,
                    ).store_view().insert(k@, (v@, now))
                    &&& v@.len() > MAX_VALUE_LEN ==> final(self).store_view() == old(self).store_view()
                },
                Payload::Request(Request::FindValueRequest(k)) => {
                    &&& final(self).store_view() == old(self).store_view()
                    &&& if old(self).store_view().contains_key(k@) && is_live(
                        old(self).store_view()[k@].1,
                        now,
                        old(self).ttl(),
                    ) {
                        r.0.payload matches Payload::Reply(Reply::FindValueReply(v)) && v@ == old(
                            self,
                        ).store_view()[k@].0
                    } else {
                        is_find_node_reply(r.0.payload, final(self).table_view(), k@)
                    }
                },
                Payload::Request(Request::FindNodeRequest(id)) => {
                    &&& final(self).store_view() == old(self).store_view()
                    &&& is_find_node_reply(r.0.payload, final(self).table_view(), id@)
                },
                _ => {
                    &&& final(self).store_view() == old(self).store_view()
                    &&& r.0.payload == Payload::Reply(Reply::PingReply)
                },
            },
    {
        let probe = self.table.update(msg.src.clone_info());
        let payload = match &msg.payload {
            Payload::Request(Request::StoreRequest(k, v)) => {
                let res = self.store.store(*k, v.clone(), now);
                Payload::Reply(Reply::StoreReply(res.is_ok()))
            },
            Payload::Request(Request::FindValueRequest(k)) => {
                match self.store.get(*k, now) {
                    Some(v) => Payload::Reply(Reply::FindValueReply(v)),
                    None => Payload::Reply(Reply::FindNodeReply(self.table.lookup_nodes(*k, K))),
                }
            },
            Payload::Request(Request::FindNodeRequest(id)) => {
                Payload::Reply(Reply::FindNodeReply(self.table.lookup_nodes(*id, K)))
            },
            _ => Payload::Reply(Reply::PingReply),
        };
        (self.reply(msg.token, payload), probe)
    }

    /// The value stored here under `key`, if it is live at `now`.
    pub fn get_local(&self, key: Key, now: u64) -> (r: Option<Vec<u8>>)
        requires
            self.wf(),
        ensures
            match r {
                Some(v) => self.store_view().contains_key(key@) && v@ == self.store_view()[key@].0
                    && is_live(self.store_view()[key@].1, now, self.ttl()),
                None => !self.store_view().contains_key(key@) || !is_live(
                    self.store_view()[key@].1,
                    now,
                    self.ttl(),
                ),
            },
    {
        self.store.get(key, now)
    }

    /// Stores `value` under `key` here, at time `now`.
    pub fn put_local(&mut self, key: Key, value: Vec<u8>, now: u64) -> (r: Result<(), StoreError>)
        requires
            old(self).wf(),
        ensures
            final(self).wf(),
            final(self).net() == old(self).net(),
            final(self).ttl() == old(self).ttl(),
            final(self).boot() == old(self).boot(),
            final(self).pending() == old(self).pending(),
            final(self).table_view() == old(self).table_view(),
            value@.len() > MAX_VALUE_LEN ==> r == Err::<(), StoreError>(StoreError::ValueTooLarge)
                && final(self).store_view() == old(self).store_view(),
            value@.len() <= MAX_VALUE_LEN ==> r is Ok && final(self).store_view() == old(
                self,
            ).store_view().insert(key@, (value@, now)),
    {
        self.store.store(key, value, now)
    }

    /// Up to `count` known peers nearest to `target`, nearest first.
    pub fn closest(&self, target: Key, count: usize) -> (r: Vec<NodeInfo>)
        requires
            self.wf(),
        ensures
            is_closest(self.table_view(), target@, count as nat, nodes_view(r@)),
    {
        self.table.lookup_nodes(target, count)
    }

    /// Records that `peer` was seen, as a request or reply from it shows.
    pub fn saw(&mut self, peer: NodeInfo) -> (r: Option<NodeInfo>)
        requires
            old(self).wf(),
        ensures
            final(self).wf(),
            final(self).net() == old(self).net(),
            final(self).ttl() == old(self).ttl(),
            final(self).boot() == old(self).boot(),
            final(self).pending() == old(self).pending(),
            final(self).store_view() == old(self).store_view(),
            final(self).table_view() == table_after_update(old(self).table_view(), peer@),
            probe_ok(old(self).table_view(), peer@, r),
    {
        self.table.update(peer)
    }

    /// Evicts `stale`, which did not answer a liveness probe, in favour of
    /// `peer`, which found its bucket full.
    pub fn evict(&mut self, stale: Key, peer: NodeInfo) -> (r: bool)
        requires
            old(self).wf(),
        ensures
            final(self).wf(),
            final(self).net() == old(self).net(),
            final(self).ttl() == old(self).ttl(),
            final(self).boot() == old(self).boot(),
            final(self).pending() == old(self).pending(),
            final(self).store_view() == old(self).store_view(),
            final(self).table_view() == table_after_eviction(old(self).table_view(), stale@, peer@),
            ({
                let b = old(self).table_view().buckets[bucket_index(old(self).table_view().node.id, peer.id@)];
                r == (has_id(b, stale@) && !has_id(b, peer.id@))
            }),
    {
        self.table.replace_stale(stale, peer)
    }

    /// Whether a request to `peer` under `token` awaits its reply.
    pub fn is_pending(&self, token: Key, peer: Key) -> (r: bool)
        ensures
            r == self.pending().contains((token@, peer@)),
    {
        let mut j: usize = 0;
        while j < self.pending.len()
            invariant
                0 <= j <= self.pending@.len(),
                forall|k: int| 0 <= k < j ==> (#[trigger] self.pending()[k]) != (token@, peer@),
            decreases self.pending@.len() - j,
        {
            if self.pending[j].token == token && self.pending[j].peer == peer {
                assert(self.pending()[j as int] == (token@, peer@));
                return true;
            }
            j = j + 1;
        }
        false
    }

    /// Records a request about to be sent to `peer` under `token`. A pair
    /// that already awaits its reply is refused, so that each reply matches
    /// at most one registration; the result says whether it was recorded.
    pub fn register(&mut self, token: Key, peer: Key) -> (r: bool)
        requires
            old(self).wf(),
        ensures
            final(self).wf(),
            final(self).net() == old(self).net(),
            final(self).ttl() == old(self).ttl(),
            final(self).boot() == old(self).boot(),
            final(self).store_view() == old(self).store_view(),
            final(self).table_view() == old(self).table_view(),
            r == !old(self).pending().contains((token@, peer@)),
            r ==> final(self).pending() == old(self).pending().push((token@, peer@)),
            !r ==> final(self).pending() == old(self).pending(),
    {
        if self.is_pending(token, peer) {
            return false;
        }
        self.pending.push(PendingRequest { token, peer });
        assert(self.pending() =~= old(self).pending().push((token@, peer@)));
        true
    }

    /// Takes out the registration of a request to `peer` under `token`, if
    /// there is one; the result says whether there was.
    fn take_pending(&mut self, token: Key, peer: Key) -> (r: bool)
        requires
            old(self).pending().no_duplicates(),
        ensures
            final(self).pending().no_duplicates(),
            !final(self).pending().contains((token@, peer@)),
            final(self).net() == old(self).net(),
            final(self).table == old(self).table,
            final(self).store == old(self).store,
            final(self).bootstrap == old(self).bootstrap,
            r == old(self).pending().contains((token@, peer@)),
            r ==> exists|j: int|
                0 <= j < old(self).pending().len() && old(self).pending()[j] == (token@, peer@)
                    && final(self).pending() == old(self).pending().remove(j),
            !r ==> final(self).pending() == old(self).pending(),
    {
        let mut j: usize = 0;
        while j < self.pending.len()
            invariant
                0 <= j <= self.pending@.len(),
                self.pending@ == old(self).pending@,
                old(self).pending().no_duplicates(),
                self.net() == old(self).net(),
                self.table == old(self).table,
                self.store == old(self).store,
                self.bootstrap == old(self).bootstrap,
                forall|k: int| 0 <= k < j ==> (#[trigger] self.pending()[k]) != (token@, peer@),
            decreases self.pending@.len() - j,
        {
            if self.pending[j].token == token && self.pending[j].peer == peer {
                let ghost before = self.pending();
                assert(before[j as int] == (token@, peer@));
                self.pending.remove(j);
                assert(self.pending() =~= before.remove(j as int));
                proof {
                    let after = self.pending();
                    assert forall|k: int| 0 <= k < after.len() implies after[k] != (token@, peer@) by {
                        if k < j {
                            assert(after[k] == before[k]);
                        } else {
                            assert(after[k] == before[k + 1]);
                        }
                    }
                    assert forall|a: int, b: int| 0 <= a < after.len() && 0 <= b < after.len() && a != b implies after[a]
                        != after[b] by {
                        let ia = if a < j { a } else { a + 1 };
                        let ib = if b < j { b } else { b + 1 };
                        assert(after[a] == before[ia] && after[b] == before[ib]);
                    }
                }
                return true;
            }
            j = j + 1;
        }
        assert(self.pending() == old(self).pending());
        assert forall|k: int| 0 <= k < old(self).pending().len() implies old(self).pending()[k] != (
            token@,
            peer@,
        ) by {
            assert(self.pending()[k] != (token@, peer@));
        }
        false
    }

    /// Takes in a reply. One that answers a registered request (same token,
    /// from the peer asked), or a PING reply under the token of a registered
    /// bootstrap ping, takes out that registration and counts as the sender
    /// being seen; the first result is then true, and the second is the entry
    /// to probe when the sender's bucket is full. Any other reply changes
    /// nothing.
    pub fn handle_reply(&mut self, msg: &Message) -> (r: (bool, Option<NodeInfo>))
        requires
            old(self).wf(),
        ensures
            final(self).wf(),
            final(self).net() == old(self).net(),
            final(self).ttl() == old(self).ttl(),
            final(self).store_view() == old(self).store_view(),
            ({
                let by_request = old(self).pending().contains((msg.token@, msg.src.id@));
                let by_boot = !by_request && msg.payload == Payload::Reply(Reply::PingReply) && old(
                    self,
                ).boot().contains(msg.token@);
                &&& r.0 == (by_request || by_boot)
                &&& !final(self).pending().contains((msg.token@, msg.src.id@))
                &&& !r.0 ==> final(self).table_view() == old(self).table_view() && final(self).pending() == old(
                    self,
                ).pending() && final(self).boot() == old(self).boot() && r.1.is_none()
                &&& r.0 ==> final(self).table_view() == table_after_update(old(self).table_view(), msg.src@)
                    && probe_ok(old(self).table_view(), msg.src@, r.1)
                &&& by_request ==> final(self).boot() == old(self).boot() && exists|j: int|
                    0 <= j < old(self).pending().len() && old(self).pending()[j] == (msg.token@, msg.src.id@)
                        && final(self).pending() == old(self).pending().remove(j)
                &&& by_boot ==> final(self).pending() == old(self).pending() && !final(self).boot().contains(
                    msg.token@,
                ) && exists|j: int|
                    0 <= j < old(self).boot().len() && old(self).boot()[j] == msg.token@
                        && final(self).boot() == old(self).boot().remove(j)
            }),
    {
        if self.take_pending(msg.token, msg.src.id) {
            let probe = self.table.update(msg.src.clone_info());
            return (true, probe);
        }
        let is_ping = match &msg.payload {
            Payload::Reply(Reply::PingReply) => true,
            _ => false,
        };
        if is_ping && take_token(&mut self.bootstrap, msg.token) {
            let probe = self.table.update(msg.src.clone_info());
            (true, probe)
        } else {
            (false, None)
        }
    }

    /// Whether a bootstrap ping under `token` awaits its reply.
    pub fn is_booting(&self, token: Key) -> (r: bool)
        ensures
            r == self.boot().contains(token@),
    {
        let mut j: usize = 0;
        while j < self.bootstrap.len()
            invariant
                0 <= j <= self.bootstrap@.len(),
                forall|k: int| 0 <= k < j ==> (#[trigger] self.boot()[k]) != token@,
            decreases self.bootstrap@.len() - j,
        {
            if self.bootstrap[j] == token {
                assert(self.boot()[j as int] == token@);
                return true;
            }
            j = j + 1;
        }
        false
    }

    /// Records a ping about to be sent under `token` to a bootstrap address
    /// whose peer is not known yet. A token already awaiting its reply is
    /// refused; the result says whether it was recorded.
    pub fn register_bootstrap(&mut self, token: Key) -> (r: bool)
        requires
            old(self).wf(),
        ensures
            final(self).wf(),
            final(self).net() == old(self).net(),
            final(self).ttl() == old(self).ttl(),
            final(self).store_view() == old(self).store_view(),
            final(self).table_view() == old(self).table_view(),
            final(self).pending() == old(self).pending(),
            r == !old(self).boot().contains(token@),
            r ==> final(self).boot() == old(self).boot().push(token@),
            !r ==> final(self).boot() == old(self).boot(),
    {
        let ghost b0 = self.boot();
        if self.is_booting(token) {
            return false;
        }
        self.bootstrap.push(token);
        proof {
            let b1 = self.boot();
            assert(b1 =~= b0.push(token@));
            assert forall|a: int, c: int| 0 <= a < b1.len() && 0 <= c < b1.len() && a != c implies b1[a] != b1[c] by {
                if a < b0.len() && c < b0.len() {
                    assert(b1[a] == b0[a] && b1[c] == b0[c]);
                } else if a < b0.len() {
                    assert(b1[a] == b0[a]);
                } else {
                    assert(b1[c] == b0[c]);
                }
            }
        }
        true
    }

    /// Takes out a bootstrap ping that timed out; the result says whether it
    /// was registered.
    pub fn expire_bootstrap(&mut self, token: Key) -> (r: bool)
        requires
            old(self).wf(),
        ensures
            final(self).wf(),
            final(self).net() == old(self).net(),
            final(self).ttl() == old(self).ttl(),
            final(self).store_view() == old(self).store_view(),
            final(self).table_view() == old(self).table_view(),
            final(self).pending() == old(self).pending(),
            r == old(self).boot().contains(token@),
            !final(self).boot().contains(token@),
    {
        take_token(&mut self.bootstrap, token)
    }

    /// Takes out the registration of a request that timed out; the result
    /// says whether there was one.
    pub fn expire(&mut self, token: Key, peer: Key) -> (r: bool)
        requires
            old(self).wf(),
        ensures
            final(self).wf(),
            final(self).net() == old(self).net(),
            final(self).ttl() == old(self).ttl(),
            final(self).boot() == old(self).boot(),
            final(self).store_view() == old(self).store_view(),
            final(self).table_view() == old(self).table_view(),
            r == old(self).pending().contains((token@, peer@)),
            !final(self).pending().contains((token@, peer@)),
            r ==> exists|j: int|
                0 <= j < old(self).pending().len() && old(self).pending()[j] == (token@, peer@)
                    && final(self).pending() == old(self).pending().remove(j),
            !r ==> final(self).pending() == old(self).pending(),
    {
        self.take_pending(token, peer)
    }
}

} // verus!
