//! The k-bucket routing table: known peers grouped by how many leading bits
//! their identifier shares with the local one.
use vstd::prelude::*;
use crate::key::{
    Key, Distance, ID_BITS, ID_LEN, prefix_len, xor_seq, be_value, lemma_prefix_len_range,
    lemma_prefix_of_distance, lemma_longer_prefix_smaller,
};

verus! {

/// Most peers a bucket holds.
pub const BUCKET_SIZE: usize = 20;

/// A known peer: its identifier and its transport address (`host:port`).
#[derive(Clone, Debug)]
pub struct NodeInfo {
    pub id: Key,
    pub addr: String,
}

/// What a peer is, mathematically.
pub struct NodeView {
    pub id: Seq<u8>,
    pub addr: Seq<char>,
}

impl View for NodeInfo {
    type V = NodeView;

    open spec fn view(&self) -> NodeView {
        NodeView { id: self.id@, addr: self.addr@ }
    }
}

impl NodeInfo {
    /// A copy of this peer.
    pub fn clone_info(&self) -> (r: NodeInfo)
        ensures
            r@ == self@,
            r == *self,
    {
        NodeInfo { id: self.id, addr: self.addr.clone() }
    }
}

/// What a routing table is: the local peer and its buckets, each ordered from
/// least to most recently seen.
pub struct TableView {
    pub node: NodeView,
    pub buckets: Seq<Seq<NodeView>>,
}

/// The bucket that identifier `id` belongs to, seen from `local`.
pub open spec fn bucket_index(local: Seq<u8>, id: Seq<u8>) -> int {
    prefix_len(xor_seq(local, id))
}

/// Whether some entry of `b` has identifier `id`.
pub open spec fn has_id(b: Seq<NodeView>, id: Seq<u8>) -> bool {
    exists|j: int| 0 <= j < b.len() && (#[trigger] b[j]).id == id
}

/// The position of the entry with identifier `id` in `b`.
pub open spec fn index_of_id(b: Seq<NodeView>, id: Seq<u8>) -> int {
    choose|j: int| 0 <= j < b.len() && (#[trigger] b[j]).id == id
}

/// A bucket after `n` was seen: a known peer moves to the most recently seen
/// end under its new address, an unknown one is appended while there is
/// room, and a full bucket ignores an unknown peer.
pub open spec fn bucket_after_update(b: Seq<NodeView>, n: NodeView) -> Seq<NodeView> {
    if has_id(b, n.id) {
        b.remove(index_of_id(b, n.id)).push(n)
    } else if b.len() < BUCKET_SIZE {
        b.push(n)
    } else {
        b
    }
}

/// A table after `n` was seen.
pub open spec fn table_after_update(t: TableView, n: NodeView) -> TableView {
    let i = bucket_index(t.node.id, n.id);
    TableView { node: t.node, buckets: t.buckets.update(i, bucket_after_update(t.buckets[i], n)) }
}

/// A bucket after its entry `stale` failed a liveness probe and `n` asked
/// for its place: the stale entry leaves and `n` becomes the most recently
/// seen, provided `stale` is there and `n` is not.
pub open spec fn bucket_after_eviction(b: Seq<NodeView>, stale: Seq<u8>, n: NodeView) -> Seq<NodeView> {
    if has_id(b, stale) && !has_id(b, n.id) {
        b.remove(index_of_id(b, stale)).push(n)
    } else {
        b
    }
}

/// A table after `stale` was evicted in favour of `n`, in the bucket of `n`.
pub open spec fn table_after_eviction(t: TableView, stale: Seq<u8>, n: NodeView) -> TableView {
    let i = bucket_index(t.node.id, n.id);
    TableView {
        node: t.node,
        buckets: t.buckets.update(i, bucket_after_eviction(t.buckets[i], stale, n)),
    }
}

/// Whether `n` is an entry of the table.
pub open spec fn table_holds(t: TableView, n: NodeView) -> bool {
    exists|i: int, j: int|
        0 <= i < t.buckets.len() && 0 <= j < t.buckets[i].len() && #[trigger] t.buckets[i][j] == n
}

/// A well-formed table: one bucket per bit, each within its capacity, each
/// entry in the bucket its identifier belongs to, no identifier twice in a
/// bucket.
pub open spec fn table_wf(t: TableView) -> bool {
    &&& t.node.id.len() == ID_LEN
    &&& t.buckets.len() == ID_BITS
    &&& forall|i: int| 0 <= i < t.buckets.len() ==> (#[trigger] t.buckets[i]).len() <= BUCKET_SIZE
    &&& forall|i: int, j: int|
        0 <= i < t.buckets.len() && 0 <= j < t.buckets[i].len() ==> {
            &&& (#[trigger] t.buckets[i][j]).id.len() == ID_LEN
            &&& bucket_index(t.node.id, t.buckets[i][j].id) == i
        }
    &&& forall|i: int, j1: int, j2: int|
        0 <= i < t.buckets.len() && 0 <= j1 < t.buckets[i].len() && 0 <= j2 < t.buckets[i].len()
            && j1 != j2 ==> (#[trigger] t.buckets[i][j1]).id != (#[trigger] t.buckets[i][j2]).id
}

/// The peers known to one node.
pub struct RoutingTable {
    node: NodeInfo,
    buckets: Vec<Vec<NodeInfo>>,
}

impl View for RoutingTable {
    type V = TableView;

    closed spec fn view(&self) -> TableView {
        TableView {
            node: self.node@,
            buckets: self.buckets@.map_values(|b: Vec<NodeInfo>| b@.map_values(|n: NodeInfo| n@)),
        }
    }
}

/// The distance from `n` to `target`, as an integer.
pub open spec fn dist_to(n: NodeView, target: Seq<u8>) -> nat {
    be_value(xor_seq(n.id, target))
}

/// The number of entries in the buckets `bs`.
pub open spec fn entry_count(bs: Seq<Seq<NodeView>>) -> nat
    decreases bs.len(),
{
    if bs.len() == 0 {
        0
    } else {
        entry_count(bs.drop_last()) + bs.last().len()
    }
}

/// The smaller of two naturals.
pub open spec fn min_nat(a: nat, b: nat) -> nat {
    if a <= b {
        a
    } else {
        b
    }
}

/// Whether `r` is the answer to a query for the `count` peers of `t` closest
/// to `target`: entries of the table, nearest first, and every entry left out
/// is at least as far as every one taken, which only happens once `count`
/// were taken.
pub open spec fn is_closest(t: TableView, target: Seq<u8>, count: nat, r: Seq<NodeView>) -> bool {
    &&& r.len() == min_nat(count, entry_count(t.buckets))
    &&& r.no_duplicates()
    &&& forall|k: int| 0 <= k < r.len() ==> table_holds(t, #[trigger] r[k])
    &&& forall|k1: int, k2: int|
        0 <= k1 < k2 < r.len() ==> dist_to(#[trigger] r[k1], target) <= dist_to(#[trigger] r[k2], target)
    &&& forall|n: NodeView|
        table_holds(t, n) && !r.contains(n) ==> {
            &&& r.len() == count
            &&& forall|k: int| 0 <= k < r.len() ==> dist_to(#[trigger] r[k], target) <= dist_to(n, target)
        }
}

/// The peers of a list of peers and distances.
pub open spec fn nodes_of(s: Seq<(NodeInfo, Distance)>) -> Seq<NodeView> {
    s.map_values(|p: (NodeInfo, Distance)| p.0@)
}

/// A list of peers with their distance to `target`, nearest first.
pub open spec fn sorted_pairs(s: Seq<(NodeInfo, Distance)>, target: Seq<u8>) -> bool {
    &&& forall|k: int| 0 <= k < s.len() ==> (#[trigger] s[k]).1@ == xor_seq(s[k].0.id@, target)
    &&& forall|k1: int, k2: int|
        0 <= k1 < k2 < s.len() ==> be_value((#[trigger] s[k1]).1@) <= be_value((#[trigger] s[k2]).1@)
}

pub(crate) proof fn lemma_insert_contains<A>(s: Seq<A>, pos: int, x: A)
    requires
        0 <= pos <= s.len(),
    ensures
        s.insert(pos, x).contains(x),
        forall|y: A| s.contains(y) ==> #[trigger] s.insert(pos, x).contains(y),
        forall|y: A| #[trigger] s.insert(pos, x).contains(y) ==> s.contains(y) || y == x,
{
    let s2 = s.insert(pos, x);
    assert(s2[pos] == x);
    assert forall|y: A| s.contains(y) implies #[trigger] s2.contains(y) by {
        let k = choose|k: int| 0 <= k < s.len() && s[k] == y;
        if k < pos {
            assert(s2[k] == y);
        } else {
            assert(s2[k + 1] == y);
        }
    }
    assert forall|y: A| #[trigger] s2.contains(y) implies s.contains(y) || y == x by {
        let k = choose|k: int| 0 <= k < s2.len() && s2[k] == y;
        if k < pos {
            assert(s[k] == y);
        } else if k > pos {
            assert(s[k - 1] == y);
        }
    }
}

proof fn lemma_insert_no_dup<A>(s: Seq<A>, pos: int, x: A)
    requires
        0 <= pos <= s.len(),
        s.no_duplicates(),
        !s.contains(x),
    ensures
        s.insert(pos, x).no_duplicates(),
{
    let s2 = s.insert(pos, x);
    assert forall|a: int, b: int| 0 <= a < s2.len() && 0 <= b < s2.len() && a != b implies s2[a] != s2[b] by {
        let ia = if a < pos { a } else { a - 1 };
        let ib = if b < pos { b } else { b - 1 };
        if a == pos {
            assert(s2[b] == s[ib]);
        } else if b == pos {
            assert(s2[a] == s[ia]);
        } else {
            assert(s2[a] == s[ia] && s2[b] == s[ib]);
        }
    }
}

/// Inserts a peer into a list kept nearest first.
pub(crate) fn insert_sorted(
    v: &mut Vec<(NodeInfo, Distance)>,
    n: NodeInfo,
    d: Distance,
    Ghost(target): Ghost<Seq<u8>>,
) -> (pos: usize)
    requires
        sorted_pairs(old(v)@, target),
        d@ == xor_seq(n.id@, target),
    ensures
        sorted_pairs(final(v)@, target),
        pos <= old(v)@.len(),
        final(v)@ == old(v)@.insert(pos as int, (n, d)),
{
    let mut pos: usize = 0;
    while pos < v.len()
        invariant
            0 <= pos <= v@.len(),
            forall|k: int| 0 <= k < pos ==> be_value((#[trigger] v@[k]).1@) <= be_value(d@),
        ensures
            0 <= pos <= v@.len(),
            forall|k: int| 0 <= k < pos ==> be_value((#[trigger] v@[k]).1@) <= be_value(d@),
            pos < v@.len() ==> be_value(d@) < be_value(v@[pos as int].1@),
        decreases v@.len() - pos,
    {
        if d.closer_than(&v[pos].1) {
            break;
        }
        pos = pos + 1;
    }
    let ghost ov = v@;
    v.insert(pos, (n, d));
    assert forall|k1: int, k2: int|
        0 <= k1 < k2 < v@.len() implies be_value((#[trigger] v@[k1]).1@) <= be_value((#[trigger] v@[k2]).1@) by {
        if k1 < pos && k2 > pos {
            assert(be_value(ov[k1].1@) <= be_value(ov[k2 - 1].1@));
        } else if k1 == pos && k2 > pos + 1 {
            assert(be_value(ov[pos as int].1@) <= be_value(ov[k2 - 1].1@));
        } else if k1 > pos {
            assert(be_value(ov[k1 - 1].1@) <= be_value(ov[k2 - 1].1@));
        }
    }
    pos
}

/// The position of the entry with identifier `id` in `b`, if any.
fn position_of(b: &Vec<NodeInfo>, id: Key) -> (r: Option<usize>)
    ensures
        match r {
            Some(j) => j < b@.len() && b@[j as int].id@ == id@,
            None => forall|k: int| 0 <= k < b@.len() ==> (#[trigger] b@[k]).id@ != id@,
        },
{
    let mut j: usize = 0;
    while j < b.len()
        invariant
            0 <= j <= b@.len(),
            forall|k: int| 0 <= k < j ==> (#[trigger] b@[k]).id@ != id@,
        decreases b@.len() - j,
    {
        if b[j].id == id {
            return Some(j);
        }
        j = j + 1;
    }
    None
}

impl RoutingTable {
    /// The well-formedness of this table.
    pub open spec fn wf(&self) -> bool {
        table_wf(self@)
    }

    /// A table that knows only the local peer, which sits in the last bucket.
    pub fn new(node: NodeInfo) -> (r: RoutingTable)
        ensures
            r.wf(),
            r@.node == node@,
            r@.buckets[ID_BITS - 1] == seq![node@],
            forall|i: int| 0 <= i < ID_BITS - 1 ==> (#[trigger] r@.buckets[i]).len() == 0,
    {
        let mut buckets: Vec<Vec<NodeInfo>> = Vec::new();
        let mut i: usize = 0;
        while i < ID_BITS
            invariant
                0 <= i <= ID_BITS,
                buckets@.len() == i,
                forall|k: int| 0 <= k < i ==> (#[trigger] buckets@[k])@.len() == 0,
            decreases ID_BITS - i,
        {
            buckets.push(Vec::new());
            i = i + 1;
        }
        let mut ret = RoutingTable { node: node.clone_info(), buckets };
        proof {
            crate::key::lemma_self_distance_last_bucket(node.id);
            assert(ret.wf());
        }
        let _ = ret.update(node);
        proof {
            let b = ret@.buckets[ID_BITS - 1];
            assert(b =~= seq![node@]);
        }
        ret
    }

    /// The entries of bucket `i`, least recently seen first.
    pub fn bucket(&self, i: usize) -> (r: &Vec<NodeInfo>)
        requires
            self.wf(),
            i < ID_BITS,
        ensures
            r@.map_values(|n: NodeInfo| n@) == self@.buckets[i as int],
    {
        &self.buckets[i]
    }

    /// The local peer.
    pub fn local(&self) -> (r: &NodeInfo)
        ensures
            r@ == self@.node,
    {
        &self.node
    }

    /// The bucket that `item` belongs to.
    pub fn lookup_bucket_index(&self, item: Key) -> (r: usize)
        ensures
            r == bucket_index(self@.node.id, item@),
            r < ID_BITS,
    {
        Distance::dist(self.node.id, item).zeroes_in_prefix()
    }

    /// Adds every entry of bucket `i`, with its distance to `item`, to the
    /// list `all` kept nearest first.
    fn scan_bucket(&self, i: usize, all: &mut Vec<(NodeInfo, Distance)>, item: Key)
        requires
            self.wf(),
            i < ID_BITS,
            sorted_pairs(old(all)@, item@),
            nodes_of(old(all)@).no_duplicates(),
            forall|k: int|
                0 <= k < old(all)@.len() ==> bucket_index(self@.node.id, (#[trigger] nodes_of(old(all)@)[k]).id)
                    != i,
        ensures
            scanned(old(all)@, final(all)@, self@.buckets[i as int], item@),
    {
        let ghost start = all@;
        let mut j: usize = 0;
        while j < self.buckets[i].len()
            invariant
                0 <= i < self.buckets@.len(),
                0 <= j <= self.buckets@[i as int]@.len(),
                self.wf(),
                sorted_pairs(all@, item@),
                all@.len() == start.len() + j,
                nodes_of(start).no_duplicates(),
                nodes_of(all@).no_duplicates(),
                forall|k: int|
                    0 <= k < start.len() ==> bucket_index(self@.node.id, (#[trigger] nodes_of(start)[k]).id) != i,
                forall|k: int|
                    0 <= k < all@.len() ==> nodes_of(start).contains(#[trigger] nodes_of(all@)[k])
                        || exists|jj: int| 0 <= jj < j && self@.buckets[i as int][jj] == nodes_of(all@)[k],
                forall|x: NodeView| nodes_of(start).contains(x) ==> #[trigger] nodes_of(all@).contains(x),
                forall|jj: int| 0 <= jj < j ==> nodes_of(all@).contains(#[trigger] self@.buckets[i as int][jj]),
            decreases self.buckets@[i as int]@.len() - j,
        {
            let n = self.buckets[i][j].clone_info();
            let d = Distance::dist(n.id, item);
            let ghost before = all@;
            assert(self@.buckets[i as int][j as int] == n@);
            proof {
                let nb = nodes_of(before);
                if nb.contains(n@) {
                    let q = choose|q: int| 0 <= q < nb.len() && nb[q] == n@;
                    if nodes_of(start).contains(nb[q]) {
                        let q2 = choose|q2: int| 0 <= q2 < nodes_of(start).len() && nodes_of(start)[q2] == n@;
                        assert(bucket_index(self@.node.id, nodes_of(start)[q2].id) != i);
                    } else {
                        let jj = choose|jj: int| 0 <= jj < j && self@.buckets[i as int][jj] == nb[q];
                        assert(self@.buckets[i as int][jj].id != self@.buckets[i as int][j as int].id);
                    }
                }
            }
            let at = insert_sorted(all, n, d, Ghost(item@));
            proof {
                let pos = at as int;
                assert(nodes_of(all@) =~= nodes_of(before).insert(pos, n@));
                lemma_insert_contains(nodes_of(before), pos, n@);
                lemma_insert_no_dup(nodes_of(before), pos, n@);
                assert forall|k: int| 0 <= k < all@.len() implies nodes_of(start).contains(
                    #[trigger] nodes_of(all@)[k],
                ) || exists|jj: int| 0 <= jj < j + 1 && self@.buckets[i as int][jj] == nodes_of(all@)[k] by {
                    if k < pos {
                        assert(nodes_of(all@)[k] == nodes_of(before)[k]);
                    } else if k > pos {
                        assert(nodes_of(all@)[k] == nodes_of(before)[k - 1]);
                    } else {
                        assert(self@.buckets[i as int][j as int] == nodes_of(all@)[k]);
                    }
                }
            }
            j = j + 1;
        }
        assert forall|k: int| 0 <= k < all@.len() implies nodes_of(start).contains(#[trigger] nodes_of(all@)[k])
            || self@.buckets[i as int].contains(nodes_of(all@)[k]) by {
            if !nodes_of(start).contains(nodes_of(all@)[k]) {
                let jj = choose|jj: int| 0 <= jj < j && self@.buckets[i as int][jj] == nodes_of(all@)[k];
                assert(self@.buckets[i as int][jj] == nodes_of(all@)[k]);
            }
        }
    }

    /// Up to `count` known peers nearest to `item`, nearest first, each with
    /// its distance to `item`. The buckets are read outward from the one that
    /// `item` belongs to, and the reading stops as soon as no bucket left can
    /// hold a nearer peer.
    pub fn find_closest_nodes(&self, item: Key, count: usize) -> (r: Vec<(NodeInfo, Distance)>)
        requires
            self.wf(),
        ensures
            is_closest(self@, item@, count as nat, nodes_of(r@)),
            sorted_pairs(r@, item@),
    {
        let mut all: Vec<(NodeInfo, Distance)> = Vec::new();
        if count == 0 {
            assert(nodes_of(all@) =~= Seq::<NodeView>::empty());
            return all;
        }
        let b = self.lookup_bucket_index(item);
        let ghost t = self@;
        proof {
            assert(t.buckets.subrange(b as int, b as int) =~= Seq::<Seq<NodeView>>::empty());
            assert(nodes_of(all@) =~= Seq::<NodeView>::empty());
        }
        let ghost start = all@;
        assert(nodes_of(all@).no_duplicates());
        self.scan_bucket(b, &mut all, item);
        proof {
            lemma_gather_step(t, item@, start, all@, b as int, b as int, b as int);
        }
        if all.len() >= count {
            return take_first(&all, count, Ghost(t), Ghost(item@), Ghost(b as int), Ghost(b + 1));
        }
        let mut i: usize = b + 1;
        while i < ID_BITS
            invariant
                b < i <= ID_BITS,
                self.wf(),
                self@ == t,
                b == bucket_index(t.node.id, item@),
                gathered(t, item@, all@, b as int, i as int),
            decreases ID_BITS - i,
        {
            let ghost before = all@;
            self.scan_bucket(i, &mut all, item);
            proof {
                lemma_gather_step(t, item@, before, all@, b as int, i as int, i as int);
            }
            i = i + 1;
        }
        if all.len() >= count {
            return take_first(&all, count, Ghost(t), Ghost(item@), Ghost(b as int), Ghost(ID_BITS as int));
        }
        let mut lo: usize = b;
        while lo > 0
            invariant
                0 <= lo <= b,
                b < ID_BITS,
                self.wf(),
                self@ == t,
                b == bucket_index(t.node.id, item@),
                gathered(t, item@, all@, lo as int, ID_BITS as int),
            decreases lo,
        {
            let ghost before = all@;
            self.scan_bucket(lo - 1, &mut all, item);
            proof {
                lemma_gather_step(t, item@, before, all@, lo as int, ID_BITS as int, lo - 1);
            }
            lo = lo - 1;
            if all.len() >= count {
                return take_first(&all, count, Ghost(t), Ghost(item@), Ghost(lo as int), Ghost(ID_BITS as int));
            }
        }
        take_first(&all, count, Ghost(t), Ghost(item@), Ghost(0), Ghost(ID_BITS as int))
    }

    /// Up to `count` known peers nearest to `item`, nearest first.
    pub fn lookup_nodes(&self, item: Key, count: usize) -> (r: Vec<NodeInfo>)
        requires
            self.wf(),
        ensures
            is_closest(self@, item@, count as nat, r@.map_values(|n: NodeInfo| n@)),
    {
        let pairs = self.find_closest_nodes(item, count);
        let mut ret: Vec<NodeInfo> = Vec::new();
        let mut k: usize = 0;
        while k < pairs.len()
            invariant
                0 <= k <= pairs@.len(),
                ret@.len() == k,
                forall|q: int| 0 <= q < k ==> #[trigger] ret@[q] == pairs@[q].0,
            decreases pairs@.len() - k,
        {
            ret.push(pairs[k].0.clone_info());
            k = k + 1;
        }
        assert(ret@.map_values(|n: NodeInfo| n@) =~= nodes_of(pairs@));
        ret
    }

    /// Evicts the entry `stale`, which failed a liveness probe, in favour of
    /// `node`, which found its bucket full. The result says whether the
    /// eviction happened: it does when `stale` is in the bucket of `node` and
    /// `node` is not.
    pub fn replace_stale(&mut self, stale: Key, node: NodeInfo) -> (r: bool)
        requires
            old(self).wf(),
        ensures
            final(self).wf(),
            final(self)@ == table_after_eviction(old(self)@, stale@, node@),
            ({
                let b = old(self)@.buckets[bucket_index(old(self)@.node.id, node.id@)];
                r == (has_id(b, stale@) && !has_id(b, node.id@))
            }),
    {
        let idx = self.lookup_bucket_index(node.id);
        let ghost t = self@;
        let ghost b = t.buckets[idx as int];
        proof {
            lemma_eviction_wf(t, stale@, node@);
        }
        assert(self.buckets@[idx as int]@.map_values(|n: NodeInfo| n@) == b);
        let found_new = position_of(&self.buckets[idx], node.id);
        if found_new.is_some() {
            proof {
                let j = found_new.unwrap();
                assert(b[j as int].id == node.id@);
            }
            assert(self@.buckets =~= t.buckets.update(idx as int, b));
            return false;
        }
        match position_of(&self.buckets[idx], stale) {
            Some(j) => {
                proof {
                    assert(b[j as int].id == stale@);
                    assert(has_id(b, stale@));
                    assert(index_of_id(b, stale@) == j);
                }
                let ghost nb = b.remove(j as int).push(node@);
                self.buckets[idx].remove(j);
                self.buckets[idx].push(node);
                assert(self.buckets@[idx as int]@.map_values(|n: NodeInfo| n@) =~= nb);
                assert(self@.buckets =~= t.buckets.update(idx as int, nb));
                true
            },
            None => {
                assert(self@.buckets =~= t.buckets.update(idx as int, b));
                false
            },
        }
    }

    /// Records that `node` was seen. A known peer becomes its bucket's most
    /// recently seen entry, under the address given; an unknown peer is
    /// appended while its bucket has room. When the bucket is full the table
    /// stays as it is and the least recently seen entry of that bucket is
    /// returned: the caller probes it and, if it does not answer, hands both
    /// to `replace_stale`.
    pub fn update(&mut self, node: NodeInfo) -> (r: Option<NodeInfo>)
        requires
            old(self).wf(),
        ensures
            final(self).wf(),
            final(self)@ == table_after_update(old(self)@, node@),
            ({
                let b = old(self)@.buckets[bucket_index(old(self)@.node.id, node.id@)];
                &&& r.is_some() == (!has_id(b, node.id@) && b.len() >= BUCKET_SIZE)
                &&& r.is_some() ==> r.unwrap()@ == b[0]
            }),
    {
        let idx = self.lookup_bucket_index(node.id);
        let ghost t = self@;
        let ghost b = t.buckets[idx as int];
        proof {
            lemma_update_wf(t, node@);
        }
        assert(self.buckets@[idx as int]@.map_values(|n: NodeInfo| n@) == b);
        let pos = position_of(&self.buckets[idx], node.id);
        match pos {
            Some(j) => {
                proof {
                    assert(b[j as int].id == node.id@);
                    assert(has_id(b, node.id@));
                    assert(index_of_id(b, node.id@) == j);
                }
                let ghost nb = b.remove(j as int).push(node@);
                self.buckets[idx].remove(j);
                self.buckets[idx].push(node);
                assert(self.buckets@[idx as int]@.map_values(|n: NodeInfo| n@) =~= nb);
                assert(self@.buckets =~= t.buckets.update(idx as int, nb));
                None
            },
            None => {
                proof {
                    assert(!has_id(b, node.id@));
                }
                if self.buckets[idx].len() < BUCKET_SIZE {
                    let ghost nb = b.push(node@);
                    self.buckets[idx].push(node);
                    assert(self.buckets@[idx as int]@.map_values(|n: NodeInfo| n@) =~= nb);
                    assert(self@.buckets =~= t.buckets.update(idx as int, nb));
                    None
                } else {
                    assert(self@.buckets =~= t.buckets.update(idx as int, b));
                    Some(self.buckets[idx][0].clone_info())
                }
            },
        }
    }
}

proof fn lemma_entry_count_append(s1: Seq<Seq<NodeView>>, s2: Seq<Seq<NodeView>>)
    ensures
        entry_count(s1 + s2) == entry_count(s1) + entry_count(s2),
    decreases s2.len(),
{
    if s2.len() > 0 {
        assert((s1 + s2).drop_last() =~= s1 + s2.drop_last());
        lemma_entry_count_append(s1, s2.drop_last());
    } else {
        assert(s1 + s2 =~= s1);
    }
}

proof fn lemma_entry_count_range(bs: Seq<Seq<NodeView>>, lo: int, hi: int)
    requires
        0 <= lo <= hi <= bs.len(),
    ensures
        entry_count(bs.subrange(lo, hi)) <= entry_count(bs),
{
    let a = bs.subrange(0, lo);
    let m = bs.subrange(lo, hi);
    let c = bs.subrange(hi, bs.len() as int);
    assert(bs =~= a + m + c);
    lemma_entry_count_append(a + m, c);
    lemma_entry_count_append(a, m);
}

/// The sets of buckets after which a scan outward from bucket `b` may stop:
/// bucket `b` alone, or every bucket from `lo` on.
pub open spec fn stop_shape(b: int, lo: int, hi: int) -> bool {
    (lo == b && hi == b + 1) || (0 <= lo <= b && hi == ID_BITS)
}

/// Every entry of a bucket that an outward scan has reached is nearer to the
/// target than every entry of a bucket it has not.
proof fn lemma_scan_order(t: TableView, target: Seq<u8>, lo: int, hi: int, x: NodeView, n: NodeView)
    requires
        t.node.id.len() == ID_LEN,
        target.len() == ID_LEN,
        x.id.len() == ID_LEN,
        n.id.len() == ID_LEN,
        stop_shape(bucket_index(t.node.id, target), lo, hi),
        lo <= bucket_index(t.node.id, x.id) < hi,
        !(lo <= bucket_index(t.node.id, n.id) < hi),
    ensures
        dist_to(x, target) < dist_to(n, target),
{
    lemma_prefix_of_distance(t.node.id, x.id, target);
    lemma_prefix_of_distance(t.node.id, n.id, target);
    lemma_prefix_len_range(xor_seq(t.node.id, x.id));
    lemma_prefix_len_range(xor_seq(t.node.id, n.id));
    lemma_prefix_len_range(xor_seq(t.node.id, target));
    lemma_prefix_len_range(xor_seq(x.id, target));
    lemma_prefix_len_range(xor_seq(n.id, target));
    lemma_longer_prefix_smaller(xor_seq(x.id, target), xor_seq(n.id, target));
}

/// What an outward scan that stops at the right place has gathered, cut to
/// `count`, answers the query.
proof fn lemma_scan_result(t: TableView, target: Seq<u8>, count: nat, s: Seq<NodeView>, lo: int, hi: int)
    requires
        table_wf(t),
        target.len() == ID_LEN,
        stop_shape(bucket_index(t.node.id, target), lo, hi),
        forall|k1: int, k2: int|
            0 <= k1 < k2 < s.len() ==> dist_to(#[trigger] s[k1], target) <= dist_to(#[trigger] s[k2], target),
        forall|k: int|
            0 <= k < s.len() ==> table_holds(t, #[trigger] s[k]) && lo <= bucket_index(t.node.id, s[k].id) < hi,
        forall|a: int, j: int|
            lo <= a < hi && 0 <= j < t.buckets[a].len() ==> s.contains(#[trigger] t.buckets[a][j]),
        s.len() == entry_count(t.buckets.subrange(lo, hi)),
        s.len() >= count || (lo == 0 && hi == ID_BITS),
        s.no_duplicates(),
    ensures
        is_closest(t, target, count, s.subrange(0, min_nat(count, s.len()) as int)),
{
    let m = min_nat(count, s.len());
    let r = s.subrange(0, m as int);
    assert forall|a: int, b: int| 0 <= a < r.len() && 0 <= b < r.len() && a != b implies r[a] != r[b] by {
        assert(r[a] == s[a] && r[b] == s[b]);
    }
    lemma_prefix_len_range(xor_seq(t.node.id, target));
    lemma_entry_count_range(t.buckets, lo, hi);
    if lo == 0 && hi == ID_BITS {
        assert(t.buckets.subrange(lo, hi) =~= t.buckets);
    }
    assert forall|n: NodeView| table_holds(t, n) && !r.contains(n) implies {
        &&& r.len() == count
        &&& forall|q: int| 0 <= q < r.len() ==> dist_to(#[trigger] r[q], target) <= dist_to(n, target)
    } by {
        let (a, j) = choose|a: int, j: int|
            0 <= a < t.buckets.len() && 0 <= j < t.buckets[a].len() && #[trigger] t.buckets[a][j] == n;
        if lo <= a < hi {
            assert(s.contains(t.buckets[a][j]));
            let p = choose|p: int| 0 <= p < s.len() && s[p] == n;
            if p < m {
                assert(r[p] == n);
            }
            assert forall|q: int| 0 <= q < r.len() implies dist_to(#[trigger] r[q], target) <= dist_to(n, target) by {
                assert(r[q] == s[q]);
            }
        } else {
            assert forall|q: int| 0 <= q < r.len() implies dist_to(#[trigger] r[q], target) <= dist_to(n, target) by {
                assert(r[q] == s[q]);
                assert(table_holds(t, s[q]));
                let (a2, j2) = choose|a2: int, j2: int|
                    0 <= a2 < t.buckets.len() && 0 <= j2 < t.buckets[a2].len() && #[trigger] t.buckets[a2][j2] == s[q];
                assert(t.buckets[a2][j2].id.len() == ID_LEN);
                lemma_scan_order(t, target, lo, hi, s[q], n);
            }
        }
    }
    assert forall|k: int| 0 <= k < r.len() implies table_holds(t, #[trigger] r[k]) by {
        assert(r[k] == s[k]);
    }
    assert forall|k1: int, k2: int| 0 <= k1 < k2 < r.len() implies dist_to(#[trigger] r[k1], target) <= dist_to(
        #[trigger] r[k2],
        target,
    ) by {
        assert(r[k1] == s[k1] && r[k2] == s[k2]);
    }
}

/// `after` is `before` with the entries of bucket `bucket` added, each with
/// its distance to `target`, still nearest first.
pub open spec fn scanned(
    before: Seq<(NodeInfo, Distance)>,
    after: Seq<(NodeInfo, Distance)>,
    bucket: Seq<NodeView>,
    target: Seq<u8>,
) -> bool {
    &&& sorted_pairs(after, target)
    &&& nodes_of(after).no_duplicates()
    &&& after.len() == before.len() + bucket.len()
    &&& forall|k: int|
        0 <= k < after.len() ==> nodes_of(before).contains(#[trigger] nodes_of(after)[k]) || bucket.contains(
            nodes_of(after)[k],
        )
    &&& forall|x: NodeView| nodes_of(before).contains(x) ==> #[trigger] nodes_of(after).contains(x)
    &&& forall|jj: int| 0 <= jj < bucket.len() ==> nodes_of(after).contains(#[trigger] bucket[jj])
}

/// `all` holds exactly the entries of buckets `lo` to `hi` (excluded), each
/// with its distance to `target`, nearest first.
pub open spec fn gathered(t: TableView, target: Seq<u8>, all: Seq<(NodeInfo, Distance)>, lo: int, hi: int) -> bool {
    &&& sorted_pairs(all, target)
    &&& nodes_of(all).no_duplicates()
    &&& forall|k: int|
        0 <= k < all.len() ==> table_holds(t, #[trigger] nodes_of(all)[k]) && lo <= bucket_index(
            t.node.id,
            nodes_of(all)[k].id,
        ) < hi
    &&& forall|a: int, j: int|
        lo <= a < hi && 0 <= j < t.buckets[a].len() ==> nodes_of(all).contains(#[trigger] t.buckets[a][j])
    &&& all.len() == entry_count(t.buckets.subrange(lo, hi))
}

proof fn lemma_gather_step(
    t: TableView,
    target: Seq<u8>,
    before: Seq<(NodeInfo, Distance)>,
    after: Seq<(NodeInfo, Distance)>,
    lo: int,
    hi: int,
    i: int,
)
    requires
        table_wf(t),
        0 <= lo <= hi <= ID_BITS,
        0 <= i < ID_BITS,
        i == hi || i == lo - 1,
        lo == hi ==> before.len() == 0,
        lo < hi ==> gathered(t, target, before, lo, hi),
        scanned(before, after, t.buckets[i], target),
    ensures
        i == hi ==> gathered(t, target, after, lo, hi + 1),
        i == lo - 1 && i != hi ==> gathered(t, target, after, lo - 1, hi),
{
    let nlo = if i == hi { lo } else { lo - 1 };
    let nhi = if i == hi { hi + 1 } else { hi };
    if lo == hi {
        assert(t.buckets.subrange(lo, hi) =~= Seq::<Seq<NodeView>>::empty());
        assert(nodes_of(before) =~= Seq::<NodeView>::empty());
    }
    assert forall|k: int| 0 <= k < after.len() implies table_holds(t, #[trigger] nodes_of(after)[k]) && nlo
        <= bucket_index(t.node.id, nodes_of(after)[k].id) < nhi by {
        let x = nodes_of(after)[k];
        if nodes_of(before).contains(x) {
            let q = choose|q: int| 0 <= q < nodes_of(before).len() && nodes_of(before)[q] == x;
            assert(table_holds(t, nodes_of(before)[q]));
        } else {
            let j = choose|j: int| 0 <= j < t.buckets[i].len() && t.buckets[i][j] == x;
            assert(t.buckets[i][j] == x);
        }
    }
    assert forall|a: int, j: int| nlo <= a < nhi && 0 <= j < t.buckets[a].len() implies nodes_of(after).contains(
        #[trigger] t.buckets[a][j],
    ) by {
        if a != i {
            assert(nodes_of(before).contains(t.buckets[a][j]));
        }
    }
    if i == hi {
        assert(t.buckets.subrange(lo, hi + 1).drop_last() =~= t.buckets.subrange(lo, hi));
        assert(t.buckets.subrange(lo, hi + 1).last() == t.buckets[i]);
        assert(after.len() == entry_count(t.buckets.subrange(lo, hi + 1)));
        assert(sorted_pairs(after, target));
    } else {
        assert(t.buckets.subrange(lo - 1, hi) =~= t.buckets.subrange(lo - 1, lo) + t.buckets.subrange(lo, hi));
        lemma_entry_count_append(t.buckets.subrange(lo - 1, lo), t.buckets.subrange(lo, hi));
        assert(t.buckets.subrange(lo - 1, lo).drop_last() =~= Seq::<Seq<NodeView>>::empty());
        assert(t.buckets.subrange(lo - 1, lo).last() == t.buckets[i]);
        assert(entry_count(Seq::<Seq<NodeView>>::empty()) == 0);
        assert(entry_count(t.buckets.subrange(lo - 1, lo)) == t.buckets[i].len());
        assert(after.len() == entry_count(t.buckets.subrange(lo - 1, hi)));
    }
}

/// The first `count` entries of a list gathered by an outward scan that
/// stopped at the right place: the answer to the query.
fn take_first(
    all: &Vec<(NodeInfo, Distance)>,
    count: usize,
    Ghost(t): Ghost<TableView>,
    Ghost(target): Ghost<Seq<u8>>,
    Ghost(lo): Ghost<int>,
    Ghost(hi): Ghost<int>,
) -> (r: Vec<(NodeInfo, Distance)>)
    requires
        table_wf(t),
        target.len() == ID_LEN,
        stop_shape(bucket_index(t.node.id, target), lo, hi),
        gathered(t, target, all@, lo, hi),
        all@.len() >= count || (lo == 0 && hi == ID_BITS),
    ensures
        is_closest(t, target, count as nat, nodes_of(r@)),
        sorted_pairs(r@, target),
{
    let mut ret: Vec<(NodeInfo, Distance)> = Vec::new();
    let mut k: usize = 0;
    while k < count && k < all.len()
        invariant
            0 <= k <= count,
            k <= all@.len(),
            ret@ == all@.subrange(0, k as int),
        decreases all@.len() - k,
    {
        ret.push((all[k].0.clone_info(), all[k].1));
        assert(ret@ =~= all@.subrange(0, k + 1));
        k = k + 1;
    }
    proof {
        let s = nodes_of(all@);
        assert forall|k1: int, k2: int| 0 <= k1 < k2 < s.len() implies dist_to(#[trigger] s[k1], target) <= dist_to(
            #[trigger] s[k2],
            target,
        ) by {
            assert(be_value(all@[k1].1@) <= be_value(all@[k2].1@));
        }
        assert forall|a: int, j: int| lo <= a < hi && 0 <= j < t.buckets[a].len() implies s.contains(
            #[trigger] t.buckets[a][j],
        ) by {
            assert(nodes_of(all@).contains(t.buckets[a][j]));
        }
        lemma_scan_result(t, target, count as nat, s, lo, hi);
        assert(k == min_nat(count as nat, s.len()));
        assert(nodes_of(ret@) =~= s.subrange(0, k as int));
    }
    ret
}

/// Seeing a peer keeps a table well formed.
pub proof fn lemma_update_wf(t: TableView, n: NodeView)
    requires
        table_wf(t),
        n.id.len() == ID_LEN,
    ensures
        table_wf(table_after_update(t, n)),
{
    let i = bucket_index(t.node.id, n.id);
    lemma_prefix_len_range(xor_seq(t.node.id, n.id));
    let b = t.buckets[i];
    let b1 = bucket_after_update(b, n);
    let t1 = table_after_update(t, n);
    assert(t1.buckets[i] == b1);
    if has_id(b, n.id) {
        let j = index_of_id(b, n.id);
        assert forall|k: int| 0 <= k < b1.len() - 1 implies (#[trigger] b1[k]).id != n.id by {
            if k < j {
                assert(b1[k] == b[k]);
            } else {
                assert(b1[k] == b[k + 1]);
            }
        }
    }
    assert forall|a: int, j: int|
        0 <= a < t1.buckets.len() && 0 <= j < t1.buckets[a].len() implies {
            &&& (#[trigger] t1.buckets[a][j]).id.len() == ID_LEN
            &&& bucket_index(t1.node.id, t1.buckets[a][j].id) == a
        } by {
        if a == i && has_id(b, n.id) && j < b1.len() - 1 {
            let jj = index_of_id(b, n.id);
            if j < jj {
                assert(b1[j] == b[j]);
            } else {
                assert(b1[j] == b[j + 1]);
            }
        }
    }
    assert forall|a: int, j1: int, j2: int|
        0 <= a < t1.buckets.len() && 0 <= j1 < t1.buckets[a].len() && 0 <= j2 < t1.buckets[a].len()
            && j1 != j2 implies (#[trigger] t1.buckets[a][j1]).id != (#[trigger] t1.buckets[a][j2]).id by {
        if a == i && has_id(b, n.id) {
            let jj = index_of_id(b, n.id);
            let k1 = if j1 < jj { j1 } else { j1 + 1 };
            let k2 = if j2 < jj { j2 } else { j2 + 1 };
            if j1 < b1.len() - 1 {
                assert(b1[j1] == b[k1]);
            }
            if j2 < b1.len() - 1 {
                assert(b1[j2] == b[k2]);
            }
        }
    }
}

/// Evicting an entry keeps a table well formed.
pub proof fn lemma_eviction_wf(t: TableView, stale: Seq<u8>, n: NodeView)
    requires
        table_wf(t),
        n.id.len() == ID_LEN,
    ensures
        table_wf(table_after_eviction(t, stale, n)),
{
    let i = bucket_index(t.node.id, n.id);
    lemma_prefix_len_range(xor_seq(t.node.id, n.id));
    let b = t.buckets[i];
    let b1 = bucket_after_eviction(b, stale, n);
    let t1 = table_after_eviction(t, stale, n);
    assert(t1.buckets[i] == b1);
    if has_id(b, stale) && !has_id(b, n.id) {
        let jj = index_of_id(b, stale);
        assert forall|a: int, j: int|
            0 <= a < t1.buckets.len() && 0 <= j < t1.buckets[a].len() implies {
                &&& (#[trigger] t1.buckets[a][j]).id.len() == ID_LEN
                &&& bucket_index(t1.node.id, t1.buckets[a][j].id) == a
            } by {
            if a == i && j < b1.len() - 1 {
                if j < jj {
                    assert(b1[j] == b[j]);
                } else {
                    assert(b1[j] == b[j + 1]);
                }
            }
        }
        assert forall|a: int, j1: int, j2: int|
            0 <= a < t1.buckets.len() && 0 <= j1 < t1.buckets[a].len() && 0 <= j2 < t1.buckets[a].len()
                && j1 != j2 implies (#[trigger] t1.buckets[a][j1]).id != (#[trigger] t1.buckets[a][j2]).id by {
            if a == i {
                let k1 = if j1 < jj { j1 } else { j1 + 1 };
                let k2 = if j2 < jj { j2 } else { j2 + 1 };
                if j1 < b1.len() - 1 {
                    assert(b1[j1] == b[k1]);
                }
                if j2 < b1.len() - 1 {
                    assert(b1[j2] == b[k2]);
                }
            }
        }
    } else {
        assert(t1.buckets =~= t.buckets);
    }
}

/// A peer that is seen, and is known or finds room in its bucket, is then
/// held by the table as the most recently seen entry of its bucket.
pub proof fn lemma_seen_peer_is_held(t: TableView, n: NodeView)
    requires
        table_wf(t),
        n.id.len() == ID_LEN,
        ({
            let b = t.buckets[bucket_index(t.node.id, n.id)];
            has_id(b, n.id) || b.len() < BUCKET_SIZE
        }),
    ensures
        table_holds(table_after_update(t, n), n),
        table_after_update(t, n).buckets[bucket_index(t.node.id, n.id)].last() == n,
{
    let i = bucket_index(t.node.id, n.id);
    lemma_prefix_len_range(xor_seq(t.node.id, n.id));
    let t1 = table_after_update(t, n);
    let b1 = t1.buckets[i];
    assert(b1.last() == n);
    assert(t1.buckets[i][b1.len() - 1] == n);
}

/// Seeing the same peer twice leaves the table as seeing it once did: no
/// bucket grows past its capacity, and a peer that the table holds is its
/// bucket's most recently seen entry.
pub proof fn lemma_update_idempotent(t: TableView, n: NodeView)
    requires
        table_wf(t),
        n.id.len() == ID_LEN,
    ensures
        table_after_update(table_after_update(t, n), n) == table_after_update(t, n),
        forall|i: int|
            0 <= i < ID_BITS ==> (#[trigger] table_after_update(t, n).buckets[i]).len() <= BUCKET_SIZE,
        ({
            let b = table_after_update(t, n).buckets[bucket_index(t.node.id, n.id)];
            has_id(b, n.id) ==> b.last() == n
        }),
{
    lemma_update_wf(t, n);
    let i = bucket_index(t.node.id, n.id);
    lemma_prefix_len_range(xor_seq(t.node.id, n.id));
    let b = t.buckets[i];
    let b1 = bucket_after_update(b, n);
    let t1 = table_after_update(t, n);
    assert(t1.buckets[i] == b1);
    let b2 = bucket_after_update(b1, n);
    if has_id(b, n.id) || b.len() < BUCKET_SIZE {
        let last = b1.len() - 1;
        assert(b1[last] == n);
        assert(has_id(b1, n.id));
        let k = index_of_id(b1, n.id);
        assert(k == last);
        if has_id(b, n.id) {
            assert(b1.remove(last) =~= b.remove(index_of_id(b, n.id)));
        } else {
            assert(b1.remove(last) =~= b);
        }
        assert(b2 =~= b1);
    } else {
        assert(b1 == b);
        assert(b2 == b1);
    }
    assert(table_after_update(t1, n).buckets =~= t1.buckets);
}

} // verus!
