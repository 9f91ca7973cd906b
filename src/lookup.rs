//! The iterative lookup: which peers to ask next for the nodes closest to a
//! target, what their answers change, and when the search is over. Sending
//! the requests and waiting for answers is the caller's part.
use vstd::prelude::*;
use crate::key::{Key, Distance, xor_seq, be_value};
use crate::routing::{NodeInfo, NodeView, nodes_of, sorted_pairs, insert_sorted, lemma_insert_contains};
use crate::node::{nodes_view, K};

verus! {

/// How many peers are asked at once.
pub const ALPHA: usize = 3;

/// Most rounds of questions one search asks, a guard against endless cycles.
pub const MAX_ROUNDS: usize = 32;

/// The identifiers of a list of keys.
pub open spec fn keys_view(v: Seq<Key>) -> Seq<Seq<u8>> {
    v.map_values(|k: Key| k@)
}

/// No identifier occurs twice among the peers of `s`.
pub open spec fn ids_distinct(s: Seq<(NodeInfo, Distance)>) -> bool {
    forall|a: int, b: int|
        0 <= a < s.len() && 0 <= b < s.len() && a != b ==> (#[trigger] s[a]).0.id@ != (#[trigger] s[b]).0.id@
}

/// Whether some peer of `s` has identifier `id`.
pub open spec fn pairs_have_id(s: Seq<(NodeInfo, Distance)>, id: Seq<u8>) -> bool {
    exists|j: int| 0 <= j < s.len() && (#[trigger] s[j]).0.id@ == id
}

/// At most the first `K` entries of `s`.
pub open spec fn take_k<A>(s: Seq<A>) -> Seq<A> {
    if s.len() > K {
        s.subrange(0, K as int)
    } else {
        s
    }
}

/// Whether the peer `id` has its due place in the candidates `s`: it is
/// listed, or `K` candidates at least as near to `target` fill the list.
pub open spec fn covered(s: Seq<(NodeInfo, Distance)>, id: Seq<u8>, target: Seq<u8>) -> bool {
    pairs_have_id(s, id) || (s.len() == K && forall|k: int|
        0 <= k < s.len() ==> be_value((#[trigger] s[k]).1@) <= be_value(xor_seq(id, target)))
}

/// Inserting a peer in order and keeping the nearest `K` leaves every peer
/// that had its due place with it.
proof fn lemma_covered_step(
    s: Seq<(NodeInfo, Distance)>,
    pos: int,
    x: (NodeInfo, Distance),
    target: Seq<u8>,
    id: Seq<u8>,
)
    requires
        0 <= pos <= s.len(),
        s.len() <= K,
        sorted_pairs(s.insert(pos, x), target),
        covered(s, id, target),
    ensures
        covered(take_k(s.insert(pos, x)), id, target),
{
    let ins = s.insert(pos, x);
    let nw = take_k(ins);
    if pairs_have_id(s, id) {
        let j = choose|j: int| 0 <= j < s.len() && (#[trigger] s[j]).0.id@ == id;
        let j2 = if j < pos { j } else { j + 1 };
        assert(ins[j2] == s[j]);
        if j2 < nw.len() {
            assert(nw[j2] == ins[j2]);
        } else {
            assert forall|k: int| 0 <= k < nw.len() implies be_value((#[trigger] nw[k]).1@) <= be_value(
                xor_seq(id, target),
            ) by {
                assert(nw[k] == ins[k]);
                assert(be_value(ins[k].1@) <= be_value(ins[j2].1@));
            }
        }
    } else {
        assert forall|k: int| 0 <= k < nw.len() implies be_value((#[trigger] nw[k]).1@) <= be_value(
            xor_seq(id, target),
        ) by {
            assert(nw[k] == ins[k]);
            if k < pos {
                assert(ins[k] == s[k]);
            } else if k > pos {
                assert(ins[k] == s[k - 1]);
            } else {
                assert(ins[k + 1] == s[k]);
                assert(be_value(ins[k].1@) <= be_value(ins[k + 1].1@));
            }
        }
    }
}

/// The peer just inserted in order has its due place among the nearest `K`.
proof fn lemma_covered_new(s: Seq<(NodeInfo, Distance)>, pos: int, x: (NodeInfo, Distance), target: Seq<u8>)
    requires
        0 <= pos <= s.len(),
        s.len() <= K,
        sorted_pairs(s.insert(pos, x), target),
    ensures
        covered(take_k(s.insert(pos, x)), x.0.id@, target),
{
    let ins = s.insert(pos, x);
    let nw = take_k(ins);
    assert(ins[pos] == x);
    if pos < nw.len() {
        assert(nw[pos] == x);
    } else {
        assert forall|k: int| 0 <= k < nw.len() implies be_value((#[trigger] nw[k]).1@) <= be_value(
            xor_seq(x.0.id@, target),
        ) by {
            assert(nw[k] == ins[k]);
            assert(be_value(ins[k].1@) <= be_value(ins[pos].1@));
        }
    }
}

/// The state of one search for the peers closest to a target.
pub struct Lookup {
    target: Key,
    local: Key,
    shortlist: Vec<(NodeInfo, Distance)>,
    queried: Vec<Key>,
    failed: Vec<Key>,
}

fn keys_contain(v: &Vec<Key>, k: Key) -> (r: bool)
    ensures
        r == keys_view(v@).contains(k@),
{
    let mut j: usize = 0;
    while j < v.len()
        invariant
            0 <= j <= v@.len(),
            forall|q: int| 0 <= q < j ==> (#[trigger] v@[q])@ != k@,
        decreases v@.len() - j,
    {
        if v[j] == k {
            assert(keys_view(v@)[j as int] == k@);
            return true;
        }
        j = j + 1;
    }
    assert forall|q: int| 0 <= q < keys_view(v@).len() implies keys_view(v@)[q] != k@ by {
        assert(keys_view(v@)[q] == v@[q]@);
    }
    false
}

impl Lookup {
    /// The identifier searched for.
    pub closed spec fn target_id(&self) -> Seq<u8> {
        self.target@
    }

    /// The identifier of the searching node, never a candidate.
    pub closed spec fn local_id(&self) -> Seq<u8> {
        self.local@
    }

    /// The closest peers found so far, nearest first, with their distances.
    pub closed spec fn pairs(&self) -> Seq<(NodeInfo, Distance)> {
        self.shortlist@
    }

    /// The closest peers found so far, nearest first.
    pub open spec fn candidates(&self) -> Seq<NodeView> {
        nodes_of(self.pairs())
    }

    /// The peers asked so far.
    pub closed spec fn asked(&self) -> Seq<Seq<u8>> {
        keys_view(self.queried@)
    }

    /// The peers that did not answer.
    pub closed spec fn failed_ids(&self) -> Seq<Seq<u8>> {
        keys_view(self.failed@)
    }

    /// At most `K` candidates, nearest first, none twice, none that failed,
    /// never the searching node.
    pub open spec fn wf(&self) -> bool {
        &&& sorted_pairs(self.pairs(), self.target_id())
        &&& self.pairs().len() <= K
        &&& ids_distinct(self.pairs())
        &&& forall|k: int|
            0 <= k < self.pairs().len() ==> (#[trigger] self.pairs()[k]).0.id@ != self.local_id()
                && !self.failed_ids().contains(self.pairs()[k].0.id@)
    }

    /// A search for `target` by the node `local`, with nothing known yet.
    pub fn new(target: Key, local: Key) -> (r: Lookup)
        ensures
            r.wf(),
            r.target_id() == target@,
            r.local_id() == local@,
            r.pairs().len() == 0,
            r.asked().len() == 0,
            r.failed_ids().len() == 0,
    {
        Lookup { target, local, shortlist: Vec::new(), queried: Vec::new(), failed: Vec::new() }
    }

    fn shortlist_has(&self, id: Key) -> (r: bool)
        ensures
            r == pairs_have_id(self.pairs(), id@),
    {
        let mut j: usize = 0;
        while j < self.shortlist.len()
            invariant
                0 <= j <= self.shortlist@.len(),
                forall|q: int| 0 <= q < j ==> (#[trigger] self.shortlist@[q]).0.id@ != id@,
            decreases self.shortlist@.len() - j,
        {
            if self.shortlist[j].0.id == id {
                return true;
            }
            j = j + 1;
        }
        false
    }

    /// Offers `n` as a candidate. The searching node, a peer that failed and
    /// a peer already listed are turned away; any other enters at its place
    /// by distance, and only the nearest `K` stay. The result says whether
    /// `n` is among them.
    pub fn add_candidate(&mut self, n: NodeInfo) -> (r: bool)
        requires
            old(self).wf(),
        ensures
            final(self).wf(),
            final(self).target_id() == old(self).target_id(),
            final(self).local_id() == old(self).local_id(),
            final(self).asked() == old(self).asked(),
            final(self).failed_ids() == old(self).failed_ids(),
            ({
                let skip = n.id@ == old(self).local_id() || old(self).failed_ids().contains(n.id@)
                    || pairs_have_id(old(self).pairs(), n.id@);
                &&& skip ==> !r && final(self).pairs() == old(self).pairs()
                &&& !skip ==> exists|pos: int, d: Distance|
                    0 <= pos <= old(self).pairs().len() && d@ == xor_seq(n.id@, old(self).target_id())
                        && sorted_pairs(old(self).pairs().insert(pos, (n, d)), old(self).target_id())
                        && final(self).pairs() == take_k(old(self).pairs().insert(pos, (n, d)))
                        && final(self).candidates() == take_k(old(self).candidates().insert(pos, n@))
                        && r == (pos < K)
            }),
    {
        if n.id == self.local || keys_contain(&self.failed, n.id) || self.shortlist_has(n.id) {
            return false;
        }
        let d = Distance::dist(n.id, self.target);
        let ghost before = self.shortlist@;
        let ghost nv = n@;
        let ghost pair = (n, d);
        let pos = insert_sorted(&mut self.shortlist, n, d, Ghost(self.target@));
        proof {
            let s = self.shortlist@;
            assert(nodes_of(s) =~= nodes_of(before).insert(pos as int, nv));
            assert forall|a: int, b: int|
                0 <= a < s.len() && 0 <= b < s.len() && a != b implies (#[trigger] s[a]).0.id@
                    != (#[trigger] s[b]).0.id@ by {
                let ia = if a < pos { a } else { a - 1 };
                let ib = if b < pos { b } else { b - 1 };
                if a != pos {
                    assert(s[a] == before[ia]);
                }
                if b != pos {
                    assert(s[b] == before[ib]);
                }
            }
            assert forall|k: int| 0 <= k < s.len() implies (#[trigger] s[k]).0.id@ != self.local_id()
                && !self.failed_ids().contains(s[k].0.id@) by {
                if k < pos {
                    assert(s[k] == before[k]);
                } else if k > pos {
                    assert(s[k] == before[k - 1]);
                }
            }
        }
        if self.shortlist.len() > K {
            let ghost full = self.shortlist@;
            self.shortlist.pop();
            proof {
                let s = self.shortlist@;
                assert(s =~= full.subrange(0, K as int));
                assert(nodes_of(s) =~= nodes_of(full).subrange(0, K as int));
                assert forall|a: int, b: int|
                    0 <= a < s.len() && 0 <= b < s.len() && a != b implies (#[trigger] s[a]).0.id@
                        != (#[trigger] s[b]).0.id@ by {
                    assert(s[a] == full[a] && s[b] == full[b]);
                }
                assert forall|k: int| 0 <= k < s.len() implies (#[trigger] s[k]).0.id@ != self.local_id()
                    && !self.failed_ids().contains(s[k].0.id@) by {
                    assert(s[k] == full[k]);
                }
            }
        }
        assert(old(self).candidates() == nodes_of(before));
        assert(self.candidates() == take_k(nodes_of(before).insert(pos as int, nv)));
        assert(self.pairs() == take_k(before.insert(pos as int, pair)));
        assert(sorted_pairs(before.insert(pos as int, pair), self.target@));
        pos < K
    }

    /// Takes in the peers that an answer listed. The result says whether the
    /// nearest candidate is now nearer than before: when it is not, the search
    /// has stopped making progress.
    pub fn on_reply(&mut self, nodes: &Vec<NodeInfo>) -> (r: bool)
        requires
            old(self).wf(),
        ensures
            final(self).wf(),
            final(self).target_id() == old(self).target_id(),
            final(self).local_id() == old(self).local_id(),
            final(self).asked() == old(self).asked(),
            final(self).failed_ids() == old(self).failed_ids(),
            r == (final(self).pairs().len() > 0 && (old(self).pairs().len() == 0 || be_value(
                final(self).pairs()[0].1@,
            ) < be_value(old(self).pairs()[0].1@))),
            forall|k: int|
                0 <= k < final(self).candidates().len() ==> old(self).candidates().contains(
                    #[trigger] final(self).candidates()[k],
                ) || nodes_view(nodes@).contains(final(self).candidates()[k]),
            forall|q: int|
                0 <= q < nodes@.len() && nodes@[q].id@ != old(self).local_id() && !old(self).failed_ids().contains(
                    nodes@[q].id@,
                ) ==> covered(final(self).pairs(), (#[trigger] nodes@[q]).id@, final(self).target_id()),
            forall|k: int|
                0 <= k < old(self).pairs().len() ==> covered(
                    final(self).pairs(),
                    (#[trigger] old(self).pairs()[k]).0.id@,
                    final(self).target_id(),
                ),
    {
        let best: Option<Distance> = if self.shortlist.len() > 0 {
            Some(self.shortlist[0].1)
        } else {
            None
        };
        assert forall|k: int| 0 <= k < old(self).pairs().len() implies covered(
            self.pairs(),
            (#[trigger] old(self).pairs()[k]).0.id@,
            self.target_id(),
        ) by {
            assert(self.pairs()[k].0.id@ == old(self).pairs()[k].0.id@);
        }
        let mut i: usize = 0;
        while i < nodes.len()
            invariant
                0 <= i <= nodes@.len(),
                self.wf(),
                self.target_id() == old(self).target_id(),
                self.local_id() == old(self).local_id(),
                self.asked() == old(self).asked(),
                self.failed_ids() == old(self).failed_ids(),
                best.is_some() == (old(self).pairs().len() > 0),
                best.is_some() ==> best.unwrap()@ == old(self).pairs()[0].1@,
                forall|k: int|
                    0 <= k < self.candidates().len() ==> old(self).candidates().contains(
                        #[trigger] self.candidates()[k],
                    ) || nodes_view(nodes@).contains(self.candidates()[k]),
                forall|q: int|
                    0 <= q < i && nodes@[q].id@ != old(self).local_id() && !old(self).failed_ids().contains(
                        nodes@[q].id@,
                    ) ==> covered(self.pairs(), (#[trigger] nodes@[q]).id@, self.target_id()),
                forall|k: int|
                    0 <= k < old(self).pairs().len() ==> covered(
                        self.pairs(),
                        (#[trigger] old(self).pairs()[k]).0.id@,
                        self.target_id(),
                    ),
            decreases nodes@.len() - i,
        {
            let ghost before = self.candidates();
            let ghost before_pairs = self.pairs();
            let n = nodes[i].clone_info();
            self.add_candidate(n);
            proof {
                let t = self.target_id();
                if !(n.id@ == old(self).local_id() || old(self).failed_ids().contains(n.id@) || pairs_have_id(
                    before_pairs,
                    n.id@,
                )) {
                    let (pos, d) = choose|pos: int, d: Distance|
                        0 <= pos <= before_pairs.len() && d@ == xor_seq(n.id@, t)
                            && sorted_pairs(before_pairs.insert(pos, (n, d)), t)
                            && self.pairs() == take_k(before_pairs.insert(pos, (n, d)))
                            && self.candidates() == take_k(before.insert(pos, n@))
                            && true;
                    assert forall|q: int|
                        0 <= q < i + 1 && nodes@[q].id@ != old(self).local_id()
                            && !old(self).failed_ids().contains(nodes@[q].id@) implies covered(
                        self.pairs(),
                        (#[trigger] nodes@[q]).id@,
                        t,
                    ) by {
                        if q < i {
                            lemma_covered_step(before_pairs, pos, (n, d), t, nodes@[q].id@);
                        } else {
                            lemma_covered_new(before_pairs, pos, (n, d), t);
                        }
                    }
                    assert forall|k: int| 0 <= k < old(self).pairs().len() implies covered(
                        self.pairs(),
                        (#[trigger] old(self).pairs()[k]).0.id@,
                        t,
                    ) by {
                        lemma_covered_step(before_pairs, pos, (n, d), t, old(self).pairs()[k].0.id@);
                    }
                } else {
                    assert forall|q: int|
                        0 <= q < i + 1 && nodes@[q].id@ != old(self).local_id()
                            && !old(self).failed_ids().contains(nodes@[q].id@) implies covered(
                        self.pairs(),
                        (#[trigger] nodes@[q]).id@,
                        t,
                    ) by {
                        if q == i {
                            assert(nodes@[q] == n);
                        }
                    }
                }
                assert(nodes_view(nodes@)[i as int] == n@);
                if self.candidates() != before {
                    let pos = choose|pos: int|
                        0 <= pos <= before.len() && self.candidates() == take_k(before.insert(pos, n@));
                    lemma_insert_contains(before, pos, n@);
                    let ins = before.insert(pos, n@);
                    assert forall|k: int| 0 <= k < self.candidates().len() implies old(
                        self,
                    ).candidates().contains(#[trigger] self.candidates()[k]) || nodes_view(nodes@).contains(
                        self.candidates()[k],
                    ) by {
                        assert(self.candidates()[k] == ins[k]);
                        assert(ins.contains(ins[k]));
                        if ins[k] != n@ {
                            let q = choose|q: int| 0 <= q < before.len() && before[q] == ins[k];
                            assert(before.contains(before[q]));
                        }
                    }
                }
            }
            i = i + 1;
        }
        match best {
            None => self.shortlist.len() > 0,
            Some(b) => self.shortlist.len() > 0 && self.shortlist[0].1.closer_than(&b),
        }
    }

    /// Records that `peer` did not answer: it is never asked again nor
    /// offered as a result.
    pub fn on_failure(&mut self, peer: Key)
        requires
            old(self).wf(),
        ensures
            final(self).wf(),
            final(self).target_id() == old(self).target_id(),
            final(self).local_id() == old(self).local_id(),
            final(self).asked() == old(self).asked(),
            final(self).failed_ids() == old(self).failed_ids().push(peer@),
            pairs_have_id(old(self).pairs(), peer@) ==> exists|j: int|
                0 <= j < old(self).pairs().len() && (#[trigger] old(self).pairs()[j]).0.id@ == peer@
                    && final(self).pairs() == old(self).pairs().remove(j),
            !pairs_have_id(old(self).pairs(), peer@) ==> final(self).pairs() == old(self).pairs(),
    {
        let ghost old_failed = self.failed_ids();
        self.failed.push(peer);
        assert(self.failed_ids() =~= old_failed.push(peer@));
        let mut j: usize = 0;
        while j < self.shortlist.len()
            invariant
                0 <= j <= self.shortlist@.len(),
                self.shortlist@ == old(self).shortlist@,
                forall|q: int| 0 <= q < j ==> (#[trigger] self.shortlist@[q]).0.id@ != peer@,
            ensures
                0 <= j <= self.shortlist@.len(),
                self.shortlist@ == old(self).shortlist@,
                forall|q: int| 0 <= q < j ==> (#[trigger] self.shortlist@[q]).0.id@ != peer@,
                j < self.shortlist@.len() ==> self.shortlist@[j as int].0.id@ == peer@,
            decreases self.shortlist@.len() - j,
        {
            if self.shortlist[j].0.id == peer {
                break;
            }
            j = j + 1;
        }
        let ghost before = self.shortlist@;
        if j < self.shortlist.len() {
            self.shortlist.remove(j);
            proof {
                let s = self.shortlist@;
                assert forall|k1: int, k2: int| 0 <= k1 < k2 < s.len() implies be_value(
                    (#[trigger] s[k1]).1@,
                ) <= be_value((#[trigger] s[k2]).1@) by {
                    let i1 = if k1 < j { k1 } else { k1 + 1 };
                    let i2 = if k2 < j { k2 } else { k2 + 1 };
                    assert(s[k1] == before[i1] && s[k2] == before[i2]);
                }
                assert forall|a: int, b: int|
                    0 <= a < s.len() && 0 <= b < s.len() && a != b implies (#[trigger] s[a]).0.id@
                        != (#[trigger] s[b]).0.id@ by {
                    let ia = if a < j { a } else { a + 1 };
                    let ib = if b < j { b } else { b + 1 };
                    assert(s[a] == before[ia] && s[b] == before[ib]);
                }
                assert forall|k: int| 0 <= k < s.len() implies (#[trigger] s[k]).0.id@ != self.local_id()
                    && !self.failed_ids().contains(s[k].0.id@) by {
                    let ik = if k < j { k } else { k + 1 };
                    assert(s[k] == before[ik]);
                    assert(before[ik].0.id@ != before[j as int].0.id@);
                    if self.failed_ids().contains(s[k].0.id@) {
                        let q = choose|q: int| 0 <= q < self.failed_ids().len() && self.failed_ids()[q] == s[k].0.id@;
                        if q < old_failed.len() {
                            assert(old_failed[q] == s[k].0.id@);
                            assert(old_failed.contains(s[k].0.id@));
                        }
                    }
                }
                assert(old(self).pairs()[j as int].0.id@ == peer@);
                assert(self.pairs() == old(self).pairs().remove(j as int));
            }
        } else {
            proof {
                let s = self.shortlist@;
                assert(!pairs_have_id(old(self).pairs(), peer@));
                assert forall|k: int| 0 <= k < s.len() implies (#[trigger] s[k]).0.id@ != self.local_id()
                    && !self.failed_ids().contains(s[k].0.id@) by {
                    if self.failed_ids().contains(s[k].0.id@) {
                        let q = choose|q: int| 0 <= q < self.failed_ids().len() && self.failed_ids()[q] == s[k].0.id@;
                        if q < old_failed.len() {
                            assert(old_failed[q] == s[k].0.id@);
                            assert(old_failed.contains(s[k].0.id@));
                        }
                    }
                }
            }
        }
    }

    /// Picks the next peers to ask: the `alpha` nearest candidates not asked
    /// yet (all of them when fewer remain), nearest first, and records them
    /// as asked.
    pub fn next_batch(&mut self, alpha: usize) -> (r: Vec<NodeInfo>)
        requires
            old(self).wf(),
        ensures
            final(self).wf(),
            final(self).target_id() == old(self).target_id(),
            final(self).local_id() == old(self).local_id(),
            final(self).pairs() == old(self).pairs(),
            final(self).failed_ids() == old(self).failed_ids(),
            final(self).asked() == old(self).asked() + r@.map_values(|n: NodeInfo| n.id@),
            r@.len() <= alpha,
            forall|q: int|
                0 <= q < r@.len() ==> old(self).candidates().contains(#[trigger] nodes_view(r@)[q])
                    && !old(self).asked().contains(r@[q].id@),
            forall|j: int|
                0 <= j < old(self).candidates().len() && !old(self).asked().contains(
                    old(self).candidates()[j].id,
                ) && !nodes_view(r@).contains(#[trigger] old(self).candidates()[j]) ==> {
                    &&& r@.len() == alpha
                    &&& forall|q: int|
                        0 <= q < r@.len() ==> be_value(xor_seq(#[trigger] r@[q].id@, old(self).target_id()))
                            <= be_value(xor_seq(old(self).candidates()[j].id, old(self).target_id()))
                },
    {
        let ghost cand = self.candidates();
        let ghost pairs = self.pairs();
        let ghost asked0 = self.asked();
        let mut out: Vec<NodeInfo> = Vec::new();
        let ghost mut picked: Seq<int> = Seq::empty();
        let mut k: usize = 0;
        while k < self.shortlist.len() && out.len() < alpha
            invariant
                0 <= k <= self.shortlist@.len(),
                self.shortlist@ == pairs,
                cand == nodes_of(pairs),
                self.wf(),
                self.target_id() == old(self).target_id(),
                self.local_id() == old(self).local_id(),
                self.failed_ids() == old(self).failed_ids(),
                self.asked() == asked0 + out@.map_values(|n: NodeInfo| n.id@),
                out@.len() <= alpha,
                picked.len() == out@.len(),
                forall|q: int|
                    0 <= q < picked.len() ==> 0 <= #[trigger] picked[q] < k && out@[q]@ == cand[picked[q]]
                        && !asked0.contains(cand[picked[q]].id),
                forall|q1: int, q2: int| 0 <= q1 < q2 < picked.len() ==> #[trigger] picked[q1] < #[trigger] picked[q2],
                forall|j: int|
                    0 <= j < k && !asked0.contains(#[trigger] cand[j].id) ==> exists|q: int|
                        0 <= q < picked.len() && picked[q] == j,
            decreases self.shortlist@.len() - k,
        {
            let id = self.shortlist[k].0.id;
            let ghost before_asked = self.asked();
            assert(cand[k as int].id == id@);
            // Entries from k on were not picked, and ids are distinct, so they
            // count as asked now exactly when they were asked at the start.
            let known = keys_contain(&self.queried, id);
            proof {
                let outs = out@.map_values(|n: NodeInfo| n.id@);
                if asked0.contains(id@) {
                    let q = choose|q: int| 0 <= q < asked0.len() && asked0[q] == id@;
                    assert(before_asked[q] == id@);
                }
                if before_asked.contains(id@) && !asked0.contains(id@) {
                    let q = choose|q: int| 0 <= q < before_asked.len() && before_asked[q] == id@;
                    if q < asked0.len() {
                        assert(asked0[q] == id@);
                    } else {
                        let q2 = q - asked0.len();
                        assert(outs[q2] == out@[q2].id@);
                        assert(out@[q2].id@ == pairs[picked[q2]].0.id@);
                        assert(pairs[k as int].0.id@ == id@);
                    }
                }
            }
            if !known {
                let n = self.shortlist[k].0.clone_info();
                let ghost out_before = out@;
                let ghost asked_b = self.asked();
                let ghost picked_before = picked;
                out.push(n);
                self.queried.push(id);
                proof {
                    picked = picked.push(k as int);
                    assert(self.asked() =~= asked_b.push(id@));
                    assert(out@.map_values(|n: NodeInfo| n.id@) =~= out_before.map_values(|n: NodeInfo| n.id@).push(
                        id@,
                    ));
                    assert(self.asked() =~= asked0 + out@.map_values(|n: NodeInfo| n.id@));
                    assert forall|q: int| 0 <= q < picked.len() implies 0 <= #[trigger] picked[q] < k + 1
                        && out@[q]@ == cand[picked[q]] && !asked0.contains(cand[picked[q]].id) by {
                        if q < picked.len() - 1 {
                            assert(out@[q] == out_before[q]);
                        }
                    }
                    assert forall|j: int| 0 <= j < k + 1 && !asked0.contains(#[trigger] cand[j].id) implies exists|q: int|
                        0 <= q < picked.len() && picked[q] == j by {
                        if j == k {
                            assert(picked[picked.len() - 1] == j);
                        } else {
                            let q = choose|q: int| 0 <= q < picked_before.len() && picked_before[q] == j;
                            assert(picked[q] == j);
                        }
                    }
                }
            } else {
                proof {
                    assert forall|j: int| 0 <= j < k + 1 && !asked0.contains(#[trigger] cand[j].id) implies exists|q: int|
                        0 <= q < picked.len() && picked[q] == j by {
                        if j < k {
                            let q = choose|q: int| 0 <= q < picked.len() && picked[q] == j;
                            assert(picked[q] == j);
                        }
                    }
                }
            }
            k = k + 1;
        }
        proof {
            let nv = nodes_view(out@);
            assert forall|q: int| 0 <= q < out@.len() implies cand.contains(#[trigger] nv[q])
                && !asked0.contains(out@[q].id@) by {
                assert(nv[q] == cand[picked[q]]);
            }
            assert forall|j: int|
                0 <= j < cand.len() && !asked0.contains(cand[j].id) && !nv.contains(#[trigger] cand[j]) implies {
                    &&& out@.len() == alpha
                    &&& forall|q: int|
                        0 <= q < out@.len() ==> be_value(xor_seq(#[trigger] out@[q].id@, self.target_id()))
                            <= be_value(xor_seq(cand[j].id, self.target_id()))
                } by {
                if j < k {
                    let q = choose|q: int| 0 <= q < picked.len() && picked[q] == j;
                    assert(nv[q] == cand[j]);
                }
                assert(j >= k);
                assert forall|q: int| 0 <= q < out@.len() implies be_value(xor_seq(#[trigger] out@[q].id@, self.target_id()))
                    <= be_value(xor_seq(cand[j].id, self.target_id())) by {
                    let p = picked[q];
                    assert(be_value(pairs[p].1@) <= be_value(pairs[j].1@));
                }
            }
        }
        out
    }

    /// Whether every candidate has been asked: the search is over.
    pub fn is_done(&self) -> (r: bool)
        ensures
            r == (forall|k: int| 0 <= k < self.pairs().len() ==> self.asked().contains(#[trigger] self.pairs()[k].0.id@)),
    {
        let mut j: usize = 0;
        while j < self.shortlist.len()
            invariant
                0 <= j <= self.shortlist@.len(),
                forall|k: int| 0 <= k < j ==> self.asked().contains(#[trigger] self.pairs()[k].0.id@),
            decreases self.shortlist@.len() - j,
        {
            if !keys_contain(&self.queried, self.shortlist[j].0.id) {
                assert(!self.asked().contains(self.pairs()[j as int].0.id@));
                return false;
            }
            j = j + 1;
        }
        true
    }

    /// Whether the search goes on after `rounds` rounds, the last of which
    /// brought a nearer candidate when `improved`: it stops once a round
    /// brings none, once every candidate has been asked, or after
    /// `MAX_ROUNDS` rounds.
    pub fn keep_going(&self, improved: bool, rounds: usize) -> (r: bool)
        ensures
            r == (improved && rounds < MAX_ROUNDS && exists|k: int|
                0 <= k < self.pairs().len() && !self.asked().contains(#[trigger] self.pairs()[k].0.id@)),
    {
        improved && rounds < MAX_ROUNDS && !self.is_done()
    }

    /// The candidates, nearest first: the outcome once the search is over.
    pub fn result(&self) -> (r: Vec<NodeInfo>)
        ensures
            nodes_view(r@) == self.candidates(),
    {
        let mut ret: Vec<NodeInfo> = Vec::new();
        let mut k: usize = 0;
        while k < self.shortlist.len()
            invariant
                0 <= k <= self.shortlist@.len(),
                ret@.len() == k,
                forall|q: int| 0 <= q < k ==> #[trigger] ret@[q] == self.shortlist@[q].0,
            decreases self.shortlist@.len() - k,
        {
            ret.push(self.shortlist[k].0.clone_info());
            k = k + 1;
        }
        assert(nodes_view(ret@) =~= self.candidates());
        ret
    }
}

} // verus!
