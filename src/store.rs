//! The local key/value store: values of bounded size, each expiring a fixed
//! time after it was last stored.
use vstd::prelude::*;
use crate::key::Key;

verus! {

/// Largest datagram a node sends or accepts, in bytes.
pub const MESSAGE_LEN: usize = 8196;

/// Largest value a node stores, in bytes. On the wire each byte of a value
/// takes up to four characters, so a value of this size leaves about a
/// thousand bytes of a datagram for the rest of the envelope.
pub const MAX_VALUE_LEN: usize = 1800;

/// Why a value was not stored.
#[derive(Clone, Copy, PartialEq, Eq, Structural, Debug)]
pub enum StoreError {
    /// The value is longer than `MAX_VALUE_LEN` bytes.
    ValueTooLarge,
}

/// One stored value and when it was last stored.
#[derive(Clone, Debug)]
pub struct StoreEntry {
    pub key: Key,
    pub value: Vec<u8>,
    pub stored_at: u64,
}

/// Whether a value stored at `stored_at` is still live at `now`.
pub open spec fn is_live(stored_at: u64, now: u64, ttl: u64) -> bool {
    now < stored_at + ttl
}

/// The values held, by key, with the time each was stored.
pub struct ValueStore {
    entries: Vec<StoreEntry>,
    ttl: u64,
}

/// Whether some entry has key `k`.
pub open spec fn holds_key(s: Seq<StoreEntry>, k: Seq<u8>) -> bool {
    exists|j: int| 0 <= j < s.len() && (#[trigger] s[j]).key@ == k
}

/// The map that a sequence of entries with distinct keys denotes.
pub open spec fn entries_map(s: Seq<StoreEntry>) -> Map<Seq<u8>, (Seq<u8>, u64)> {
    Map::new(
        |k: Seq<u8>| holds_key(s, k),
        |k: Seq<u8>|
            {
                let j = choose|j: int| 0 <= j < s.len() && (#[trigger] s[j]).key@ == k;
                (s[j].value@, s[j].stored_at)
            },
    )
}

/// No key occurs twice.
pub open spec fn keys_distinct(s: Seq<StoreEntry>) -> bool {
    forall|a: int, b: int|
        0 <= a < s.len() && 0 <= b < s.len() && a != b ==> (#[trigger] s[a]).key@ != (#[trigger] s[b]).key@
}

impl View for ValueStore {
    type V = Map<Seq<u8>, (Seq<u8>, u64)>;

    closed spec fn view(&self) -> Map<Seq<u8>, (Seq<u8>, u64)> {
        entries_map(self.entries@)
    }
}

proof fn lemma_map_entry(s: Seq<StoreEntry>, j: int)
    requires
        keys_distinct(s),
        0 <= j < s.len(),
    ensures
        entries_map(s).contains_key(s[j].key@),
        entries_map(s)[s[j].key@] == (s[j].value@, s[j].stored_at),
{
    let k = s[j].key@;
    assert(holds_key(s, k));
    let c = choose|c: int| 0 <= c < s.len() && (#[trigger] s[c]).key@ == k;
    assert(c == j);
}

impl ValueStore {
    /// The well-formedness of this store.
    pub closed spec fn wf(&self) -> bool {
        keys_distinct(self.entries@)
    }

    /// How long a value stays live after it was stored.
    pub closed spec fn ttl(&self) -> u64 {
        self.ttl
    }

    /// An empty store whose values live for `ttl` time units.
    pub fn new(ttl: u64) -> (r: ValueStore)
        ensures
            r.wf(),
            r@ == Map::<Seq<u8>, (Seq<u8>, u64)>::empty(),
            r.ttl() == ttl,
    {
        let r = ValueStore { entries: Vec::new(), ttl };
        assert(r@ =~= Map::<Seq<u8>, (Seq<u8>, u64)>::empty());
        r
    }

    fn position_of(&self, key: Key) -> (r: Option<usize>)
        ensures
            match r {
                Some(j) => j < self.entries@.len() && self.entries@[j as int].key@ == key@,
                None => !holds_key(self.entries@, key@),
            },
    {
        let mut j: usize = 0;
        while j < self.entries.len()
            invariant
                0 <= j <= self.entries@.len(),
                forall|k: int| 0 <= k < j ==> (#[trigger] self.entries@[k]).key@ != key@,
            decreases self.entries@.len() - j,
        {
            if self.entries[j].key == key {
                return Some(j);
            }
            j = j + 1;
        }
        None
    }

    /// Stores `value` under `key` at time `now`, replacing what was there and
    /// restarting its lifetime. A value longer than `MAX_VALUE_LEN` bytes is
    /// refused and the store is left as it was.
    pub fn store(&mut self, key: Key, value: Vec<u8>, now: u64) -> (r: Result<(), StoreError>)
        requires
            old(self).wf(),
        ensures
            final(self).wf(),
            final(self).ttl() == old(self).ttl(),
            value@.len() > MAX_VALUE_LEN ==> r == Err::<(), StoreError>(StoreError::ValueTooLarge)
                && final(self)@ == old(self)@,
            value@.len() <= MAX_VALUE_LEN ==> r is Ok && final(self)@ == old(self)@.insert(
                key@,
                (value@, now),
            ),
    {
        if value.len() > MAX_VALUE_LEN {
            return Err(StoreError::ValueTooLarge);
        }
        let ghost old_entries = self.entries@;
        let ghost v = value@;
        let entry = StoreEntry { key, value, stored_at: now };
        match self.position_of(key) {
            Some(j) => {
                self.entries.set(j, entry);
                proof {
                    let s = self.entries@;
                    assert forall|a: int, b: int|
                        0 <= a < s.len() && 0 <= b < s.len() && a != b implies (#[trigger] s[a]).key@
                            != (#[trigger] s[b]).key@ by {
                        assert(old_entries[j as int].key@ == key@);
                    }
                    lemma_map_entry(s, j as int);
                    assert forall|k: Seq<u8>| k != key@ implies holds_key(s, k) == holds_key(old_entries, k) by {
                        if holds_key(s, k) {
                            let c = choose|c: int| 0 <= c < s.len() && (#[trigger] s[c]).key@ == k;
                            assert(old_entries[c] == s[c]);
                        }
                        if holds_key(old_entries, k) {
                            let c = choose|c: int| 0 <= c < old_entries.len() && (#[trigger] old_entries[c]).key@ == k;
                            assert(old_entries[c] == s[c]);
                        }
                    }
                    assert forall|k: Seq<u8>| k != key@ && #[trigger] holds_key(s, k) implies entries_map(s)[k]
                        == entries_map(old_entries)[k] by {
                        let c = choose|c: int| 0 <= c < s.len() && (#[trigger] s[c]).key@ == k;
                        lemma_map_entry(s, c);
                        lemma_map_entry(old_entries, c);
                    }
                    assert(entries_map(s) =~= entries_map(old_entries).insert(key@, (v, now)));
                }
            },
            None => {
                self.entries.push(entry);
                proof {
                    let s = self.entries@;
                    let n = old_entries.len() as int;
                    assert forall|a: int, b: int|
                        0 <= a < s.len() && 0 <= b < s.len() && a != b implies (#[trigger] s[a]).key@
                            != (#[trigger] s[b]).key@ by {
                        if a < n && b < n {
                            assert(s[a] == old_entries[a] && s[b] == old_entries[b]);
                        } else if a < n {
                            assert(s[a] == old_entries[a]);
                        } else if b < n {
                            assert(s[b] == old_entries[b]);
                        }
                    }
                    lemma_map_entry(s, n);
                    assert forall|k: Seq<u8>| k != key@ implies holds_key(s, k) == holds_key(old_entries, k) by {
                        if holds_key(s, k) {
                            let c = choose|c: int| 0 <= c < s.len() && (#[trigger] s[c]).key@ == k;
                            assert(old_entries[c] == s[c]);
                        }
                        if holds_key(old_entries, k) {
                            let c = choose|c: int| 0 <= c < old_entries.len() && (#[trigger] old_entries[c]).key@ == k;
                            assert(old_entries[c] == s[c]);
                        }
                    }
                    assert forall|k: Seq<u8>| k != key@ && #[trigger] holds_key(s, k) implies entries_map(s)[k]
                        == entries_map(old_entries)[k] by {
                        let c = choose|c: int| 0 <= c < s.len() && (#[trigger] s[c]).key@ == k;
                        assert(old_entries[c] == s[c]);
                        lemma_map_entry(s, c);
                        lemma_map_entry(old_entries, c);
                    }
                    assert(entries_map(s) =~= entries_map(old_entries).insert(key@, (v, now)));
                }
            },
        }
        Ok(())
    }

    /// The value stored under `key`, if it is still live at `now`. A value
    /// stored at a time after `now` counts as live.
    pub fn get(&self, key: Key, now: u64) -> (r: Option<Vec<u8>>)
        requires
            self.wf(),
        ensures
            match r {
                Some(v) => self@.contains_key(key@) && v@ == self@[key@].0
                    && is_live(self@[key@].1, now, self.ttl()),
                None => !self@.contains_key(key@) || !is_live(self@[key@].1, now, self.ttl()),
            },
    {
        match self.position_of(key) {
            Some(j) => {
                proof {
                    lemma_map_entry(self.entries@, j as int);
                }
                let e = &self.entries[j];
                if now < e.stored_at || now - e.stored_at < self.ttl {
                    Some(e.value.clone())
                } else {
                    None
                }
            },
            None => None,
        }
    }
}

} // verus!
