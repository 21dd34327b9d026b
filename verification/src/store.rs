//! TTL-aware key-value store: a keyed mapping with optional per-entry
//! expiry deadline and lazy expiry on read. Instants are plain `u64`
//! readings of a monotonic millisecond clock, supplied by the caller.

use vstd::prelude::*;
use vstd::map::*;

verus! {

/// What the store remembers about one key.
pub ghost struct StoredVal {
    pub value: Seq<u8>,
    pub expires_at: Option<u64>,
}

/// An entry whose deadline has passed is logically absent.
pub open spec fn entry_live(v: StoredVal, now: u64) -> bool {
    match v.expires_at {
        None => true,
        Some(d) => now < d,
    }
}

/// The live part of a store at instant `now`.
pub open spec fn live_restrict(m: Map<Seq<u8>, StoredVal>, now: u64) -> Map<Seq<u8>, StoredVal> {
    Map::new(|k: Seq<u8>| m.dom().contains(k) && entry_live(m[k], now), |k: Seq<u8>| m[k])
}

struct Entry {
    key: Vec<u8>,
    value: Vec<u8>,
    expires_at: Option<u64>,
}

impl Entry {
    spec fn val(&self) -> StoredVal {
        StoredVal { value: self.value@, expires_at: self.expires_at }
    }
}

/// Mapping built from a run of entries, later entries winning.
spec fn map_of(s: Seq<Entry>) -> Map<Seq<u8>, StoredVal>
    decreases s.len(),
{
    if s.len() == 0 {
        Map::empty()
    } else {
        map_of(s.drop_last()).insert(s.last().key@, s.last().val())
    }
}

spec fn keys_unique(s: Seq<Entry>) -> bool {
    forall|i: int, j: int|
        0 <= i < j < s.len() ==> #[trigger] s[i].key@ != #[trigger] s[j].key@
}

proof fn lemma_map_of_contains(s: Seq<Entry>, k: Seq<u8>)
    ensures
        map_of(s).contains_key(k) <==> exists|i: int| 0 <= i < s.len() && #[trigger] s[i].key@
            == k,
    decreases s.len(),
{
    if s.len() > 0 {
        lemma_map_of_contains(s.drop_last(), k);
        if map_of(s).contains_key(k) {
            if s.last().key@ == k {
                assert(s[s.len() - 1].key@ == k);
            } else {
                let i = choose|i: int|
                    0 <= i < s.drop_last().len() && #[trigger] s.drop_last()[i].key@ == k;
                assert(s[i].key@ == k);
            }
        }
        if exists|i: int| 0 <= i < s.len() && #[trigger] s[i].key@ == k {
            let i = choose|i: int| 0 <= i < s.len() && #[trigger] s[i].key@ == k;
            if i < s.len() - 1 {
                assert(s.drop_last()[i].key@ == k);
            }
        }
    }
}

proof fn lemma_map_of_at(s: Seq<Entry>, i: int)
    requires
        keys_unique(s),
        0 <= i < s.len(),
    ensures
        map_of(s).contains_key(s[i].key@),
        map_of(s)[s[i].key@] == s[i].val(),
    decreases s.len(),
{
    lemma_map_of_contains(s, s[i].key@);
    if i == s.len() - 1 {
    } else {
        assert(keys_unique(s.drop_last()));
        assert(s.drop_last()[i] == s[i]);
        lemma_map_of_at(s.drop_last(), i);
        assert(s[i].key@ != s[s.len() - 1].key@);
    }
}

proof fn lemma_map_of_remove(s: Seq<Entry>, i: int)
    requires
        keys_unique(s),
        0 <= i < s.len(),
    ensures
        map_of(s.take(i) + s.skip(i + 1)) =~= map_of(s).remove(s[i].key@),
    decreases s.len(),
{
    let k = s[i].key@;
    if i == s.len() - 1 {
        assert(s.take(i) + s.skip(i + 1) =~= s.drop_last());
        lemma_map_of_contains(s.drop_last(), k);
        assert forall|j: int| 0 <= j < s.drop_last().len() implies s.drop_last()[j].key@ != k by {
            assert(s[j].key@ != s[s.len() - 1].key@);
        }
        assert(map_of(s.drop_last()) =~= map_of(s).remove(k));
    } else {
        let t = s.drop_last();
        assert(keys_unique(t));
        assert(t[i] == s[i]);
        lemma_map_of_remove(t, i);
        assert(s.take(i) + s.skip(i + 1) =~= (t.take(i) + t.skip(i + 1)).push(s.last()));
        assert((t.take(i) + t.skip(i + 1)).push(s.last()).drop_last() =~= t.take(i) + t.skip(
            i + 1,
        ));
        assert(map_of(s.take(i) + s.skip(i + 1)) =~= map_of(t.take(i) + t.skip(i + 1)).insert(
            s.last().key@,
            s.last().val(),
        ));
        assert(s.last().key@ != k);
        assert(map_of(t).remove(k).insert(s.last().key@, s.last().val()) =~= map_of(t).insert(
            s.last().key@,
            s.last().val(),
        ).remove(k));
    }
}

/// TTL store: insertion is last-writer-wins, lookup of an expired key
/// reports absence, and sweeping leaves only live entries.
pub struct TimedHashMap {
    entries: Vec<Entry>,
}

impl View for TimedHashMap {
    type V = Map<Seq<u8>, StoredVal>;

    closed spec fn view(&self) -> Map<Seq<u8>, StoredVal> {
        map_of(self.entries@)
    }
}

impl TimedHashMap {
    /// The store's internal invariant (each key held at most once).
    pub closed spec fn wf(&self) -> bool {
        keys_unique(self.entries@)
    }

    pub fn new() -> (r: TimedHashMap)
        ensures
            r.wf(),
            r@ == Map::<Seq<u8>, StoredVal>::empty(),
    {
        TimedHashMap { entries: Vec::new() }
    }

    fn find_index(&self, key: &Vec<u8>) -> (r: Option<usize>)
        requires
            self.wf(),
        ensures
            match r {
                Some(i) => i < self.entries@.len() && self.entries@[i as int].key@ == key@,
                None => !self@.contains_key(key@),
            },
    {
        let mut i: usize = 0;
        while i < self.entries.len()
            invariant
                i <= self.entries@.len(),
                forall|j: int| 0 <= j < i ==> #[trigger] self.entries@[j].key@ != key@,
            decreases self.entries@.len() - i,
        {
            if bytes_eq(&self.entries[i].key, key) {
                return Some(i);
            }
            i = i + 1;
        }
        proof {
            lemma_map_of_contains(self.entries@, key@);
        }
        None
    }

    /// Write or overwrite `key`; an absolute deadline of `Some(d)` makes
    /// the entry expire at instant `d`.
    pub fn insert(&mut self, key: Vec<u8>, value: Vec<u8>, expires_at: Option<u64>)
        requires
            old(self).wf(),
        ensures
            final(self).wf(),
            final(self)@ == old(self)@.insert(
                key@,
                StoredVal { value: value@, expires_at },
            ),
    {
        let ghost kv = key@;
        match self.find_index(&key) {
            Some(i) => {
                proof {
                    lemma_map_of_remove(self.entries@, i as int);
                }
                let ghost pre = self.entries@;
                self.entries.remove(i);
                proof {
                    assert(self.entries@ =~= pre.take(i as int) + pre.skip(i as int + 1));
                    assert(keys_unique(self.entries@)) by {
                        assert(forall|a: int|
                            0 <= a < self.entries@.len() ==> #[trigger] self.entries@[a] == (
                            if a < i as int {
                                pre[a]
                            } else {
                                pre[a + 1]
                            }));
                    }
                    lemma_map_of_contains(self.entries@, kv);
                    assert(!self@.contains_key(kv)) by {
                        if exists|j: int|
                            0 <= j < self.entries@.len() && #[trigger] self.entries@[j].key@
                                == kv {
                            let j = choose|j: int|
                                0 <= j < self.entries@.len()
                                    && #[trigger] self.entries@[j].key@ == kv;
                        }
                    }
                }
                self.push_entry(key, value, expires_at);
                proof {
                    assert(final(self)@ =~= old(self)@.insert(
                        kv,
                        StoredVal { value: value@, expires_at },
                    ));
                }
            },
            None => {
                self.push_entry(key, value, expires_at);
            },
        }
    }

    fn push_entry(&mut self, key: Vec<u8>, value: Vec<u8>, expires_at: Option<u64>)
        requires
            old(self).wf(),
            !old(self)@.contains_key(key@),
        ensures
            final(self).wf(),
            final(self)@ == old(self)@.insert(
                key@,
                StoredVal { value: value@, expires_at },
            ),
    {
        let ghost pre = self.entries@;
        let ghost kv = key@;
        let ghost val = StoredVal { value: value@, expires_at };
        self.entries.push(Entry { key, value, expires_at });
        proof {
            assert(self.entries@.drop_last() =~= pre);
            assert(self.entries@.last().key@ == kv);
            assert(self.entries@.last().val() == val);
            lemma_map_of_contains(pre, kv);
            assert(keys_unique(self.entries@)) by {
                assert(forall|j: int| 0 <= j < pre.len() ==> #[trigger] pre[j].key@ != kv);
                assert(forall|j: int|
                    0 <= j < pre.len() ==> self.entries@[j] == #[trigger] pre[j]);
            }
        }
    }

    /// Read `key` at instant `now`: the value, unless absent or expired.
    pub fn get(&self, key: &Vec<u8>, now: u64) -> (r: Option<Vec<u8>>)
        requires
            self.wf(),
        ensures
            match r {
                Some(v) => self@.contains_key(key@) && entry_live(self@[key@], now)
                    && v@ == self@[key@].value,
                None => !self@.contains_key(key@) || !entry_live(self@[key@], now),
            },
    {
        match self.find_index(key) {
            None => None,
            Some(i) => {
                proof {
                    lemma_map_of_at(self.entries@, i as int);
                }
                let e = &self.entries[i];
                let live = match e.expires_at {
                    None => true,
                    Some(d) => now < d,
                };
                if live {
                    Some(vstd::slice::slice_to_vec(e.value.as_slice()))
                } else {
                    None
                }
            },
        }
    }

    /// Remove `key` outright, expired or not.
    pub fn delete(&mut self, key: &Vec<u8>)
        requires
            old(self).wf(),
        ensures
            final(self).wf(),
            final(self)@ == old(self)@.remove(key@),
    {
        match self.find_index(key) {
            None => {
                proof {
                    assert(old(self)@.remove(key@) =~= old(self)@);
                }
            },
            Some(i) => {
                proof {
                    lemma_map_of_remove(self.entries@, i as int);
                }
                let ghost pre = self.entries@;
                self.entries.remove(i);
                proof {
                    assert(self.entries@ =~= pre.take(i as int) + pre.skip(i as int + 1));
                    assert(keys_unique(self.entries@)) by {
                        assert(forall|a: int|
                            0 <= a < self.entries@.len() ==> #[trigger] self.entries@[a] == (
                            if a < i as int {
                                pre[a]
                            } else {
                                pre[a + 1]
                            }));
                    }
                }
            },
        }
    }

    /// Sweep the store, dropping every entry whose deadline has passed.
    pub fn remove_expired_entries(&mut self, now: u64)
        requires
            old(self).wf(),
        ensures
            final(self).wf(),
            final(self)@ == live_restrict(old(self)@, now),
    {
        let ghost pre = self.entries@;
        let mut kept: Vec<Entry> = Vec::new();
        let mut i: usize = 0;
        while i < self.entries.len()
            invariant
                i <= self.entries@.len(),
                self.entries@ == pre,
                keys_unique(pre),
                keys_unique(kept@),
                forall|a: int|
                    0 <= a < kept@.len() ==> exists|b: int|
                        0 <= b < i && #[trigger] kept@[a].key@ == pre[b].key@,
                map_of(kept@) =~= live_restrict(map_of(pre.take(i as int)), now),
            decreases self.entries@.len() - i,
        {
            let e = &self.entries[i];
            let live = match e.expires_at {
                None => true,
                Some(d) => now < d,
            };
            proof {
                assert(pre.take(i + 1).drop_last() =~= pre.take(i as int));
                assert(pre.take(i + 1).last() == pre[i as int]);
                lemma_map_of_contains(pre.take(i as int), pre[i as int].key@);
                assert forall|b: int| 0 <= b < i implies pre[b].key@ != pre[i as int].key@ by {
                    assert(pre[b].key@ != pre[i as int].key@);
                }
            }
            if live {
                let ghost kept_pre = kept@;
                kept.push(Entry {
                    key: vstd::slice::slice_to_vec(e.key.as_slice()),
                    value: vstd::slice::slice_to_vec(e.value.as_slice()),
                    expires_at: e.expires_at,
                });
                proof {
                    assert(kept@.drop_last() =~= kept_pre);
                    assert(kept@.last().key@ == pre[i as int].key@);
                    assert(kept@.last().val() == pre[i as int].val());
                    assert(keys_unique(kept@)) by {
                        assert(forall|a: int|
                            0 <= a < kept_pre.len() ==> kept@[a] == #[trigger] kept_pre[a]);
                        assert forall|a: int|
                            0 <= a < kept_pre.len() implies #[trigger] kept_pre[a].key@
                            != pre[i as int].key@ by {
                            let b = choose|b: int|
                                0 <= b < i && #[trigger] kept_pre[a].key@ == pre[b].key@;
                        }
                    }
                    assert(map_of(kept@) =~= live_restrict(map_of(pre.take(i + 1)), now));
                }
            } else {
                proof {
                    assert(map_of(kept@) =~= live_restrict(map_of(pre.take(i + 1)), now));
                }
            }
            i = i + 1;
        }
        proof {
            assert(pre.take(pre.len() as int) =~= pre);
        }
        self.entries = kept;
    }
}

/// Byte-for-byte equality of two byte strings.
pub fn bytes_eq(a: &Vec<u8>, b: &Vec<u8>) -> (r: bool)
    ensures
        r == (a@ == b@),
{
    if a.len() != b.len() {
        return false;
    }
    let mut i: usize = 0;
    while i < a.len()
        invariant
            i <= a@.len(),
            a@.len() == b@.len(),
            forall|j: int| 0 <= j < i ==> a@[j] == b@[j],
        decreases a@.len() - i,
    {
        if a[i] != b[i] {
            return false;
        }
        i = i + 1;
    }
    proof {
        assert(a@ =~= b@);
    }
    true
}

/// Repeated sweeps with no intervening writes change nothing more:
/// the live part of a live part is itself.
pub proof fn lemma_expiry_idempotent(m: Map<Seq<u8>, StoredVal>, now: u64)
    ensures
        live_restrict(live_restrict(m, now), now) == live_restrict(m, now),
{
    assert(live_restrict(live_restrict(m, now), now) =~= live_restrict(m, now));
}

/// TTL monotonicity: a key set with deadline `d` reads back its value at
/// every instant before `d` and reads absent from `d` on.
pub proof fn lemma_ttl_monotonic(
    m: Map<Seq<u8>, StoredVal>,
    k: Seq<u8>,
    v: Seq<u8>,
    d: u64,
    t: u64,
)
    ensures
        t < d ==> entry_live(m.insert(k, StoredVal { value: v, expires_at: Some(d) })[k], t),
        t >= d ==> !entry_live(m.insert(k, StoredVal { value: v, expires_at: Some(d) })[k], t),
        m.insert(k, StoredVal { value: v, expires_at: Some(d) })[k].value == v,
{
}

} // verus!
