//! The bounded mapping from argument fingerprints to cache entries.
//!
//! The store is an association list with distinct keys, so its contracts can
//! speak of it as a mapping: `contains_key` and `entry_of` give the
//! key-indexed view, and every operation states its effect pointwise over
//! keys.

use vstd::prelude::*;

verus! {

/// One stored result: the cached value together with its usage statistics.
pub struct CacheEntry<V> {
    /// The computed output; the store is its sole long-term owner.
    pub value: V,
    /// How many lookups have found this entry; starts at 1 on insertion.
    pub hits: u64,
    /// Timestamp of insertion; never changes for the entry's lifetime.
    pub created_at: u64,
    /// Timestamp of the most recent hit.
    pub last_used: u64,
}

impl<V> CacheEntry<V> {
    /// An entry is never used before it is created.
    pub open spec fn wf(self) -> bool {
        self.created_at <= self.last_used
    }

    /// Whether the entry's age at time `now` exceeds `ttl`.
    pub open spec fn expired(self, now: u64, ttl: u64) -> bool {
        now - self.created_at > ttl
    }
}

/// Does the association list `s` hold an entry under key `k`?
pub open spec fn seq_has_key<V>(s: Seq<(u64, CacheEntry<V>)>, k: u64) -> bool {
    exists|i: int| 0 <= i < s.len() && (#[trigger] s[i]).0 == k
}

/// A position of key `k` in the association list `s`.
pub open spec fn seq_key_at<V>(s: Seq<(u64, CacheEntry<V>)>, k: u64) -> int {
    choose|i: int| 0 <= i < s.len() && (#[trigger] s[i]).0 == k
}

/// No key occurs twice in the association list `s`.
pub open spec fn seq_keys_unique<V>(s: Seq<(u64, CacheEntry<V>)>) -> bool {
    forall|i: int, j: int|
        0 <= i < j < s.len() ==> (#[trigger] s[i]).0 != (#[trigger] s[j]).0
}

/// With distinct keys, the position of a present key is valid and unique.
pub proof fn lemma_key_at<V>(s: Seq<(u64, CacheEntry<V>)>, k: u64)
    requires
        seq_has_key(s, k),
    ensures
        0 <= seq_key_at(s, k) < s.len(),
        s[seq_key_at(s, k)].0 == k,
        seq_keys_unique(s) ==> forall|i: int|
            0 <= i < s.len() && (#[trigger] s[i]).0 == k ==> i == seq_key_at(s, k),
{
    assert(0 <= seq_key_at(s, k) < s.len() && s[seq_key_at(s, k)].0 == k);
}

/// Updating the entry at a valid position, keeping its key, changes the
/// key-indexed view only at that key.
pub proof fn lemma_update_at<V>(s: Seq<(u64, CacheEntry<V>)>, i: int, e: CacheEntry<V>)
    requires
        seq_keys_unique(s),
        0 <= i < s.len(),
    ensures
        seq_keys_unique(s.update(i, (s[i].0, e))),
        forall|k: u64| seq_has_key(s.update(i, (s[i].0, e)), k) <==> seq_has_key(s, k),
        forall|k: u64|
            k != s[i].0 && seq_has_key(s, k)
                ==> seq_key_at(s.update(i, (s[i].0, e)), k) == seq_key_at(s, k),
        seq_key_at(s.update(i, (s[i].0, e)), s[i].0) == i,
{
    let t = s.update(i, (s[i].0, e));
    assert(forall|j: int| 0 <= j < s.len() ==> (#[trigger] t[j]).0 == s[j].0);
    assert forall|k: u64| seq_has_key(t, k) implies seq_has_key(s, k) by {
        let j = seq_key_at(t, k);
        assert(s[j].0 == k);
    }
    assert forall|k: u64| seq_has_key(s, k) implies seq_has_key(t, k) by {
        let j = seq_key_at(s, k);
        assert(t[j].0 == k);
    }
    assert forall|k: u64|
        k != s[i].0 && seq_has_key(s, k) implies seq_key_at(t, k) == seq_key_at(s, k) by {
        lemma_key_at(s, k);
        lemma_key_at(t, k);
        let j = seq_key_at(t, k);
        assert(s[j].0 == k);
    }
    lemma_key_at(t, s[i].0);
    assert(t[i].0 == s[i].0);
}

/// Appending a fresh key adds exactly that key to the key-indexed view.
pub proof fn lemma_push_last<V>(s: Seq<(u64, CacheEntry<V>)>, k: u64, e: CacheEntry<V>)
    requires
        seq_keys_unique(s),
        !seq_has_key(s, k),
    ensures
        seq_keys_unique(s.push((k, e))),
        seq_has_key(s.push((k, e)), k),
        seq_key_at(s.push((k, e)), k) == s.len(),
        forall|k2: u64| k2 != k ==> (seq_has_key(s.push((k, e)), k2) <==> seq_has_key(s, k2)),
        forall|k2: u64|
            k2 != k && seq_has_key(s, k2)
                ==> seq_key_at(s.push((k, e)), k2) == seq_key_at(s, k2),
{
    let t = s.push((k, e));
    assert(forall|j: int| 0 <= j < s.len() ==> (#[trigger] t[j]) == s[j]);
    assert(t[s.len() as int].0 == k);
    assert forall|i: int, j: int| 0 <= i < j < t.len() implies t[i].0 != t[j].0 by {
        if j < s.len() {
        } else {
            assert(t[i].0 == s[i].0);
            if t[i].0 == k {
                assert(seq_has_key(s, k));
            }
        }
    }
    lemma_key_at(t, k);
    assert forall|k2: u64| k2 != k && seq_has_key(t, k2) implies seq_has_key(s, k2) by {
        let j = seq_key_at(t, k2);
        assert(t[j].0 == k2);
        assert(j < s.len());
        assert(s[j].0 == k2);
    }
    assert forall|k2: u64| k2 != k && seq_has_key(s, k2) implies seq_has_key(t, k2) by {
        let j = seq_key_at(s, k2);
        assert(t[j].0 == k2);
    }
    assert forall|k2: u64|
        k2 != k && seq_has_key(s, k2) implies seq_key_at(t, k2) == seq_key_at(s, k2) by {
        lemma_key_at(s, k2);
        lemma_key_at(t, k2);
        let j = seq_key_at(t, k2);
        assert(j < s.len());
        assert(s[j].0 == k2);
    }
}

/// Removing the slot at a valid position removes exactly its key from the
/// key-indexed view.
pub proof fn lemma_remove_at<V>(s: Seq<(u64, CacheEntry<V>)>, i: int)
    requires
        seq_keys_unique(s),
        0 <= i < s.len(),
    ensures
        seq_keys_unique(s.remove(i)),
        !seq_has_key(s.remove(i), s[i].0),
        forall|k: u64| k != s[i].0 ==> (seq_has_key(s.remove(i), k) <==> seq_has_key(s, k)),
        forall|k: u64|
            k != s[i].0 && seq_has_key(s, k)
                ==> s.remove(i)[seq_key_at(s.remove(i), k)].1 == s[seq_key_at(s, k)].1,
{
    let t = s.remove(i);
    assert(forall|j: int| 0 <= j < i ==> (#[trigger] t[j]) == s[j]);
    assert(forall|j: int| i <= j < t.len() ==> (#[trigger] t[j]) == s[j + 1]);
    assert forall|a: int, b: int| 0 <= a < b < t.len() implies t[a].0 != t[b].0 by {
        let a2: int = if a < i { a } else { a + 1 };
        let b2: int = if b < i { b } else { b + 1 };
        assert(t[a] == s[a2] && t[b] == s[b2]);
    }
    assert forall|j: int| 0 <= j < t.len() implies t[j].0 != s[i].0 by {
        let j2: int = if j < i { j } else { j + 1 };
        assert(t[j] == s[j2] && j2 != i);
    }
    assert forall|k: u64| k != s[i].0 && seq_has_key(t, k) implies seq_has_key(s, k) by {
        let j = seq_key_at(t, k);
        let j2: int = if j < i { j } else { j + 1 };
        assert(s[j2].0 == k);
    }
    assert forall|k: u64| k != s[i].0 && seq_has_key(s, k) implies seq_has_key(t, k) by {
        let j = seq_key_at(s, k);
        if j < i {
            assert(t[j].0 == k);
        } else {
            assert(j != i);
            assert(t[j - 1].0 == k);
        }
    }
    assert forall|k: u64|
        k != s[i].0 && seq_has_key(s, k) implies t[seq_key_at(t, k)].1 == s[seq_key_at(s, k)].1 by {
        lemma_key_at(s, k);
        lemma_key_at(t, k);
        let j = seq_key_at(t, k);
        let j2: int = if j < i { j } else { j + 1 };
        assert(t[j] == s[j2]);
        assert(s[j2].0 == k);
        assert(j2 == seq_key_at(s, k));
    }
}

/// The effect of an operation that may touch key `k` on all the other keys:
/// their presence and their entries are unchanged.
pub open spec fn others_unchanged<V>(pre: CacheStore<V>, post: CacheStore<V>, k: u64) -> bool {
    &&& forall|k2: u64|
        k2 != k ==> (#[trigger] post.contains_key(k2) <==> pre.contains_key(k2))
    &&& forall|k2: u64|
        k2 != k && #[trigger] pre.contains_key(k2) ==> post.entry_of(k2) == pre.entry_of(k2)
}

/// A bounded mapping from argument fingerprints to cache entries.
pub struct CacheStore<V> {
    slots: Vec<(u64, CacheEntry<V>)>,
}

impl<V> CacheStore<V> {
    /// The slots in insertion order.
    pub closed spec fn slots_seq(self) -> Seq<(u64, CacheEntry<V>)> {
        self.slots@
    }

    /// How many entries the store holds.
    pub open spec fn spec_len(self) -> nat {
        self.slots_seq().len()
    }

    /// Whether an entry is stored under fingerprint `k`.
    pub open spec fn contains_key(self, k: u64) -> bool {
        seq_has_key(self.slots_seq(), k)
    }

    /// The entry stored under fingerprint `k`.
    pub open spec fn entry_of(self, k: u64) -> CacheEntry<V> {
        self.slots_seq()[seq_key_at(self.slots_seq(), k)].1
    }

    /// Well-formed: keys are distinct and every entry's timestamps are
    /// consistent.
    pub open spec fn wf(self) -> bool {
        &&& seq_keys_unique(self.slots_seq())
        &&& forall|i: int|
            0 <= i < self.slots_seq().len() ==> (#[trigger] self.slots_seq()[i]).1.wf()
    }

    /// Every timestamp in the store is at most `t`.
    pub open spec fn times_le(self, t: u64) -> bool {
        forall|k: u64| #[trigger]
            self.contains_key(k) ==> self.entry_of(k).last_used <= t
                && self.entry_of(k).created_at <= t
    }

    /// An empty store.
    pub fn new() -> (s: Self)
        ensures
            s.wf(),
            s.spec_len() == 0,
            forall|k: u64| !s.contains_key(k),
    {
        CacheStore { slots: Vec::new() }
    }

    /// How many entries the store holds.
    pub fn len(&self) -> (n: usize)
        ensures
            n == self.spec_len(),
    {
        self.slots.len()
    }

    /// The position of fingerprint `key`, if it is present.
    fn find(&self, key: u64) -> (r: Option<usize>)
        requires
            self.wf(),
        ensures
            match r {
                Some(i) => self.contains_key(key) && i == seq_key_at(self.slots_seq(), key),
                None => !self.contains_key(key),
            },
    {
        let n = self.slots.len();
        let mut i: usize = 0;
        while i < n
            invariant
                self.wf(),
                n == self.spec_len(),
                0 <= i <= n,
                forall|j: int| 0 <= j < i ==> (#[trigger] self.slots_seq()[j]).0 != key,
            decreases n - i,
        {
            if self.slots[i].0 == key {
                proof {
                    lemma_key_at(self.slots_seq(), key);
                }
                return Some(i);
            }
            i = i + 1;
        }
        None
    }

    /// Whether an entry is stored under `key`.
    pub fn contains(&self, key: u64) -> (r: bool)
        requires
            self.wf(),
        ensures
            r == self.contains_key(key),
    {
        self.find(key).is_some()
    }

    /// A view of the entry stored under `key`, if any.
    pub fn entry(&self, key: u64) -> (r: Option<&CacheEntry<V>>)
        requires
            self.wf(),
        ensures
            r is Some <==> self.contains_key(key),
            (r matches Some(e) ==> *e == self.entry_of(key)),
    {
        match self.find(key) {
            Some(i) => Some(&self.slots[i].1),
            None => None,
        }
    }

    /// Record a hit on `key`: bump its hit count, refresh its `last_used`
    /// timestamp (timestamps never move backwards), and return a copy of the
    /// stored value. Absent keys leave the store untouched.
    pub fn get_refresh(&mut self, key: u64, now: u64) -> (r: Option<V>) where V: Clone
        requires
            old(self).wf(),
        ensures
            final(self).wf(),
            r is Some <==> old(self).contains_key(key),
            !old(self).contains_key(key) ==> *final(self) == *old(self),
            old(self).contains_key(key) ==> final(self).contains_key(key)
                && final(self).spec_len() == old(self).spec_len()
                && final(self).entry_of(key).value == old(self).entry_of(key).value
                && final(self).entry_of(key).hits == old(self).entry_of(key).hits.saturating_add(1)
                && final(self).entry_of(key).created_at == old(self).entry_of(key).created_at
                && final(self).entry_of(key).last_used == (if now > old(self).entry_of(key).last_used
                    { now } else { old(self).entry_of(key).last_used }),
            others_unchanged(*old(self), *final(self), key),
            (r matches Some(v) ==> cloned(old(self).entry_of(key).value, v)),
    {
        match self.find(key) {
            None => None,
            Some(i) => {
                proof {
                    lemma_key_at(self.slots_seq(), key);
                }
                let (k, mut e) = self.slots.remove(i);
                e.hits = e.hits.saturating_add(1);
                if now > e.last_used {
                    e.last_used = now;
                }
                let out = e.value.clone();
                let ghost ge = e;
                self.slots.insert(i, (k, e));
                proof {
                    assert(self.slots@ =~= old(self).slots@.update(i as int, (key, ge)));
                    lemma_update_at(old(self).slots_seq(), i as int, ge);
                }
                Some(out)
            },
        }
    }

    /// Insert a fresh entry for an absent key: one hit, created and last used
    /// at `now`.
    pub fn insert(&mut self, key: u64, value: V, now: u64)
        requires
            old(self).wf(),
            !old(self).contains_key(key),
        ensures
            final(self).wf(),
            final(self).spec_len() == old(self).spec_len() + 1,
            final(self).contains_key(key),
            final(self).entry_of(key) == (CacheEntry {
                value,
                hits: 1u64,
                created_at: now,
                last_used: now,
            }),
            others_unchanged(*old(self), *final(self), key),
    {
        let e = CacheEntry { value, hits: 1u64, created_at: now, last_used: now };
        let ghost ge = e;
        proof {
            lemma_push_last(self.slots_seq(), key, ge);
        }
        self.slots.push((key, e));
    }

    /// Remove the entry under `key`, if any; say whether one was there.
    pub fn remove(&mut self, key: u64) -> (r: bool)
        requires
            old(self).wf(),
        ensures
            final(self).wf(),
            r == old(self).contains_key(key),
            !final(self).contains_key(key),
            others_unchanged(*old(self), *final(self), key),
            final(self).spec_len() == if old(self).contains_key(key)
                { old(self).spec_len() - 1 } else { old(self).spec_len() as int },
    {
        match self.find(key) {
            None => false,
            Some(i) => {
                proof {
                    lemma_key_at(self.slots_seq(), key);
                    lemma_remove_at(self.slots_seq(), i as int);
                }
                self.slots.remove(i);
                true
            },
        }
    }

    /// Remove every entry.
    pub fn clear(&mut self)
        ensures
            final(self).wf(),
            final(self).spec_len() == 0,
            forall|k: u64| !final(self).contains_key(k),
    {
        self.slots.clear();
    }

    /// Evict the least-recently-used entry: one whose `last_used` is minimal.
    /// Returns the evicted key, or `None` when the store was empty.
    pub fn evict_lru(&mut self) -> (r: Option<u64>)
        requires
            old(self).wf(),
        ensures
            final(self).wf(),
            r is None <==> old(self).spec_len() == 0,
            old(self).spec_len() == 0 ==> *final(self) == *old(self),
            r matches Some(k) ==> old(self).contains_key(k)
                && !final(self).contains_key(k)
                && final(self).spec_len() == old(self).spec_len() - 1
                && others_unchanged(*old(self), *final(self), k)
                && (forall|k2: u64| old(self).contains_key(k2)
                    ==> old(self).entry_of(k).last_used <= old(self).entry_of(k2).last_used),
    {
        let n = self.slots.len();
        if n == 0 {
            return None;
        }
        let mut best: usize = 0;
        let mut i: usize = 1;
        while i < n
            invariant
                self.wf(),
                n == self.spec_len(),
                0 < n,
                0 <= best < i <= n,
                forall|j: int|
                    0 <= j < i ==> self.slots_seq()[best as int].1.last_used
                        <= (#[trigger] self.slots_seq()[j]).1.last_used,
            decreases n - i,
        {
            if self.slots[i].1.last_used < self.slots[best].1.last_used {
                best = i;
            }
            i = i + 1;
        }
        let k = self.slots[best].0;
        proof {
            lemma_key_at(self.slots_seq(), k);
            assert(seq_key_at(self.slots_seq(), k) == best as int);
            assert forall|k2: u64| self.contains_key(k2)
                implies self.entry_of(k).last_used <= self.entry_of(k2).last_used by {
                lemma_key_at(self.slots_seq(), k2);
            }
            lemma_remove_at(self.slots_seq(), best as int);
        }
        self.slots.remove(best);
        Some(k)
    }

    /// Evict the least-frequently-used entry: one whose hit count is minimal.
    /// Returns the evicted key, or `None` when the store was empty.
    pub fn evict_lfu(&mut self) -> (r: Option<u64>)
        requires
            old(self).wf(),
        ensures
            final(self).wf(),
            r is None <==> old(self).spec_len() == 0,
            old(self).spec_len() == 0 ==> *final(self) == *old(self),
            r matches Some(k) ==> old(self).contains_key(k)
                && !final(self).contains_key(k)
                && final(self).spec_len() == old(self).spec_len() - 1
                && others_unchanged(*old(self), *final(self), k)
                && (forall|k2: u64| old(self).contains_key(k2)
                    ==> old(self).entry_of(k).hits <= old(self).entry_of(k2).hits),
    {
        let n = self.slots.len();
        if n == 0 {
            return None;
        }
        let mut best: usize = 0;
        let mut i: usize = 1;
        while i < n
            invariant
                self.wf(),
                n == self.spec_len(),
                0 < n,
                0 <= best < i <= n,
                forall|j: int|
                    0 <= j < i ==> self.slots_seq()[best as int].1.hits
                        <= (#[trigger] self.slots_seq()[j]).1.hits,
            decreases n - i,
        {
            if self.slots[i].1.hits < self.slots[best].1.hits {
                best = i;
            }
            i = i + 1;
        }
        let k = self.slots[best].0;
        proof {
            lemma_key_at(self.slots_seq(), k);
            assert(seq_key_at(self.slots_seq(), k) == best as int);
            assert forall|k2: u64| self.contains_key(k2)
                implies self.entry_of(k).hits <= self.entry_of(k2).hits by {
                lemma_key_at(self.slots_seq(), k2);
            }
            lemma_remove_at(self.slots_seq(), best as int);
        }
        self.slots.remove(best);
        Some(k)
    }

    /// Evict every entry whose age at time `now` exceeds `ttl`; the rest
    /// survive unchanged. May remove zero, one, or many entries.
    pub fn evict_expired(&mut self, now: u64, ttl: u64)
        requires
            old(self).wf(),
        ensures
            final(self).wf(),
            forall|k: u64|
                #[trigger] final(self).contains_key(k) <==> (old(self).contains_key(k)
                    && !old(self).entry_of(k).expired(now, ttl)),
            forall|k: u64|
                #[trigger] final(self).contains_key(k)
                    ==> final(self).entry_of(k) == old(self).entry_of(k),
            final(self).spec_len() <= old(self).spec_len(),
    {
        let mut i: usize = 0;
        while i < self.slots.len()
            invariant
                self.wf(),
                0 <= i <= self.spec_len(),
                self.spec_len() <= old(self).spec_len(),
                forall|p: int|
                    0 <= p < i ==> !(#[trigger] self.slots_seq()[p]).1.expired(now, ttl),
                forall|k: u64|
                    #[trigger] self.contains_key(k) ==> old(self).contains_key(k)
                        && self.entry_of(k) == old(self).entry_of(k),
                forall|k: u64|
                    #[trigger] old(self).contains_key(k) ==> (self.contains_key(k)
                        || old(self).entry_of(k).expired(now, ttl)),
            decreases self.spec_len() - i,
        {
            let created = self.slots[i].1.created_at;
            if created < now && now - created > ttl {
                let ghost prev = *self;
                let ghost k = self.slots_seq()[i as int].0;
                proof {
                    assert(prev.contains_key(k));
                    lemma_key_at(prev.slots_seq(), k);
                    assert(seq_key_at(prev.slots_seq(), k) == i as int);
                    lemma_remove_at(prev.slots_seq(), i as int);
                }
                self.slots.remove(i);
                proof {
                    assert(prev.entry_of(k).expired(now, ttl));
                    assert(old(self).entry_of(k).expired(now, ttl));
                    assert forall|k2: u64| #[trigger] self.contains_key(k2)
                        implies old(self).contains_key(k2)
                            && self.entry_of(k2) == old(self).entry_of(k2) by {
                        assert(k2 != k);
                        assert(prev.contains_key(k2));
                        assert(self.entry_of(k2) == prev.entry_of(k2));
                    }
                    assert forall|k2: u64| #[trigger] old(self).contains_key(k2)
                        implies self.contains_key(k2)
                            || old(self).entry_of(k2).expired(now, ttl) by {
                        if k2 != k && prev.contains_key(k2) {
                            assert(self.contains_key(k2));
                        }
                    }
                }
            } else {
                proof {
                    let s = self.slots_seq();
                    assert(!s[i as int].1.expired(now, ttl));
                }
                i = i + 1;
            }
        }
        proof {
            assert forall|k: u64| #[trigger] self.contains_key(k)
                implies !old(self).entry_of(k).expired(now, ttl) by {
                lemma_key_at(self.slots_seq(), k);
            }
        }
    }
}

} // verus!
