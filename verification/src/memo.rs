//! The memoizer: wraps a function, stores prior results keyed by an argument
//! fingerprint, and evicts under a pluggable policy when a capacity bound is
//! reached.

use core::marker::PhantomData;
use crate::fingerprint::Fingerprint;
use crate::store::{others_unchanged, CacheEntry, CacheStore};
use vstd::prelude::*;

verus! {

/// A caller-supplied eviction strategy, given mutable access to the whole
/// store. It may remove any entries, including none, and may do nothing
/// else: an entry that survives keeps its key and its contents.
///
/// An implementation outside this crate is not verified; what the memoizer
/// promises under `EvictionPolicy::Custom` holds of such an implementation
/// only as far as it honours this contract.
pub trait CustomPolicy<V> {
    /// Shrink — or decline to shrink — the store.
    fn evict(&self, store: &mut CacheStore<V>)
        requires
            old(store).wf(),
        ensures
            final(store).wf(),
            forall|k: u64| #[trigger]
                final(store).contains_key(k) ==> old(store).contains_key(k)
                    && final(store).entry_of(k) == old(store).entry_of(k),
    ;
}

/// The custom strategy that evicts nothing.
pub struct NoEviction;

impl<V> CustomPolicy<V> for NoEviction {
    fn evict(&self, store: &mut CacheStore<V>) {
    }
}

/// The supported eviction strategies.
#[derive(Clone)]
pub enum EvictionPolicy<C> {
    /// Evict the entry with the oldest `last_used`.
    LRU,
    /// Evict the entry with the smallest hit count.
    LFU,
    /// Evict all entries older than this time-to-live, in milliseconds.
    TimeBased(u64),
    /// Delegate to a caller-supplied strategy.
    Custom(C),
}

/// How a hit changes the store: the entry under `fp` keeps its value and its
/// creation time, its hit count goes up by one (saturating), its `last_used`
/// advances to `t` if that is later, every other entry is untouched, and the
/// result is a copy of the stored value.
pub open spec fn hit_step<V: Clone>(
    pre: CacheStore<V>,
    post: CacheStore<V>,
    fp: u64,
    r: V,
    t: u64,
) -> bool {
    &&& pre.contains_key(fp)
    &&& post.contains_key(fp)
    &&& post.spec_len() == pre.spec_len()
    &&& post.entry_of(fp).value == pre.entry_of(fp).value
    &&& post.entry_of(fp).hits == pre.entry_of(fp).hits.saturating_add(1)
    &&& post.entry_of(fp).created_at == pre.entry_of(fp).created_at
    &&& post.entry_of(fp).last_used == (if t > pre.entry_of(fp).last_used {
        t
    } else {
        pre.entry_of(fp).last_used
    })
    &&& others_unchanged(pre, post, fp)
    &&& cloned(pre.entry_of(fp).value, r)
}

/// How a miss that stored `v` changes the store: a fresh entry for `fp` with
/// value `v`, one hit, created and last used at `t`; the result is a copy of
/// `v`; and any other entry still present is an unchanged entry of the old
/// store (eviction only ever removes).
pub open spec fn miss_step<V: Clone>(
    pre: CacheStore<V>,
    post: CacheStore<V>,
    fp: u64,
    v: V,
    r: V,
    t: u64,
) -> bool {
    &&& !pre.contains_key(fp)
    &&& post.contains_key(fp)
    &&& post.entry_of(fp) == (CacheEntry { value: v, hits: 1u64, created_at: t, last_used: t })
    &&& forall|k: u64|
        k != fp && #[trigger] post.contains_key(k) ==> pre.contains_key(k) && post.entry_of(k)
            == pre.entry_of(k)
    &&& cloned(v, r)
}

/// `k0` is a least-recently-used entry of `pre`: present, with no entry used
/// longer ago.
pub open spec fn lru_pick<V>(pre: CacheStore<V>, k0: u64) -> bool {
    &&& pre.contains_key(k0)
    &&& forall|k2: u64| #[trigger]
        pre.contains_key(k2) ==> pre.entry_of(k0).last_used <= pre.entry_of(k2).last_used
}

/// `k0` is a least-frequently-used entry of `pre`: present, with no entry
/// hit fewer times.
pub open spec fn lfu_pick<V>(pre: CacheStore<V>, k0: u64) -> bool {
    &&& pre.contains_key(k0)
    &&& forall|k2: u64| #[trigger]
        pre.contains_key(k2) ==> pre.entry_of(k0).hits <= pre.entry_of(k2).hits
}

/// An eviction pass only ever removes entries: whatever survives is an
/// unchanged entry of the old store.
pub open spec fn removal_only<V>(pre: CacheStore<V>, post: CacheStore<V>) -> bool {
    forall|k: u64| #[trigger]
        post.contains_key(k) ==> pre.contains_key(k) && post.entry_of(k) == pre.entry_of(k)
}

/// Wraps a function (assumed pure) and a bounded store of its prior results.
///
/// `call` takes the memoizer exclusively (`&mut self`) for the whole
/// lookup-or-compute-and-insert sequence. That is the single-flight
/// discipline: at most one computation is in flight store-wide, so callers
/// that share a memoizer behind one lock never compute the same argument
/// twice concurrently.
pub struct Memoizer<F, Args, Output, C> {
    function: F,
    store: CacheStore<Output>,
    max_size: Option<usize>,
    eviction_policy: EvictionPolicy<C>,
    clock: u64,
    _args: PhantomData<Args>,
}

impl<F, Args, Output, C> Memoizer<F, Args, Output, C> where
    F: Fn(Args) -> Output,
    Args: Fingerprint,
    Output: Clone,
    C: CustomPolicy<Output>,
 {
    /// The wrapped function.
    pub closed spec fn func(self) -> F {
        self.function
    }

    /// The store of prior results.
    pub closed spec fn spec_store(self) -> CacheStore<Output> {
        self.store
    }

    /// The capacity bound; `None` means unbounded.
    pub closed spec fn spec_max_size(self) -> Option<usize> {
        self.max_size
    }

    /// The eviction strategy, chosen at construction.
    pub closed spec fn policy(self) -> EvictionPolicy<C> {
        self.eviction_policy
    }

    /// The timestamp source for the store: a watermark that follows the
    /// wall clock (in milliseconds) but never goes backwards, and ticks on
    /// every call even when the wall clock stalls, so recency orders the
    /// calls.
    pub closed spec fn spec_clock(self) -> u64 {
        self.clock
    }

    /// Under LRU or LFU a configured bound is a hard cap on the store.
    pub open spec fn within_capacity(self) -> bool {
        match self.spec_max_size() {
            Some(k) => (self.policy() is LRU || self.policy() is LFU)
                ==> self.spec_store().spec_len() <= k,
            None => true,
        }
    }

    /// The memoizer's invariant: the store is well formed, no stored
    /// timestamp is ahead of the clock, a bound of zero keeps the store
    /// empty, and LRU/LFU respect the capacity bound.
    pub open spec fn wf(self) -> bool {
        &&& self.spec_store().wf()
        &&& self.spec_store().times_le(self.spec_clock())
        &&& self.within_capacity()
        &&& self.spec_max_size() == Some(0usize) ==> self.spec_store().spec_len() == 0
    }

    /// The store is at or above its configured bound.
    pub open spec fn is_full(self) -> bool {
        match self.spec_max_size() {
            Some(k) => self.spec_store().spec_len() >= k,
            None => false,
        }
    }

    /// The function, the bound and the policy never change after
    /// construction.
    pub open spec fn same_setup(self, other: Self) -> bool {
        &&& self.func() == other.func()
        &&& self.spec_max_size() == other.spec_max_size()
        &&& self.policy() == other.policy()
    }

    /// Build a memoizer around `function` with the given capacity bound and
    /// eviction policy. `max_size` of `None` never evicts; `Some(0)` caches
    /// nothing, so every call recomputes.
    pub fn new(function: F, max_size: Option<usize>, policy: EvictionPolicy<C>) -> (m: Self)
        ensures
            m.wf(),
            m.func() == function,
            m.spec_max_size() == max_size,
            m.policy() == policy,
            m.spec_store().spec_len() == 0,
            forall|k: u64| !m.spec_store().contains_key(k),
            m.spec_clock() == 0,
    {
        Memoizer {
            function,
            store: CacheStore::new(),
            max_size,
            eviction_policy: policy,
            clock: 0,
            _args: PhantomData,
        }
    }

    /// How many results are cached at the moment.
    pub fn cached_len(&self) -> (n: usize)
        ensures
            n == self.spec_store().spec_len(),
    {
        self.store.len()
    }

    /// Reduce a value to its cache key.
    fn hash_key<T: Fingerprint>(t: &T) -> (r: u64)
        ensures
            r == t.fp_spec(),
    {
        t.fingerprint()
    }

    /// One eviction pass over the store, as the active policy prescribes.
    /// LRU and LFU remove one least-recently/least-frequently used entry
    /// (none when the store is empty); TimeBased removes exactly the entries
    /// older than its time-to-live; Custom removes whatever the supplied
    /// strategy chooses. No pass ever adds or alters an entry.
    fn evict(&mut self)
        requires
            old(self).spec_store().wf(),
        ensures
            final(self).spec_store().wf(),
            final(self).same_setup(*old(self)),
            final(self).spec_clock() == old(self).spec_clock(),
            removal_only(old(self).spec_store(), final(self).spec_store()),
            old(self).policy() is LRU && old(self).spec_store().spec_len() > 0
                ==> exists|k0: u64| #[trigger] lru_pick(old(self).spec_store(), k0)
                    && !final(self).spec_store().contains_key(k0)
                    && final(self).spec_store().spec_len() == old(self).spec_store().spec_len() - 1
                    && (forall|k: u64| k != k0
                        ==> (final(self).spec_store().contains_key(k)
                            <==> old(self).spec_store().contains_key(k))),
            old(self).policy() is LFU && old(self).spec_store().spec_len() > 0
                ==> exists|k0: u64| #[trigger] lfu_pick(old(self).spec_store(), k0)
                    && !final(self).spec_store().contains_key(k0)
                    && final(self).spec_store().spec_len() == old(self).spec_store().spec_len() - 1
                    && (forall|k: u64| k != k0
                        ==> (final(self).spec_store().contains_key(k)
                            <==> old(self).spec_store().contains_key(k))),
            (old(self).policy() is LRU || old(self).policy() is LFU)
                && old(self).spec_store().spec_len() == 0
                ==> final(self).spec_store() == old(self).spec_store(),
            forall|ttl: u64| old(self).policy() == EvictionPolicy::<C>::TimeBased(ttl)
                ==> forall|k: u64|
                    (#[trigger] final(self).spec_store().contains_key(k) <==> (
                    old(self).spec_store().contains_key(k)
                        && !old(self).spec_store().entry_of(k).expired(old(self).spec_clock(), ttl))),
    {
        match &self.eviction_policy {
            EvictionPolicy::LRU => {
                let r = self.store.evict_lru();
                proof {
                    if let Some(k0) = r {
                        assert(lru_pick(old(self).spec_store(), k0));
                    }
                }
            },
            EvictionPolicy::LFU => {
                let r = self.store.evict_lfu();
                proof {
                    if let Some(k0) = r {
                        assert(lfu_pick(old(self).spec_store(), k0));
                    }
                }
            },
            EvictionPolicy::TimeBased(ttl) => {
                let t = *ttl;
                let now = self.clock;
                self.store.evict_expired(now, t);
            },
            EvictionPolicy::Custom(c) => {
                c.evict(&mut self.store);
            },
        }
    }

    /// Look the arguments up by fingerprint; on a hit, bump the entry's
    /// statistics and return a copy of the stored value without recomputing.
    /// On a miss, invoke the wrapped function; if a capacity bound is
    /// configured and reached, run one eviction pass first; then cache the
    /// fresh result (unless the bound is zero, which caches nothing) and
    /// return it.
    pub fn call(&mut self, args: Args) -> (result: Output)
        requires
            old(self).wf(),
            call_requires(old(self).func(), (args,)),
        ensures
            final(self).wf(),
            final(self).same_setup(*old(self)),
            final(self).spec_clock() >= old(self).spec_clock(),
            old(self).spec_store().contains_key(args.fp_spec()) ==> hit_step(
                old(self).spec_store(),
                final(self).spec_store(),
                args.fp_spec(),
                result,
                final(self).spec_clock(),
            ),
            !old(self).spec_store().contains_key(args.fp_spec()) && old(self).spec_max_size()
                == Some(0usize) ==> final(self).spec_store() == old(self).spec_store()
                && call_ensures(old(self).func(), (args,), result),
            !old(self).spec_store().contains_key(args.fp_spec()) && old(self).spec_max_size()
                != Some(0usize) ==> miss_step(
                old(self).spec_store(),
                final(self).spec_store(),
                args.fp_spec(),
                final(self).spec_store().entry_of(args.fp_spec()).value,
                result,
                final(self).spec_clock(),
            ) && call_ensures(
                old(self).func(),
                (args,),
                final(self).spec_store().entry_of(args.fp_spec()).value,
            ),
            !old(self).spec_store().contains_key(args.fp_spec()) && old(self).spec_max_size()
                != Some(0usize) && !old(self).is_full() ==> forall|k: u64|
                k != args.fp_spec() ==> (final(self).spec_store().contains_key(k)
                    <==> old(self).spec_store().contains_key(k)),
            !old(self).spec_store().contains_key(args.fp_spec()) && old(self).spec_max_size()
                != Some(0usize) && old(self).is_full() && old(self).policy() is LRU
                ==> exists|k0: u64| #[trigger]
                lru_pick(old(self).spec_store(), k0)
                    && !final(self).spec_store().contains_key(k0)
                    && (forall|k: u64| k != args.fp_spec() && k != k0
                        ==> (final(self).spec_store().contains_key(k)
                            <==> old(self).spec_store().contains_key(k))),
            !old(self).spec_store().contains_key(args.fp_spec()) && old(self).spec_max_size()
                != Some(0usize) && old(self).is_full() && old(self).policy() is LFU
                ==> exists|k0: u64| #[trigger]
                lfu_pick(old(self).spec_store(), k0)
                    && !final(self).spec_store().contains_key(k0)
                    && (forall|k: u64| k != args.fp_spec() && k != k0
                        ==> (final(self).spec_store().contains_key(k)
                            <==> old(self).spec_store().contains_key(k))),
            forall|ttl: u64|
                !old(self).spec_store().contains_key(args.fp_spec()) && old(self).spec_max_size()
                    != Some(0usize) && old(self).is_full() && old(self).policy()
                    == EvictionPolicy::<C>::TimeBased(ttl) ==> forall|k: u64|
                    k != args.fp_spec() ==> (final(self).spec_store().contains_key(k) <==> (
                    old(self).spec_store().contains_key(k) && !old(self).spec_store().entry_of(
                        k,
                    ).expired(final(self).spec_clock(), ttl))),
    {
        let fp = Self::hash_key(&args);
        let now = now_millis();
        if now > self.clock {
            self.clock = now;
        } else {
            // The wall clock did not advance (or jumped back): tick anyway,
            // so that recency still orders the calls.
            self.clock = self.clock.saturating_add(1);
        }
        let t = self.clock;
        proof {
            assert forall|k: u64| #[trigger]
                self.store.contains_key(k) implies self.store.entry_of(k).last_used <= t
                    && self.store.entry_of(k).created_at <= t by {}
        }
        let hit = self.store.get_refresh(fp, t);
        match hit {
            Some(v) => {
                proof {
                    assert(hit_step(old(self).spec_store(), self.spec_store(), fp, v, t));
                    assert forall|k: u64| #[trigger]
                        self.store.contains_key(k) implies self.store.entry_of(k).last_used <= t
                            && self.store.entry_of(k).created_at <= t by {
                        if k != fp {
                            assert(old(self).spec_store().contains_key(k));
                        }
                    }
                }
                return v;
            },
            None => {},
        }
        let result = (self.function)(args);
        match self.max_size {
            Some(max) => {
                if max == 0 {
                    return result;
                }
                if self.store.len() >= max {
                    self.evict();
                }
            },
            None => {},
        }
        let ghost mid = self.store;
        proof {
            assert(removal_only(old(self).spec_store(), mid));
            assert(!mid.contains_key(fp));
        }
        let out = result.clone();
        self.store.insert(fp, result, t);
        proof {
            let pre = old(self).spec_store();
            assert forall|k: u64|
                k != fp && #[trigger] self.store.contains_key(k) implies pre.contains_key(k)
                    && self.store.entry_of(k) == pre.entry_of(k) by {
                assert(mid.contains_key(k));
            }
            assert forall|k: u64| #[trigger]
                self.store.contains_key(k) implies self.store.entry_of(k).last_used <= t
                    && self.store.entry_of(k).created_at <= t by {
                if k != fp {
                    assert(old(self).spec_store().contains_key(k));
                }
            }
        }
        out
    }
}

/// Idempotence of hits: two consecutive hits on the same fingerprint, with
/// nothing in between, both return copies of the one value that was stored
/// before either of them — neither recomputes or disturbs it.
pub proof fn lemma_hit_idempotent<V: Clone>(
    s0: CacheStore<V>,
    s1: CacheStore<V>,
    s2: CacheStore<V>,
    fp: u64,
    r1: V,
    r2: V,
    t1: u64,
    t2: u64,
)
    requires
        hit_step(s0, s1, fp, r1, t1),
        hit_step(s1, s2, fp, r2, t2),
    ensures
        cloned(s0.entry_of(fp).value, r1),
        cloned(s0.entry_of(fp).value, r2),
        s2.entry_of(fp).value == s0.entry_of(fp).value,
{
}

/// A miss followed by a hit on the same fingerprint: both calls return
/// copies of the very value `v` that the miss computed and stored, and the
/// hit leaves that value in place.
pub proof fn lemma_miss_then_hit<V: Clone>(
    s0: CacheStore<V>,
    s1: CacheStore<V>,
    s2: CacheStore<V>,
    fp: u64,
    v: V,
    r1: V,
    r2: V,
    t1: u64,
    t2: u64,
)
    requires
        miss_step(s0, s1, fp, v, r1, t1),
        hit_step(s1, s2, fp, r2, t2),
    ensures
        cloned(v, r1),
        cloned(v, r2),
        s2.entry_of(fp).value == v,
{
}

/// Relies on std::time::SystemTime::now: the milliseconds since the Unix
/// epoch, as far as they fit in a u64 (zero when the system clock reads
/// before the epoch). Nothing is assumed of the value — the wall clock may
/// jump either way between calls — so the memoizer keeps its own monotonic
/// watermark over the readings.
#[verifier::external_body]
fn now_millis() -> u64 {
    match std::time::SystemTime::now().duration_since(std::time::UNIX_EPOCH) {
        Ok(d) => d.as_millis() as u64,
        Err(_) => 0,
    }
}

} // verus!
