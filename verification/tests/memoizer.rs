//! Behaviour of the memoizer: hits, capacity, and the eviction strategies.

use memocache::{CacheStore, CustomPolicy, EvictionPolicy, Memoizer, NoEviction};
use std::cell::RefCell;
use std::rc::Rc;

/// A wrapped function that squares its argument and counts, per argument,
/// how often it really ran.
fn counting_square(counts: Rc<RefCell<Vec<u32>>>) -> impl Fn(u32) -> u32 {
    move |x: u32| {
        counts.borrow_mut()[x as usize] += 1;
        x * x
    }
}

fn fresh_counts(n: usize) -> Rc<RefCell<Vec<u32>>> {
    Rc::new(RefCell::new(vec![0u32; n]))
}

#[test]
fn hit_is_idempotent_and_does_not_recompute() {
    let counts = fresh_counts(8);
    let mut memo = Memoizer::new(
        counting_square(counts.clone()),
        Some(3),
        EvictionPolicy::<NoEviction>::LRU,
    );
    let first = memo.call(4);
    let second = memo.call(4);
    assert_eq!(first, 16);
    assert_eq!(second, 16);
    assert_eq!(first, second);
    assert_eq!(counts.borrow()[4], 1);
}

#[test]
fn unbounded_store_never_evicts() {
    let counts = fresh_counts(16);
    let mut memo = Memoizer::new(
        counting_square(counts.clone()),
        None,
        EvictionPolicy::<NoEviction>::LRU,
    );
    for x in 0u32..10 {
        memo.call(x);
    }
    for x in 0u32..10 {
        memo.call(x);
    }
    assert_eq!(memo.cached_len(), 10);
    for x in 0usize..10 {
        assert_eq!(counts.borrow()[x], 1);
    }
}

#[test]
fn zero_capacity_caches_nothing() {
    let counts = fresh_counts(8);
    let mut memo = Memoizer::new(
        counting_square(counts.clone()),
        Some(0),
        EvictionPolicy::<NoEviction>::LRU,
    );
    assert_eq!(memo.call(4), 16);
    assert_eq!(memo.call(4), 16);
    assert_eq!(memo.call(4), 16);
    assert_eq!(counts.borrow()[4], 3);
    assert_eq!(memo.cached_len(), 0);
}

#[test]
fn capacity_bound_holds_under_lru() {
    let counts = fresh_counts(16);
    let mut memo = Memoizer::new(
        counting_square(counts.clone()),
        Some(2),
        EvictionPolicy::<NoEviction>::LRU,
    );
    for x in 0u32..10 {
        memo.call(x);
        assert!(memo.cached_len() <= 2);
    }
}

#[test]
fn capacity_bound_holds_under_lfu() {
    let counts = fresh_counts(16);
    let mut memo = Memoizer::new(
        counting_square(counts.clone()),
        Some(2),
        EvictionPolicy::<NoEviction>::LFU,
    );
    for x in 0u32..10 {
        memo.call(x);
        assert!(memo.cached_len() <= 2);
    }
}

#[test]
fn lru_evicts_the_least_recently_used_key() {
    let counts = fresh_counts(8);
    let mut memo = Memoizer::new(
        counting_square(counts.clone()),
        Some(2),
        EvictionPolicy::<NoEviction>::LRU,
    );
    memo.call(1);
    memo.call(2);
    memo.call(1); // refresh key 1, so key 2 is now the least recently used
    memo.call(3); // full: evicts key 2
    assert_eq!(memo.call(1), 1); // still cached
    assert_eq!(counts.borrow()[1], 1);
    assert_eq!(memo.call(2), 4); // was evicted: recomputed
    assert_eq!(counts.borrow()[2], 2);
}

#[test]
fn lfu_evicts_the_least_frequently_used_key() {
    let counts = fresh_counts(8);
    let mut memo = Memoizer::new(
        counting_square(counts.clone()),
        Some(2),
        EvictionPolicy::<NoEviction>::LFU,
    );
    memo.call(1); // key 1: one hit
    memo.call(2);
    memo.call(2);
    memo.call(2); // key 2: three hits
    memo.call(3); // full: evicts key 1
    assert_eq!(memo.call(2), 4); // still cached
    assert_eq!(counts.borrow()[2], 1);
    assert_eq!(memo.call(1), 1); // was evicted: recomputed
    assert_eq!(counts.borrow()[1], 2);
}

#[test]
fn time_based_full_store_may_exceed_the_bound() {
    // Nothing expires under an enormous time-to-live, and a full store under
    // TimeBased still accepts the insertion: the bound is not a hard cap.
    let counts = fresh_counts(8);
    let mut memo = Memoizer::new(
        counting_square(counts.clone()),
        Some(1),
        EvictionPolicy::<NoEviction>::TimeBased(u64::MAX),
    );
    memo.call(1);
    memo.call(2);
    memo.call(3);
    assert_eq!(memo.cached_len(), 3);
    assert_eq!(counts.borrow()[1], 1);
}

#[test]
fn time_based_expired_entries_are_recomputed() {
    // With a zero time-to-live every earlier entry has expired by the next
    // call (the memoizer's clock always advances), so a full store drops it.
    let counts = fresh_counts(8);
    let mut memo = Memoizer::new(
        counting_square(counts.clone()),
        Some(1),
        EvictionPolicy::<NoEviction>::TimeBased(0),
    );
    memo.call(1);
    memo.call(2); // full: the pass drops key 1, then key 2 is inserted
    assert_eq!(memo.cached_len(), 1);
    assert_eq!(memo.call(1), 1); // recomputed
    assert_eq!(counts.borrow()[1], 2);
}

/// A custom strategy: drop everything.
struct ClearAll;

impl<V> CustomPolicy<V> for ClearAll {
    fn evict(&self, store: &mut CacheStore<V>) {
        store.clear();
    }
}

#[test]
fn custom_policy_decides_what_goes() {
    let counts = fresh_counts(8);
    let mut memo = Memoizer::new(
        counting_square(counts.clone()),
        Some(2),
        EvictionPolicy::Custom(ClearAll),
    );
    memo.call(1);
    memo.call(2);
    memo.call(3); // full: the custom pass clears the store first
    assert_eq!(memo.cached_len(), 1);
    assert_eq!(memo.call(3), 9); // the fresh entry survived
    assert_eq!(counts.borrow()[3], 1);
}

#[test]
fn custom_policy_may_evict_nothing() {
    let counts = fresh_counts(8);
    let mut memo = Memoizer::new(
        counting_square(counts.clone()),
        Some(1),
        EvictionPolicy::Custom(NoEviction),
    );
    memo.call(1);
    memo.call(2);
    memo.call(3);
    // NoEviction declined every pass, so the store grew past the bound.
    assert_eq!(memo.cached_len(), 3);
    assert_eq!(counts.borrow()[1], 1);
}

#[test]
fn distinct_keys_get_distinct_results() {
    let counts = fresh_counts(8);
    let mut memo = Memoizer::new(
        counting_square(counts.clone()),
        None,
        EvictionPolicy::<NoEviction>::LFU,
    );
    assert_eq!(memo.call(2), 4);
    assert_eq!(memo.call(3), 9);
    assert_eq!(memo.call(2), 4);
    assert_eq!(counts.borrow()[2], 1);
    assert_eq!(counts.borrow()[3], 1);
}
