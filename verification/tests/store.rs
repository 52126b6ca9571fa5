//! Behaviour of the cache store itself, with explicit timestamps.

use memocache::CacheStore;

#[test]
fn insert_then_lookup() {
    let mut s: CacheStore<u32> = CacheStore::new();
    assert_eq!(s.len(), 0);
    s.insert(7, 49, 100);
    assert_eq!(s.len(), 1);
    assert!(s.contains(7));
    assert!(!s.contains(8));
    assert_eq!(s.get_refresh(7, 150), Some(49));
    assert_eq!(s.get_refresh(8, 150), None);
}

#[test]
fn hits_and_timestamps_are_tracked() {
    let mut s: CacheStore<u32> = CacheStore::new();
    s.insert(7, 49, 100);
    {
        let e = s.entry(7).unwrap();
        assert_eq!(e.hits, 1);
        assert_eq!(e.created_at, 100);
        assert_eq!(e.last_used, 100);
    }
    s.get_refresh(7, 200);
    {
        let e = s.entry(7).unwrap();
        assert_eq!(e.hits, 2);
        assert_eq!(e.created_at, 100);
        assert_eq!(e.last_used, 200);
    }
    // Timestamps never move backwards.
    s.get_refresh(7, 150);
    let e = s.entry(7).unwrap();
    assert_eq!(e.hits, 3);
    assert_eq!(e.last_used, 200);
}

#[test]
fn remove_and_clear() {
    let mut s: CacheStore<u32> = CacheStore::new();
    s.insert(1, 1, 10);
    s.insert(2, 4, 20);
    assert!(s.remove(1));
    assert!(!s.remove(1));
    assert!(!s.contains(1));
    assert!(s.contains(2));
    s.clear();
    assert_eq!(s.len(), 0);
    assert!(!s.contains(2));
}

#[test]
fn lru_evicts_the_oldest_use() {
    let mut s: CacheStore<u32> = CacheStore::new();
    s.insert(1, 1, 10);
    s.insert(2, 4, 20);
    s.insert(3, 9, 30);
    assert_eq!(s.evict_lru(), Some(1));
    assert!(!s.contains(1));
    // Refreshing key 2 makes key 3 the least recently used.
    s.get_refresh(2, 40);
    assert_eq!(s.evict_lru(), Some(3));
    assert!(s.contains(2));
    assert_eq!(s.len(), 1);
}

#[test]
fn lfu_evicts_the_smallest_hit_count() {
    let mut s: CacheStore<u32> = CacheStore::new();
    s.insert(1, 1, 10);
    s.insert(2, 4, 10);
    s.get_refresh(2, 20);
    s.get_refresh(2, 30);
    assert_eq!(s.evict_lfu(), Some(1));
    assert!(s.contains(2));
}

#[test]
fn evicting_an_empty_store_is_a_no_op() {
    let mut s: CacheStore<u32> = CacheStore::new();
    assert_eq!(s.evict_lru(), None);
    assert_eq!(s.evict_lfu(), None);
    s.evict_expired(1000, 10);
    assert_eq!(s.len(), 0);
}

#[test]
fn time_based_expiry_boundaries() {
    // An entry created at 1000 with a time-to-live of 100 is still there
    // halfway through its life and gone once its age has doubled the limit.
    let mut s: CacheStore<u32> = CacheStore::new();
    s.insert(1, 1, 1000);
    s.evict_expired(1050, 100);
    assert!(s.contains(1));
    // An age of exactly the time-to-live does not yet expire.
    s.evict_expired(1100, 100);
    assert!(s.contains(1));
    s.evict_expired(1200, 100);
    assert!(!s.contains(1));
}

#[test]
fn time_based_expiry_may_remove_many_or_none() {
    let mut s: CacheStore<u32> = CacheStore::new();
    s.insert(1, 1, 100);
    s.insert(2, 4, 200);
    s.insert(3, 9, 900);
    s.evict_expired(1000, 2000);
    assert_eq!(s.len(), 3);
    s.evict_expired(1000, 500);
    assert!(!s.contains(1));
    assert!(!s.contains(2));
    assert!(s.contains(3));
    assert_eq!(s.len(), 1);
}
