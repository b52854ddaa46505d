use lru_cache::cache::Cache;
use lru_cache::err::{ArenaOOM, CacheError, ListError};

#[test]
fn capacity_bound_holds_throughout() {
    let cap = 3;
    let mut cache = Cache::<i32, i32>::new_with_cap(cap);
    for k in 0..20 {
        cache.insert(k, k * 10, 0).unwrap();
        assert!(cache.len() <= cap);
    }
    assert_eq!(cache.len(), cap);
}

#[test]
fn lru_order_evicts_least_recently_touched() {
    let mut cache = Cache::<i32, i32>::new_with_cap(3);
    cache.insert(1, 1, 0).unwrap();
    cache.insert(2, 2, 0).unwrap();
    cache.insert(3, 3, 0).unwrap();
    // touching 1 makes 2 the least recently used entry
    assert_eq!(cache.query(&1, 0), Ok(&1));
    cache.insert(4, 4, 0).unwrap();
    // evicted: least recently touched, not least recently inserted
    assert_eq!(cache.query(&2, 0), Err(CacheError::CacheMiss));
    assert_eq!(cache.query(&1, 0), Ok(&1));
    assert_eq!(cache.query(&3, 0), Ok(&3));
    assert_eq!(cache.query(&4, 0), Ok(&4));
}

#[test]
fn scenario_capacity_two() {
    let mut cache = Cache::<i32, i32>::new_with_cap(2);
    cache.insert(1, 1, 0).unwrap();
    cache.insert(2, 2, 0).unwrap();
    assert_eq!(cache.query(&1, 0), Ok(&1));
    cache.insert(3, 3, 0).unwrap();
    assert_eq!(cache.query(&2, 0), Err(CacheError::CacheMiss));
    assert_eq!(cache.query(&1, 0), Ok(&1));
    assert_eq!(cache.query(&3, 0), Ok(&3));
}

#[test]
fn ttl_expiry_needs_a_sweep() {
    let mut cache = Cache::<i32, i32>::new_with_cap_timeout(2, 100);
    cache.insert(1, 1, 0).unwrap();
    // not yet expired: the sweep leaves it alone
    assert!(cache.retire(99).is_ok());
    assert_eq!(cache.len(), 1);
    // expired now: the sweep retires it, and it is gone
    assert!(cache.retire(100).is_ok());
    assert_eq!(cache.len(), 0);
    assert_eq!(cache.query(&1, 100), Err(CacheError::CacheMiss));

    // without a sweep an expired entry stays visible, however late the query
    let mut cache = Cache::<i32, i32>::new_with_cap_timeout(2, 100);
    cache.insert(1, 1, 0).unwrap();
    assert_eq!(cache.query(&1, 1000), Ok(&1));
}

#[test]
fn scenario_ttl_refresh_survives_sweep() {
    let mut cache = Cache::<i32, i32>::new_with_cap_timeout(5, 1000);
    for k in 1..6 {
        cache.insert(k, k, 0).unwrap();
    }
    // past every entry's expiry: the query still hits, and refreshes key 1
    assert_eq!(cache.query(&1, 1001), Ok(&1));
    // the query's repositioning swept nothing
    assert_eq!(cache.len(), 5);
    assert!(cache.retire(1001).is_ok());
    // only the refreshed key survives the explicit sweep
    assert_eq!(cache.len(), 1);
    assert_eq!(cache.query(&1, 1001), Ok(&1));
    assert_eq!(cache.query(&2, 1001), Err(CacheError::CacheMiss));
    assert_eq!(cache.query(&5, 1001), Err(CacheError::CacheMiss));
}

#[test]
fn scenario_zero_capacity() {
    let mut cache = Cache::<i32, i32>::new_with_cap(0);
    assert_eq!(
        cache.insert(7, 7, 0),
        Err(CacheError::CacheBroken(ListError::ListOOM(ArenaOOM {})))
    );
    assert_eq!(cache.len(), 0);
    assert_eq!(cache.query(&7, 0), Err(CacheError::CacheMiss));
}

#[test]
fn index_follows_repositioned_nodes() {
    let mut cache = Cache::<i32, i32>::new_with_cap(4);
    for k in 0..4 {
        cache.insert(k, k, 0).unwrap();
    }
    // repositioning hands a node a fresh handle; the index must follow
    cache.query(&0, 0).unwrap();
    cache.insert(1, 11, 0).unwrap();
    assert_eq!(cache.remove(&2), Ok(2));
    cache.insert(5, 5, 0).unwrap();
    // every live key still resolves through the index to its own node
    assert_eq!(cache.query(&0, 0), Ok(&0));
    assert_eq!(cache.query(&1, 0), Ok(&11));
    assert_eq!(cache.query(&3, 0), Ok(&3));
    assert_eq!(cache.query(&5, 0), Ok(&5));
    assert_eq!(cache.query(&2, 0), Err(CacheError::CacheMiss));
    assert_eq!(cache.len(), 4);
}

#[test]
fn overwrite_does_not_evict() {
    let mut cache = Cache::<i32, i32>::new_with_cap(2);
    cache.insert(1, 1, 0).unwrap();
    cache.insert(2, 2, 0).unwrap();
    // refreshing an existing key takes no extra slot
    cache.insert(1, 10, 0).unwrap();
    assert_eq!(cache.len(), 2);
    assert_eq!(cache.query(&1, 0), Ok(&10));
    assert_eq!(cache.query(&2, 0), Ok(&2));
}
