use lru_cache::cache::Cache;
use lru_cache::err::{ArenaOOM, CacheError, ListError};

#[test]
fn lru_cache_consistency() {
    let mut lru_cache = Cache::<i32, i32>::new_with_cap(0);
    // no storage at all: no retirement or eviction can make room
    assert_eq!(
        lru_cache.insert(0, 0, 0),
        Err(CacheError::CacheBroken(ListError::ListOOM(ArenaOOM {})))
    );

    let mut lru_cache = Cache::<i32, i32>::new_with_cap(2);
    // [1-1]
    assert!(lru_cache.insert(1, 1, 0).is_ok());
    // [2-2 1-1]
    assert!(lru_cache.insert(2, 2, 0).is_ok());
    // [1-1 2-2]
    assert_eq!(lru_cache.query(&1, 0), Ok(&1));
    // [3-3 1-1]
    assert!(lru_cache.insert(3, 3, 0).is_ok());
    assert_eq!(lru_cache.query(&2, 0), Err(CacheError::CacheMiss));
    // [1,-1 3-3]
    assert!(lru_cache.insert(1, -1, 0).is_ok());
    assert_eq!(lru_cache.query(&1, 0), Ok(&-1));
    // [4-4 1,-1]
    assert!(lru_cache.insert(4, 4, 0).is_ok());
    assert_eq!(lru_cache.query(&3, 0), Err(CacheError::CacheMiss));

    let capacity = 5;

    let mut lru_cache = Cache::<i32, i32>::new_with_cap(capacity);
    assert_eq!(lru_cache.query(&0, 0), Err(CacheError::CacheMiss));

    for ele in 0..capacity {
        let x = ele as i32;
        assert!(lru_cache.insert(x, x, 0).is_ok());
    }

    for ele in 0..capacity {
        let x = ele as i32;
        assert_eq!(lru_cache.query(&x, 0), Ok(&x));
    }

    let x = capacity as i32;
    assert!(lru_cache.insert(x, x, 0).is_ok());

    assert_eq!(lru_cache.query(&x, 0), Ok(&x));

    assert_eq!(lru_cache.query(&0, 0), Err(CacheError::CacheMiss));

    let x = capacity as i32 / 2;
    assert_eq!(lru_cache.remove(&x), Ok(x));

    assert_eq!(lru_cache.query(&x, 0), Err(CacheError::CacheMiss));
    assert_eq!(lru_cache.remove(&x), Err(CacheError::CacheMiss));
}

#[test]
fn lru_cache_timeout() {
    let mut lru_cache = Cache::<i32, i32>::new_with_cap_timeout(5, 1000);

    // [1-1]
    lru_cache.insert(1, 1, 0).unwrap();
    assert_eq!(lru_cache.query(&1, 0), Ok(&1));

    // [2-2 1-1]
    lru_cache.insert(2, 2, 0).unwrap();
    // [3-3 2-2 1-1]
    lru_cache.insert(3, 3, 0).unwrap();

    // half the time-to-live has passed
    assert_eq!(lru_cache.list.len(), 3);

    // [4-4 3-3 2-2 1-1]
    lru_cache.insert(4, 4, 500).unwrap();
    // [5-5 4-4 3-3 2-2 1-1]
    lru_cache.insert(5, 5, 500).unwrap();
    assert_eq!(lru_cache.list.len(), 5);

    // the first three entries have expired, but no sweep has run yet
    assert_eq!(lru_cache.list.len(), 5);

    // [1-1 5-5 4-4 3-3 2-2]
    assert_eq!(lru_cache.query(&1, 1000), Ok(&1));
    // [6-6 1-1 5-5 4-4]
    lru_cache.insert(6, 6, 1000).unwrap();
    assert_eq!(lru_cache.list.len(), 4);
    assert_eq!(lru_cache.query(&2, 1000), Err(CacheError::CacheMiss));
    assert_eq!(lru_cache.query(&3, 1000), Err(CacheError::CacheMiss));
}
