use lru_cache::{CacheOps, LruCache};

#[test]
fn test_string_to_string() {
    let mut cache = LruCache::new(2);
    cache.put("a".to_string(), "1".to_string());
    cache.put("b".to_string(), "2".to_string());

    assert_eq!(cache.get(&"a".to_string()), Some(&"1".to_string()));
}

#[test]
fn test_generic_value() {
    let mut cache = LruCache::new(2);
    cache.put("age".to_string(), 42);

    assert_eq!(cache.get(&"age".to_string()), Some(&42));
}

#[test]
fn test_generic_key() {
    let mut cache = LruCache::new(2);
    cache.put(1, "one");
    cache.put(2, "two");

    assert_eq!(cache.get(&1), Some(&"one"));
}

#[test]
fn test_eviction() {
    let mut cache = LruCache::new(2);
    cache.put(1, "a");
    cache.put(2, "b");
    cache.put(3, "c");

    assert_eq!(cache.get(&1), None);
    assert_eq!(cache.get(&2), Some(&"b"));
}

#[test]
fn test_trait_usage() {
    let mut cache = LruCache::new(2);
    cache.insert("x".to_string(), 10);

    assert_eq!(cache.retrieve(&"x".to_string()), Some(&10));
    assert_eq!(cache.size(), 1);
}

#[test]
fn test_basic_usage() {
    let mut cache = LruCache::new(3);
    cache.put("a".to_string(), "1".to_string());
    cache.put("b".to_string(), "2".to_string());

    assert_eq!(cache.get(&"a".to_string()), Some(&"1".to_string()));
}

#[test]
fn test_generic_types() {
    let mut cache = LruCache::new(2);
    cache.put(1, "one");
    cache.put(2, "two");

    assert_eq!(cache.get(&1), Some(&"one"));
}

#[test]
fn test_with_trait() {
    let mut cache = LruCache::new(2);
    CacheOps::insert(&mut cache, "x".to_string(), 10);

    assert_eq!(CacheOps::retrieve(&mut cache, &"x".to_string()), Some(&10));
}

#[test]
fn size_never_exceeds_capacity_and_reaches_it() {
    let mut cache: LruCache<u64, u64> = LruCache::new(3);
    for i in 0..10u64 {
        cache.put(i % 5, i);
        assert!(cache.len() <= 3);
        if i >= 2 {
            assert_eq!(cache.len(), 3);
        }
    }
}

#[test]
fn first_inserted_is_evicted() {
    let mut cache: LruCache<u32, u32> = LruCache::new(3);
    for k in 1..=4u32 {
        assert_eq!(cache.put(k, k * 10), None);
    }
    assert_eq!(cache.get(&1), None);
    assert_eq!(cache.get(&2), Some(&20));
    assert_eq!(cache.get(&3), Some(&30));
    assert_eq!(cache.get(&4), Some(&40));
}

#[test]
fn get_refreshes_recency() {
    let mut cache = LruCache::new(2);
    cache.put("A".to_string(), 1);
    cache.put("B".to_string(), 2);
    assert_eq!(cache.get(&"A".to_string()), Some(&1));
    cache.put("C".to_string(), 3);
    assert_eq!(cache.get(&"A".to_string()), Some(&1));
    assert_eq!(cache.get(&"B".to_string()), None);
    assert_eq!(cache.get(&"C".to_string()), Some(&3));
}

#[test]
fn update_in_place_never_evicts() {
    let mut cache = LruCache::new(1);
    assert_eq!(cache.put("A".to_string(), 1), None);
    assert_eq!(cache.put("A".to_string(), 2), Some(1));
    assert_eq!(cache.len(), 1);
    assert_eq!(cache.get(&"A".to_string()), Some(&2));
}

#[test]
fn update_refreshes_recency() {
    let mut cache = LruCache::new(2);
    cache.put(1, "a");
    cache.put(2, "b");
    assert_eq!(cache.put(1, "z"), Some("a"));
    cache.put(3, "c");
    assert_eq!(cache.get(&2), None);
    assert_eq!(cache.get(&1), Some(&"z"));
}

#[test]
fn zero_capacity_stores_nothing() {
    let mut cache = LruCache::new(0);
    assert_eq!(cache.put("A".to_string(), 1), None);
    assert_eq!(cache.get(&"A".to_string()), None);
    assert_eq!(cache.len(), 0);
    assert!(cache.is_empty());
}

#[test]
fn missing_key_leaves_order_alone() {
    let mut cache = LruCache::new(2);
    cache.put(1i64, 1);
    cache.put(2i64, 2);
    assert_eq!(cache.get(&9), None);
    cache.put(3i64, 3);
    assert_eq!(cache.get(&1), None);
    assert_eq!(cache.get(&2), Some(&2));
}

#[test]
fn entries_in_recency_order() {
    let mut cache: LruCache<usize, usize> = LruCache::new(3);
    cache.put(1, 10);
    cache.put(2, 20);
    cache.put(3, 30);
    cache.get(&1);
    assert_eq!(cache.entry(0), (&2, &20));
    assert_eq!(cache.entry(1), (&3, &30));
    assert_eq!(cache.entry(2), (&1, &10));
    assert_eq!(cache.capacity(), 3);
    assert!(!cache.is_empty());
}

#[test]
fn trait_and_direct_calls_agree() {
    let mut a = LruCache::new(2);
    let mut b = LruCache::new(2);
    let keys = [1, 2, 1, 3, 2, 4, 1];
    for (i, k) in keys.iter().enumerate() {
        assert_eq!(a.put(*k, i), CacheOps::insert(&mut b, *k, i));
        assert_eq!(a.get(&(k + 1)).copied(), CacheOps::retrieve(&mut b, &(k + 1)).copied());
        assert_eq!(a.len(), CacheOps::size(&b));
    }
}
