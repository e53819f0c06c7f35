use lru_cache::persistent::PersistentLruCache;
use lru_cache::snapshot::{decimal_string, parse_usize_str};

fn reopen(cache: &PersistentLruCache, capacity: usize) -> PersistentLruCache {
    let lines = cache.snapshot_lines();
    PersistentLruCache::new_persistent(capacity, "cache.txt", Some(&lines))
}

#[test]
fn test_persistent() {
    let mut cache = PersistentLruCache::new_persistent(2, "test_cache_persist.txt", None);
    cache.put("key1".into(), "val1".into());
    let mut cache2 = reopen(&cache, 2);
    assert_eq!(cache2.get("key1"), Some(&"val1".to_string()));
}

#[test]
fn test_persistence() {
    let mut cache = PersistentLruCache::new_persistent(2, "test_integration.txt", None);
    cache.put("foo".into(), "bar".into());
    let mut cache2 = reopen(&cache, 2);
    assert_eq!(cache2.get("foo"), Some(&"bar".to_string()));
}

#[test]
fn snapshot_lines_format() {
    let mut cache = PersistentLruCache::new(12);
    cache.put("k1".into(), "v1".into());
    cache.put("k2".into(), "a:b".into());
    cache.get("k1");
    assert_eq!(cache.snapshot_lines(), vec!["12".to_string(), "k2:a:b".to_string(), "k1:v1".to_string()]);
}

#[test]
fn round_trip_keeps_recency_order() {
    let mut cache = PersistentLruCache::new_persistent(2, "c.txt", None);
    cache.put("k1".into(), "v1".into());
    cache.put("k2".into(), "v2".into());
    cache.put("k1".into(), "v1b".into());
    let mut back = reopen(&cache, 7);
    assert_eq!(back.capacity(), 2);
    assert_eq!(back.len(), 2);
    back.put("k3".into(), "v3".into());
    assert_eq!(back.get("k2"), None);
    assert_eq!(back.get("k1"), Some(&"v1b".to_string()));
    assert_eq!(back.file_path(), Some(&"cache.txt".to_string()));
}

#[test]
fn load_splits_at_first_colon_and_skips_bad_lines() {
    let lines = vec!["3".to_string(), "a:x:y".to_string(), "no separator".to_string(), ":empty".to_string()];
    let mut cache = PersistentLruCache::new_persistent(1, "p", Some(&lines));
    assert_eq!(cache.capacity(), 3);
    assert_eq!(cache.len(), 2);
    assert_eq!(cache.get("a"), Some(&"x:y".to_string()));
    assert_eq!(cache.get(""), Some(&"empty".to_string()));
}

#[test]
fn malformed_capacity_falls_back() {
    let lines = vec!["many".to_string(), "a:1".to_string()];
    let cache = PersistentLruCache::new_persistent(4, "p", Some(&lines));
    assert_eq!(cache.capacity(), 4);
    assert_eq!(cache.len(), 1);
}

#[test]
fn empty_snapshot_keeps_given_capacity() {
    let lines: Vec<String> = Vec::new();
    let cache = PersistentLruCache::new_persistent(5, "p", Some(&lines));
    assert_eq!(cache.capacity(), 5);
    assert!(cache.is_empty());
}

#[test]
fn plain_cache_has_no_location() {
    let mut cache = PersistentLruCache::new(1);
    assert_eq!(cache.file_path(), None);
    assert_eq!(cache.put("a".into(), "1".into()), None);
    assert_eq!(cache.put("a".into(), "2".into()), Some("1".to_string()));
    assert_eq!(cache.put("b".into(), "3".into()), None);
    assert_eq!(cache.get("a"), None);
}

#[test]
fn decimal_notation() {
    assert_eq!(decimal_string(0), "0");
    assert_eq!(decimal_string(7), "7");
    assert_eq!(decimal_string(1205), "1205");
    assert_eq!(decimal_string(usize::MAX), usize::MAX.to_string());
}

#[test]
fn unsigned_parse() {
    assert_eq!(parse_usize_str("42"), Some(42));
    assert_eq!(parse_usize_str("+42"), Some(42));
    assert_eq!(parse_usize_str("007"), Some(7));
    assert_eq!(parse_usize_str(""), None);
    assert_eq!(parse_usize_str("+"), None);
    assert_eq!(parse_usize_str("-1"), None);
    assert_eq!(parse_usize_str("4a"), None);
    assert_eq!(parse_usize_str(" 4"), None);
    assert_eq!(parse_usize_str(&usize::MAX.to_string()), Some(usize::MAX));
    assert_eq!(parse_usize_str("99999999999999999999999"), None);
}

#[test]
fn load_keeps_every_pair_past_capacity() {
    let lines = vec!["".to_string(), "a:1".to_string(), "b:2".to_string()];
    let mut cache = PersistentLruCache::new_persistent(1, "p", Some(&lines));
    assert_eq!(cache.capacity(), 1);
    assert_eq!(cache.len(), 2);
    assert_eq!(cache.snapshot_lines(), vec!["1".to_string(), "a:1".to_string(), "b:2".to_string()]);
    assert_eq!(cache.put("c".into(), "3".into()), None);
    assert_eq!(cache.len(), 2);
    assert_eq!(cache.get("a"), None);
    assert_eq!(cache.get("b"), Some(&"2".to_string()));
    assert_eq!(cache.get("c"), Some(&"3".to_string()));
}

#[test]
fn load_repeated_key_keeps_first_place() {
    let lines = vec!["2".to_string(), "a:1".to_string(), "b:2".to_string(), "a:3".to_string()];
    let mut cache = PersistentLruCache::new_persistent(9, "p", Some(&lines));
    assert_eq!(cache.len(), 2);
    assert_eq!(cache.snapshot_lines(), vec!["2".to_string(), "a:3".to_string(), "b:2".to_string()]);
    cache.put("c".into(), "4".into());
    assert_eq!(cache.get("a"), None);
    assert_eq!(cache.get("b"), Some(&"2".to_string()));
}
