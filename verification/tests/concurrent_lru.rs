use cache_kit::cache::concurrent_lru::ConcurrentLru;

#[test]
fn concurrent_new_is_empty() {
    let c: ConcurrentLru<u64, String> = ConcurrentLru::new(2);
    assert_eq!(c.capacity(), 2);
    assert_eq!(c.len(), 0);
    assert!(c.is_empty());
}

#[test]
fn concurrent_put_get_clones_value() {
    let c: ConcurrentLru<u64, String> = ConcurrentLru::new(2);
    c.put(1, "a".to_string());
    assert_eq!(c.get(&1), Some("a".to_string()));
    assert_eq!(c.get(&2), None);
    assert_eq!(c.len(), 1);
    assert!(!c.is_empty());
}

#[test]
fn concurrent_eviction_follows_recency() {
    let c: ConcurrentLru<u64, u64> = ConcurrentLru::new(2);
    c.put(1, 1);
    c.put(2, 2);
    assert_eq!(c.get(&1), Some(1));
    c.put(3, 3);
    assert_eq!(c.get(&2), None);
    assert_eq!(c.get(&1), Some(1));
    assert_eq!(c.get(&3), Some(3));
    assert_eq!(c.len(), 2);
}
