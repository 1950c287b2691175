use cache_kit::cache::lru::Lru;

#[test]
fn new_cache_is_empty() {
    let lru: Lru<u64, u64> = Lru::new(3);
    assert_eq!(lru.capacity(), 3);
    assert_eq!(lru.len(), 0);
    assert!(lru.is_empty());
}

#[test]
fn get_after_put_returns_value() {
    let mut lru: Lru<u64, String> = Lru::new(2);
    lru.put(1, "one".to_string());
    assert_eq!(lru.get(&1), Some(&"one".to_string()));
    assert_eq!(lru.len(), 1);
    assert!(!lru.is_empty());
}

#[test]
fn get_of_missing_key_is_none() {
    let mut lru: Lru<u64, u64> = Lru::new(2);
    lru.put(1, 10);
    assert_eq!(lru.get(&2), None);
    assert_eq!(lru.len(), 1);
}

#[test]
fn put_existing_key_replaces_value_without_growing() {
    let mut lru: Lru<u64, u64> = Lru::new(2);
    lru.put(1, 10);
    lru.put(2, 20);
    lru.put(1, 11);
    assert_eq!(lru.len(), 2);
    assert_eq!(lru.get(&1), Some(&11));
    assert_eq!(lru.get(&2), Some(&20));
}

#[test]
fn full_cache_evicts_least_recently_used() {
    let mut lru: Lru<u64, u64> = Lru::new(2);
    lru.put(1, 10);
    lru.put(2, 20);
    lru.put(3, 30);
    assert_eq!(lru.len(), 2);
    assert_eq!(lru.get(&1), None);
    assert_eq!(lru.get(&2), Some(&20));
    assert_eq!(lru.get(&3), Some(&30));
}

#[test]
fn get_refreshes_recency() {
    let mut lru: Lru<u64, u64> = Lru::new(2);
    lru.put(1, 10);
    lru.put(2, 20);
    assert_eq!(lru.get(&1), Some(&10));
    lru.put(3, 30);
    assert_eq!(lru.get(&2), None);
    assert_eq!(lru.get(&1), Some(&10));
    assert_eq!(lru.get(&3), Some(&30));
}

#[test]
fn put_of_existing_key_refreshes_recency() {
    let mut lru: Lru<u64, u64> = Lru::new(2);
    lru.put(1, 10);
    lru.put(2, 20);
    lru.put(1, 15);
    lru.put(3, 30);
    assert_eq!(lru.get(&2), None);
    assert_eq!(lru.get(&1), Some(&15));
}

#[test]
fn capacity_one_keeps_only_latest() {
    let mut lru: Lru<u64, u64> = Lru::new(1);
    lru.put(1, 10);
    lru.put(2, 20);
    assert_eq!(lru.len(), 1);
    assert_eq!(lru.get(&1), None);
    assert_eq!(lru.get(&2), Some(&20));
}

#[test]
fn length_never_exceeds_capacity() {
    let mut lru: Lru<u64, u64> = Lru::new(4);
    for i in 0..100u64 {
        lru.put(i % 7, i);
        assert!(lru.len() <= lru.capacity());
    }
    assert_eq!(lru.len(), 4);
}

#[test]
fn many_evictions_keep_the_latest_keys() {
    let mut lru: Lru<u64, u64> = Lru::new(3);
    for i in 0..10u64 {
        lru.put(i, i * 100);
    }
    assert_eq!(lru.get(&6), None);
    assert_eq!(lru.get(&7), Some(&700));
    assert_eq!(lru.get(&8), Some(&800));
    assert_eq!(lru.get(&9), Some(&900));
}

#[test]
fn run_of_calls_keeps_capacity_and_counts_distinct_puts() {
    let mut lru: Lru<u64, u64> = Lru::new(2);
    lru.put(1, 10);
    lru.put(1, 11);
    assert_eq!(lru.get(&9), None);
    assert_eq!(lru.len(), 1);
    lru.put(2, 20);
    lru.put(3, 30);
    assert_eq!(lru.get(&1), None);
    assert_eq!(lru.get(&3), Some(&30));
    assert_eq!(lru.len(), 2);
    assert_eq!(lru.capacity(), 2);
    assert!(!lru.is_empty());
}
