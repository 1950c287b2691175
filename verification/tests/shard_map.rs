use std::collections::HashMap;

use cache_kit::concurrent::shard_map::{
    append_keys, collect_found, default_hash, insert_if_absent, lookup_cloned, ShardMap,
};

#[test]
fn setnx_stores_then_returns_existing() {
    let m = ShardMap::new(4, |k: &u64| *k);
    assert_eq!(m.setnx(1, "a".to_string()), "a".to_string());
    assert_eq!(m.setnx(1, "b".to_string()), "a".to_string());
    assert_eq!(m.get(&1), Some("a".to_string()));
    assert_eq!(m.len(), 1);
    assert!(!m.is_empty());
}

#[test]
fn shard_get_of_missing_key_is_none() {
    let m: ShardMap<u64, u64, _> = ShardMap::new(3, |k: &u64| *k * 7);
    assert_eq!(m.get(&5), None);
    assert!(m.is_empty());
    assert_eq!(m.len(), 0);
}

#[test]
fn keys_lists_each_key_once() {
    let m = ShardMap::new(3, |k: &u64| *k);
    for k in 0..10u64 {
        m.setnx(k, k * 2);
        m.setnx(k, k * 3);
    }
    let mut ks = m.keys();
    ks.sort();
    assert_eq!(ks, (0..10u64).collect::<Vec<_>>());
    assert_eq!(m.len(), 10);
}

#[test]
fn get_many_returns_only_present_keys() {
    let m = ShardMap::new(2, |k: &u64| *k);
    m.setnx(1, 10u64);
    m.setnx(2, 20u64);
    let wanted = [&1u64, &3u64, &2u64];
    let res = m.get_many(&wanted);
    assert_eq!(res.len(), 2);
    assert_eq!(res.get(&1), Some(&10));
    assert_eq!(res.get(&2), Some(&20));
    assert_eq!(res.get(&3), None);
}

#[test]
fn with_default_hash_behaves_as_map() {
    let m: ShardMap<u64, u64> = ShardMap::with_default_hash(8);
    for k in 0..50u64 {
        assert_eq!(m.setnx(k, k + 1), k + 1);
    }
    for k in 0..50u64 {
        assert_eq!(m.get(&k), Some(k + 1));
    }
    assert_eq!(m.keys().len(), 50);
    assert_eq!(m.len(), 50);
}

#[test]
fn single_shard_map() {
    let m = ShardMap::new(1, |_k: &u64| 12345);
    m.setnx(7, 70u64);
    m.setnx(8, 80u64);
    assert_eq!(m.get(&7), Some(70));
    assert_eq!(m.get(&8), Some(80));
}

#[test]
fn default_hash_is_deterministic_and_spreads() {
    assert_eq!(default_hash(&42u64), default_hash(&42u64));
    assert_eq!(default_hash("key"), default_hash("key"));
    assert_ne!(default_hash(&1u64), default_hash(&2u64));
}

#[test]
fn lookup_cloned_finds_value() {
    let mut shard: HashMap<u64, String> = HashMap::new();
    shard.insert(3, "c".to_string());
    assert_eq!(lookup_cloned(&shard, &3), Some("c".to_string()));
    assert_eq!(lookup_cloned(&shard, &4), None);
}

#[test]
fn insert_if_absent_keeps_first_value() {
    let mut shard: HashMap<u64, u64> = HashMap::new();
    assert_eq!(insert_if_absent(&mut shard, 1, 10), (10, true));
    assert_eq!(insert_if_absent(&mut shard, 1, 11), (10, false));
    assert_eq!(shard.get(&1), Some(&10));
    assert_eq!(shard.len(), 1);
}

#[test]
fn append_keys_appends_each_key_once() {
    let mut shard: HashMap<u64, u64> = HashMap::new();
    shard.insert(1, 0);
    shard.insert(2, 0);
    let mut out = vec![99u64];
    append_keys(&shard, &mut out);
    assert_eq!(out.len(), 3);
    assert_eq!(out[0], 99);
    let mut tail = out[1..].to_vec();
    tail.sort();
    assert_eq!(tail, vec![1, 2]);
}

#[test]
fn get_many_counts_repeated_key_once() {
    let m: ShardMap<u64, u64> = ShardMap::with_default_hash(2);
    m.setnx(1, 10);
    m.setnx(2, 20);
    let res = m.get_many(&[&1, &3, &1]);
    let mut expected = HashMap::new();
    expected.insert(1u64, 10u64);
    assert_eq!(res, expected);
}

#[test]
fn zero_shards_give_empty_answers() {
    let m: ShardMap<u64, u64, _> = ShardMap::new(0, |k: &u64| *k);
    assert!(m.keys().is_empty());
    assert!(m.get_many(&[]).is_empty());
    assert_eq!(m.len(), 0);
    assert!(m.is_empty());
}

#[test]
fn collect_found_keeps_found_keys_in_order() {
    let keys = [&1u64, &2u64, &1u64];
    let res = collect_found(&keys, vec![Some(5u64), None, Some(7u64)]);
    assert_eq!(res.len(), 1);
    assert_eq!(res.get(&1), Some(&7));
    assert_eq!(res.get(&2), None);
}
