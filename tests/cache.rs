use gallery_cache::cache::{LoadError, Lookup, WeightedCache};
use gallery_cache::model::CacheConfig;
use std::cell::Cell;

fn config(max: usize, ttl: u64, tti: u64) -> CacheConfig {
    CacheConfig { max_capacity: max, initial_capacity: max, time_to_live: ttl, time_to_idle: tti }
}

fn key(s: &str) -> String {
    s.to_string()
}

#[test]
fn capacity_evicts_oldest_entries() {
    let mut c = WeightedCache::new(config(10, 1000, 1000));
    c.insert(key("a"), vec![1; 4], 1);
    c.insert(key("b"), vec![2; 4], 2);
    assert_eq!(c.weight(), 8);
    c.insert(key("c"), vec![3; 4], 3);
    assert!(c.weight() <= 10);
    assert_eq!(c.weight(), 8);
    assert_eq!(c.get(&key("a"), 4), None);
    assert_eq!(c.get(&key("b"), 4), Some(vec![2; 4]));
    assert_eq!(c.get(&key("c"), 4), Some(vec![3; 4]));
}

#[test]
fn capacity_never_exceeded_over_many_inserts() {
    let mut c = WeightedCache::new(config(100, 10_000, 10_000));
    for i in 0..50u64 {
        c.insert(format!("k{}", i), vec![0; (i as usize % 7) * 5 + 1], i);
        assert!(c.weight() <= 100);
    }
}

#[test]
fn eviction_prefers_least_recently_read() {
    let mut c = WeightedCache::new(config(10, 1000, 1000));
    c.insert(key("a"), vec![1; 4], 1);
    c.insert(key("b"), vec![2; 4], 2);
    assert_eq!(c.get(&key("a"), 3), Some(vec![1; 4]));
    c.insert(key("c"), vec![3; 4], 4);
    assert_eq!(c.get(&key("b"), 5), None);
    assert_eq!(c.get(&key("a"), 5), Some(vec![1; 4]));
}

#[test]
fn oversized_entry_is_kept_alone() {
    let mut c = WeightedCache::new(config(10, 1000, 1000));
    c.insert(key("a"), vec![1; 4], 1);
    c.insert(key("big"), vec![9; 25], 2);
    assert_eq!(c.len(), 1);
    assert_eq!(c.weight(), 25);
    assert_eq!(c.get(&key("big"), 3), Some(vec![9; 25]));
    c.insert(key("b"), vec![2; 3], 4);
    assert_eq!(c.len(), 1);
    assert_eq!(c.weight(), 3);
}

#[test]
fn reinsert_replaces_entry() {
    let mut c = WeightedCache::new(config(100, 1000, 1000));
    c.insert(key("a"), vec![1; 4], 1);
    c.insert(key("a"), vec![2; 6], 2);
    assert_eq!(c.len(), 1);
    assert_eq!(c.weight(), 6);
    assert_eq!(c.get(&key("a"), 3), Some(vec![2; 6]));
}

#[test]
fn single_flight_one_leader() {
    let mut c = WeightedCache::new(config(100, 1000, 1000));
    let k = key("img.jpg");
    assert!(matches!(c.begin(&k, 1), Lookup::Lead));
    assert!(matches!(c.begin(&k, 2), Lookup::Join));
    assert!(matches!(c.begin(&k, 3), Lookup::Join));
    let other = key("other.jpg");
    assert!(matches!(c.begin(&other, 3), Lookup::Lead));
    let r = c.complete(&k, Ok(vec![7, 8, 9]), 4);
    assert_eq!(r, Ok(vec![7, 8, 9]));
    match c.begin(&k, 5) {
        Lookup::Hit(v) => assert_eq!(v, vec![7, 8, 9]),
        _ => panic!("expected a hit"),
    }
}

#[test]
fn single_flight_failure_releases_key() {
    let mut c = WeightedCache::new(config(100, 1000, 1000));
    let k = key("missing.jpg");
    assert!(matches!(c.begin(&k, 1), Lookup::Lead));
    assert!(matches!(c.begin(&k, 1), Lookup::Join));
    assert_eq!(c.complete(&k, Err(LoadError::NotFound), 2), Err(LoadError::NotFound));
    assert_eq!(c.len(), 0);
    assert!(matches!(c.begin(&k, 3), Lookup::Lead));
}

#[test]
fn fetch_loads_once_then_hits() {
    let mut c = WeightedCache::new(config(100, 1000, 1000));
    let calls = Cell::new(0u32);
    let loader = |_k: &String| {
        calls.set(calls.get() + 1);
        Ok(vec![1, 2, 3])
    };
    let k = key("a.jpg");
    assert_eq!(c.fetch(&k, 1, &loader), Ok(vec![1, 2, 3]));
    assert_eq!(c.fetch(&k, 2, &loader), Ok(vec![1, 2, 3]));
    assert_eq!(c.fetch(&k, 3, &loader), Ok(vec![1, 2, 3]));
    assert_eq!(calls.get(), 1);
}

#[test]
fn ttl_expiry_reloads() {
    let mut c = WeightedCache::new(config(100, 10, 1000));
    let k = key("a.jpg");
    c.insert(k.clone(), vec![1], 0);
    assert_eq!(c.fetch(&k, 5, |_k: &String| Ok(vec![2])), Ok(vec![1]));
    assert_eq!(c.fetch(&k, 10, |_k: &String| Ok(vec![2])), Ok(vec![2]));
    assert_eq!(c.get(&k, 11), Some(vec![2]));
}

#[test]
fn tti_refresh_keeps_entry_alive() {
    let mut c = WeightedCache::new(config(100, 1000, 5));
    let k = key("a.jpg");
    c.insert(k.clone(), vec![1], 0);
    assert_eq!(c.get(&k, 4), Some(vec![1]));
    assert_eq!(c.get(&k, 8), Some(vec![1]));
    assert_eq!(c.get(&k, 12), Some(vec![1]));
    assert_eq!(c.get(&k, 16), Some(vec![1]));
    assert_eq!(c.get(&k, 21), None);
    assert_eq!(c.len(), 0);
}

#[test]
fn failure_is_not_cached() {
    let mut c = WeightedCache::new(config(100, 1000, 1000));
    let calls = Cell::new(0u32);
    let loader = |_k: &String| {
        calls.set(calls.get() + 1);
        if calls.get() == 1 {
            Err(LoadError::IoError)
        } else {
            Ok(vec![4, 5])
        }
    };
    let k = key("a.jpg");
    assert_eq!(c.fetch(&k, 1, &loader), Err(LoadError::IoError));
    assert_eq!(c.len(), 0);
    assert_eq!(c.fetch(&k, 2, &loader), Ok(vec![4, 5]));
    assert_eq!(c.len(), 1);
    assert_eq!(c.get(&k, 3), Some(vec![4, 5]));
    assert_eq!(calls.get(), 2);
}

#[test]
fn not_found_is_propagated() {
    let mut c = WeightedCache::new(config(100, 1000, 1000));
    let k = key("nope.jpg");
    assert_eq!(c.fetch(&k, 1, |_k: &String| Err(LoadError::NotFound)), Err(LoadError::NotFound));
    assert_eq!(c.len(), 0);
}

#[test]
fn invalidate_is_idempotent() {
    let mut c = WeightedCache::new(config(100, 1000, 1000));
    let k = key("a");
    c.insert(k.clone(), vec![1, 2], 1);
    c.invalidate(&k);
    assert_eq!(c.len(), 0);
    assert_eq!(c.weight(), 0);
    c.invalidate(&k);
    assert_eq!(c.len(), 0);
}

#[test]
fn sweep_removes_expired_entries() {
    let mut c = WeightedCache::new(config(100, 10, 1000));
    c.insert(key("a"), vec![1], 0);
    c.insert(key("b"), vec![2, 2], 5);
    c.sweep(12);
    assert_eq!(c.len(), 1);
    assert_eq!(c.weight(), 2);
    assert_eq!(c.get(&key("b"), 12), Some(vec![2, 2]));
}

#[test]
fn expired_entries_leave_on_insert() {
    let mut c = WeightedCache::new(config(100, 10, 1000));
    c.insert(key("a"), vec![1; 50], 0);
    c.insert(key("b"), vec![2; 60], 20);
    assert_eq!(c.len(), 1);
    assert_eq!(c.weight(), 60);
}

#[test]
fn config_is_kept() {
    let c = WeightedCache::new(config(42, 7, 9));
    assert_eq!(c.config().max_capacity, 42);
    assert_eq!(c.config().time_to_live, 7);
    assert_eq!(c.config().time_to_idle, 9);
    assert_eq!(c.len(), 0);
}
