use std::sync::atomic::{AtomicUsize, Ordering};
use std::sync::Arc;
use threadsafe_cache::cache::Cache;

#[test]
fn fresh_cache_misses_then_hits_after_put() {
    let cache: Cache<i32, String> = Cache::new();
    assert_eq!(cache.get(&7), None);
    assert!(!cache.contains_key(&7));
    cache.put(7, "seven".to_string());
    assert_eq!(cache.get(&7), Some("seven".to_string()));
    assert!(cache.contains_key(&7));
    assert_eq!(cache.len(), 1);
    assert!(!cache.is_empty());
}

#[test]
fn second_put_overwrites_first() {
    let cache: Cache<u64, u64> = Cache::new();
    cache.put(1, 10);
    cache.put(1, 20);
    assert_eq!(cache.get(&1), Some(20));
    assert_eq!(cache.len(), 1);
}

#[test]
fn remove_returns_value_once() {
    let cache: Cache<u64, String> = Cache::new();
    cache.put(3, "three".to_string());
    assert_eq!(cache.remove(&3), Some("three".to_string()));
    assert_eq!(cache.get(&3), None);
    assert_eq!(cache.remove(&3), None);
    assert_eq!(cache.len(), 0);
}

#[test]
fn clear_empties_whatever_was_there() {
    let cache: Cache<u32, u32> = Cache::with_capacity(4);
    assert!(cache.is_empty());
    cache.clear();
    assert!(cache.is_empty());
    for k in 0..50u32 {
        cache.put(k, k + 1);
    }
    assert_eq!(cache.len(), 50);
    cache.clear();
    assert_eq!(cache.len(), 0);
    assert!(cache.is_empty());
    assert_eq!(cache.get(&0), None);
}

#[test]
fn capacity_hint_is_no_bound() {
    let cache: Cache<u8, u8> = Cache::with_capacity(0);
    assert_eq!(cache.len(), 0);
    cache.put(1, 1);
    cache.put(2, 2);
    cache.put(3, 3);
    assert_eq!(cache.len(), 3);
}

#[test]
fn get_or_load_calls_loader_only_on_a_miss() {
    let cache: Cache<i32, i32> = Cache::new();
    let calls = AtomicUsize::new(0);
    let first = cache.get_or_load(5, |k| {
        calls.fetch_add(1, Ordering::SeqCst);
        *k * 10
    });
    assert_eq!(first, 50);
    assert_eq!(cache.get(&5), Some(50));
    let second = cache.get_or_load(5, |k| {
        calls.fetch_add(1, Ordering::SeqCst);
        *k * 1000
    });
    assert_eq!(second, 50);
    assert_eq!(calls.load(Ordering::SeqCst), 1);
    assert_eq!(cache.len(), 1);
}

#[test]
fn get_or_load_returns_stored_value_not_loader_value() {
    let cache: Cache<i32, String> = Cache::new();
    cache.put(1, "kept".to_string());
    let v = cache.get_or_load(1, |_| "fresh".to_string());
    assert_eq!(v, "kept");
    assert_eq!(cache.get(&1), Some("kept".to_string()));
}

#[test]
fn get_or_load_after_remove_loads_again() {
    let cache: Cache<i32, i32> = Cache::new();
    assert_eq!(cache.get_or_load(2, |k| *k + 1), 3);
    assert_eq!(cache.remove(&2), Some(3));
    assert_eq!(cache.get_or_load(2, |k| *k + 100), 102);
    assert_eq!(cache.get(&2), Some(102));
}

#[test]
fn repeated_loads_of_one_key_compute_once() {
    let cache: Arc<Cache<u32, u64>> = Arc::new(Cache::new());
    let calls = Arc::new(AtomicUsize::new(0));
    let mut seen = Vec::new();
    for _ in 0..16 {
        let cache = Arc::clone(&cache);
        let calls = Arc::clone(&calls);
        seen.push(cache.get_or_load(9, move |_| {
            calls.fetch_add(1, Ordering::SeqCst);
            4242
        }));
    }
    assert_eq!(seen, vec![4242u64; 16]);
    assert_eq!(calls.load(Ordering::SeqCst), 1);
    assert_eq!(cache.len(), 1);
    assert_eq!(cache.get(&9), Some(4242));
}

#[test]
fn puts_on_distinct_keys_all_land() {
    let cache: Arc<Cache<usize, usize>> = Arc::new(Cache::new());
    for i in (0..32usize).rev() {
        let handle = Arc::clone(&cache);
        handle.put(i, i * 7);
    }
    assert_eq!(cache.len(), 32);
    for i in 0..32usize {
        assert_eq!(cache.get(&i), Some(i * 7));
    }
}

#[test]
fn ten_callers_over_three_keys() {
    let cache: Arc<Cache<i32, i32>> = Arc::new(Cache::new());
    for i in 0..10 {
        let handle = Arc::clone(&cache);
        let key = i % 3;
        assert_eq!(handle.get_or_load(key, |k| *k * 10), key * 10);
    }
    assert_eq!(cache.len(), 3);
    assert_eq!(cache.get(&0), Some(0));
    assert_eq!(cache.get(&1), Some(10));
    assert_eq!(cache.get(&2), Some(20));
    assert_eq!(cache.get(&3), None);
}

#[test]
fn hundred_callers_over_ten_keys() {
    let cache: Arc<Cache<i32, String>> = Arc::new(Cache::with_capacity(16));
    let loads = AtomicUsize::new(0);
    for i in 0..100 {
        let handle = Arc::clone(&cache);
        let key = i % 10;
        let value = handle.get_or_load(key, |k| {
            loads.fetch_add(1, Ordering::SeqCst);
            format!("computed_value_{}", *k * 100)
        });
        assert_eq!(value, format!("computed_value_{}", key * 100));
        if i % 3 == 0 {
            assert_eq!(handle.get(&key), Some(value));
        }
    }
    assert_eq!(loads.load(Ordering::SeqCst), 10);
    assert_eq!(cache.len(), 10);
    assert!(!cache.is_empty());
    for key in 0..10 {
        assert_eq!(cache.get(&key), Some(format!("computed_value_{}", key * 100)));
    }
    assert_eq!(cache.get(&3), Some("computed_value_300".to_string()));
}

#[test]
fn callers_in_reverse_order_leave_the_same_contents() {
    let cache: Cache<i32, String> = Cache::with_capacity(16);
    for i in (0..100).rev() {
        let key = i % 10;
        cache.get_or_load(key, |k| format!("computed_value_{}", *k * 100));
    }
    assert_eq!(cache.len(), 10);
    for key in 0..10 {
        assert_eq!(cache.get(&key), Some(format!("computed_value_{}", key * 100)));
    }
}

#[test]
fn string_keys_are_looked_up_by_content() {
    let cache: Cache<String, usize> = Cache::new();
    cache.put("alpha".to_string(), 1);
    let key = format!("{}{}", "al", "pha");
    assert_eq!(cache.get(&key), Some(1));
    assert!(cache.contains_key(&key));
    assert_eq!(cache.get_or_load(key.clone(), |k| k.len()), 1);
    assert_eq!(cache.get_or_load("beta".to_string(), |k| k.len()), 4);
    assert_eq!(cache.len(), 2);
    assert_eq!(cache.remove(&key), Some(1));
    assert_eq!(cache.get_or_load(key, |k| k.len()), 5);
}

#[test]
fn is_empty_agrees_with_len() {
    let cache: Cache<u8, u8> = Cache::new();
    assert_eq!(cache.is_empty(), cache.len() == 0);
    cache.put(1, 1);
    assert_eq!(cache.is_empty(), cache.len() == 0);
    assert_eq!(cache.remove(&1), Some(1));
    assert_eq!(cache.is_empty(), cache.len() == 0);
    assert!(cache.is_empty());
}

#[test]
fn other_keys_stay_when_one_changes() {
    let cache: Cache<i32, i32> = Cache::new();
    cache.put(1, 10);
    cache.put(2, 20);
    cache.put(1, 11);
    assert_eq!(cache.get(&2), Some(20));
    assert_eq!(cache.remove(&1), Some(11));
    assert_eq!(cache.get(&2), Some(20));
    assert_eq!(cache.get_or_load(3, |k| *k * 10), 30);
    assert_eq!(cache.get(&2), Some(20));
    assert_eq!(cache.len(), 2);
}
