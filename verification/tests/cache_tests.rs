use calculation_engine::cache::L1Cache;

#[test]
fn get_after_insert_returns_value() {
    let mut cache = L1Cache::new(100, 60);
    cache.insert("alpha".to_string(), b"first".to_vec());
    assert_eq!(cache.get("alpha"), Some(b"first".to_vec()));

    // Overwriting replaces the stored value.
    cache.insert("alpha".to_string(), b"second".to_vec());
    assert_eq!(cache.get("alpha"), Some(b"second".to_vec()));

    assert_eq!(cache.get("beta"), None);
}

#[test]
fn fresh_cache_reports_zero_stats() {
    let cache = L1Cache::new(100, 60);
    assert_eq!(cache.stats(), (0, 0));
}

#[test]
fn remove_discards_the_entry() {
    let mut cache = L1Cache::new(100, 60);
    cache.insert("alpha".to_string(), b"v".to_vec());
    cache.remove("alpha");
    assert_eq!(cache.get("alpha"), None);
}

#[test]
fn cache_capacity_bound_holds_after_housekeeping() {
    // Capacity 1000, TTL 60 s: ten thousand distinct keys cannot all stay,
    // and the most recently inserted key is still retrievable.
    let mut cache = L1Cache::new(1000, 60);
    for i in 0..10_000u32 {
        let key = format!("key_{}", i);
        let value = format!("value_{}", i).into_bytes();
        cache.insert(key, value);
    }
    assert_eq!(cache.get("key_9999"), Some(b"value_9999".to_vec()));
    cache.run_pending_tasks();
    let (count, _weighted) = cache.stats();
    assert!(count <= 1000, "entry count {} stays within capacity", count);
}

#[test]
fn ttl_expiry_makes_entries_absent() {
    // TTL 2 s with idle timeout 1 s: after the TTL passes without access,
    // the entry is gone.
    let mut cache = L1Cache::new(16, 2);
    cache.insert("alpha".to_string(), b"v".to_vec());
    assert_eq!(cache.get("alpha"), Some(b"v".to_vec()));
    let start = std::time::Instant::now();
    while start.elapsed() < std::time::Duration::from_millis(2200) {
        std::hint::spin_loop();
    }
    assert_eq!(cache.get("alpha"), None);
}
