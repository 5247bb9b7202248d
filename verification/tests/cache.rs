use mac_autocomplete_engine::engine::cache::Cache;

#[test]
fn test_cache_basic() {
    let mut cache = Cache::new(2);

    cache.put("key1".to_string(), vec!["value1".to_string()]);
    assert_eq!(cache.get("key1"), Some(vec!["value1".to_string()]));

    cache.put("key2".to_string(), vec!["value2".to_string()]);
    assert_eq!(cache.len(), 2);

    // This should evict key1
    cache.put("key3".to_string(), vec!["value3".to_string()]);
    assert_eq!(cache.len(), 2);
    assert_eq!(cache.get("key1"), None);
}

#[test]
fn get_refreshes_recency() {
    let mut cache = Cache::new(2);
    cache.put("a".to_string(), vec!["1".to_string()]);
    cache.put("b".to_string(), vec!["2".to_string()]);
    assert_eq!(cache.get("a"), Some(vec!["1".to_string()]));
    cache.put("c".to_string(), vec!["3".to_string()]);
    assert_eq!(cache.get("b"), None);
    assert_eq!(cache.get("a"), Some(vec!["1".to_string()]));
    assert_eq!(cache.get("c"), Some(vec!["3".to_string()]));
}

#[test]
fn put_replaces_without_eviction() {
    let mut cache = Cache::new(2);
    cache.put("a".to_string(), vec!["1".to_string()]);
    cache.put("b".to_string(), vec!["2".to_string()]);
    cache.put("a".to_string(), vec!["x".to_string(), "y".to_string()]);
    assert_eq!(cache.len(), 2);
    assert_eq!(cache.get("a"), Some(vec!["x".to_string(), "y".to_string()]));
    assert_eq!(cache.get("b"), Some(vec!["2".to_string()]));
}

#[test]
fn zero_capacity_means_default_and_clear_empties() {
    let mut cache = Cache::new(0);
    assert!(cache.is_empty());
    for i in 0..20 {
        cache.put(format!("k{}", i), vec![]);
    }
    assert_eq!(cache.len(), 20);
    assert!(!cache.is_empty());
    cache.clear();
    assert_eq!(cache.len(), 0);
    assert!(cache.is_empty());
    assert_eq!(cache.get("k3"), None);
}
