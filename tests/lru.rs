use mango::lru::LruCache;

#[test]
fn test_basic_get_set() {
    let mut cache = LruCache::new(1000, false);

    cache.set("key".to_string(), vec![1, 2, 3]);
    let result: Option<Vec<i32>> = cache.get("key");

    assert_eq!(result, Some(vec![1, 2, 3]));
}

#[test]
fn test_cache_miss() {
    let mut cache = LruCache::new(1000, false);
    let result: Option<Vec<i32>> = cache.get("nonexistent");

    assert_eq!(result, None);
}

#[test]
fn test_eviction_respects_access_order() {
    // Room for exactly two of the entries below.
    let mut cache = LruCache::new(60, false);

    cache.set("A".to_string(), vec![0u8; 20]);
    cache.set("B".to_string(), vec![0u8; 20]);

    // Reading A makes it more recently used than B.
    let _: Option<Vec<u8>> = cache.get("A");

    cache.set("C".to_string(), vec![0u8; 20]);

    let stats = cache.stats();
    assert!(stats.eviction_count > 0, "Should have evicted at least one entry");
    assert!(cache.get::<Vec<u8>>("A").is_some(), "A should survive (was recently accessed)");
    assert!(cache.get::<Vec<u8>>("B").is_none(), "B should be evicted (least recently accessed)");
    assert!(cache.get::<Vec<u8>>("C").is_some(), "C should exist (just inserted)");
}

#[test]
fn test_update_existing_key_size_accounting() {
    let mut cache = LruCache::new(200, false);

    cache.set("key".to_string(), vec![0u8; 40]);
    let size_after_insert = cache.stats().size_bytes;

    cache.set("key".to_string(), vec![0u8; 40]);
    let size_after_update = cache.stats().size_bytes;

    assert_eq!(size_after_insert, size_after_update, "Updating same key shouldn't double size");
}

#[test]
fn test_update_existing_key_different_size() {
    let mut cache = LruCache::new(200, false);

    cache.set("key".to_string(), vec![0u8; 40]);
    let size1 = cache.stats().size_bytes;

    cache.set("key".to_string(), vec![0u8; 80]);
    let size2 = cache.stats().size_bytes;

    assert!(size2 > size1, "Size should increase with larger value");
    assert_eq!(cache.stats().entry_count, 1, "Should still be one entry");
}

#[test]
fn test_oversized_value_does_not_evict_existing() {
    let mut cache = LruCache::new(100, false);

    cache.set("small".to_string(), vec![0u8; 30]);
    assert_eq!(cache.stats().entry_count, 1);

    cache.set("huge".to_string(), vec![0u8; 200]);

    assert!(
        cache.get::<Vec<u8>>("small").is_some(),
        "Oversized insert should not evict existing entries"
    );
    assert_eq!(cache.stats().entry_count, 1, "Should still have only the small entry");
}

#[test]
fn test_multiple_evictions_for_large_insert() {
    let mut cache = LruCache::new(100, false);

    for i in 0..5 {
        cache.set(format!("k{}", i), vec![0u8; 10]);
    }

    cache.set("big".to_string(), vec![0u8; 60]);

    let stats = cache.stats();
    assert!(stats.size_bytes <= 100, "Should not exceed limit");
    assert!(cache.get::<Vec<u8>>("big").is_some(), "Big item should exist");
    assert!(stats.eviction_count > 0, "Should have evicted some entries");
}

#[test]
fn test_clear_resets_size_tracking() {
    let mut cache = LruCache::new(1000, false);

    cache.set("a".to_string(), vec![0u8; 100]);
    cache.set("b".to_string(), vec![0u8; 100]);

    let hits_before = cache.stats().hit_count;

    cache.clear();

    let stats = cache.stats();
    assert_eq!(stats.size_bytes, 0, "Size should be zero after clear");
    assert_eq!(stats.entry_count, 0, "Entry count should be zero");
    assert_eq!(stats.hit_count, hits_before, "Hit count should persist");
}

#[test]
fn test_invalidate_updates_size() {
    let mut cache = LruCache::new(1000, false);

    cache.set("key".to_string(), vec![0u8; 100]);
    let size_before = cache.stats().size_bytes;

    cache.invalidate("key");
    let size_after = cache.stats().size_bytes;

    assert!(size_after < size_before, "Size should decrease after invalidation");
    assert_eq!(cache.stats().entry_count, 0);
}

#[test]
fn test_invalidate_nonexistent_key() {
    let mut cache = LruCache::new(1000, false);
    cache.set("exists".to_string(), vec![0u8; 50]);

    cache.invalidate("does_not_exist");

    assert_eq!(cache.stats().entry_count, 1, "Existing entry should remain");
}

#[test]
fn test_statistics_tracking() {
    let mut cache = LruCache::new(1000, false);

    cache.set("key".to_string(), "value".to_string());

    let _: Option<String> = cache.get("key");
    let _: Option<String> = cache.get("key");
    let _: Option<String> = cache.get("miss");

    let stats = cache.stats();
    assert_eq!(stats.hit_count, 2);
    assert_eq!(stats.miss_count, 1);
}

#[test]
fn test_size_limit_enforcement() {
    let mut cache = LruCache::new(100, false);

    cache.set("k1".to_string(), vec![0u8; 30]);
    cache.set("k2".to_string(), vec![0u8; 30]);
    cache.set("k3".to_string(), vec![0u8; 30]);

    let stats = cache.stats();
    assert!(stats.size_bytes <= 100, "Cache should not exceed size limit");
}

#[test]
fn test_eviction_counter() {
    let mut cache = LruCache::new(50, false);

    cache.set("k1".to_string(), vec![0u8; 30]);
    cache.set("k2".to_string(), vec![0u8; 30]);

    let stats = cache.stats();
    assert_eq!(stats.eviction_count, 1, "Should have one eviction");
}

#[test]
fn test_empty_string_key() {
    let mut cache = LruCache::new(1000, false);

    cache.set("".to_string(), vec![1, 2, 3]);
    let result: Option<Vec<i32>> = cache.get("");

    assert_eq!(result, Some(vec![1, 2, 3]), "Empty string key should work");
}

#[test]
fn test_entries_list() {
    let mut cache = LruCache::new(1000, false);

    cache.set("key1".to_string(), vec![1, 2, 3]);
    cache.set("key2".to_string(), vec![4, 5, 6]);

    let entries = cache.entries();
    assert_eq!(entries.len(), 2, "Should have 2 entries");

    let keys: Vec<&str> = entries.iter().map(|e| e.key.as_str()).collect();
    assert!(keys.contains(&"key1"));
    assert!(keys.contains(&"key2"));
}

#[test]
fn set_bytes_exact_accounting() {
    let mut cache = LruCache::new(100, false);
    cache.set_bytes("a".to_string(), vec![0u8; 40]);
    cache.set_bytes("b".to_string(), vec![0u8; 40]);
    assert_eq!(cache.stats().size_bytes, 80);
    // Growing "a" by 10 bytes fits without eviction.
    cache.set_bytes("a".to_string(), vec![0u8; 50]);
    assert_eq!(cache.stats().size_bytes, 90);
    assert_eq!(cache.stats().entry_count, 2);
    assert_eq!(cache.stats().eviction_count, 0);
    // 30 more bytes need one eviction: "b" is the least recently used.
    cache.set_bytes("c".to_string(), vec![0u8; 30]);
    assert_eq!(cache.stats().eviction_count, 1);
    assert!(cache.get_bytes("b").is_none());
    assert_eq!(cache.get_bytes("a").map(|v| v.len()), Some(50));
    assert_eq!(cache.stats().size_bytes, 80);
}

#[test]
fn oversized_set_changes_nothing() {
    let mut cache = LruCache::new(10, false);
    cache.set_bytes("a".to_string(), vec![1u8; 10]);
    cache.set_bytes("b".to_string(), vec![1u8; 11]);
    let stats = cache.stats();
    assert_eq!(stats.entry_count, 1);
    assert_eq!(stats.size_bytes, 10);
    assert_eq!(stats.eviction_count, 0);
    assert_eq!(cache.get_bytes("a"), Some(&vec![1u8; 10]));
}

#[test]
fn stored_bytes_are_msgpack() {
    let mut cache = LruCache::new(100, false);
    cache.set("k".to_string(), vec![0u8; 20]);
    // MessagePack: a three-byte array16 header, then one byte per small integer.
    assert_eq!(cache.stats().size_bytes, 23);
}
