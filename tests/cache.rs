use mango::cache::Cache;
use mango::Config;

fn create_test_config() -> Config {
    Config {
        host: "0.0.0.0".to_string(),
        port: 9000,
        base_url: "/".to_string(),
        session_secret: "test".to_string(),
        library_path: "/tmp/library".to_string(),
        db_path: "/tmp/test.db".to_string(),
        queue_db_path: "/tmp/queue.db".to_string(),
        scan_interval_minutes: 0,
        thumbnail_generation_interval_hours: 0,
        log_level: "info".to_string(),
        upload_path: "/tmp/uploads".to_string(),
        plugin_path: "/tmp/plugins".to_string(),
        download_timeout_seconds: 30,
        library_cache_path: "/tmp/cache.bin".to_string(),
        cache_enabled: true,
        cache_size_mbs: 100,
        cache_log_enabled: false,
        disable_login: false,
        default_username: None,
        auth_proxy_header_name: None,
        plugin_update_interval_hours: 24,
    }
}

#[test]
fn test_cache_new() {
    let config = create_test_config();
    let cache = Cache::new(&config);

    let stats = cache.stats();
    assert_eq!(stats.size_limit, 100 * 1024 * 1024);
    assert_eq!(stats.entry_count, 0);
}

#[test]
fn test_cache_disabled() {
    let mut config = create_test_config();
    config.cache_enabled = false;

    let mut cache = Cache::new(&config);

    cache.set_sorted_titles("key".to_string(), vec!["id1".to_string()]);
    assert!(cache.get_sorted_titles("key").is_none());

    cache.invalidate_progress("title1", "user1");
    cache.clear();
}

#[test]
fn test_sorted_titles_cache() {
    let config = create_test_config();
    let mut cache = Cache::new(&config);

    let title_ids = vec!["id1".to_string(), "id2".to_string()];

    assert!(cache.get_sorted_titles("key1").is_none());

    cache.set_sorted_titles("key1".to_string(), title_ids.clone());
    assert_eq!(cache.get_sorted_titles("key1"), Some(title_ids));
}

#[test]
fn test_sorted_entries_cache() {
    let config = create_test_config();
    let mut cache = Cache::new(&config);

    let entry_ids = vec!["e1".to_string(), "e2".to_string()];

    assert!(cache.get_sorted_entries("key1").is_none());

    cache.set_sorted_entries("key1".to_string(), entry_ids.clone());
    assert_eq!(cache.get_sorted_entries("key1"), Some(entry_ids));
}

#[test]
fn test_invalidate_progress() {
    let config = create_test_config();
    let mut cache = Cache::new(&config);

    cache.set_sorted_titles(
        "sorted_titles:user1:abc123:name:true".to_string(),
        vec!["t1".to_string()],
    );
    cache.set_sorted_entries(
        "sorted_entries:title1:user1:abc123:name:true".to_string(),
        vec!["e1".to_string()],
    );
    cache.set_sorted_titles(
        "progress_sum:title1:user1:abc123".to_string(),
        vec!["100".to_string()],
    );

    assert!(cache.get_sorted_titles("sorted_titles:user1:abc123:name:true").is_some());
    assert!(cache.get_sorted_entries("sorted_entries:title1:user1:abc123:name:true").is_some());

    cache.invalidate_progress("title1", "user1");

    assert!(cache.get_sorted_titles("sorted_titles:user1:abc123:name:true").is_none());
    assert!(cache.get_sorted_entries("sorted_entries:title1:user1:abc123:name:true").is_none());
    assert!(cache.get_sorted_titles("progress_sum:title1:user1:abc123").is_none());
}

#[test]
fn test_invalidate_sorted_for_title() {
    let config = create_test_config();
    let mut cache = Cache::new(&config);

    cache.set_sorted_entries(
        "sorted_entries:title1:user1:abc:name:true".to_string(),
        vec!["e1".to_string()],
    );
    cache.set_sorted_entries(
        "sorted_entries:title1:user2:def:name:true".to_string(),
        vec!["e2".to_string()],
    );

    assert!(cache.get_sorted_entries("sorted_entries:title1:user1:abc:name:true").is_some());
    assert!(cache.get_sorted_entries("sorted_entries:title1:user2:def:name:true").is_some());

    cache.invalidate_sorted_for_title("title1");

    assert!(cache.get_sorted_entries("sorted_entries:title1:user1:abc:name:true").is_none());
    assert!(cache.get_sorted_entries("sorted_entries:title1:user2:def:name:true").is_none());
}

#[test]
fn test_clear() {
    let config = create_test_config();
    let mut cache = Cache::new(&config);

    cache.set_sorted_titles("key1".to_string(), vec!["t1".to_string()]);
    cache.set_sorted_entries("key2".to_string(), vec!["e1".to_string()]);

    assert_eq!(cache.stats().entry_count, 2);

    cache.clear();

    assert_eq!(cache.stats().entry_count, 0);
    assert!(cache.get_sorted_titles("key1").is_none());
    assert!(cache.get_sorted_entries("key2").is_none());
}

#[test]
fn test_stats() {
    let config = create_test_config();
    let mut cache = Cache::new(&config);

    let stats_before = cache.stats();
    assert_eq!(stats_before.entry_count, 0);
    assert_eq!(stats_before.hit_count, 0);
    assert_eq!(stats_before.miss_count, 0);

    cache.set_sorted_titles("key1".to_string(), vec!["t1".to_string()]);

    let _ = cache.get_sorted_titles("key1");
    let _ = cache.get_sorted_titles("key2");

    let stats_after = cache.stats();
    assert_eq!(stats_after.entry_count, 1);
    assert_eq!(stats_after.hit_count, 1);
    assert_eq!(stats_after.miss_count, 1);
}

#[test]
fn invalidate_progress_keeps_other_users_and_titles() {
    let mut cache = Cache::new(&create_test_config());
    cache.set_sorted_titles("sorted_titles:user2:x".to_string(), vec!["t".to_string()]);
    cache.set_sorted_entries("sorted_entries:title2:user1:x".to_string(), vec!["e".to_string()]);
    cache.invalidate_progress("title1", "user1");
    assert_eq!(cache.stats().entry_count, 2);
}

#[test]
fn oversized_cache_budget_saturates() {
    let mut config = create_test_config();
    config.cache_size_mbs = usize::MAX;
    let cache = Cache::new(&config);
    assert_eq!(cache.stats().size_limit, usize::MAX);
}
