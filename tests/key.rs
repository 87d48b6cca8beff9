use mango::key::{info_json_key, progress_sum_key, sorted_entries_key, sorted_titles_key};

#[test]
fn test_sorted_titles_key_determinism() {
    let ids = vec!["id1".to_string(), "id2".to_string()];
    let key1 = sorted_titles_key("user1", &ids, "name", true);
    let key2 = sorted_titles_key("user1", &ids, "name", true);
    assert_eq!(key1, key2, "Same inputs should produce same key");
}

#[test]
fn test_sorted_titles_key_uniqueness() {
    let ids = vec!["id1".to_string(), "id2".to_string()];
    let key1 = sorted_titles_key("user1", &ids, "name", true);
    let key2 = sorted_titles_key("user2", &ids, "name", true);
    let key3 = sorted_titles_key("user1", &ids, "mtime", true);
    let key4 = sorted_titles_key("user1", &ids, "name", false);

    assert_ne!(key1, key2, "Different users should produce different keys");
    assert_ne!(key1, key3, "Different sort methods should produce different keys");
    assert_ne!(key1, key4, "Different sort order should produce different keys");
}

#[test]
fn test_sorted_titles_key_username_isolation() {
    let ids = vec!["id1".to_string()];
    let key_user1 = sorted_titles_key("user1", &ids, "name", true);
    let key_user2 = sorted_titles_key("user2", &ids, "name", true);
    assert_ne!(key_user1, key_user2, "Different users should have isolated caches");
}

#[test]
fn test_sorted_entries_key_determinism() {
    let ids = vec!["entry1".to_string(), "entry2".to_string()];
    let key1 = sorted_entries_key("title1", "user1", &ids, "name", true);
    let key2 = sorted_entries_key("title1", "user1", &ids, "name", true);
    assert_eq!(key1, key2, "Same inputs should produce same key");
}

#[test]
fn test_sorted_entries_key_uniqueness() {
    let ids = vec!["entry1".to_string()];
    let key1 = sorted_entries_key("title1", "user1", &ids, "name", true);
    let key2 = sorted_entries_key("title2", "user1", &ids, "name", true);
    let key3 = sorted_entries_key("title1", "user2", &ids, "name", true);

    assert_ne!(key1, key2, "Different titles should produce different keys");
    assert_ne!(key1, key3, "Different users should produce different keys");
}

#[test]
fn test_progress_sum_key_determinism() {
    let key1 = progress_sum_key("title1", "user1", "sig123");
    let key2 = progress_sum_key("title1", "user1", "sig123");
    assert_eq!(key1, key2, "Same inputs should produce same key");
}

#[test]
fn test_progress_sum_key_signature_change() {
    let key1 = progress_sum_key("title1", "user1", "sig123");
    let key2 = progress_sum_key("title1", "user1", "sig456");
    assert_ne!(key1, key2, "Different entry signatures should produce different keys");
}

#[test]
fn test_info_json_key_determinism() {
    let path = "/path/to/manga";
    let key1 = info_json_key(path);
    let key2 = info_json_key(path);
    assert_eq!(key1, key2, "Same path should produce same key");
}

#[test]
fn test_info_json_key_uniqueness() {
    let key1 = info_json_key("/path/to/manga1");
    let key2 = info_json_key("/path/to/manga2");
    assert_ne!(key1, key2, "Different paths should produce different keys");
}

#[test]
fn test_key_prefixes() {
    let ids = vec!["id1".to_string()];
    let titles_key = sorted_titles_key("user", &ids, "name", true);
    let entries_key = sorted_entries_key("title", "user", &ids, "name", true);
    let progress_key = progress_sum_key("title", "user", "sig");
    let info_key = info_json_key("/path");

    assert!(titles_key.starts_with("sorted_titles:"), "Titles key should have correct prefix");
    assert!(entries_key.starts_with("sorted_entries:"), "Entries key should have correct prefix");
    assert!(progress_key.starts_with("progress_sum:"), "Progress key should have correct prefix");
    assert!(info_key.starts_with("info_json:"), "Info key should have correct prefix");
}

#[test]
fn key_is_prefix_and_sha256_hex() {
    assert_eq!(
        info_json_key("abc"),
        "info_json:26a74f6f16036ab5d937ec5c1ce745e4eda731f419179f3f776e91f5299b6e91"
    );
    let ids = vec!["a".to_string(), "b".to_string()];
    assert_eq!(
        sorted_titles_key("u", &ids, "name", false),
        "sorted_titles:4b5dc957bd545b6de3a1480ae3fc88ee85b928ff51b0e32dedc63beb7bf823d8"
    );
}
