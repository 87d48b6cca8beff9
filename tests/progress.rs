use mango::progress::TitleInfo;
use mango::progress_cache::ProgressCache;

#[test]
fn set_get_remove_progress() {
    let mut info = TitleInfo::new();
    assert_eq!(info.get_progress("u", "e"), None);
    info.set_progress_at("u", "e", 5, 100);
    assert_eq!(info.get_progress("u", "e"), Some(5));
    assert_eq!(info.get_last_read("u", "e"), Some(100));
    info.set_progress_at("u", "e", 7, 200);
    assert_eq!(info.get_progress("u", "e"), Some(7));
    assert_eq!(info.get_last_read("u", "e"), Some(200));
    info.remove_progress("u", "e");
    assert_eq!(info.get_progress("u", "e"), None);
    assert!(info.has_no_progress());
}

#[test]
fn users_and_entries_are_separate() {
    let mut info = TitleInfo::new();
    info.set_progress_at("u1", "e", 1, 0);
    info.set_progress_at("u2", "e", 2, 0);
    info.set_progress_at("u1", "f", 3, 0);
    assert_eq!(info.get_progress("u1", "e"), Some(1));
    assert_eq!(info.get_progress("u2", "e"), Some(2));
    assert_eq!(info.get_progress("u1", "f"), Some(3));
    info.remove_progress("u1", "e");
    assert_eq!(info.get_progress("u2", "e"), Some(2));
    assert!(!info.has_no_progress());
}

#[test]
fn page_zero_removes_progress() {
    let mut info = TitleInfo::new();
    info.record_page("u", "e", 4, 10);
    assert_eq!(info.get_progress("u", "e"), Some(4));
    info.record_page("u", "e", 0, 20);
    assert_eq!(info.get_progress("u", "e"), None);
}

#[test]
fn date_added_if_new_keeps_first_date() {
    let mut info = TitleInfo::new();
    info.set_date_added_if_new("e", 10);
    info.set_date_added_if_new("e", 20);
    assert_eq!(info.get_date_added("e"), Some(10));
    info.set_date_added("e", 30);
    assert_eq!(info.get_date_added("e"), Some(30));
}

#[test]
fn set_progress_stamps_last_read() {
    let mut info = TitleInfo::new();
    info.set_progress("u", "e", 3);
    assert_eq!(info.get_progress("u", "e"), Some(3));
    assert!(info.get_last_read("u", "e").unwrap() > 0);
}

#[test]
fn progress_cache_read_through() {
    let mut cache = ProgressCache::new();
    assert!(cache.is_empty());
    assert_eq!(cache.get_progress("t", "u", "e"), None);
    let mut info = TitleInfo::new();
    info.set_progress_at("u", "e", 9, 1);
    info.set_date_added("e", 5);
    cache.load_title("t", info);
    assert!(cache.contains("t"));
    assert_eq!(cache.len(), 1);
    assert_eq!(cache.get_progress("t", "u", "e"), Some(9));
    assert_eq!(cache.get_last_read("t", "u", "e"), Some(1));
    assert_eq!(cache.get_date_added("t", "e"), Some(5));
    assert_eq!(cache.get_display_name("t"), None);
}

#[test]
fn progress_cache_record_creates_and_removes() {
    let mut cache = ProgressCache::new();
    let saved = cache.record_progress("t", "u", "e", 4, 50);
    assert_eq!(saved.get_progress("u", "e"), Some(4));
    assert_eq!(cache.get_progress("t", "u", "e"), Some(4));
    let saved = cache.record_progress("t", "u", "e", 0, 60);
    assert!(saved.has_no_progress());
    assert_eq!(cache.get_progress("t", "u", "e"), None);
    cache.clear();
    assert!(!cache.contains("t"));
}

#[test]
fn display_name_override() {
    let mut cache = ProgressCache::new();
    let mut info = TitleInfo::new();
    info.display_name = "Shown".to_string();
    cache.load_title("t", info);
    assert_eq!(cache.get_display_name("t"), Some("Shown".to_string()));
    assert!(cache.get_title_info("t").is_some());
    assert!(cache.get_title_info("x").is_none());
}
