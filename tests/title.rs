use mango::entry::Entry;
use mango::library::SortMethod;
use mango::lru::LruCache;
use mango::progress::TitleInfo;
use mango::title::Title;

fn entry(id: &str, title: &str, mtime: i64, pages: usize) -> Entry {
    Entry {
        id: id.to_string(),
        path: format!("/lib/t/{}.zip", title),
        title: title.to_string(),
        signature: 0,
        mtime,
        pages,
        image_files: Vec::new(),
    }
}

fn title(id: &str, entries: Vec<Entry>, nested: Vec<Title>) -> Title {
    Title {
        id: id.to_string(),
        path: format!("/lib/{}", id),
        title: id.to_string(),
        signature: 0,
        contents_signature: String::new(),
        mtime: 0,
        entries,
        parent_id: None,
        nested_titles: nested,
    }
}

#[test]
fn total_pages_sums_entries() {
    let t = title("t", vec![entry("a", "v1", 0, 10), entry("b", "v2", 0, 32)], Vec::new());
    assert_eq!(t.total_pages(), 42);
    assert_eq!(title("e", Vec::new(), Vec::new()).total_pages(), 0);
}

#[test]
fn deep_entries_walks_nested_titles() {
    let inner = title("inner", vec![entry("c", "v3", 0, 1)], Vec::new());
    let t = title("t", vec![entry("a", "v1", 0, 1), entry("b", "v2", 0, 1)], vec![inner]);
    let ids: Vec<&str> = t.deep_entries().iter().map(|e| e.id.as_str()).collect();
    assert_eq!(ids, vec!["a", "b", "c"]);
}

#[test]
fn entries_sorted_by_method() {
    let t = title(
        "t",
        vec![entry("a", "Vol 10", 3, 1), entry("b", "Vol 9", 1, 1), entry("c", "Vol 11", 2, 1)],
        Vec::new(),
    );
    let by_name: Vec<&str> = t.get_entries_sorted(SortMethod::Name, true).iter().map(|e| e.id.as_str()).collect();
    assert_eq!(by_name, vec!["b", "a", "c"]);
    let by_auto: Vec<&str> = t.get_entries_sorted(SortMethod::Auto, false).iter().map(|e| e.id.as_str()).collect();
    assert_eq!(by_auto, vec!["c", "a", "b"]);
    let by_time: Vec<&str> =
        t.get_entries_sorted(SortMethod::TimeModified, true).iter().map(|e| e.id.as_str()).collect();
    assert_eq!(by_time, vec!["b", "c", "a"]);
}

#[test]
fn read_all_and_unread_all() {
    let t = title("t", vec![entry("a", "v1", 0, 10), entry("b", "v2", 0, 20)], Vec::new());
    let mut info = TitleInfo::new();
    t.read_all(&mut info, "u", 5);
    assert_eq!(info.get_progress("u", "a"), Some(10));
    assert_eq!(info.get_progress("u", "b"), Some(20));
    assert_eq!(info.get_last_read("u", "b"), Some(5));
    t.unread_all(&mut info, "u");
    assert_eq!(info.get_progress("u", "a"), None);
    assert!(info.has_no_progress());
}

#[test]
fn populate_date_added_keeps_known_dates() {
    let t = title("t", vec![entry("a", "v1", 0, 1), entry("b", "v2", 0, 1)], Vec::new());
    let mut info = TitleInfo::new();
    info.set_date_added("a", 1);
    t.populate_date_added(&mut info, 99);
    assert_eq!(info.get_date_added("a"), Some(1));
    assert_eq!(info.get_date_added("b"), Some(99));
}

#[test]
fn lru_invalidate_by_prefix() {
    let mut cache = LruCache::new(1000, false);
    cache.set_bytes("a:1".to_string(), vec![0u8; 10]);
    cache.set_bytes("a:2".to_string(), vec![0u8; 20]);
    cache.set_bytes("b:1".to_string(), vec![0u8; 30]);
    cache.invalidate_by_prefix("a:");
    let stats = cache.stats();
    assert_eq!(stats.entry_count, 1);
    assert_eq!(stats.size_bytes, 30);
    assert!(cache.get_bytes("b:1").is_some());
    assert!(cache.get_bytes("a:1").is_none());
}

#[test]
fn lru_entries_report_access() {
    let mut cache = LruCache::new(1000, false);
    cache.set_bytes("k".to_string(), vec![1u8; 3]);
    let _ = cache.get_bytes("k");
    let _ = cache.get_bytes("k");
    let infos = cache.entries();
    assert_eq!(infos.len(), 1);
    assert_eq!(infos[0].key, "k");
    assert_eq!(infos[0].size_bytes, 3);
    assert_eq!(infos[0].access_count, 2);
    assert!(infos[0].last_access > infos[0].created_at);
}
