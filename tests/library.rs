use mango::config::{expand_home_with, Config};
use mango::identity::{EntityKind, IdentityStore};
use mango::library::{Library, SortMethod};
use mango::scan::{apply_scan, contents_signature, dir_signature, relative_path, ContainerScan, ItemScan};
use mango::snapshot_file::CachedLibraryData;
use mango::util::{get_mime_type, guess_mime_type, is_public_path, NavigationState};
use mango::Error;

fn config() -> Config {
    let mut c = Config::default_config();
    c.library_path = "/lib".to_string();
    c.library_cache_path = "/tmp/cache.bin".to_string();
    c
}

fn item(dir: &str, name: &str, sig: u64, mtime: i64) -> ItemScan {
    ItemScan {
        path: format!("/lib/{}/{}.zip", dir, name),
        file_name: format!("{}.zip", name),
        name: name.to_string(),
        signature: sig,
        mtime,
        archive_names: vec!["2.jpg".to_string(), "10.jpg".to_string(), "info.txt".to_string()],
    }
}

fn scan_of(dir: &str, items: Vec<ItemScan>) -> ContainerScan {
    ContainerScan { path: format!("/lib/{}", dir), name: dir.to_string(), items }
}

#[test]
fn relative_paths() {
    assert_eq!(relative_path("/lib/a/b.zip", "/lib"), Some("a/b.zip".to_string()));
    assert_eq!(relative_path("/lib/a", "/lib/"), Some("a".to_string()));
    assert_eq!(relative_path("/library/a", "/lib"), None);
    assert_eq!(relative_path("/other/a", "/lib"), None);
}

#[test]
fn signatures_ignore_order() {
    assert_eq!(dir_signature(vec![3, 1, 2]), dir_signature(vec![1, 2, 3]));
    assert_eq!(dir_signature(vec![3, 1, 2]), 734760327);
    assert_ne!(dir_signature(vec![1, 2]), dir_signature(vec![1, 3]));
    // CRC-32 of nothing is zero.
    assert_eq!(dir_signature(Vec::new()), 0);
    let a = contents_signature(vec!["b.zip".to_string(), "a.zip".to_string()]);
    let b = contents_signature(vec!["a.zip".to_string(), "b.zip".to_string()]);
    assert_eq!(a, b);
    // SHA-1 of "a.zipb.zip".
    assert_eq!(a, "d82e87ee0706e75c62fd8d737aa172177687fb50");
}

#[test]
fn scan_assigns_and_keeps_ids() {
    let mut store = IdentityStore::new();
    let first = apply_scan(
        &mut store,
        "/lib",
        vec![scan_of("S", vec![item("S", "Chapter 10", 1, 5), item("S", "Chapter 2", 2, 9)])],
    );
    assert_eq!(first.titles.len(), 1);
    assert_eq!(first.new_titles, 1);
    assert_eq!(first.new_entries, 2);
    let t = &first.titles[0];
    let names: Vec<&str> = t.entries.iter().map(|e| e.title.as_str()).collect();
    assert_eq!(names, vec!["Chapter 2", "Chapter 10"]);
    assert_eq!(t.mtime, 9);
    assert_eq!(t.entries[0].image_files, vec!["2.jpg", "10.jpg"]);
    assert_eq!(t.entries[0].pages, 2);

    // Second pass: chapter 2 was touched (new signature), chapter 10 is gone.
    let second = apply_scan(&mut store, "/lib", vec![scan_of("S", vec![item("S", "Chapter 2", 7, 9)])]);
    assert_eq!(second.new_titles, 0);
    assert_eq!(second.new_entries, 0);
    assert_eq!(second.titles[0].id, t.id);
    assert_eq!(second.titles[0].entries[0].id, t.entries[0].id);
    assert_eq!(second.missing_entries, vec![t.entries[1].id.clone()]);
    assert_eq!(store.count_available(EntityKind::Item), 1);

    // Third pass: chapter 10 is back with its id.
    let third = apply_scan(
        &mut store,
        "/lib",
        vec![scan_of("S", vec![item("S", "Chapter 10", 1, 5), item("S", "Chapter 2", 7, 9)])],
    );
    assert_eq!(third.restored_entries, vec![t.entries[1].id.clone()]);
    assert_eq!(third.titles[0].entries[1].id, t.entries[1].id);
}

#[test]
fn scan_omits_titles_outside_root() {
    let mut store = IdentityStore::new();
    let out = apply_scan(
        &mut store,
        "/lib",
        vec![ContainerScan { path: "/elsewhere/S".to_string(), name: "S".to_string(), items: Vec::new() }],
    );
    assert!(out.titles.is_empty());
}

#[test]
fn library_views() {
    let mut lib = Library::new("/lib".to_string(), IdentityStore::new(), &config());
    let counts = lib.scan(vec![
        scan_of("Beta", vec![item("Beta", "v1", 1, 30)]),
        scan_of("Alpha 10", vec![item("Alpha 10", "v1", 2, 10), item("Alpha 10", "v2", 3, 20)]),
        scan_of("Alpha 9", Vec::new()),
    ]);
    assert_eq!(counts.titles, 3);
    let names: Vec<&str> = lib.get_titles().iter().map(|t| t.title.as_str()).collect();
    assert_eq!(names, vec!["Alpha 9", "Alpha 10", "Beta"]);
    let by_time: Vec<&str> = lib
        .get_titles_sorted(SortMethod::TimeModified, false)
        .iter()
        .map(|t| t.title.as_str())
        .collect();
    assert_eq!(by_time, vec!["Beta", "Alpha 10", "Alpha 9"]);
    let stats = lib.stats();
    assert_eq!((stats.titles, stats.entries, stats.pages), (3, 3, 6));

    let alpha = lib.get_titles()[1].id.clone();
    let v2 = lib.get_title(&alpha).unwrap().entries[1].id.clone();
    assert_eq!(lib.get_entry(&alpha, &v2).unwrap().title, "v2");
    assert!(lib.get_entry(&alpha, "nope").is_none());
    assert!(lib.get_title("nope").is_none());
}

#[test]
fn cached_views_match_fresh_ones() {
    let mut lib = Library::new("/lib".to_string(), IdentityStore::new(), &config());
    lib.scan(vec![scan_of("B", Vec::new()), scan_of("A", vec![item("A", "x", 1, 1), item("A", "w", 2, 2)])]);
    let fresh: Vec<String> = lib.get_titles().iter().map(|t| t.id.clone()).collect();
    let miss: Vec<String> =
        lib.get_titles_sorted_cached("u", SortMethod::Name, true).iter().map(|t| t.id.clone()).collect();
    let hit: Vec<String> =
        lib.get_titles_sorted_cached("u", SortMethod::Name, true).iter().map(|t| t.id.clone()).collect();
    assert_eq!(miss, fresh);
    assert_eq!(hit, fresh);
    assert_eq!(lib.cache().stats().hit_count, 1);

    let a = fresh[0].clone();
    let e1: Vec<String> = lib
        .get_entries_sorted_cached(&a, "u", SortMethod::Name, true)
        .unwrap()
        .iter()
        .map(|e| e.title.clone())
        .collect();
    let e2: Vec<String> = lib
        .get_entries_sorted_cached(&a, "u", SortMethod::Name, true)
        .unwrap()
        .iter()
        .map(|e| e.title.clone())
        .collect();
    assert_eq!(e1, vec!["w", "x"]);
    assert_eq!(e2, e1);
    assert!(lib.get_entries_sorted_cached("none", "u", SortMethod::Name, true).is_none());
}

#[test]
fn cached_snapshot_needs_matching_root_and_count() {
    let mut store = IdentityStore::new();
    assert!(store.persist_new(EntityKind::Container, "t".to_string(), "A".to_string(), 0));
    let mut lib = Library::new("/lib".to_string(), store, &config());
    let wrong_root = CachedLibraryData { path: "/other".to_string(), titles: Vec::new() };
    assert!(!lib.try_load_from_cache(wrong_root));
    let wrong_count = CachedLibraryData { path: "/lib".to_string(), titles: Vec::new() };
    assert!(!lib.try_load_from_cache(wrong_count));
    let out = apply_scan(&mut IdentityStore::new(), "/lib", vec![scan_of("A", Vec::new())]);
    let good = CachedLibraryData { path: "/lib".to_string(), titles: out.titles };
    assert!(lib.try_load_from_cache(good));
    assert_eq!(lib.titles().len(), 1);
}

#[test]
fn sort_method_parsing() {
    assert_eq!(SortMethod::parse("TITLE"), SortMethod::Name);
    assert_eq!(SortMethod::parse("modified"), SortMethod::TimeModified);
    assert_eq!(SortMethod::parse("Time"), SortMethod::TimeModified);
    assert_eq!(SortMethod::parse("progress"), SortMethod::Progress);
    assert_eq!(SortMethod::parse("auto"), SortMethod::Auto);
    assert_eq!(SortMethod::parse("bogus"), SortMethod::Name);
    assert_eq!(SortMethod::from_str("auto"), SortMethod::Auto);
    assert_eq!(SortMethod::from_params(None, None), (SortMethod::Name, true));
    assert_eq!(SortMethod::from_params(Some("time"), Some("0")), (SortMethod::TimeModified, false));
    assert_eq!(SortMethod::from_params(Some("name"), Some("1")), (SortMethod::Name, true));
    assert_eq!(SortMethod::from_params(Some("name"), Some("x")), (SortMethod::Name, true));
}

#[test]
fn config_rules() {
    let mut c = config();
    assert!(c.validate().is_ok());
    assert_eq!(c.database_url(), format!("sqlite://{}", c.db_path));
    c.base_url = "x/".to_string();
    assert!(matches!(c.validate(), Err(Error::Config(_))));
    c.base_url = "/".to_string();
    c.disable_login = true;
    assert!(matches!(c.validate(), Err(Error::Config(_))));
    c.default_username = Some("admin".to_string());
    assert!(c.validate().is_ok());
}

#[test]
fn home_expansion() {
    assert_eq!(expand_home_with("~/mango/x", Some("/home/u")), "/home/u/mango/x");
    assert_eq!(expand_home_with("~/mango/x", Some("/home/u/")), "/home/u/mango/x");
    assert_eq!(expand_home_with("~/mango/x", None), "~/mango/x");
    assert_eq!(expand_home_with("/abs/x", Some("/home/u")), "/abs/x");
}

#[test]
fn navigation_and_mime() {
    assert!(NavigationState::home().home_active);
    assert!(NavigationState::library().library_active);
    assert!(NavigationState::admin().admin_active);
    assert_eq!(guess_mime_type(&[0xFF, 0xD8, 0xFF, 0x00]), "image/jpeg");
    assert_eq!(guess_mime_type(&[0x89, 0x50, 0x4E, 0x47]), "image/png");
    assert_eq!(guess_mime_type(b"GIF89a"), "image/gif");
    assert_eq!(guess_mime_type(b"RIFF\0\0\0\0WEBP"), "image/webp");
    assert_eq!(guess_mime_type(b"BM\0\0"), "image/bmp");
    assert_eq!(guess_mime_type(b"BM"), "application/octet-stream");
    assert_eq!(guess_mime_type(b""), "application/octet-stream");
    assert_eq!(get_mime_type("/lib/a/v1.cbz"), "application/zip");
    assert_eq!(get_mime_type("/lib/a/v1.rar"), "application/x-rar-compressed");
    assert_eq!(get_mime_type("/lib/a/v1.CBZ"), "application/octet-stream");
    assert_eq!(get_mime_type("/lib/a/.zip"), "application/octet-stream");
    assert!(is_public_path("/login"));
    assert!(is_public_path("/static/app.css"));
    assert!(is_public_path("/api/login?x"));
    assert!(!is_public_path("/login/x"));
    assert!(!is_public_path("/library"));
}

#[test]
fn ascend_flag_parsing() {
    let asc = |a: &str| SortMethod::from_params(Some("name"), Some(a)).1;
    assert!(!asc("0"));
    assert!(!asc("-0"));
    assert!(!asc("+0"));
    assert!(asc("1"));
    assert!(asc("-5"));
    assert!(asc(""));
    assert!(asc("-"));
    assert!(asc(" 0"));
    assert!(asc("0x0"));
    assert!(!asc("0000000000000000000000"));
    // Out of range is not a number, so the default (ascending) applies.
    assert!(asc("2147483648"));
    assert!(asc("-2147483649"));
    assert!(asc("-2147483648"));
}

#[test]
fn scan_title_fields_and_duplicates() {
    let mut store = IdentityStore::new();
    let out = apply_scan(
        &mut store,
        "/lib",
        vec![
            scan_of("S", vec![item("S", "a", 1, -5), item("S", "b", 2, -9)]),
            scan_of("S", vec![item("S", "a", 1, -5), item("S", "b", 2, -9)]),
            scan_of("E", Vec::new()),
        ],
    );
    assert_eq!(out.titles.len(), 3);
    assert_eq!(out.titles[0].mtime, -5);
    assert_eq!(out.titles[2].mtime, 0);
    assert_eq!(out.titles[0].title, "S");
    assert_eq!(out.titles[0].path, "/lib/S");
    // The same directory twice resolves to one identity.
    assert_eq!(out.titles[0].id, out.titles[1].id);
    assert_eq!(out.titles[0].entries[0].id, out.titles[1].entries[0].id);
    assert_eq!(out.new_titles, 2);
    assert_eq!(out.new_entries, 2);
    assert_eq!(store.count_available(EntityKind::Container), 2);
}

#[test]
fn path_size_signature_is_crc32_of_path_and_size() {
    assert_eq!(mango::scan::path_size_signature("/a/b.zip", 1234), 4217360814);
    assert_ne!(mango::scan::path_size_signature("/a/b.zip", 1235), 4217360814);
}

#[test]
fn publish_replaces_snapshot_and_store() {
    let mut lib = Library::new("/lib".to_string(), IdentityStore::new(), &config());
    let mut store = IdentityStore::new();
    let out = apply_scan(&mut store, "/lib", vec![scan_of("A", vec![item("A", "x", 1, 1)])]);
    lib.publish(store, out.titles);
    assert_eq!(lib.titles().len(), 1);
    assert_eq!(lib.identities().records().len(), 2);
}

#[test]
fn cache_miss_stores_sorted_ids() {
    let mut lib = Library::new("/lib".to_string(), IdentityStore::new(), &config());
    lib.scan(vec![scan_of("B", Vec::new()), scan_of("A", Vec::new())]);
    assert_eq!(lib.cache().stats().entry_count, 0);
    let _ = lib.get_titles_sorted_cached("u", SortMethod::Name, true);
    assert_eq!(lib.cache().stats().entry_count, 1);
    assert_eq!(lib.cache().stats().miss_count, 1);
    let a = lib.get_titles()[0].id.clone();
    let _ = lib.get_entries_sorted_cached(&a, "u", SortMethod::Name, true);
    assert_eq!(lib.cache().stats().entry_count, 2);
}
