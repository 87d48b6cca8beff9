use mango::snapshot_file::{CacheFileManager, CachedLibraryData, LoadAction};
use mango::Error;

fn manager() -> CacheFileManager {
    CacheFileManager::new("/tmp/cache/cache.bin".to_string())
}

#[test]
fn pack_then_unpack_round_trips() {
    let m = manager();
    let data: Vec<u8> = (0..200u8).collect();
    let packed = m.pack(&data).unwrap();
    assert_ne!(packed, data);
    assert_eq!(&packed[..2], &[0x1f, 0x8b]);
    assert_eq!(m.unpack(&packed), Some(data));
}

#[test]
fn garbage_does_not_unpack_and_is_discarded() {
    let m = manager();
    assert_eq!(m.unpack(&b"corrupt data".to_vec()), None);
    assert_eq!(m.load_decision(None, "/library"), LoadAction::Discard);
}

#[test]
fn same_root_is_kept_other_root_discarded() {
    let m = manager();
    let d = CachedLibraryData { path: "/library1".to_string(), titles: Vec::new() };
    assert_eq!(m.load_decision(Some(&d), "/library1"), LoadAction::Keep);
    assert_eq!(m.load_decision(Some(&d), "/library2"), LoadAction::Discard);
}

#[test]
fn validate_counts_titles() {
    let m = manager();
    let d = CachedLibraryData { path: "/library".to_string(), titles: Vec::new() };
    assert!(m.validate(Some(&d), 0).is_ok());
    assert!(matches!(m.validate(Some(&d), 10), Err(Error::CacheCorrupted(_))));
    assert!(matches!(m.validate(None, 0), Err(Error::CacheCorrupted(_))));
}

#[test]
fn temp_path_replaces_extension() {
    assert_eq!(manager().temp_path(), "/tmp/cache/cache.tmp");
    assert_eq!(CacheFileManager::new("/a/b".to_string()).temp_path(), "/a/b.tmp");
    assert_eq!(CacheFileManager::new("/a.d/b".to_string()).temp_path(), "/a.d/b.tmp");
    assert_eq!(CacheFileManager::new("/a/.b".to_string()).temp_path(), "/a/.b.tmp");
}

#[test]
fn metadata_of_missing_and_present_files() {
    let m = manager();
    let gone = m.missing_metadata(7);
    assert!(!gone.valid);
    assert_eq!(gone.size_bytes, 0);
    let here = m.present_metadata(42, 9);
    assert!(here.valid);
    assert_eq!(here.size_bytes, 42);
    assert_eq!(here.path, "/tmp/cache/cache.bin");
}
