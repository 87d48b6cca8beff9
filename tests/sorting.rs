use mango::entry::{image_list, is_image_file, Entry};
use mango::sorting::{compare_names, sort_ascending, sort_by_mtime, sort_by_name};
use mango::title::is_archive;
use std::cmp::Ordering;

fn entry(title: &str, mtime: i64) -> Entry {
    Entry {
        id: title.to_string(),
        path: format!("/lib/s/{}.zip", title),
        title: title.to_string(),
        signature: 0,
        mtime,
        pages: 1,
        image_files: Vec::new(),
    }
}

#[test]
fn natural_order_compares_numbers_by_value() {
    assert_eq!(compare_names("Chapter 2", "Chapter 10"), Ordering::Less);
    assert_eq!(compare_names("Chapter 10", "Chapter 2"), Ordering::Greater);
    assert_eq!(compare_names("a", "a"), Ordering::Equal);
}

#[test]
fn natural_ties_fall_back_to_character_order() {
    // natord skips whitespace, so these tie; character order decides.
    assert_eq!(compare_names("a b", "ab"), Ordering::Less);
    assert_eq!(compare_names("ab", "a b"), Ordering::Greater);
}

#[test]
fn sort_entries_by_name() {
    let mut v = vec![entry("Chapter 10", 0), entry("Chapter 2", 0), entry("Chapter 1", 0)];
    sort_by_name(&mut v, true);
    let names: Vec<&str> = v.iter().map(|e| e.title.as_str()).collect();
    assert_eq!(names, vec!["Chapter 1", "Chapter 2", "Chapter 10"]);
    sort_by_name(&mut v, false);
    let names: Vec<&str> = v.iter().map(|e| e.title.as_str()).collect();
    assert_eq!(names, vec!["Chapter 10", "Chapter 2", "Chapter 1"]);
}

#[test]
fn sort_entries_by_mtime_is_stable() {
    let mut v = vec![entry("a", 5), entry("b", 1), entry("c", 5), entry("d", 3)];
    sort_by_mtime(&mut v, true);
    let names: Vec<&str> = v.iter().map(|e| e.title.as_str()).collect();
    assert_eq!(names, vec!["b", "d", "a", "c"]);
    sort_by_mtime(&mut v, false);
    let names: Vec<&str> = v.iter().map(|e| e.title.as_str()).collect();
    assert_eq!(names, vec!["a", "c", "d", "b"]);
}

#[test]
fn sort_ascending_numbers_and_text() {
    let mut v: Vec<u64> = vec![3, 1, 2, 1];
    sort_ascending(&mut v);
    assert_eq!(v, vec![1, 1, 2, 3]);
    let mut t = vec!["b".to_string(), "B".to_string(), "a10".to_string(), "a9".to_string()];
    sort_ascending(&mut t);
    assert_eq!(t, vec!["B", "a10", "a9", "b"]);
}

#[test]
fn image_files_are_filtered_and_naturally_sorted() {
    assert!(is_image_file("x.JPG"));
    assert!(is_image_file("x.webp"));
    assert!(!is_image_file("x.txt"));
    let names = vec![
        "page10.jpg".to_string(),
        "ComicInfo.xml".to_string(),
        "page2.PNG".to_string(),
        "page1.jpeg".to_string(),
    ];
    assert_eq!(image_list(names), vec!["page1.jpeg", "page2.PNG", "page10.jpg"]);
}

#[test]
fn archives_by_extension() {
    assert!(is_archive("/lib/s/v1.zip"));
    assert!(is_archive("/lib/s/v1.CBZ"));
    assert!(!is_archive("/lib/s/v1.rar"));
    assert!(!is_archive("/lib/s/.zip"));
}
