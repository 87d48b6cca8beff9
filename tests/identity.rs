use mango::identity::{chunk_ids, EntityKind, IdentityRecord, IdentityStore, NewIdentity};

fn ids(v: &[&str]) -> Vec<String> {
    v.iter().map(|s| s.to_string()).collect()
}

#[test]
fn resolve_unknown_path_is_none() {
    let mut store = IdentityStore::new();
    assert_eq!(store.resolve(EntityKind::Item, "a.zip", 1), None);
}

#[test]
fn resolving_twice_gives_same_id() {
    let mut store = IdentityStore::new();
    assert!(store.persist_new(EntityKind::Item, "X".to_string(), "a.zip".to_string(), 7));
    assert_eq!(store.resolve(EntityKind::Item, "a.zip", 7), Some("X".to_string()));
    assert_eq!(store.resolve(EntityKind::Item, "a.zip", 7), Some("X".to_string()));
    assert_eq!(store.records()[0].signature, 7);
}

#[test]
fn rename_survives_touch() {
    let mut store = IdentityStore::new();
    assert!(store.persist_new(EntityKind::Item, "X".to_string(), "a.zip".to_string(), 1));
    assert_eq!(store.resolve(EntityKind::Item, "a.zip", 1), Some("X".to_string()));
    // The file is touched: same path, new signature.
    assert_eq!(store.resolve(EntityKind::Item, "a.zip", 2), Some("X".to_string()));
    assert_eq!(store.records()[0].signature, 2);
    assert_eq!(store.resolve(EntityKind::Item, "a.zip", 2), Some("X".to_string()));
}

#[test]
fn moved_item_is_new() {
    let mut store = IdentityStore::new();
    assert!(store.persist_new(EntityKind::Item, "X".to_string(), "a.zip".to_string(), 1));
    assert_eq!(store.resolve(EntityKind::Item, "b.zip", 1), None);
}

#[test]
fn kinds_are_separate() {
    let mut store = IdentityStore::new();
    assert!(store.persist_new(EntityKind::Container, "T".to_string(), "a".to_string(), 1));
    assert_eq!(store.resolve(EntityKind::Item, "a", 1), None);
    assert_eq!(store.resolve(EntityKind::Container, "a", 1), Some("T".to_string()));
}

#[test]
fn persist_new_refuses_duplicates() {
    let mut store = IdentityStore::new();
    assert!(store.persist_new(EntityKind::Item, "X".to_string(), "a.zip".to_string(), 1));
    assert!(!store.persist_new(EntityKind::Item, "X".to_string(), "b.zip".to_string(), 1));
    assert!(!store.persist_new(EntityKind::Item, "Y".to_string(), "a.zip".to_string(), 1));
    assert!(store.persist_new(EntityKind::Container, "Y".to_string(), "a.zip".to_string(), 1));
    assert_eq!(store.records().len(), 2);
}

#[test]
fn missing_restored_cycle() {
    let mut store = IdentityStore::new();
    assert!(store.persist_new(EntityKind::Item, "X".to_string(), "a.zip".to_string(), 1));
    assert!(store.persist_new(EntityKind::Item, "Y".to_string(), "b.zip".to_string(), 1));

    // Pass 1: both present.
    let (missing, restored) = store.reconcile(EntityKind::Item, &ids(&["X", "Y"]));
    assert!(missing.is_empty() && restored.is_empty());
    assert_eq!(store.count_available(EntityKind::Item), 2);

    // Pass 2: X is gone.
    let (missing, restored) = store.reconcile(EntityKind::Item, &ids(&["Y"]));
    assert_eq!(missing, ids(&["X"]));
    assert!(restored.is_empty());
    assert!(!store.records()[0].available);
    assert_eq!(store.count_available(EntityKind::Item), 1);

    // Pass 3: X is back, with the same id.
    let (missing, restored) = store.reconcile(EntityKind::Item, &ids(&["X", "Y"]));
    assert!(missing.is_empty());
    assert_eq!(restored, ids(&["X"]));
    assert!(store.records()[0].available);
    assert_eq!(store.resolve(EntityKind::Item, "a.zip", 1), Some("X".to_string()));
}

#[test]
fn reconcile_leaves_other_kind_alone() {
    let mut store = IdentityStore::new();
    assert!(store.persist_new(EntityKind::Container, "T".to_string(), "t".to_string(), 1));
    let (missing, _) = store.reconcile(EntityKind::Item, &Vec::new());
    assert!(missing.is_empty());
    assert_eq!(store.count_available(EntityKind::Container), 1);
}

#[test]
fn from_records_rejects_duplicate_paths() {
    let rec = |id: &str, path: &str| IdentityRecord {
        id: id.to_string(),
        path: path.to_string(),
        signature: 0,
        kind: EntityKind::Item,
        available: true,
    };
    assert!(IdentityStore::from_records(vec![rec("a", "p"), rec("b", "q")]).is_some());
    assert!(IdentityStore::from_records(vec![rec("a", "p"), rec("b", "p")]).is_none());
    assert!(IdentityStore::from_records(vec![rec("a", "p"), rec("a", "q")]).is_none());
}

#[test]
fn persist_all_counts_accepted() {
    let mut store = IdentityStore::new();
    let pending = vec![
        NewIdentity { id: "1".to_string(), path: "a".to_string(), signature: 1 },
        NewIdentity { id: "2".to_string(), path: "a".to_string(), signature: 2 },
        NewIdentity { id: "3".to_string(), path: "b".to_string(), signature: 3 },
    ];
    assert_eq!(store.persist_all(EntityKind::Item, pending), 2);
    assert_eq!(store.records().len(), 2);
}

#[test]
fn chunks_are_bounded_and_ordered() {
    let all: Vec<String> = (0..1234).map(|i| format!("id{}", i)).collect();
    let chunks = chunk_ids(&all, 500);
    assert_eq!(chunks.len(), 3);
    assert_eq!(chunks[0].len(), 500);
    assert_eq!(chunks[2].len(), 234);
    let joined: Vec<String> = chunks.concat();
    assert_eq!(joined, all);
    assert!(chunk_ids(&Vec::new(), 500).is_empty());
}
