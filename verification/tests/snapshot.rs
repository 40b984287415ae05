use rust_finder::entry::{EntryKind, EntryRecord, Timestamp};
use rust_finder::snapshot::{
    entry_from_record, load_index, record_from_entry, restore_index, save_index, SnapshotDetails,
    SnapshotEntry,
};
use rust_finder::store::IndexStore;

fn sample_store() -> IndexStore {
    let mut store = IndexStore::new();
    store.insert(EntryRecord::new(
        "Report.pdf".to_string(),
        "/home/Report.pdf".to_string(),
        1234,
        EntryKind::File,
        Some(Timestamp { secs: 1_700_000_000, nanos: 123_456_789 }),
    ));
    store.insert(EntryRecord::new(
        "Library".to_string(),
        "/home/Library".to_string(),
        0,
        EntryKind::Directory,
        None,
    ));
    store.insert(EntryRecord::new(
        "link".to_string(),
        "/home/link".to_string(),
        u64::MAX,
        EntryKind::Unknown,
        Some(Timestamp { secs: 0, nanos: 0 }),
    ));
    store
}

fn entry(name: &str, path: &str, tag: &str) -> SnapshotEntry {
    SnapshotEntry {
        name: name.to_string(),
        details: SnapshotDetails {
            file_path: path.to_string(),
            file_size: 5,
            file_type: tag.to_string(),
            creation_date: None,
            file_extension: "x".to_string(),
        },
    }
}

#[test]
fn kind_tags_are_file_directory_unknown() {
    assert_eq!(EntryKind::File.tag(), "file");
    assert_eq!(EntryKind::Directory.tag(), "directory");
    assert_eq!(EntryKind::Unknown.tag(), "unknown");
}

#[test]
fn tags_are_read_back_as_kinds() {
    assert_eq!(EntryKind::from_tag("file"), EntryKind::File);
    assert_eq!(EntryKind::from_tag("directory"), EntryKind::Directory);
    assert_eq!(EntryKind::from_tag("unknown"), EntryKind::Unknown);
    assert_eq!(EntryKind::from_tag("File"), EntryKind::Unknown);
    assert_eq!(EntryKind::from_tag(""), EntryKind::Unknown);
    assert_eq!(EntryKind::from_tag("symlink"), EntryKind::Unknown);
    for kind in [EntryKind::File, EntryKind::Directory, EntryKind::Unknown] {
        assert_eq!(EntryKind::from_tag(kind.tag()), kind);
    }
}

#[test]
fn snapshot_entry_carries_every_field() {
    let store = sample_store();
    let entry = entry_from_record(store.get("Report.pdf").unwrap());
    assert_eq!(entry.name, "Report.pdf");
    assert_eq!(entry.details.file_path, "/home/Report.pdf");
    assert_eq!(entry.details.file_size, 1234);
    assert_eq!(entry.details.file_type, "file");
    assert_eq!(entry.details.creation_date, Some(Timestamp { secs: 1_700_000_000, nanos: 123_456_789 }));
    assert_eq!(entry.details.file_extension, "pdf");
    let record = record_from_entry(&entry);
    assert_eq!(record.name, "Report.pdf");
    assert_eq!(record.kind, EntryKind::File);
    assert_eq!(record.extension, "pdf");
}

#[test]
fn save_then_load_gives_the_store_back() {
    let store = sample_store();
    let loaded = load_index(Some(save_index(&store)));
    assert_eq!(loaded.len(), store.len());
    for (before, after) in store.records().iter().zip(loaded.records().iter()) {
        assert_eq!(after.name, before.name);
        assert_eq!(after.path, before.path);
        assert_eq!(after.size, before.size);
        assert_eq!(after.kind, before.kind);
        assert_eq!(after.created_at, before.created_at);
        assert_eq!(after.extension, before.extension);
    }
    assert_eq!(loaded.get("Library").unwrap().created_at, None);
    assert_eq!(loaded.get("link").unwrap().size, u64::MAX);
}

#[test]
fn snapshot_has_one_entry_per_record_in_store_order() {
    let snapshot = save_index(&sample_store());
    let names: Vec<&str> = snapshot.iter().map(|e| e.name.as_str()).collect();
    assert_eq!(names, vec!["Report.pdf", "Library", "link"]);
    let tags: Vec<&str> = snapshot.iter().map(|e| e.details.file_type.as_str()).collect();
    assert_eq!(tags, vec!["file", "directory", "unknown"]);
    assert!(save_index(&IndexStore::new()).is_empty());
}

#[test]
fn missing_or_corrupt_snapshot_loads_as_an_empty_store() {
    let store = load_index(None);
    assert!(store.is_empty());
    let store = load_index(Some(Vec::new()));
    assert!(store.is_empty());
}

#[test]
fn later_snapshot_entry_with_the_same_name_wins() {
    let snapshot = vec![entry("a", "/1/a", "file"), entry("b", "/1/b", "directory"), entry("a", "/2/a", "weird")];
    let store = restore_index(&snapshot);
    assert_eq!(store.len(), 2);
    assert_eq!(store.get("a").unwrap().path, "/2/a");
    assert_eq!(store.get("a").unwrap().kind, EntryKind::Unknown);
    assert_eq!(store.get("b").unwrap().kind, EntryKind::Directory);
    assert_eq!(store.records()[0].name, "a");
}
