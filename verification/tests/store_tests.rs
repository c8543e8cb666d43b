use std::collections::HashSet;

use gos::codec::decode;
use gos::paths::{record_dir, resolve, LayoutMode};
use gos::record::StoreError;
use gos::store::{FileEntry, RecordStore};

fn sharded_store() -> RecordStore {
    RecordStore::new(b"/patient_data".to_vec(), LayoutMode::Sharded)
}

fn flat_store() -> RecordStore {
    RecordStore::new(b"/patient_data/patients".to_vec(), LayoutMode::Flat)
}

#[test]
fn validation_rejects_empty_names() {
    let store = sharded_store();
    let cases: [(&[u8], &[u8]); 5] = [
        (b"", b"Lovelace"),
        (b"Ada", b""),
        (b"   ", b"Lovelace"),
        (b"Ada", b" \t\n"),
        (b"", b""),
    ];
    for (first, last) in cases {
        let mut files: Vec<FileEntry> = Vec::new();
        let r = store.create(&mut files, &first.to_vec(), &last.to_vec());
        assert_eq!(r.unwrap_err(), StoreError::Validation);
        assert!(files.is_empty(), "a rejected create touched the storage");
    }
}

#[test]
fn identifiers_are_distinct() {
    let store = flat_store();
    let mut files: Vec<FileEntry> = Vec::new();
    let mut seen: HashSet<Vec<u8>> = HashSet::new();
    for _ in 0..2000 {
        let c = store
            .create(&mut files, &b"Ada".to_vec(), &b"Lovelace".to_vec())
            .unwrap();
        assert!(seen.insert(c.record.id.clone()), "an identifier repeated");
    }
    assert_eq!(files.len(), 2000);
}

#[test]
fn create_then_list_round_trip() {
    let store = flat_store();
    let mut files: Vec<FileEntry> = Vec::new();
    let created = store
        .create(&mut files, &b"  Alan ".to_vec(), &b" Turing".to_vec())
        .unwrap();
    let listed = store.list(&files);
    let matching: Vec<_> = listed
        .iter()
        .filter(|r| r.first_name == b"Alan".to_vec() && r.last_name == b"Turing".to_vec())
        .collect();
    assert_eq!(matching.len(), 1);
    assert_eq!(matching[0].id, created.record.id);
    let stamp = String::from_utf8(matching[0].created_at.clone()).unwrap();
    assert!(chrono::DateTime::parse_from_rfc3339(&stamp).is_ok());
}

#[test]
fn resolver_is_deterministic() {
    let root = b"/data".to_vec();
    let id = b"0123456789abcdef0123456789abcdef".to_vec();
    let once = resolve(&root, LayoutMode::Sharded, &id);
    let twice = resolve(&root, LayoutMode::Sharded, &id);
    assert_eq!(once, twice);
    let f_once = resolve(&root, LayoutMode::Flat, &id);
    let f_twice = resolve(&root, LayoutMode::Flat, &id);
    assert_eq!(f_once, f_twice);
}

#[test]
fn resolver_exact_paths() {
    let root = b"/data".to_vec();
    let id = b"0123456789abcdef0123456789abcdef".to_vec();
    let sharded = resolve(&root, LayoutMode::Sharded, &id);
    assert_eq!(
        String::from_utf8(sharded).unwrap(),
        "/data/01/23/0123456789abcdef0123456789abcdef/demographics.json"
    );
    let dir = record_dir(&root, LayoutMode::Sharded, &id);
    assert_eq!(
        String::from_utf8(dir).unwrap(),
        "/data/01/23/0123456789abcdef0123456789abcdef"
    );
    let flat = resolve(&root, LayoutMode::Flat, &b"abc-def".to_vec());
    assert_eq!(String::from_utf8(flat).unwrap(), "/data/abc-def.json");
    let flat_dir = record_dir(&root, LayoutMode::Flat, &b"abc-def".to_vec());
    assert_eq!(String::from_utf8(flat_dir).unwrap(), "/data");
}

#[test]
fn corrupt_entry_is_isolated() {
    let store = flat_store();
    let mut files: Vec<FileEntry> = Vec::new();
    store
        .create(&mut files, &b"Ada".to_vec(), &b"Lovelace".to_vec())
        .unwrap();
    files.push(FileEntry {
        path: b"/patient_data/patients/junk.json".to_vec(),
        contents: b"{ this is not a record }".to_vec(),
    });
    let listed = store.list(&files);
    assert_eq!(listed.len(), 1);
    assert_eq!(listed[0].first_name, b"Ada".to_vec());
}

#[test]
fn empty_root_lists_empty() {
    let store = flat_store();
    let files: Vec<FileEntry> = Vec::new();
    assert!(store.list(&files).is_empty());
}

#[test]
fn identifier_format_follows_mode() {
    let mut files: Vec<FileEntry> = Vec::new();
    let c = sharded_store()
        .create(&mut files, &b"Ada".to_vec(), &b"Lovelace".to_vec())
        .unwrap();
    assert_eq!(c.record.id.len(), 32);
    assert!(c
        .record
        .id
        .iter()
        .all(|&b| b.is_ascii_digit() || (b'a'..=b'f').contains(&b)));

    let c = flat_store()
        .create(&mut files, &b"Ada".to_vec(), &b"Lovelace".to_vec())
        .unwrap();
    assert_eq!(c.record.id.len(), 36);
    for (k, &b) in c.record.id.iter().enumerate() {
        if k == 8 || k == 13 || k == 18 || k == 23 {
            assert_eq!(b, b'-');
        } else {
            assert!(b.is_ascii_digit() || (b'a'..=b'f').contains(&b));
        }
    }
}

#[test]
fn create_writes_at_resolved_path() {
    let store = sharded_store();
    let mut files: Vec<FileEntry> = Vec::new();
    let c = store
        .create(&mut files, &b"Ada".to_vec(), &b"Lovelace".to_vec())
        .unwrap();
    assert_eq!(files.len(), 1);
    assert_eq!(files[0].path, c.path);
    let expected = resolve(&store.root, store.mode, &c.record.id);
    assert_eq!(c.path, expected);
    let stored = decode(&files[0].contents).unwrap();
    assert_eq!(stored.id, c.record.id);
}

#[test]
fn error_messages() {
    assert_eq!(StoreError::Validation.message(), "required field missing");
    assert_eq!(
        StoreError::StorageRoot.message(),
        "cannot prepare storage root"
    );
    assert_eq!(
        StoreError::RecordDir.message(),
        "cannot prepare record directory"
    );
    assert_eq!(StoreError::Persist.message(), "cannot persist record");
}

#[test]
fn prepare_create_plans_the_write() {
    let store = sharded_store();
    let plan = store
        .prepare_create(&b" Grace ".to_vec(), &b"Hopper".to_vec())
        .unwrap();
    assert_eq!(plan.record.first_name, b"Grace".to_vec());
    assert_eq!(plan.record.last_name, b"Hopper".to_vec());
    // the file goes into the planned directory
    let dir = String::from_utf8(plan.dir.clone()).unwrap();
    let path = String::from_utf8(plan.path.clone()).unwrap();
    assert_eq!(path, format!("{dir}/demographics.json"));
    assert!(dir.starts_with("/patient_data/"));
    // the planned bytes decode back to the planned record
    let stored = decode(&plan.contents).unwrap();
    assert_eq!(stored.id, plan.record.id);
    assert_eq!(stored.first_name, plan.record.first_name);
    assert_eq!(stored.last_name, plan.record.last_name);
    assert_eq!(stored.created_at, plan.record.created_at);
}

#[test]
fn prepare_create_rejects_blank_names() {
    let store = flat_store();
    let r = store.prepare_create(&b"\t ".to_vec(), &b"Hopper".to_vec());
    assert_eq!(r.unwrap_err(), StoreError::Validation);
}
