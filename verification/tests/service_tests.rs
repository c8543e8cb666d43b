use gos::codec::decode;
use gos::paths::{resolve, LayoutMode};
use gos::record::StoreError;
use gos::service::{GosService, VprService};
use gos::store::FileEntry;

#[test]
fn health_replies() {
    let gos = GosService::new(b"/patient_data".to_vec(), LayoutMode::Sharded);
    let r = gos.health();
    assert!(r.ok);
    assert_eq!(r.message, "GOS is alive");

    let vpr = VprService::new(b"/patient_data/patients".to_vec(), LayoutMode::Flat);
    let r = vpr.health();
    assert!(r.ok);
    assert_eq!(r.message, "VPR is alive");
}

#[test]
fn create_scenario_ada_lovelace() {
    let svc = GosService::new(b"/patient_data".to_vec(), LayoutMode::Sharded);
    let mut files: Vec<FileEntry> = Vec::new();

    let before = chrono::Utc::now();
    let c = svc
        .create_patient(&mut files, &b"  Ada ".to_vec(), &b"Lovelace".to_vec())
        .unwrap();
    let after = chrono::Utc::now();

    assert_eq!(c.record.first_name, b"Ada".to_vec());
    assert_eq!(c.record.last_name, b"Lovelace".to_vec());
    assert!(!c.record.id.is_empty());

    let stamp = String::from_utf8(c.record.created_at.clone()).unwrap();
    let parsed = chrono::DateTime::parse_from_rfc3339(&stamp).unwrap();
    assert!(parsed >= before && parsed <= after);

    // the file at the resolved path reproduces the same fields plus the id
    let expected_path = resolve(&svc.store.root, svc.store.mode, &c.record.id);
    assert_eq!(files.len(), 1);
    assert_eq!(files[0].path, expected_path);
    let stored = decode(&files[0].contents).unwrap();
    assert_eq!(stored.id, c.record.id);
    assert_eq!(stored.first_name, b"Ada".to_vec());
    assert_eq!(stored.last_name, b"Lovelace".to_vec());
    assert_eq!(stored.created_at, c.record.created_at);
}

#[test]
fn service_validation_errors() {
    let svc = VprService::new(b"/patient_data/patients".to_vec(), LayoutMode::Flat);
    let mut files: Vec<FileEntry> = Vec::new();
    let r = svc.create_patient(&mut files, &b"  ".to_vec(), &b"Lovelace".to_vec());
    assert_eq!(r.unwrap_err(), StoreError::Validation);
    assert!(files.is_empty());
}

#[test]
fn vpr_create_then_list() {
    let svc = VprService::new(b"/patient_data/patients".to_vec(), LayoutMode::Flat);
    let mut files: Vec<FileEntry> = Vec::new();
    svc.create_patient(&mut files, &b"Grace".to_vec(), &b"Hopper".to_vec())
        .unwrap();
    svc.create_patient(&mut files, &b"Alan".to_vec(), &b"Turing".to_vec())
        .unwrap();
    let listed = svc.list_patients(&files);
    assert_eq!(listed.len(), 2);
    let names: Vec<String> = listed
        .iter()
        .map(|r| String::from_utf8(r.first_name.clone()).unwrap())
        .collect();
    assert!(names.contains(&"Grace".to_string()));
    assert!(names.contains(&"Alan".to_string()));
}
