use bale::archive::model::Archive;
use bale::check::{check, CheckIssue};
use bale::compact::{compact, rename_duplicates};

fn synced_bytes(entries: &[(&str, &[u8], u32)]) -> Vec<u8> {
    let mut writer = Archive::create();
    for (name, data, mode) in entries {
        writer.add_entry(name, data, *mode).unwrap();
    }
    writer.sync().unwrap();
    writer.into_bytes()
}

#[test]
fn check_valid_compacted_archive() {
    let bytes = synced_bytes(&[("a.txt", b"hello", 0o644), ("b.txt", b"world", 0o644)]);
    let (compacted, _) = compact(bytes).unwrap();
    let report = check(compacted.into_bytes()).unwrap();
    assert!(report.issues.is_empty());
    assert!(report.is_compacted);
}

#[test]
fn check_not_compacted_with_duplicates() {
    let bytes = synced_bytes(&[("a.txt", b"v1", 0o644), ("a.txt", b"v2", 0o644)]);
    let report = check(bytes).unwrap();
    assert!(!report.is_compacted);
    assert!(!report.issues.is_empty());
}

#[test]
fn check_duplicate_paths() {
    let bytes = synced_bytes(&[("file.txt", b"v1", 0o644), ("file.txt", b"v2", 0o644)]);
    let report = check(bytes).unwrap();
    assert!(!report.is_compacted);
    assert!(
        report
            .issues
            .iter()
            .any(|i| matches!(i, CheckIssue::DuplicatePath(p) if p == "file.txt"))
    );
}

#[test]
fn check_orphaned_data() {
    let bytes = synced_bytes(&[("file.txt", b"version 1", 0o644), ("file.txt", b"version 2", 0o644)]);
    let (renamed, _) = rename_duplicates(bytes).unwrap();
    let report = check(renamed.into_bytes()).unwrap();
    let has_orphaned = report.issues.iter().any(|i| matches!(i, CheckIssue::OrphanedData));
    assert!(!report.is_compacted || !has_orphaned);
}

#[test]
fn check_issue_display_formatting() {
    assert_eq!(CheckIssue::MetadataCrc("CRC mismatch".to_string()).to_string(), "CRC mismatch");
    assert_eq!(
        CheckIssue::EntryCrc { path: "file.txt".to_string(), detail: "bad CRC".to_string() }
            .to_string(),
        "'file.txt': bad CRC"
    );
    assert_eq!(
        CheckIssue::InvalidPath { path: "../evil".to_string(), detail: "traversal".to_string() }
            .to_string(),
        "'../evil': traversal"
    );
    assert_eq!(CheckIssue::Unsorted.to_string(), "directory table is not sorted by path");
    assert_eq!(
        CheckIssue::DuplicatePath("dup.txt".to_string()).to_string(),
        "Duplicate path: 'dup.txt'"
    );
    assert_eq!(
        CheckIssue::OrphanedData.to_string(),
        "Archive contains orphaned data (run 'bale compact' to reclaim)"
    );
}

#[test]
fn check_reports_corrupted_entry_crc() {
    let mut bytes = synced_bytes(&[("a.txt", b"hello", 0o644)]);
    // The data block of the only entry starts at the first alignment boundary.
    bytes[4096] ^= 0xFF;
    let report = check(bytes).unwrap();
    assert!(report.issues.iter().any(|i| matches!(i, CheckIssue::EntryCrc { path, .. } if path == "a.txt")));
}
