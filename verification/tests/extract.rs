use bale::add::{add, AddFile};
use bale::archive::Archive;
use bale::delete::delete_entries;
use bale::extract::extract;
use bale::BaleError;

fn archive_with(files: &[(&str, &[u8], u32)]) -> Archive {
    let mut writer = Archive::create();
    for (path, data, mode) in files {
        writer.add_entry(path, data, *mode).unwrap();
    }
    writer.sync().unwrap();
    Archive::open(writer.into_bytes()).unwrap()
}

fn names(v: &[&str]) -> Vec<String> {
    v.iter().map(|s| s.to_string()).collect()
}

#[test]
fn extract_all_entries() {
    let archive = archive_with(&[("a.txt", b"hello", 0o644), ("b.txt", b"world", 0o644)]);
    let extracted = extract(&archive, &Vec::new()).unwrap();
    assert_eq!(extracted.len(), 2);
    assert_eq!(extracted[0].0, "a.txt");
    assert_eq!(extracted[0].2, b"hello");
    assert_eq!(extracted[1].0, "b.txt");
    assert_eq!(extracted[1].2, b"world");
}

#[test]
fn extract_specific_entries() {
    let archive = archive_with(&[
        ("a.txt", b"hello", 0o644),
        ("b.txt", b"world", 0o644),
        ("c.txt", b"skip", 0o644),
    ]);
    let extracted = extract(&archive, &names(&["a.txt", "b.txt"])).unwrap();
    assert_eq!(extracted.len(), 2);
    assert_eq!(extracted[0].0, "a.txt");
    assert_eq!(extracted[0].2, b"hello");
    assert_eq!(extracted[1].0, "b.txt");
    assert_eq!(extracted[1].2, b"world");
    assert!(extracted.iter().all(|(p, _, _)| p != "c.txt"));
}

#[test]
fn extract_missing_entry_error() {
    let archive = archive_with(&[("a.txt", b"hello", 0o644)]);
    let result = extract(&archive, &names(&["missing.txt"]));
    assert!(result.is_err());
    assert!(matches!(result.unwrap_err(), BaleError::EntryNotFound));
}

#[test]
fn extract_creates_parent_dirs() {
    let archive = archive_with(&[("foo/bar/baz.txt", b"nested", 0o644)]);
    let extracted = extract(&archive, &Vec::new()).unwrap();
    let paths: Vec<&str> = extracted.iter().map(|(p, _, _)| p.as_str()).collect();
    assert_eq!(paths, vec!["foo/bar/baz.txt"]);
    assert_eq!(extracted[0].2, b"nested");
}

#[test]
fn extract_preserves_unix_permissions() {
    let archive = archive_with(&[("exec.sh", b"#!/bin/bash", 0o755)]);
    let extracted = extract(&archive, &Vec::new()).unwrap();
    assert_eq!(extracted[0].1.mode & 0o777, 0o755);
}

#[test]
fn extract_takes_first_entry_of_a_name_once() {
    // Names asked for twice still match one entry.
    let archive = archive_with(&[("a.txt", b"one", 0o644), ("b.txt", b"two", 0o644)]);
    let extracted = extract(&archive, &names(&["b.txt", "b.txt"])).unwrap();
    assert_eq!(extracted.len(), 1);
    assert_eq!(extracted[0].0, "b.txt");
    assert_eq!(extracted[0].2, b"two");
}

#[test]
fn extract_one_missing_among_found_fails() {
    let archive = archive_with(&[("a.txt", b"one", 0o644)]);
    let result = extract(&archive, &names(&["a.txt", "nope"]));
    assert_eq!(result.unwrap_err(), BaleError::EntryNotFound);
}

#[test]
fn extract_empty_archive_is_empty() {
    let archive = archive_with(&[]);
    assert!(extract(&archive, &Vec::new()).unwrap().is_empty());
}

fn file(name: &str, data: &[u8]) -> AddFile {
    AddFile {
        name: name.to_string(),
        data: data.to_vec(),
        mode: 0o100644,
        modified_time: Some(0),
    }
}

#[test]
fn add_files() {
    let mut archive = Archive::create();
    archive.sync().unwrap();
    let added = add(&mut archive, "", &vec![file("a.txt", b"hello"), file("b.txt", b"world")]).unwrap();
    assert_eq!(added, vec!["a.txt", "b.txt"]);

    let reader = Archive::open(archive.into_bytes()).unwrap();
    assert_eq!(reader.entry_count(), 2);
    let entry = reader.find_entry("a.txt").unwrap();
    assert_eq!(reader.read_data(entry).unwrap(), b"hello");
    let entry = reader.find_entry("b.txt").unwrap();
    assert_eq!(reader.read_data(entry).unwrap(), b"world");
}

#[test]
fn add_with_prefix() {
    let mut archive = Archive::create();
    archive.sync().unwrap();
    let added = add(&mut archive, "sub/dir", &vec![file("file.txt", b"data")]).unwrap();
    assert_eq!(added, vec!["sub/dir/file.txt"]);

    let reader = Archive::open(archive.into_bytes()).unwrap();
    let entry = reader.find_entry("sub/dir/file.txt").unwrap();
    assert_eq!(reader.read_data(entry).unwrap(), b"data");
}

#[test]
fn add_returns_correct_paths() {
    let mut archive = Archive::create();
    archive.sync().unwrap();
    let added = add(&mut archive, "prefix", &vec![file("x.txt", b"x"), file("y.txt", b"y")]).unwrap();
    assert_eq!(added, vec!["prefix/x.txt", "prefix/y.txt"]);
}

#[test]
fn delete_entries_reports_each_name() {
    let mut archive = archive_with(&[("a.txt", b"1", 0o644), ("b.txt", b"2", 0o644)]);
    let (found, outcome) = delete_entries(&mut archive, &names(&["a.txt", "zzz", "a.txt"]), false);
    assert_eq!(found, vec![true, false, false]);
    assert_eq!(outcome, Ok(()));
    let reader = Archive::open(archive.into_bytes()).unwrap();
    assert_eq!(reader.entry_count(), 1);
    assert!(reader.find_entry("a.txt").is_none());
    assert!(reader.find_entry("b.txt").is_some());
}

#[test]
fn delete_entries_nothing_found_fails_unless_ignored() {
    let mut archive = archive_with(&[("a.txt", b"1", 0o644)]);
    let (found, outcome) = delete_entries(&mut archive, &names(&["x", "y"]), false);
    assert_eq!(found, vec![false, false]);
    assert_eq!(outcome, Err(BaleError::EntryNotFound));

    let (found, outcome) = delete_entries(&mut archive, &names(&["x"]), true);
    assert_eq!(found, vec![false]);
    assert_eq!(outcome, Ok(()));
    assert_eq!(archive.entry_count(), 1);
}
