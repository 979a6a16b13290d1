use bale::archive::Archive;
use bale::archive_path::ArchivePath;
use bale::compact::{compact, rename_duplicates};
use bale::EntryKind;

fn synced(entries: &[(&str, &[u8], u32)]) -> Vec<u8> {
    let mut a = Archive::create();
    for (path, data, mode) in entries {
        a.add_entry(path, data, *mode).unwrap();
    }
    a.sync().unwrap();
    a.into_bytes()
}

fn reopen(a: Archive) -> Archive {
    Archive::open(a.into_bytes()).unwrap()
}

fn listed_paths(a: &Archive) -> Vec<String> {
    a.entries()
        .iter()
        .map(|(_, p)| ArchivePath::from_null_padded_bytes(p).to_str_checked().unwrap().to_owned())
        .collect()
}

#[test]
fn compact_empty_archive() {
    let (a, stats) = compact(synced(&[])).unwrap();
    assert_eq!(stats.entries_removed, 0);
    assert_eq!(reopen(a).entry_count(), 0);
}

#[test]
fn compact_removes_duplicates() {
    let bytes = synced(&[("file.txt", b"original", 0o644), ("file.txt", b"updated", 0o644), ("other.txt", b"other", 0o644)]);
    let original_size = bytes.len() as u64;
    let (a, stats) = compact(bytes).unwrap();
    assert_eq!(stats.entries_removed, 1);
    assert!(stats.compacted_size < original_size);
    let reader = reopen(a);
    assert_eq!(reader.entry_count(), 2);
    let entry = reader.find_entry("file.txt").unwrap();
    assert_eq!(reader.read_data(entry).unwrap(), b"updated");
}

#[test]
fn compact_sorts_entries() {
    let (a, _) = compact(synced(&[("c.txt", b"c", 0o644), ("a.txt", b"a", 0o644), ("b.txt", b"b", 0o644)])).unwrap();
    let reader = reopen(a);
    assert_eq!(listed_paths(&reader), vec!["a.txt", "b.txt", "c.txt"]);
}

#[test]
fn compact_preserves_mode() {
    let (a, _) = compact(synced(&[("exec.sh", b"#!/bin/bash", 0o755), ("data.txt", b"data", 0o644)])).unwrap();
    let reader = reopen(a);
    assert_eq!(reader.find_entry("exec.sh").unwrap().mode, 0o755);
    assert_eq!(reader.find_entry("data.txt").unwrap().mode, 0o644);
}

#[test]
fn insert_suffix_with_extension() {
    assert_eq!(ArchivePath::from_bytes(b"file.txt").with_suffix(1).unwrap().as_str(), Some("file(1).txt"));
    assert_eq!(ArchivePath::from_bytes(b"image.png").with_suffix(2).unwrap().as_str(), Some("image(2).png"));
    assert_eq!(ArchivePath::from_bytes(b"archive.tar.gz").with_suffix(3).unwrap().as_str(), Some("archive.tar(3).gz"));
}

#[test]
fn insert_suffix_no_extension() {
    assert_eq!(ArchivePath::from_bytes(b"README").with_suffix(1).unwrap().as_str(), Some("README(1)"));
    assert_eq!(ArchivePath::from_bytes(b"Makefile").with_suffix(5).unwrap().as_str(), Some("Makefile(5)"));
}

#[test]
fn insert_suffix_directory_with_dot() {
    assert_eq!(ArchivePath::from_bytes(b"foo.d/bar").with_suffix(1).unwrap().as_str(), Some("foo.d/bar(1)"));
    assert_eq!(ArchivePath::from_bytes(b"foo.d/bar.txt").with_suffix(2).unwrap().as_str(), Some("foo.d/bar(2).txt"));
    assert_eq!(ArchivePath::from_bytes(b"a.b/c.d/file.ext").with_suffix(3).unwrap().as_str(), Some("a.b/c.d/file(3).ext"));
}

#[test]
fn rename_duplicates_no_duplicates() {
    let (a, stats) = rename_duplicates(synced(&[("a.txt", b"a", 0o644), ("b.txt", b"b", 0o644)])).unwrap();
    assert_eq!(stats.entries_renamed, 0);
    assert!(stats.renames.is_empty());
    assert_eq!(reopen(a).entry_count(), 2);
}

#[test]
fn rename_duplicates_renames_earlier() {
    let (a, stats) = rename_duplicates(synced(&[
        ("file.txt", b"version 1", 0o644),
        ("file.txt", b"version 2", 0o644),
        ("file.txt", b"version 3", 0o644),
    ]))
    .unwrap();
    assert_eq!(stats.entries_renamed, 2);
    assert!(stats.renames.contains(&("file.txt".to_string(), "file(1).txt".to_string())));
    assert!(stats.renames.contains(&("file.txt".to_string(), "file(2).txt".to_string())));
    let reader = reopen(a);
    assert_eq!(reader.entry_count(), 3);
    assert_eq!(reader.read_data(reader.find_entry("file.txt").unwrap()).unwrap(), b"version 3");
    assert_eq!(reader.read_data(reader.find_entry("file(1).txt").unwrap()).unwrap(), b"version 1");
    assert_eq!(reader.read_data(reader.find_entry("file(2).txt").unwrap()).unwrap(), b"version 2");
}

#[test]
fn rename_duplicates_sorts_entries() {
    let (a, _) = rename_duplicates(synced(&[("z.txt", b"z1", 0o644), ("z.txt", b"z2", 0o644), ("a.txt", b"a", 0o644)])).unwrap();
    assert_eq!(listed_paths(&reopen(a)), vec!["a.txt", "z(1).txt", "z.txt"]);
}

#[test]
fn compact_all_duplicates() {
    let (a, stats) = compact(synced(&[("file.txt", b"v1", 0o644), ("file.txt", b"v2", 0o644), ("file.txt", b"v3", 0o644)])).unwrap();
    assert_eq!(stats.entries_removed, 2);
    let reader = reopen(a);
    assert_eq!(reader.entry_count(), 1);
    assert_eq!(reader.read_data(reader.find_entry("file.txt").unwrap()).unwrap(), b"v3");
}

#[test]
fn compact_preserves_hard_links() {
    let mut w = Archive::create();
    w.add_entry("original.txt", b"shared data", 0o100644).unwrap();
    w.hard_link("original.txt", "link.txt").unwrap();
    w.sync().unwrap();
    let (a, _) = compact(w.into_bytes()).unwrap();
    let reader = reopen(a);
    let orig = reader.file("original.txt").unwrap();
    let link = reader.file("link.txt").unwrap();
    assert_eq!(orig.data, b"shared data");
    assert_eq!(link.data, b"shared data");
    assert_eq!(orig.id, link.id, "hard links should share entry ID");
    assert_eq!(reader.entry_count(), 1, "should have single entry row");
}

#[test]
fn compact_preserves_multiple_hard_links() {
    let mut w = Archive::create();
    w.add_entry("original.txt", b"shared data", 0o100644).unwrap();
    w.hard_link("original.txt", "link1.txt").unwrap();
    w.hard_link("original.txt", "link2.txt").unwrap();
    w.hard_link("original.txt", "link3.txt").unwrap();
    w.sync().unwrap();
    let (a, _) = compact(w.into_bytes()).unwrap();
    let reader = reopen(a);
    let orig = reader.file("original.txt").unwrap();
    for name in ["link1.txt", "link2.txt", "link3.txt"] {
        let link = reader.file(name).unwrap();
        assert_eq!(link.data, b"shared data");
        assert_eq!(orig.id, link.id);
    }
    assert_eq!(orig.data, b"shared data");
    assert_eq!(reader.entry_count(), 1);
}

#[test]
fn compact_handles_symlinks() {
    let mut w = Archive::create();
    w.add_entry("target.txt", b"target data", 0o100644).unwrap();
    w.add_symlink("mylink", "target.txt", 0o777).unwrap();
    w.sync().unwrap();
    let (a, _) = compact(w.into_bytes()).unwrap();
    let reader = reopen(a);
    let entry = reader.find_entry("mylink").unwrap();
    assert_eq!(entry.kind(), EntryKind::Symlink);
    assert_eq!(entry.mode & 0o170000, 0o120000);
    assert_eq!(reader.read_data(entry).unwrap(), b"target.txt");
}

#[test]
fn compact_creates_implicit_directories() {
    let (a, _) = compact(synced(&[("a/b/file.txt", b"nested", 0o100644)])).unwrap();
    let reader = reopen(a);
    assert_eq!(reader.find_entry("a").unwrap().kind(), EntryKind::Directory);
    assert_eq!(reader.find_entry("a/b").unwrap().kind(), EntryKind::Directory);
    assert_eq!(reader.file("a/b/file.txt").unwrap().data, b"nested");
}

#[test]
fn rename_duplicates_suffix_format() {
    let (a, stats) = rename_duplicates(synced(&[
        ("doc.md", b"first", 0o644),
        ("doc.md", b"second", 0o644),
        ("doc.md", b"third", 0o644),
        ("doc.md", b"fourth", 0o644),
    ]))
    .unwrap();
    assert_eq!(stats.entries_renamed, 3);
    let reader = reopen(a);
    assert_eq!(reader.entry_count(), 4);
    assert_eq!(reader.read_data(reader.find_entry("doc.md").unwrap()).unwrap(), b"fourth");
    assert_eq!(reader.read_data(reader.find_entry("doc(1).md").unwrap()).unwrap(), b"first");
    assert_eq!(reader.read_data(reader.find_entry("doc(2).md").unwrap()).unwrap(), b"second");
    assert_eq!(reader.read_data(reader.find_entry("doc(3).md").unwrap()).unwrap(), b"third");
}

#[test]
fn compact_preserves_timestamps() {
    let bytes = synced(&[("a.txt", b"aaa", 0o644), ("b.txt", b"bbb", 0o644)]);
    let (a_created, a_modified, b_created, b_modified) = {
        let reader = Archive::open(bytes.clone()).unwrap();
        let a = reader.find_entry("a.txt").unwrap();
        let b = reader.find_entry("b.txt").unwrap();
        (a.created_time, a.modified_time, b.created_time, b.modified_time)
    };
    let (a, _) = compact(bytes).unwrap();
    let reader = reopen(a);
    let a = reader.find_entry("a.txt").unwrap();
    let b = reader.find_entry("b.txt").unwrap();
    assert_eq!(a.created_time, a_created);
    assert_eq!(a.modified_time, a_modified);
    assert_eq!(b.created_time, b_created);
    assert_eq!(b.modified_time, b_modified);
}

#[test]
fn rename_duplicates_preserves_timestamps() {
    let bytes = synced(&[("file.txt", b"version 1", 0o644), ("file.txt", b"version 2", 0o644)]);
    let before: Vec<(i64, i64)> = Archive::open(bytes.clone())
        .unwrap()
        .entries()
        .iter()
        .map(|(row, _)| (row.created_time, row.modified_time))
        .collect();
    assert_eq!(before.len(), 2);
    let (a, _) = rename_duplicates(bytes).unwrap();
    let reader = reopen(a);
    let renamed = reader.find_entry("file(1).txt").unwrap();
    let original = reader.find_entry("file.txt").unwrap();
    assert_eq!(renamed.created_time, before[0].0);
    assert_eq!(renamed.modified_time, before[0].1);
    assert_eq!(original.created_time, before[1].0);
    assert_eq!(original.modified_time, before[1].1);
}

#[test]
fn rename_duplicates_without_duplicates_changes_nothing() {
    let bytes = synced(&[("a.txt", b"1", 0o100644), ("b.txt", b"2", 0o100644)]);
    let (archive, stats) = rename_duplicates(bytes.clone()).unwrap();
    assert_eq!(stats.entries_renamed, 0);
    assert!(stats.renames.is_empty());
    assert_eq!(archive.into_bytes(), bytes);
}

#[test]
fn rename_count_is_entries_less_distinct_paths() {
    let (_a, stats) = rename_duplicates(synced(&[
        ("a.txt", b"1", 0o644),
        ("b.txt", b"2", 0o644),
        ("a.txt", b"3", 0o644),
        ("c.txt", b"4", 0o644),
        ("b.txt", b"5", 0o644),
        ("b.txt", b"6", 0o644),
    ]))
    .unwrap();
    assert_eq!(stats.entries_renamed, 3);
    assert_eq!(stats.renames.len(), 3);
}
