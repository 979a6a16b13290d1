use bale::archive::{Archive, OpenOptions};
use bale::{BaleError, EntryKind};

fn reopen(mut archive: Archive) -> Archive {
    archive.sync().unwrap();
    Archive::open(archive.into_bytes()).unwrap()
}

#[test]
fn writer_empty_archive() {
    let mut writer = Archive::create();
    assert_eq!(writer.entry_count(), 0);
    writer.sync().unwrap();
    let bytes = writer.into_bytes();
    // File header (8) + trailer (64).
    assert_eq!(bytes.len(), 72);

    let reader = Archive::open(bytes).unwrap();
    assert_eq!(reader.entry_count(), 0);
    assert!(reader.entries().is_empty());
    assert!(reader.is_sorted());
    assert!(reader.find_duplicates().is_empty());
    assert!(!reader.has_orphaned_data().unwrap());
}

#[test]
fn single_file_roundtrip() {
    let mut writer = Archive::create();
    writer.add_entry("hello.txt", b"Hello, world!", 0o100644).unwrap();
    assert_eq!(writer.entry_count(), 1);
    let reader = reopen(writer);
    assert_eq!(reader.entry_count(), 1);

    let entry = reader.find_entry("hello.txt").unwrap();
    assert_eq!(entry.file_size, 13);
    assert_eq!(entry.mode, 0o100644);
    assert_eq!(entry.kind(), EntryKind::File);
    assert_eq!(reader.read_data(entry).unwrap(), b"Hello, world!");
    reader.verify_crc(entry).unwrap();
}

#[test]
fn multiple_entries_sorted() {
    let mut writer = Archive::create();
    writer.add_entry("c.txt", b"ccc", 0o100644).unwrap();
    writer.add_entry("a.txt", b"aaa", 0o100644).unwrap();
    writer.add_entry("b.txt", b"bbb", 0o100644).unwrap();
    let reader = reopen(writer);
    assert_eq!(reader.entry_count(), 3);
    assert!(reader.is_sorted());
    assert!(reader.find_entry("a.txt").is_some());
    assert!(reader.find_entry("b.txt").is_some());
    assert!(reader.find_entry("c.txt").is_some());
    assert!(reader.find_entry("d.txt").is_none());
    assert_eq!(reader.read_data(reader.find_entry("a.txt").unwrap()).unwrap(), b"aaa");
    assert_eq!(reader.read_data(reader.find_entry("b.txt").unwrap()).unwrap(), b"bbb");
    assert_eq!(reader.read_data(reader.find_entry("c.txt").unwrap()).unwrap(), b"ccc");
}

#[test]
fn add_folder_creates_directory() {
    let mut writer = Archive::create();
    writer.add_directory("mydir", 0o755).unwrap();
    let reader = reopen(writer);
    let entry = reader.find_entry("mydir").unwrap();
    assert_eq!(entry.kind(), EntryKind::Directory);
    assert_eq!(entry.data_offset, 0);
    assert_eq!(entry.file_size, 0);
    let dir_entry = reader.folder("mydir").unwrap();
    assert_eq!(dir_entry.path().as_str(), Some("mydir"));
}

#[test]
fn add_symlink_creates_symlink() {
    let mut writer = Archive::create();
    writer.add_symlink("link", "target/path", 0o777).unwrap();
    let reader = reopen(writer);
    let entry = reader.find_entry("link").unwrap();
    assert_eq!(entry.kind(), EntryKind::Symlink);
    let symlink = reader.symlink("link").unwrap();
    assert_eq!(symlink.target(), Some("target/path"));
    assert_eq!(symlink.path().as_str(), Some("link"));
}

#[test]
fn delete_removes_entries() {
    let mut writer = Archive::create();
    writer.add_entry("keep.txt", b"keep", 0o100644).unwrap();
    writer.add_entry("remove.txt", b"remove", 0o100644).unwrap();
    assert!(writer.delete("remove.txt"));
    assert!(!writer.delete("nonexistent.txt"));
    let reader = reopen(writer);
    assert_eq!(reader.entry_count(), 1);
    assert!(reader.find_entry("keep.txt").is_some());
    assert!(reader.find_entry("remove.txt").is_none());
}

#[test]
fn shadowing_same_path_twice() {
    let mut writer = Archive::create();
    writer.add_entry("file.txt", b"version 1", 0o100644).unwrap();
    writer.add_entry("file.txt", b"version 2", 0o100644).unwrap();
    let reader = reopen(writer);
    let dupes = reader.find_duplicates();
    assert_eq!(dupes.len(), 1);
    assert_eq!(dupes[0].as_str(), Some("file.txt"));
    assert_eq!(reader.trailer().directory_entry_count, 2);
}

#[test]
fn open_existing_and_append() {
    let mut writer = Archive::create();
    writer.add_entry("first.txt", b"first", 0o100644).unwrap();
    let mut writer = reopen(writer);
    assert_eq!(writer.entry_count(), 1);
    writer.add_entry("second.txt", b"second", 0o100644).unwrap();
    let reader = reopen(writer);
    assert_eq!(reader.entry_count(), 2);
    let first = reader.find_entry("first.txt").unwrap();
    assert_eq!(reader.read_data(first).unwrap(), b"first");
    let second = reader.find_entry("second.txt").unwrap();
    assert_eq!(reader.read_data(second).unwrap(), b"second");
    assert!(reader.is_sorted());
}

#[test]
fn custom_mtime() {
    let mut writer = Archive::create();
    writer
        .add_entry_with_mtime("timestamped.txt", b"data", 0o100644, Some(1_700_000_000_000))
        .unwrap();
    let reader = reopen(writer);
    let entry = reader.find_entry("timestamped.txt").unwrap();
    assert_eq!(entry.modified_time, 1_700_000_000_000);
}

#[test]
fn crc_verification() {
    let mut writer = Archive::create();
    writer.add_entry("data.bin", b"binary content here", 0o100644).unwrap();
    let reader = reopen(writer);
    let entry = reader.find_entry("data.bin").unwrap();
    reader.verify_crc(entry).unwrap();
}

#[test]
fn writer_read_before_sync() {
    let mut writer = Archive::create();
    writer.add_entry("a.txt", b"alpha", 0o100644).unwrap();
    writer.add_entry("b.txt", b"beta", 0o100644).unwrap();
    assert_eq!(writer.entry_count(), 2);
    assert!(writer.find_entry("a.txt").is_some());
    assert!(writer.find_entry("b.txt").is_some());
    assert!(writer.find_entry("c.txt").is_none());
    let entry = writer.find_entry("a.txt").unwrap();
    assert_eq!(writer.read_data(entry).unwrap(), b"alpha");
    writer.sync().unwrap();
}

#[test]
fn writer_typed_accessors() {
    let mut writer = Archive::create();
    writer.add_entry("a_file.txt", b"data", 0o100644).unwrap();
    writer.add_directory("a_dir", 0o755).unwrap();
    writer.add_symlink("a_link", "target", 0o777).unwrap();
    assert!(writer.entry("a_file.txt").unwrap().is_file());
    assert!(writer.entry("a_dir").unwrap().is_directory());
    assert!(writer.entry("a_link").unwrap().is_symlink());
    assert!(writer.file("a_file.txt").is_ok());
    assert!(writer.folder("a_dir").is_ok());
    assert!(writer.symlink("a_link").is_ok());
    writer.sync().unwrap();
}

#[test]
fn writer_find_by_id() {
    let mut writer = Archive::create();
    writer.add_entry("first.txt", b"first", 0o100644).unwrap();
    writer.add_entry("second.txt", b"second", 0o100644).unwrap();
    let entry1 = writer.find_by_id(1).unwrap();
    assert!(entry1.is_file());
    assert_eq!(entry1.as_file().unwrap().path().as_str(), Some("first.txt"));
    let entry2 = writer.find_by_id(2).unwrap();
    assert_eq!(entry2.as_file().unwrap().path().as_str(), Some("second.txt"));
    assert!(writer.find_by_id(99).is_none());
    writer.sync().unwrap();
}

#[test]
fn archive_full_on_id_overflow() {
    // An archive whose trailer says the next ID is u32::MAX.
    let mut writer = Archive::create();
    writer.sync().unwrap();
    let mut bytes = writer.into_bytes();
    let at = bytes.len() - 64 + 32;
    bytes[at..at + 4].copy_from_slice(&u32::MAX.to_le_bytes());
    let mut writer = Archive::open_with_options(bytes, OpenOptions { validate_crc: false }).unwrap();
    assert_eq!(writer.trailer().next_id(), u32::MAX);

    let result = writer.add_entry("overflow.txt", b"data", 0o644);
    assert!(matches!(result, Err(BaleError::ArchiveFull)));
}

#[test]
fn hard_link_creates_second_path() {
    let mut writer = Archive::create();
    writer.add_entry("original.txt", b"data", 0o100644).unwrap();
    writer.hard_link("original.txt", "link.txt").unwrap();
    let reader = reopen(writer);
    let orig = reader.file("original.txt").unwrap();
    let link = reader.file("link.txt").unwrap();
    assert_eq!(orig.data, b"data");
    assert_eq!(link.data, b"data");
    assert_eq!(orig.id, link.id);
    assert_eq!(reader.entry_count(), 1);
}

#[test]
fn hard_link_to_directory_fails() {
    let mut writer = Archive::create();
    writer.add_directory("mydir", 0o755).unwrap();
    let result = writer.hard_link("mydir", "link");
    assert!(matches!(result, Err(BaleError::NotAFile)));
}

#[test]
fn hard_link_to_existing_path_fails() {
    let mut writer = Archive::create();
    writer.add_entry("a.txt", b"aaa", 0o100644).unwrap();
    writer.add_entry("b.txt", b"bbb", 0o100644).unwrap();
    let result = writer.hard_link("a.txt", "b.txt");
    assert!(matches!(result, Err(BaleError::PathExists)));
}

#[test]
fn unlink_removes_single_path() {
    let mut writer = Archive::create();
    writer.add_entry("original.txt", b"data", 0o100644).unwrap();
    writer.hard_link("original.txt", "link.txt").unwrap();
    assert!(writer.unlink("original.txt"));
    let reader = reopen(writer);
    assert!(reader.find_entry("original.txt").is_none());
    assert_eq!(reader.file("link.txt").unwrap().data, b"data");
    assert_eq!(reader.entry_count(), 1);
}

#[test]
fn unlink_last_ref_removes_entry() {
    let mut writer = Archive::create();
    writer.add_entry("only.txt", b"data", 0o100644).unwrap();
    assert!(writer.unlink("only.txt"));
    let reader = reopen(writer);
    assert_eq!(reader.entry_count(), 0);
    assert!(reader.find_entry("only.txt").is_none());
}

#[test]
fn unlink_nonexistent_returns_false() {
    let mut writer = Archive::create();
    assert!(!writer.unlink("nope.txt"));
}

#[test]
fn rename_updates_path() {
    let mut writer = Archive::create();
    writer.add_entry("old.txt", b"data", 0o100644).unwrap();
    writer.rename("old.txt", "new.txt").unwrap();
    let reader = reopen(writer);
    assert!(reader.find_entry("old.txt").is_none());
    assert_eq!(reader.file("new.txt").unwrap().data, b"data");
}

#[test]
fn rename_directory_updates_descendants() {
    let mut writer = Archive::create();
    writer.add_directory("src", 0o755).unwrap();
    writer.add_entry("src/a.txt", b"aaa", 0o100644).unwrap();
    writer.add_entry("src/b.txt", b"bbb", 0o100644).unwrap();
    writer.rename("src", "dst").unwrap();
    let reader = reopen(writer);
    assert!(reader.find_entry("src").is_none());
    assert!(reader.find_entry("src/a.txt").is_none());
    assert!(reader.find_entry("src/b.txt").is_none());
    assert!(reader.folder("dst").is_ok());
    assert_eq!(reader.file("dst/a.txt").unwrap().data, b"aaa");
    assert_eq!(reader.file("dst/b.txt").unwrap().data, b"bbb");
}

#[test]
fn rename_to_existing_path_fails() {
    let mut writer = Archive::create();
    writer.add_entry("a.txt", b"aaa", 0o100644).unwrap();
    writer.add_entry("b.txt", b"bbb", 0o100644).unwrap();
    let result = writer.rename("a.txt", "b.txt");
    assert!(matches!(result, Err(BaleError::PathExists)));
}

#[test]
fn rename_exceeding_path_size_fails() {
    let mut writer = Archive::create_with_options(4096, 16).unwrap();
    writer.add_directory("a", 0o755).unwrap();
    writer.add_entry("a/file.txt", b"data", 0o100644).unwrap();
    let result = writer.rename("a", "very_long_name");
    assert!(matches!(result, Err(BaleError::PathTooLong { .. })));
    assert!(writer.find_entry("a").is_some());
    assert!(writer.find_entry("a/file.txt").is_some());
}

#[test]
fn replace_content_updates_data() {
    let mut writer = Archive::create();
    writer.add_entry("file.txt", b"old data", 0o100644).unwrap();
    writer.replace_content("file.txt", b"new data!", 0o100755).unwrap();
    let reader = reopen(writer);
    let file = reader.file("file.txt").unwrap();
    assert_eq!(file.data, b"new data!");
    assert_eq!(file.entry.mode, 0o100755);
    reader.verify_crc(file.entry).unwrap();
}

#[test]
fn add_symlink_rejects_absolute_target() {
    let mut writer = Archive::create();
    let result = writer.add_symlink("link", "/usr/share/data.txt", 0o777);
    assert!(matches!(result, Err(BaleError::InvalidPath)));
}

#[test]
fn add_symlink_rejects_escaping_target() {
    let mut writer = Archive::create();
    let result = writer.add_symlink("link", "../../outside.txt", 0o777);
    assert!(matches!(result, Err(BaleError::InvalidPath)));
}

#[test]
fn add_symlink_allows_relative_target() {
    let mut writer = Archive::create();
    writer.add_symlink("dir/link", "../sibling", 0o777).unwrap();
    let reader = reopen(writer);
    let symlink = reader.symlink("dir/link").unwrap();
    assert_eq!(symlink.target(), Some("../sibling"));
}

#[test]
fn add_symlink_rejects_long_component_in_target() {
    let long_component = "a".repeat(257);
    let target = format!("{long_component}/file.txt");
    let mut writer = Archive::create();
    let result = writer.add_symlink("link", &target, 0o777);
    assert!(matches!(result, Err(BaleError::UnsafeFilename)));
}

#[test]
fn add_symlink_rejects_control_chars_in_target() {
    let mut writer = Archive::create();
    let result = writer.add_symlink("link", "foo\x01bar", 0o777);
    assert!(matches!(result, Err(BaleError::UnsafeFilename)));
}

#[test]
fn replace_content_on_directory_fails() {
    let mut writer = Archive::create();
    writer.add_directory("mydir", 0o755).unwrap();
    let result = writer.replace_content("mydir", b"data", 0o100644);
    assert!(matches!(result, Err(BaleError::NotAFile)));
}
