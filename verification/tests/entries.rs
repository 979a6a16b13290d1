use bale::archive::{DirEntry, Entry, FileEntry, SymlinkEntry};
use bale::archive_path::ArchivePath;
use bale::format::crc::Crc;
use bale::format::entry_row::EntryRow;

fn file_row() -> EntryRow {
    EntryRow::new_file(1, Crc::none(), 0, 0, 0, 0, 0, 0o100644)
}
fn dir_row() -> EntryRow {
    EntryRow::new_directory(2, 0, 0, 0o040755)
}
fn sym_row() -> EntryRow {
    EntryRow::new_file(3, Crc::none(), 0, 0, 0, 0, 0, 0o120777)
}
fn make_file_entry(row: &EntryRow) -> FileEntry<'_> {
    FileEntry { entry: row, path: ArchivePath::from_bytes(b"test.txt"), data: b"hello", id: 1 }
}
fn make_dir_entry(row: &EntryRow) -> DirEntry<'_> {
    DirEntry { entry: row, path: ArchivePath::from_bytes(b"src"), id: 2 }
}
fn make_symlink_entry(row: &EntryRow) -> SymlinkEntry<'_> {
    SymlinkEntry { entry: row, path: ArchivePath::from_bytes(b"link"), target: b"target", id: 3 }
}

#[test]
fn is_file_predicate() {
    let (f, d, s) = (file_row(), dir_row(), sym_row());
    assert!(Entry::File(make_file_entry(&f)).is_file());
    assert!(!Entry::Directory(make_dir_entry(&d)).is_file());
    assert!(!Entry::Symlink(make_symlink_entry(&s)).is_file());
}

#[test]
fn is_directory_predicate() {
    let (f, d, s) = (file_row(), dir_row(), sym_row());
    assert!(!Entry::File(make_file_entry(&f)).is_directory());
    assert!(Entry::Directory(make_dir_entry(&d)).is_directory());
    assert!(!Entry::Symlink(make_symlink_entry(&s)).is_directory());
}

#[test]
fn is_symlink_predicate() {
    let (f, d, s) = (file_row(), dir_row(), sym_row());
    assert!(!Entry::File(make_file_entry(&f)).is_symlink());
    assert!(!Entry::Directory(make_dir_entry(&d)).is_symlink());
    assert!(Entry::Symlink(make_symlink_entry(&s)).is_symlink());
}

#[test]
fn as_file_conversion() {
    let (f, d, s) = (file_row(), dir_row(), sym_row());
    let file = Entry::File(make_file_entry(&f));
    assert!(file.as_file().is_some());
    assert_eq!(file.as_file().unwrap().id(), 1);
    assert!(Entry::Directory(make_dir_entry(&d)).as_file().is_none());
    assert!(Entry::Symlink(make_symlink_entry(&s)).as_file().is_none());
}

#[test]
fn as_directory_conversion() {
    let (f, d, s) = (file_row(), dir_row(), sym_row());
    let dir = Entry::Directory(make_dir_entry(&d));
    assert!(Entry::File(make_file_entry(&f)).as_directory().is_none());
    assert!(dir.as_directory().is_some());
    assert_eq!(dir.as_directory().unwrap().id(), 2);
    assert!(Entry::Symlink(make_symlink_entry(&s)).as_directory().is_none());
}

#[test]
fn as_symlink_conversion() {
    let (f, d, s) = (file_row(), dir_row(), sym_row());
    let sym = Entry::Symlink(make_symlink_entry(&s));
    assert!(Entry::File(make_file_entry(&f)).as_symlink().is_none());
    assert!(Entry::Directory(make_dir_entry(&d)).as_symlink().is_none());
    assert!(sym.as_symlink().is_some());
    assert_eq!(sym.as_symlink().unwrap().id(), 3);
}

#[test]
fn into_file_conversion() {
    let (f, d) = (file_row(), dir_row());
    assert_eq!(Entry::File(make_file_entry(&f)).into_file().unwrap().id(), 1);
    assert!(Entry::Directory(make_dir_entry(&d)).into_file().is_none());
}

#[test]
fn into_directory_conversion() {
    let (d, s) = (dir_row(), sym_row());
    assert_eq!(Entry::Directory(make_dir_entry(&d)).into_directory().unwrap().id(), 2);
    assert!(Entry::Symlink(make_symlink_entry(&s)).into_directory().is_none());
}

#[test]
fn into_symlink_conversion() {
    let (f, s) = (file_row(), sym_row());
    assert_eq!(Entry::Symlink(make_symlink_entry(&s)).into_symlink().unwrap().id(), 3);
    assert!(Entry::File(make_file_entry(&f)).into_symlink().is_none());
}

#[test]
fn from_file_entry() {
    let row = file_row();
    let entry: Entry<'_> = make_file_entry(&row).into();
    assert!(entry.is_file());
}

#[test]
fn from_dir_entry() {
    let row = dir_row();
    let entry: Entry<'_> = make_dir_entry(&row).into();
    assert!(entry.is_directory());
}

#[test]
fn from_symlink_entry() {
    let row = sym_row();
    let entry: Entry<'_> = make_symlink_entry(&row).into();
    assert!(entry.is_symlink());
}

fn file_test_row() -> EntryRow {
    EntryRow::new_file(3, Crc::new(0xDEAD_BEEF), 4096, 1024, 1024, 1_700_000_000_000, 1_700_000_001_000, 0o100644)
}
fn main_rs(row: &EntryRow) -> FileEntry<'_> {
    FileEntry { entry: row, path: ArchivePath::from_bytes(b"src/main.rs"), data: b"fn main() {}", id: 3 }
}

#[test]
fn data_returns_file_content() {
    let row = file_test_row();
    assert_eq!(main_rs(&row).data(), b"fn main() {}");
}

#[test]
fn size_returns_file_size() {
    let row = file_test_row();
    assert_eq!(main_rs(&row).size(), 1024);
}

#[test]
fn file_entry_path_returns_archive_path() {
    let row = file_test_row();
    assert_eq!(main_rs(&row).path().as_bytes(), b"src/main.rs");
}

#[test]
fn file_entry_mode_returns_unix_mode() {
    let row = file_test_row();
    assert_eq!(main_rs(&row).mode(), 0o100644);
}

#[test]
fn file_entry_created_time_returns_timestamp() {
    let row = file_test_row();
    assert_eq!(main_rs(&row).created_time(), 1_700_000_000_000);
}

#[test]
fn file_entry_modified_time_returns_timestamp() {
    let row = file_test_row();
    assert_eq!(main_rs(&row).modified_time(), 1_700_000_001_000);
}

#[test]
fn file_entry_entry_returns_row_reference() {
    let row = file_test_row();
    let file = main_rs(&row);
    let returned = file.entry();
    assert_eq!(returned.entry_id, 3);
    assert_eq!(returned.mode, 0o100644);
}

#[test]
fn file_entry_id_returns_entry_id() {
    let row = file_test_row();
    assert_eq!(main_rs(&row).id(), 3);
}

fn dir_test_row() -> EntryRow {
    EntryRow::new_directory(7, 1_700_000_000_000, 1_700_000_001_000, 0o040755)
}
fn src_lib(row: &EntryRow) -> DirEntry<'_> {
    DirEntry { entry: row, path: ArchivePath::from_bytes(b"src/lib"), id: 7 }
}

#[test]
fn dir_entry_path_returns_archive_path() {
    let row = dir_test_row();
    assert_eq!(src_lib(&row).path().as_bytes(), b"src/lib");
}

#[test]
fn dir_entry_mode_returns_unix_mode() {
    let row = dir_test_row();
    assert_eq!(src_lib(&row).mode(), 0o040755);
}

#[test]
fn dir_entry_created_time_returns_timestamp() {
    let row = dir_test_row();
    assert_eq!(src_lib(&row).created_time(), 1_700_000_000_000);
}

#[test]
fn dir_entry_modified_time_returns_timestamp() {
    let row = dir_test_row();
    assert_eq!(src_lib(&row).modified_time(), 1_700_000_001_000);
}

#[test]
fn dir_entry_entry_returns_row_reference() {
    let row = dir_test_row();
    let dir = src_lib(&row);
    assert_eq!(dir.entry().entry_id, 7);
    assert_eq!(dir.entry().mode, 0o040755);
}

#[test]
fn dir_entry_id_returns_entry_id() {
    let row = dir_test_row();
    assert_eq!(src_lib(&row).id(), 7);
}

fn sym_test_row() -> EntryRow {
    EntryRow::new_file(5, Crc::none(), 4096, 11, 11, 1_700_000_000_000, 1_700_000_001_000, 0o120777)
}
fn latest(row: &EntryRow) -> SymlinkEntry<'_> {
    SymlinkEntry { entry: row, path: ArchivePath::from_bytes(b"lib/latest"), target: b"lib/v2.0.1", id: 5 }
}

#[test]
fn target_bytes_returns_raw_target() {
    let row = sym_test_row();
    assert_eq!(latest(&row).target_bytes(), b"lib/v2.0.1");
}

#[test]
fn target_returns_some_for_valid_utf8() {
    let row = sym_test_row();
    assert_eq!(latest(&row).target(), Some("lib/v2.0.1"));
}

#[test]
fn target_returns_none_for_invalid_utf8() {
    let row = sym_test_row();
    let sym = SymlinkEntry { entry: &row, path: ArchivePath::from_bytes(b"link"), target: &[0xFF, 0xFE], id: 5 };
    assert_eq!(sym.target(), None);
}

#[test]
fn symlink_entry_path_returns_archive_path() {
    let row = sym_test_row();
    assert_eq!(latest(&row).path().as_bytes(), b"lib/latest");
}

#[test]
fn symlink_entry_mode_returns_unix_mode() {
    let row = sym_test_row();
    assert_eq!(latest(&row).mode(), 0o120777);
}

#[test]
fn symlink_entry_created_time_returns_timestamp() {
    let row = sym_test_row();
    assert_eq!(latest(&row).created_time(), 1_700_000_000_000);
}

#[test]
fn symlink_entry_modified_time_returns_timestamp() {
    let row = sym_test_row();
    assert_eq!(latest(&row).modified_time(), 1_700_000_001_000);
}

#[test]
fn symlink_entry_entry_returns_row_reference() {
    let row = sym_test_row();
    let sym = latest(&row);
    assert_eq!(sym.entry().entry_id, 5);
    assert_eq!(sym.entry().mode, 0o120777);
}

#[test]
fn symlink_entry_id_returns_entry_id() {
    let row = sym_test_row();
    assert_eq!(latest(&row).id(), 5);
}
