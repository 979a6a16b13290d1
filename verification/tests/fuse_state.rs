use bale::archive::Archive;
use bale::fuse::inode::ROOT_INO;
use bale::fuse::ops::TimeOrNow;
use bale::fuse::state::{normalize_path, split_path, validate_name, Errno, FileKind, FsState};

fn create_test_archive(entries: &[(&str, &[u8], u32)]) -> Archive {
    let mut a = Archive::create();
    for (name, data, mode) in entries {
        a.add_entry(name, data, *mode).unwrap();
    }
    a.sync().unwrap();
    Archive::open(a.into_bytes()).unwrap()
}

fn create_test_archive_with_links(entries: &[(&str, &[u8], u32)], links: &[(&str, &str)]) -> Archive {
    let mut a = Archive::create();
    for (name, data, mode) in entries {
        a.add_entry(name, data, *mode).unwrap();
    }
    for (target, link) in links {
        a.hard_link(target, link).unwrap();
    }
    a.sync().unwrap();
    Archive::open(a.into_bytes()).unwrap()
}

#[test]
fn hard_links_share_inodes() {
    let archive = create_test_archive_with_links(&[("original.txt", b"shared data", 0o100644)], &[("original.txt", "link.txt")]);
    let state = FsState::new(archive, false, 1000, 1000);
    let original_ino = *state.path_to_inode.get("original.txt").unwrap();
    let link_ino = *state.path_to_inode.get("link.txt").unwrap();
    assert_eq!(original_ino, link_ino, "hard-linked paths should share an inode");
    let nlink = state.nlink_counts.get(original_ino).copied().unwrap_or(1);
    assert_eq!(nlink, 2, "hard-linked file should have nlink=2");
}

#[test]
fn create_hard_link_via_fuse() {
    let archive = create_test_archive(&[("file.txt", b"hello", 0o100644)]);
    let mut state = FsState::new(archive, false, 1000, 1000);
    let file_ino = *state.path_to_inode.get("file.txt").unwrap();
    let result = state.create_hard_link(file_ino, ROOT_INO, "link.txt");
    assert!(result.is_ok(), "create_hard_link should succeed");
    let (link_ino, attr) = result.unwrap();
    assert_eq!(link_ino, file_ino, "hard link should share the same inode");
    assert_eq!(attr.nlink, 2, "nlink should be 2 after creating hard link");
    assert_eq!(state.path_to_inode.get("link.txt").copied(), Some(file_ino));
    let root_contents = state.dir_contents.get(ROOT_INO).unwrap();
    assert!(root_contents.iter().any(|e| e.name == "link.txt"));
}

#[test]
fn create_hard_link_existing_path_fails() {
    let archive = create_test_archive(&[("file.txt", b"hello", 0o100644), ("other.txt", b"world", 0o100644)]);
    let mut state = FsState::new(archive, false, 1000, 1000);
    let file_ino = *state.path_to_inode.get("file.txt").unwrap();
    let result = state.create_hard_link(file_ino, ROOT_INO, "other.txt");
    assert_eq!(result.unwrap_err(), Errno::Exists);
}

#[test]
fn parent_inode_lookup() {
    let archive = create_test_archive(&[
        ("a/", &[], 0o40755),
        ("a/b/", &[], 0o40755),
        ("a/b/c/", &[], 0o40755),
        ("a/b/file.txt", b"test", 0o100644),
    ]);
    let state = FsState::new(archive, false, 1000, 1000);
    let a_ino = *state.dir_inodes.get("a").unwrap();
    let ab_ino = *state.dir_inodes.get("a/b").unwrap();
    let abc_ino = *state.dir_inodes.get("a/b/c").unwrap();
    assert_eq!(state.get_parent_inode(ROOT_INO), ROOT_INO, "root's parent should be root");
    assert_eq!(state.get_parent_inode(a_ino), ROOT_INO, "a's parent should be root");
    assert_eq!(state.get_parent_inode(ab_ino), a_ino, "a/b's parent should be a");
    assert_eq!(state.get_parent_inode(abc_ino), ab_ino, "a/b/c's parent should be a/b");
}

#[test]
fn mkdir_respects_mode() {
    let archive = create_test_archive(&[]);
    let mut state = FsState::new(archive, false, 1000, 1000);
    let result = state.create_directory(ROOT_INO, "private", 0o700);
    assert!(result.is_ok());
    state.archive.sync().unwrap();
    let entries = state.archive.entries();
    let (entry_row, _path) = entries.iter().find(|(_, p)| p.starts_with(b"private")).unwrap();
    assert_eq!(entry_row.mode, 0o40700, "directory mode should be 0o40700");
}

#[test]
fn modified_data_cleared_after_sync() {
    let archive = create_test_archive(&[("test.txt", b"original", 0o100644)]);
    let mut state = FsState::new(archive, false, 1000, 1000);
    state.modified_data.insert("test.txt".to_string(), b"modified".to_vec());
    assert!(state.modified_data.len() > 0);
    state.sync_modified_to_archive().unwrap();
    assert_eq!(state.modified_data.len(), 0, "modified_data should be cleared after sync");
    assert_eq!(state.archive.file("test.txt").unwrap().data, b"modified");
}

#[test]
fn normalize_path_resolves_dot_and_dotdot() {
    assert_eq!(normalize_path("/a/b/../c/./d"), "/a/c/d");
}

#[test]
fn normalize_path_collapses_slashes() {
    assert_eq!(normalize_path("/a///b"), "/a/b");
}

#[test]
fn normalize_path_relative_passthrough() {
    assert_eq!(normalize_path("a/b/c"), "a/b/c");
}

#[test]
fn create_symlink_normalizes_absolute_target() {
    let mut state = FsState::new(create_test_archive(&[]), false, 1000, 1000);
    state.set_mount_point("/mnt/archive".to_string());
    let result = state.create_symlink(ROOT_INO, "link", "/mnt/archive/foo/bar.txt");
    assert!(result.is_ok(), "should normalize absolute target inside mount");
    let symlink = state.archive.symlink("link").unwrap();
    assert_eq!(symlink.target(), Some("foo/bar.txt"));
}

#[test]
fn create_symlink_normalizes_absolute_with_dotdot() {
    let mut state = FsState::new(create_test_archive(&[]), false, 1000, 1000);
    state.set_mount_point("/mnt/archive".to_string());
    let result = state.create_symlink(ROOT_INO, "link", "/mnt/archive/a/../b");
    assert!(result.is_ok(), "should normalize absolute target with ..");
    let symlink = state.archive.symlink("link").unwrap();
    assert_eq!(symlink.target(), Some("b"));
}

#[test]
fn create_symlink_rejects_absolute_outside_mount() {
    let mut state = FsState::new(create_test_archive(&[]), false, 1000, 1000);
    state.set_mount_point("/mnt/archive".to_string());
    let result = state.create_symlink(ROOT_INO, "link", "/usr/share/data.txt");
    assert_eq!(result.unwrap_err(), Errno::Invalid);
}

#[test]
fn create_symlink_rejects_mount_root_target() {
    let mut state = FsState::new(create_test_archive(&[]), false, 1000, 1000);
    state.set_mount_point("/mnt/archive".to_string());
    let result = state.create_symlink(ROOT_INO, "link", "/mnt/archive");
    assert_eq!(result.unwrap_err(), Errno::Invalid);
}

#[test]
fn create_symlink_rejects_absolute_without_mount_point() {
    let mut state = FsState::new(create_test_archive(&[]), false, 1000, 1000);
    let result = state.create_symlink(ROOT_INO, "link", "/foo");
    assert_eq!(result.unwrap_err(), Errno::Invalid);
}

#[test]
fn create_symlink_relative_target_unchanged() {
    let mut state = FsState::new(create_test_archive(&[]), false, 1000, 1000);
    state.set_mount_point("/mnt/archive".to_string());
    let result = state.create_symlink(ROOT_INO, "link", "foo/bar.txt");
    assert!(result.is_ok(), "relative target should work as before");
    let symlink = state.archive.symlink("link").unwrap();
    assert_eq!(symlink.target(), Some("foo/bar.txt"));
}

#[test]
fn chmod_preserves_sticky_bit() {
    let mut state = FsState::new(create_test_archive(&[("file.txt", b"data", 0o100644)]), false, 1000, 1000);
    state.modified_modes.insert("file.txt".to_string(), 0o1755);
    assert_eq!(state.get_file_mode("file.txt"), 0o1755, "sticky bit should be preserved in mode");
}

#[test]
fn chmod_preserves_setuid_setgid() {
    let mut state = FsState::new(create_test_archive(&[("file.txt", b"data", 0o100644)]), false, 1000, 1000);
    state.modified_modes.insert("file.txt".to_string(), 0o4755);
    assert_eq!(state.get_file_mode("file.txt"), 0o4755, "setuid bit should be preserved in mode");
    state.modified_modes.insert("file.txt".to_string(), 0o2755);
    assert_eq!(state.get_file_mode("file.txt"), 0o2755, "setgid bit should be preserved in mode");
}

#[test]
fn get_attr_reports_sticky_bit() {
    let state = FsState::new(create_test_archive(&[("file.txt", b"data", 0o101755)]), false, 1000, 1000);
    let ino = *state.path_to_inode.get("file.txt").unwrap();
    let (entry_row, _, _) = state.archive.find_entry_with_path("file.txt").unwrap();
    let attr = state.get_attr_for_file(ino, FileKind::RegularFile, entry_row, "file.txt");
    assert_eq!(attr.perm, 0o1755, "perm should include sticky bit");
}

#[test]
fn rename_file_over_directory_returns_eisdir() {
    let mut state = FsState::new(create_test_archive(&[("src.txt", b"data", 0o100644), ("dest/", &[], 0o40755)]), false, 1000, 1000);
    let result = state.rename_entry(ROOT_INO, "src.txt", ROOT_INO, "dest", 0);
    assert_eq!(result.unwrap_err(), Errno::IsDirectory, "renaming file over directory should return EISDIR");
}

fn sticky_state() -> FsState {
    FsState::new(create_test_archive(&[("sticky/", &[], 0o41777), ("sticky/file.txt", b"data", 0o100644)]), false, 1000, 1000)
}

#[test]
fn rename_in_sticky_dir_by_non_owner_fails() {
    let mut state = sticky_state();
    let sticky_ino = *state.dir_inodes.get("sticky").unwrap();
    let result = state.rename_entry(sticky_ino, "file.txt", sticky_ino, "renamed.txt", 2000);
    assert_eq!(result.unwrap_err(), Errno::Denied, "non-owner rename in sticky dir should fail");
}

#[test]
fn rename_in_sticky_dir_by_file_owner_succeeds() {
    let mut state = sticky_state();
    let sticky_ino = *state.dir_inodes.get("sticky").unwrap();
    let result = state.rename_entry(sticky_ino, "file.txt", sticky_ino, "renamed.txt", 1000);
    assert!(result.is_ok(), "file owner should be able to rename in sticky dir");
}

#[test]
fn rename_in_sticky_dir_by_root_succeeds() {
    let mut state = sticky_state();
    let sticky_ino = *state.dir_inodes.get("sticky").unwrap();
    let result = state.rename_entry(sticky_ino, "file.txt", sticky_ino, "renamed.txt", 0);
    assert!(result.is_ok(), "root should be able to rename in sticky dir");
}

#[test]
fn unlink_in_sticky_dir_by_non_owner_fails() {
    let mut state = sticky_state();
    let sticky_ino = *state.dir_inodes.get("sticky").unwrap();
    let result = state.remove_file(sticky_ino, "file.txt", 2000);
    assert_eq!(result.unwrap_err(), Errno::Denied, "non-owner unlink in sticky dir should fail");
}

#[test]
fn unlink_decrements_nlink() {
    let mut state = FsState::new(create_test_archive_with_links(&[("file.txt", b"data", 0o100644)], &[("file.txt", "link.txt")]), false, 1000, 1000);
    let ino = *state.path_to_inode.get("file.txt").unwrap();
    assert_eq!(state.nlink_counts.get(ino).copied(), Some(2));
    state.remove_file(ROOT_INO, "link.txt", 0).unwrap();
    assert_eq!(state.nlink_counts.get(ino).copied(), Some(1), "nlink should be 1 after removing one of two hard links");
}

#[test]
fn unlink_last_link_removes_entry() {
    let mut state = FsState::new(create_test_archive(&[("file.txt", b"data", 0o100644)]), false, 1000, 1000);
    let ino = *state.path_to_inode.get("file.txt").unwrap();
    state.remove_file(ROOT_INO, "file.txt", 0).unwrap();
    assert!(!state.inode_to_path.contains(ino));
    assert!(!state.path_to_inode.contains("file.txt"));
    assert!(!state.nlink_counts.contains(ino));
}

#[test]
fn unlink_hard_link_preserves_other_path() {
    let mut state = FsState::new(create_test_archive_with_links(&[("file.txt", b"data", 0o100644)], &[("file.txt", "link.txt")]), false, 1000, 1000);
    let ino = *state.path_to_inode.get("file.txt").unwrap();
    state.remove_file(ROOT_INO, "file.txt", 0).unwrap();
    assert_eq!(state.path_to_inode.get("link.txt").copied(), Some(ino));
    assert_eq!(state.inode_to_path.get(ino).map(String::as_str), Some("link.txt"));
    assert!(state.archive.file("link.txt").is_ok());
}

#[test]
fn dir_depth_root_is_zero() {
    let state = FsState::new(create_test_archive(&[]), false, 1000, 1000);
    assert_eq!(state.dir_depth(ROOT_INO), 0);
}

#[test]
fn dir_depth_nested_directories() {
    let state = FsState::new(create_test_archive(&[("a/", &[], 0o40755), ("a/b/", &[], 0o40755), ("a/b/c/", &[], 0o40755)]), false, 1000, 1000);
    let a_ino = *state.dir_inodes.get("a").unwrap();
    let ab_ino = *state.dir_inodes.get("a/b").unwrap();
    let abc_ino = *state.dir_inodes.get("a/b/c").unwrap();
    assert_eq!(state.dir_depth(a_ino), 1);
    assert_eq!(state.dir_depth(ab_ino), 2);
    assert_eq!(state.dir_depth(abc_ino), 3);
}

// ---- further cases ----

#[test]
fn tree_built_from_file_paths() {
    let state = FsState::new(create_test_archive(&[("x/y/z.txt", b"deep", 0o100644), ("top.txt", b"t", 0o100644)]), false, 1000, 1000);
    assert!(state.dir_inodes.contains("x"));
    assert!(state.dir_inodes.contains("x/y"));
    assert!(state.path_to_inode.contains("x/y/z.txt"));
    let x = *state.dir_inodes.get("x").unwrap();
    let listing = state.readdir(x).unwrap();
    assert_eq!(listing[0].2, ".");
    assert_eq!(listing[1].2, "..");
    assert_eq!(listing[1].0, ROOT_INO);
    assert!(listing.iter().any(|e| e.2 == "y" && e.1 == FileKind::Directory));
}

#[test]
fn split_path_cases() {
    assert_eq!(split_path("a/b/c"), Some(("a/b".to_string(), "c".to_string())));
    assert_eq!(split_path("a/b/"), Some(("a".to_string(), "b".to_string())));
    assert_eq!(split_path("top"), Some((String::new(), "top".to_string())));
    assert_eq!(split_path(""), None);
    assert_eq!(split_path("///"), None);
}

#[test]
fn validate_name_cases() {
    assert_eq!(validate_name("ok.txt"), Ok(()));
    assert_eq!(validate_name(""), Err(Errno::NameTooLong));
    assert_eq!(validate_name(&"a".repeat(256)), Err(Errno::NameTooLong));
    assert_eq!(validate_name("bad\x01name"), Err(Errno::Invalid));
}

#[test]
fn create_write_read_and_sync_file() {
    let mut state = FsState::new(create_test_archive(&[("old.txt", b"abc", 0o100644)]), false, 1000, 1000);
    let (ino, attr) = state.create(ROOT_INO, "new.txt", 0o644, 7, 8).unwrap();
    assert_eq!(attr.uid, 7);
    assert_eq!(attr.gid, 8);
    assert_eq!(state.write(ino, 0, b"hello").unwrap(), 5);
    assert_eq!(state.write(ino, 7, b"!").unwrap(), 1);
    assert_eq!(state.read(ino, 0, 100).unwrap(), b"hello\0\0!");
    assert_eq!(state.read(ino, 3, 2).unwrap(), b"lo");
    // The root's new modification time is pending too, and the root has no
    // archive entry to rewrite, so this sync reports an I/O error.
    assert_eq!(state.flush().unwrap_err(), Errno::Io);

    // Writing to an existing file leaves directory times alone.
    let mut state = FsState::new(create_test_archive(&[("old.txt", b"abc", 0o100644)]), false, 1000, 1000);
    let ino = *state.path_to_inode.get("old.txt").unwrap();
    assert_eq!(state.write(ino, 3, b"def").unwrap(), 3);
    state.flush().unwrap();
    assert_eq!(state.archive.file("old.txt").unwrap().data, b"abcdef");
}

#[test]
fn read_only_mount_refuses_changes() {
    let mut state = FsState::new(create_test_archive(&[("f.txt", b"x", 0o100644)]), true, 1000, 1000);
    let ino = *state.path_to_inode.get("f.txt").unwrap();
    assert_eq!(state.create(ROOT_INO, "n.txt", 0o644, 0, 0).unwrap_err(), Errno::ReadOnly);
    assert_eq!(state.write(ino, 0, b"y").unwrap_err(), Errno::ReadOnly);
    assert_eq!(state.mkdir(ROOT_INO, "d", 0o755, 0, 0).unwrap_err(), Errno::ReadOnly);
    // Owner changes are allowed on a read-only mount.
    let attr = state.setattr(ino, None, Some(42), None, None, None).unwrap();
    assert_eq!(attr.uid, 42);
    assert_eq!(state.setattr(ino, Some(0o600), None, None, None, None).unwrap_err(), Errno::ReadOnly);
}

#[test]
fn bale_names_are_reserved() {
    let mut state = FsState::new(create_test_archive(&[("f.txt", b"x", 0o100644)]), false, 1000, 1000);
    assert_eq!(state.mkdir(ROOT_INO, ".bale", 0o755, 0, 0).unwrap_err(), Errno::Exists);
    assert_eq!(state.unlink(ROOT_INO, ".bale", 0).unwrap_err(), Errno::Denied);
    assert_eq!(state.rename(ROOT_INO, "f.txt", ROOT_INO, ".bale", 0).unwrap_err(), Errno::Denied);
    let root_bale = state.lookup(ROOT_INO, ".bale").unwrap();
    assert_eq!(root_bale.kind, FileKind::Directory);
    assert_eq!(root_bale.perm, 0o555);
}

#[test]
fn rename_directory_moves_children() {
    let mut state = FsState::new(create_test_archive(&[("src/", &[], 0o40755), ("src/a.txt", b"aaa", 0o100644)]), false, 1000, 1000);
    let src_ino = *state.dir_inodes.get("src").unwrap();
    let file_ino = *state.path_to_inode.get("src/a.txt").unwrap();
    state.rename_entry(ROOT_INO, "src", ROOT_INO, "dst", 0).unwrap();
    assert_eq!(state.dir_inodes.get("dst").copied(), Some(src_ino));
    assert!(!state.dir_inodes.contains("src"));
    assert_eq!(state.path_to_inode.get("dst/a.txt").copied(), Some(file_ino));
    assert!(!state.path_to_inode.contains("src/a.txt"));
}

#[test]
fn remove_directory_requires_empty() {
    let mut state = FsState::new(create_test_archive(&[("d/", &[], 0o40755), ("d/f.txt", b"x", 0o100644), ("e/", &[], 0o40755)]), false, 1000, 1000);
    assert_eq!(state.remove_directory(ROOT_INO, "d", 0).unwrap_err(), Errno::NotEmpty);
    assert_eq!(state.remove_directory(ROOT_INO, "missing", 0).unwrap_err(), Errno::NotFound);
    state.remove_directory(ROOT_INO, "e", 0).unwrap();
    assert!(!state.dir_inodes.contains("e"));
}

#[test]
fn setattr_truncates_and_extends() {
    let mut state = FsState::new(create_test_archive(&[("f.txt", b"hello world", 0o100644)]), false, 1000, 1000);
    let ino = *state.path_to_inode.get("f.txt").unwrap();
    let attr = state.setattr(ino, None, None, None, Some(5), Some(TimeOrNow::SpecificTime(1_000))).unwrap();
    assert_eq!(attr.size, 5);
    assert_eq!(attr.mtime, 1_000);
    assert_eq!(state.read(ino, 0, 100).unwrap(), b"hello");
    let attr = state.setattr(ino, None, None, None, Some(7), None).unwrap();
    assert_eq!(attr.size, 7);
    assert_eq!(state.read(ino, 0, 100).unwrap(), b"hello\0\0");
    assert_eq!(state.setattr(ino, None, None, None, Some(0x1_0000_0001), None).unwrap_err(), Errno::TooBig);
}

#[test]
fn getattr_and_lookup_agree() {
    let mut state = FsState::new(create_test_archive(&[("f.txt", b"hello", 0o100600)]), false, 1000, 1000);
    let ino = *state.path_to_inode.get("f.txt").unwrap();
    let a = state.getattr(ino).unwrap();
    let b = state.lookup(ROOT_INO, "f.txt").unwrap();
    assert_eq!(a.size, 5);
    assert_eq!(a.perm, 0o600);
    assert_eq!(b.ino, ino);
    assert_eq!(b.size, 5);
    assert_eq!(state.getattr(999).unwrap_err(), Errno::NotFound);
    assert_eq!(state.lookup(ROOT_INO, "nope").unwrap_err(), Errno::NotFound);
}

#[test]
fn write_then_read_returns_written_bytes() {
    let archive = create_test_archive(&[("file.txt", b"hello world", 0o100644)]);
    let mut state = FsState::new(archive, false, 1000, 1000);
    let ino = *state.path_to_inode.get("file.txt").unwrap();
    assert_eq!(state.write(ino, 6, b"there"), Ok(5));
    assert_eq!(state.read(ino, 6, 5).unwrap(), b"there");
    assert_eq!(state.read(ino, 0, 64).unwrap(), b"hello there");
    // Writing past the end zero-fills the gap.
    assert_eq!(state.write(ino, 13, b"!"), Ok(1));
    assert_eq!(state.read(ino, 0, 64).unwrap(), b"hello there\0\0!");
}

#[test]
fn write_past_size_limit_is_too_big() {
    let archive = create_test_archive(&[("file.txt", b"x", 0o100644)]);
    let mut state = FsState::new(archive, false, 1000, 1000);
    let ino = *state.path_to_inode.get("file.txt").unwrap();
    assert_eq!(state.write(ino, 0x1_0000_0000, b"a"), Err(Errno::TooBig));
}

#[test]
fn truncate_keeps_prefix_and_extend_fills_zeros() {
    let mut state = FsState::new(create_test_archive(&[("f.txt", b"hello", 0o100644)]), false, 1000, 1000);
    let ino = *state.path_to_inode.get("f.txt").unwrap();
    let attr = state.setattr(ino, None, None, None, Some(2), None).unwrap();
    assert_eq!(attr.size, 2);
    assert_eq!(state.read(ino, 0, 100).unwrap(), b"he");
    let attr = state.setattr(ino, None, None, None, Some(5), None).unwrap();
    assert_eq!(attr.size, 5);
    assert_eq!(state.read(ino, 0, 100).unwrap(), b"he\0\0\0");
    assert_eq!(state.setattr(ino, None, None, None, Some(0x1_0000_0001), None).unwrap_err(), Errno::TooBig);
}

#[test]
fn rename_moves_the_archive_entry() {
    let mut state = FsState::new(create_test_archive(&[("a.txt", b"data", 0o100644)]), false, 1000, 1000);
    state.rename_entry(ROOT_INO, "a.txt", ROOT_INO, "b.txt", 0).unwrap();
    assert!(state.archive.file("a.txt").is_err());
    assert_eq!(state.archive.file("b.txt").unwrap().data, b"data");
    assert!(state.path_to_inode.get("a.txt").is_none());
    assert!(state.path_to_inode.get("b.txt").is_some());
}

#[test]
fn mkdir_is_owned_by_the_caller() {
    let mut state = FsState::new(create_test_archive(&[]), false, 1000, 1000);
    let (ino, attr) = state.mkdir(ROOT_INO, "d", 0o755, 7, 8).unwrap();
    assert_eq!(attr.uid, 7);
    assert_eq!(attr.gid, 8);
    assert_eq!(*state.dir_inodes.get("d").unwrap(), ino);
    assert_eq!(*state.modified_uids.get("d").unwrap(), 7);
    assert_eq!(*state.modified_gids.get("d").unwrap(), 8);
}

#[test]
fn tree_lists_implied_parent_directories() {
    let state = FsState::new(create_test_archive(&[("x/y/z.txt", b"1", 0o100644)]), false, 1000, 1000);
    assert!(state.dir_inodes.get("x").is_some());
    assert!(state.dir_inodes.get("x/y").is_some());
    assert!(state.path_to_inode.get("x/y/z.txt").is_some());
}

#[test]
fn setattr_reports_new_permissions_and_owner() {
    let mut state = FsState::new(create_test_archive(&[("f.txt", b"hello", 0o100644)]), false, 1000, 1000);
    let ino = *state.path_to_inode.get("f.txt").unwrap();
    let attr = state.setattr(ino, Some(0o100600), Some(7), None, None, None).unwrap();
    assert_eq!(attr.ino, ino);
    assert_eq!(attr.perm, 0o600);
    assert_eq!(attr.uid, 7);
    assert_eq!(attr.gid, 1000);
    assert_eq!(attr.size, 5);
    assert_eq!(attr.kind, FileKind::RegularFile);
}

#[test]
fn rename_marks_both_parent_directories_changed() {
    let mut state = FsState::new(create_test_archive(&[("a/f.txt", b"x", 0o100644)]), false, 1000, 1000);
    let a = *state.dir_inodes.get("a").unwrap();
    assert!(state.modified_times.get("a").is_none());
    assert!(state.modified_times.get("").is_none());
    state.rename_entry(a, "f.txt", ROOT_INO, "g.txt", 0).unwrap();
    assert!(state.modified_times.get("a").is_some());
    assert!(state.modified_times.get("").is_some());
}
