use bale::archive::model::Archive;
use bale::entry_kind::EntryKind;
use bale::fuse::inode::VIRTUAL_INO_START;
use bale::fuse::virtual_dir::VirtualDir;

fn create_test_archive(entries: &[(&str, &[u8], u32)]) -> Archive {
    let mut writer = Archive::create();
    for (name, data, mode) in entries {
        writer.add_entry(name, data, *mode).unwrap();
    }
    writer.sync().unwrap();
    Archive::open(writer.into_bytes()).unwrap()
}

#[test]
fn new_allocates_correct_inodes() {
    let vdir = VirtualDir::new();
    assert_eq!(vdir.dir_ino(), VIRTUAL_INO_START);
    for (i, file) in vdir.files().iter().enumerate() {
        assert_eq!(file.1, VIRTUAL_INO_START + 1 + i as u64);
    }
}

#[test]
fn symlink_ino_for_allocates_unique_inodes() {
    let mut vdir = VirtualDir::new();
    let ino_a = vdir.symlink_ino_for(100, 1);
    let ino_b = vdir.symlink_ino_for(200, 2);
    assert_ne!(ino_a, ino_b, "different dirs get different inodes");

    let ino_a2 = vdir.symlink_ino_for(100, 1);
    assert_eq!(ino_a, ino_a2, "same dir returns same inode");
}

#[test]
fn symlink_depth_returns_correct_values() {
    let mut vdir = VirtualDir::new();
    let ino = vdir.symlink_ino_for(100, 3);
    assert_eq!(vdir.symlink_depth(ino), Some(3));
    assert_eq!(vdir.symlink_depth(999), None);
}

#[test]
fn is_virtual_true_for_virtual_inodes() {
    let mut vdir = VirtualDir::new();
    assert!(vdir.is_virtual(vdir.dir_ino()));
    let sym_ino = vdir.symlink_ino_for(100, 1);
    assert!(vdir.is_virtual(sym_ino));
    for file in &vdir.files() {
        assert!(vdir.is_virtual(file.1));
    }
}

#[test]
fn is_virtual_false_for_non_virtual_inodes() {
    let vdir = VirtualDir::new();
    assert!(!vdir.is_virtual(1));
    assert!(!vdir.is_virtual(0x1_0000_0000));
    assert!(!vdir.is_virtual(0x2_0000_0000));
    assert!(!vdir.is_virtual(0x4_0000_0000));
}

#[test]
fn lookup_version_returns_correct_inode() {
    let vdir = VirtualDir::new();
    let result = vdir.lookup("version");
    assert!(result.is_some());
    let (ino, kind) = result.unwrap();
    assert_eq!(ino, VIRTUAL_INO_START + 1);
    assert_eq!(kind, EntryKind::File);
}

#[test]
fn lookup_nonexistent_returns_none() {
    let vdir = VirtualDir::new();
    assert!(vdir.lookup("nonexistent").is_none());
}

#[test]
fn readdir_yields_all_files() {
    let vdir = VirtualDir::new();
    let entries = vdir.readdir();
    assert_eq!(entries.len(), 7);

    let names: Vec<&str> = entries.iter().map(|(_, _, n)| *n).collect();
    assert!(names.contains(&"version"));
    assert!(names.contains(&"entry_count"));
    assert!(names.contains(&"directory_count"));
    assert!(names.contains(&"path_size"));
    assert!(names.contains(&"alignment"));
    assert!(names.contains(&"archive_size"));
    assert!(names.contains(&"compacted"));

    for (_, kind, _) in &entries {
        assert_eq!(*kind, EntryKind::File);
    }
}

#[test]
fn file_content_returns_correct_values() {
    let archive = create_test_archive(&[
        ("file1.txt", b"hello", 0o100644),
        ("file2.txt", b"world", 0o100644),
    ]);

    let vdir = VirtualDir::new();

    let version_ino = vdir.lookup("version").unwrap().0;
    let content = vdir.file_content(version_ino, &archive).unwrap();
    assert_eq!(content, "1.0.0\n");

    let ec_ino = vdir.lookup("entry_count").unwrap().0;
    let content = vdir.file_content(ec_ino, &archive).unwrap();
    assert_eq!(content, "2\n");

    let ps_ino = vdir.lookup("path_size").unwrap().0;
    let content = vdir.file_content(ps_ino, &archive).unwrap();
    assert_eq!(content, "256\n");

    let al_ino = vdir.lookup("alignment").unwrap().0;
    let content = vdir.file_content(al_ino, &archive).unwrap();
    assert_eq!(content, "4096\n");

    let cp_ino = vdir.lookup("compacted").unwrap().0;
    let content = vdir.file_content(cp_ino, &archive).unwrap();
    assert!(content == "true\n" || content == "false\n");
}

#[test]
fn file_content_returns_none_for_non_virtual() {
    let archive = create_test_archive(&[]);
    let mut vdir = VirtualDir::new();
    let sym_ino = vdir.symlink_ino_for(100, 1);
    assert!(vdir.file_content(1, &archive).is_none());
    assert!(vdir.file_content(vdir.dir_ino(), &archive).is_none());
    assert!(vdir.file_content(sym_ino, &archive).is_none());
}

#[test]
fn symlink_target_depth_0() {
    assert_eq!(VirtualDir::symlink_target(0), ".bale");
}

#[test]
fn symlink_target_depth_1() {
    assert_eq!(VirtualDir::symlink_target(1), "../.bale");
}

#[test]
fn symlink_target_depth_3() {
    assert_eq!(VirtualDir::symlink_target(3), "../../../.bale");
}
