use bale::archive::resolve::resolve_target;
use bale::archive::Archive;
use bale::archive_path::ArchivePath;
use bale::BaleError;

/// Builds a synced archive holding `(path, data, mode)` entries in order.
fn build(entries: &[(&str, &[u8], u32)]) -> Archive {
    let mut a = Archive::create();
    for (path, data, mode) in entries {
        a.add_entry(path, data, *mode).unwrap();
    }
    a.sync().unwrap();
    Archive::open(a.into_bytes()).unwrap()
}

fn link(name: &str) -> ArchivePath {
    ArchivePath::from_str_normalized(name).unwrap()
}

#[test]
fn resolve_target_rejects_control_chars() {
    let result = resolve_target(&link("link"), "foo\x01bar");
    assert!(matches!(result, Err(BaleError::UnsafeFilename)));
}

#[test]
fn resolve_target_rejects_leading_dash() {
    let result = resolve_target(&link("link"), "-rf");
    assert!(matches!(result, Err(BaleError::UnsafeFilename)));
}

#[test]
fn resolve_target_rejects_long_component() {
    let long = "a".repeat(257);
    let result = resolve_target(&link("link"), &long);
    assert!(matches!(result, Err(BaleError::UnsafeFilename)));
}

#[test]
fn resolve_target_allows_dash_in_middle() {
    let result = resolve_target(&link("link"), "foo/bar-baz");
    assert_eq!(result.unwrap(), b"foo/bar-baz".to_vec());
}

#[test]
fn resolve_target_allows_max_length_component() {
    let component = "a".repeat(255);
    let result = resolve_target(&link("link"), &component);
    assert_eq!(result.unwrap(), component.into_bytes());
}

#[test]
fn reader_empty_archive() {
    let archive = build(&[]);
    assert_eq!(archive.entry_count(), 0);
    assert_eq!(archive.path_size(), 256);
    assert_eq!(archive.alignment().unwrap(), 4096);
    assert!(archive.entries().is_empty());
    assert!(archive.find_entry("hello.txt").is_none());
    assert!(archive.get_path(0).is_none());
    assert!(archive.is_sorted());
    assert!(archive.find_duplicates().is_empty());
    assert!(!archive.has_orphaned_data().unwrap());
}

#[test]
fn file_on_directory_returns_not_a_file() {
    let archive = build(&[("mydir", b"", 0o040755)]);
    assert!(matches!(archive.file("mydir"), Err(BaleError::NotAFile)));
}

#[test]
fn directory_on_file_returns_not_a_directory() {
    let archive = build(&[("file.txt", b"data", 0o100644)]);
    assert!(matches!(archive.folder("file.txt"), Err(BaleError::NotADirectory)));
}

#[test]
fn symlink_on_file_returns_not_a_symlink() {
    let archive = build(&[("file.txt", b"data", 0o100644)]);
    assert!(matches!(archive.symlink("file.txt"), Err(BaleError::NotASymlink)));
}

#[test]
fn entry_not_found() {
    let archive = build(&[]);
    assert!(matches!(archive.entry("missing"), Err(BaleError::EntryNotFound)));
}

#[test]
fn resolve_symlink_loop() {
    let archive = build(&[("x", b"y", 0o120777), ("y", b"x", 0o120777)]);
    assert!(matches!(archive.resolve("x"), Err(BaleError::SymlinkLoop)));
}

#[test]
fn resolve_dangling_symlink() {
    let archive = build(&[("broken", b"nonexistent", 0o120777)]);
    assert!(matches!(archive.resolve("broken"), Err(BaleError::EntryNotFound)));
}

#[test]
fn resolve_absolute_symlink_target() {
    let archive = build(&[("link", b"/usr/share/data.txt", 0o120777)]);
    assert!(matches!(archive.resolve("link"), Err(BaleError::InvalidPath)));
}

#[test]
fn resolve_file_as_directory() {
    let archive = build(&[("file.txt", b"data", 0o100644)]);
    assert!(matches!(archive.resolve("file.txt/child"), Err(BaleError::NotADirectory)));
}

fn chain(n: u32, payload: &'static [u8]) -> Archive {
    let names: Vec<String> = (1..=n).map(|i| format!("s{i:03}")).collect();
    let targets: Vec<Vec<u8>> = (1..=n)
        .map(|i| if i < n { format!("s{:03}", i + 1).into_bytes() } else { b"target.txt".to_vec() })
        .collect();
    let mut a = Archive::create();
    for i in 0..n as usize {
        a.add_entry(&names[i], &targets[i], 0o120777).unwrap();
    }
    a.add_entry("target.txt", payload, 0o100644).unwrap();
    a.sync().unwrap();
    Archive::open(a.into_bytes()).unwrap()
}

#[test]
fn resolve_symlink_chain_at_max_depth() {
    let archive = chain(256, b"reached");
    let entry = archive.resolve("s001").unwrap();
    assert!(entry.is_file());
    assert_eq!(entry.into_file().unwrap().data(), b"reached");
}

#[test]
fn resolve_symlink_chain_exceeds_max_depth() {
    let archive = chain(257, b"unreachable");
    assert!(matches!(archive.resolve("s001"), Err(BaleError::SymlinkLoop)));
}

#[test]
fn resolve_backslash_absolute_symlink_target() {
    let archive = build(&[("link", b"\\foo\\bar", 0o120777)]);
    assert!(matches!(archive.resolve("link"), Err(BaleError::InvalidPath)));
}

#[test]
fn resolve_root_escaping_symlink_target() {
    let archive = build(&[("link", b"../../outside.txt", 0o120777)]);
    assert!(matches!(archive.resolve("link"), Err(BaleError::InvalidPath)));
}

#[test]
fn resolve_follows_symlinked_directory() {
    let archive = build(&[
        ("real/inner.txt", b"found it", 0o100644),
        ("a", b"", 0o040755),
        ("a/link", b"../real/inner.txt", 0o120777),
        ("alias", b"real", 0o120777),
    ]);
    let entry = archive.resolve("a/link").unwrap();
    assert_eq!(entry.into_file().unwrap().data(), b"found it");
    let through_dir = archive.resolve("alias/inner.txt").unwrap();
    assert_eq!(through_dir.into_file().unwrap().data(), b"found it");
}
