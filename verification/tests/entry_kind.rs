use bale::EntryKind;

#[test]
fn file_mode() {
    assert_eq!(EntryKind::from_mode(0o100644), EntryKind::File);
    assert_eq!(EntryKind::from_mode(0o100755), EntryKind::File);
}

#[test]
fn directory_mode() {
    assert_eq!(EntryKind::from_mode(0o040755), EntryKind::Directory);
    assert_eq!(EntryKind::from_mode(0o040000), EntryKind::Directory);
}

#[test]
fn symlink_mode() {
    assert_eq!(EntryKind::from_mode(0o120777), EntryKind::Symlink);
    assert_eq!(EntryKind::from_mode(0o120000), EntryKind::Symlink);
}

#[test]
fn zero_mode_defaults_to_file() {
    assert_eq!(EntryKind::from_mode(0), EntryKind::File);
}

#[test]
fn unknown_mode() {
    let kind = EntryKind::from_mode(0o060644);
    assert_eq!(kind, EntryKind::Other(0o060000));
}

#[test]
fn predicates() {
    assert!(EntryKind::File.is_file());
    assert!(!EntryKind::File.is_directory());
    assert!(!EntryKind::File.is_symlink());

    assert!(!EntryKind::Directory.is_file());
    assert!(EntryKind::Directory.is_directory());
    assert!(!EntryKind::Directory.is_symlink());

    assert!(!EntryKind::Symlink.is_file());
    assert!(!EntryKind::Symlink.is_directory());
    assert!(EntryKind::Symlink.is_symlink());
}

#[test]
fn display() {
    assert_eq!(EntryKind::File.to_string(), "file");
    assert_eq!(EntryKind::Directory.to_string(), "directory");
    assert_eq!(EntryKind::Symlink.to_string(), "symlink");
    assert_eq!(EntryKind::Other(0o060000).to_string(), "unknown(0o60000)");
}
