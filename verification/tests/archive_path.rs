use bale::archive_path::ArchivePath;
use std::borrow::Borrow;

fn user(s: &str) -> ArchivePath {
    ArchivePath::from_str_normalized(s).unwrap()
}

#[test]
fn backslashes_converted() {
    assert_eq!(user("foo\\bar\\baz").as_str(), Some("foo/bar/baz"));
}

#[test]
fn dotdot_resolves_parent() {
    assert_eq!(user("foo/bar/../baz").as_str(), Some("foo/baz"));
}

#[test]
fn mixed_slashes_with_dotdot() {
    assert_eq!(user("foo/bar\\baz/../qux").as_str(), Some("foo/bar/qux"));
}

#[test]
fn from_raw_bytes() {
    let path = ArchivePath::from(b"foo/bar".to_vec());
    assert_eq!(path.as_str(), Some("foo/bar"));
    assert_eq!(path.as_bytes(), b"foo/bar");
}

#[test]
fn into_owned_works() {
    let owned = ArchivePath::from_bytes(b"foo/bar").into_owned();
    assert_eq!(owned.as_str(), Some("foo/bar"));
}

#[test]
fn into_normalized_works() {
    let raw = ArchivePath::from(b"foo\\bar/../baz".to_vec());
    let normalized_user = user("foo/baz");
    assert_ne!(raw, normalized_user);
    assert_eq!(raw.into_normalized().unwrap(), normalized_user);
}

#[test]
fn is_normalized_detects_normalized() {
    assert!(ArchivePath::is_normalized("foo"));
    assert!(ArchivePath::is_normalized("foo/bar"));
    assert!(ArchivePath::is_normalized("foo/bar/baz"));
    assert!(ArchivePath::is_normalized("a/b/c/d/e"));
}

#[test]
fn is_normalized_detects_unnormalized() {
    assert!(!ArchivePath::is_normalized("foo\\bar"));
    assert!(!ArchivePath::is_normalized("/foo"));
    assert!(!ArchivePath::is_normalized("foo/"));
    assert!(!ArchivePath::is_normalized("foo//bar"));
    assert!(!ArchivePath::is_normalized("foo/./bar"));
    assert!(!ArchivePath::is_normalized("foo/../bar"));
    assert!(!ArchivePath::is_normalized(""));
    assert!(!ArchivePath::is_normalized("foo/ /bar"));
    assert!(!ArchivePath::is_normalized("foo/\t/bar"));
    assert!(!ArchivePath::is_normalized(" "));
}

#[test]
fn normalize_bytes_borrows_when_unchanged() {
    let input = "foo/bar/baz";
    assert_eq!(ArchivePath::normalize_bytes(input).unwrap(), input.as_bytes());
}

#[test]
fn normalize_bytes_copies_when_changed() {
    assert_eq!(ArchivePath::normalize_bytes("foo\\bar").unwrap(), b"foo/bar");
}

#[test]
fn whitespace_only_components_rejected() {
    assert!(ArchivePath::from_str_normalized("foo/ /bar").is_err());
    assert!(ArchivePath::from_str_normalized("foo/\t/bar").is_err());
    assert!(ArchivePath::from_str_normalized("foo/   /bar").is_err());
    assert!(ArchivePath::from_str_normalized("foo/ bar /baz").is_ok());
}

#[test]
fn into_normalized_rejects_invalid_utf8() {
    assert!(ArchivePath::from(vec![0xFF, 0xFE]).into_normalized().is_err());
}

#[test]
fn invalid_utf8_display() {
    let path = ArchivePath::from(vec![0x66, 0x6F, 0x6F, 0xFF, 0x62, 0x61, 0x72]);
    assert_eq!(path.as_str(), None);
    assert!(path.to_string().contains('\u{FFFD}'));
}

#[test]
fn archive_path_hashable() {
    let mut set = std::collections::HashSet::new();
    set.insert(user("foo/bar"));
    set.insert(user("foo/bar"));
    set.insert(user("baz/qux"));
    assert_eq!(set.len(), 2);
}

#[test]
fn hashmap_lookup_by_bytes() {
    let mut map: std::collections::HashMap<ArchivePath, u32> = std::collections::HashMap::new();
    map.insert(user("foo/bar"), 42);
    map.insert(user("baz/qux"), 99);
    assert_eq!(map.get(b"foo/bar".as_slice()), Some(&42));
    assert_eq!(map.get(b"baz/qux".as_slice()), Some(&99));
    assert_eq!(map.get(b"nonexistent".as_slice()), None);
}

#[test]
fn orderable() {
    let mut paths = [user("z/file"), user("a/file"), user("m/file")];
    paths.sort();
    assert_eq!(paths[0].as_str(), Some("a/file"));
    assert_eq!(paths[1].as_str(), Some("m/file"));
    assert_eq!(paths[2].as_str(), Some("z/file"));
}

#[test]
fn len_returns_byte_count() {
    let path = user("foo/bar");
    assert_eq!(path.len(), 7);
    assert_eq!(path.as_bytes().len(), path.len());
}

#[test]
fn is_empty_works() {
    let empty = ArchivePath::from_bytes(b"");
    assert!(empty.is_empty());
    assert_eq!(empty.len(), 0);
    assert!(!user("foo").is_empty());
}

#[test]
fn as_bytes_returns_underlying() {
    assert_eq!(user("foo/bar").as_bytes(), b"foo/bar");
}

#[test]
fn asref_bytes() {
    let path = user("foo/bar");
    let bytes: &[u8] = path.as_ref();
    assert_eq!(bytes, b"foo/bar");
}

#[test]
fn borrow_bytes() {
    let path = user("foo/bar");
    let bytes: &[u8] = path.borrow();
    assert_eq!(bytes, b"foo/bar");
}

#[test]
fn from_vec() {
    assert_eq!(ArchivePath::from(b"foo/bar".to_vec()).as_bytes(), b"foo/bar");
}

#[test]
fn into_vec() {
    let vec: Vec<u8> = user("foo/bar").into();
    assert_eq!(vec, b"foo/bar");
}

#[test]
fn display_valid_utf8() {
    assert_eq!(user("foo/bar").to_string(), "foo/bar");
}

#[test]
fn tryfrom_string() {
    let s = String::from("foo/bar");
    assert_eq!(ArchivePath::from_str_normalized(&s).unwrap().as_str(), Some("foo/bar"));
}

#[test]
fn normalize_method() {
    let normalized = ArchivePath::from_bytes(b"foo\\bar").normalize().unwrap();
    assert_eq!(normalized.as_str(), Some("foo/bar"));
}

#[test]
fn normalize_rejects_escape_and_empty() {
    assert!(ArchivePath::from_str_normalized("../outside").is_err());
    assert!(ArchivePath::from_str_normalized("").is_err());
    assert!(ArchivePath::from_str_normalized("a/../..").is_err());
    assert_eq!(user("./a//b/").as_str(), Some("a/b"));
}

#[test]
fn parent_and_file_name() {
    let path = user("dir/sub/file.txt");
    assert_eq!(path.file_name(), b"file.txt");
    assert_eq!(path.parent().as_bytes(), b"dir/sub");
    assert_eq!(user("top").parent().as_bytes(), b"");
    assert_eq!(path.file_name_str().unwrap(), "file.txt");
}

#[test]
fn normalized_paths_have_clean_shape() {
    for input in ["//a///b//", "a\\\\b", "./a/./b/.", "/x/y/../z/"] {
        let p = user(input);
        let s = p.as_str().unwrap();
        assert!(!s.is_empty());
        assert!(!s.starts_with('/'));
        assert!(!s.ends_with('/'));
        assert!(!s.contains("//"));
        assert!(!s.contains('\\'));
    }
}

#[test]
fn leading_dotdot_paths_rejected() {
    for input in ["..", "../a", "..\\a\\b", "../../etc/passwd"] {
        assert!(ArchivePath::from_str_normalized(input).is_err(), "{input}");
    }
}

#[test]
fn normalized_paths_are_fixed_points() {
    for input in ["a", "a/b/c", "dir/file.txt", "x y/z"] {
        assert_eq!(user(input).as_str(), Some(input));
    }
}

#[test]
fn null_padding_trims_only_trailing_nuls() {
    let p = ArchivePath::from_null_padded_bytes(b"ab\0cd\0\0");
    assert_eq!(p.as_bytes(), b"ab\0cd");
    let q = ArchivePath::from_null_padded_bytes(b"\0\0\0");
    assert_eq!(q.as_bytes(), b"");
    let r = ArchivePath::from_null_padded_bytes(b"plain");
    assert_eq!(r.as_bytes(), b"plain");
}

#[test]
fn file_name_str_needs_the_whole_path_in_utf8() {
    let bad = ArchivePath::from_bytes(b"\xFF/a");
    assert!(matches!(bad.file_name_str(), Err(bale::BaleError::InvalidUtf8)));
    let good = ArchivePath::from_bytes(b"a/b.txt");
    assert_eq!(good.file_name_str().unwrap(), "b.txt");
}
