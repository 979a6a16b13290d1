use bale::dos_time::DosDateTime;
use bale::listing::{format_date_time, format_permissions, get_type_indicator};

#[test]
fn format_regular_file_permissions() {
    assert_eq!(format_permissions(0o100644), "-rw-r--r--");
    assert_eq!(format_permissions(0o100755), "-rwxr-xr-x");
    assert_eq!(format_permissions(0o100600), "-rw-------");
}

#[test]
fn format_directory_permissions() {
    assert_eq!(format_permissions(0o040755), "drwxr-xr-x");
    assert_eq!(format_permissions(0o040700), "drwx------");
}

#[test]
fn format_symlink_permissions() {
    assert_eq!(format_permissions(0o120777), "lrwxrwxrwx");
}

#[test]
fn format_date() {
    let mtime = DosDateTime::from_components(2024, 1, 2, 18, 30, 0).unwrap();
    assert_eq!(format_date_time(&mtime), "Jan  2 18:30");

    let mtime2 = DosDateTime::from_components(2024, 12, 25, 9, 5, 0).unwrap();
    assert_eq!(format_date_time(&mtime2), "Dec 25 09:05");
}

#[test]
fn type_indicators() {
    assert_eq!(get_type_indicator(0o040755, "dir"), "/");
    assert_eq!(get_type_indicator(0o040755, "dir/"), "");
    assert_eq!(get_type_indicator(0o120777, "link"), "@");
    assert_eq!(get_type_indicator(0o100755, "script"), "*");
    assert_eq!(get_type_indicator(0o100644, "file.txt"), "");
}
