use bale::dos_time::DosDateTime;

#[test]
fn dos_epoch() {
    let dos = DosDateTime::from_date_time_parts(0x0021, 0x0000);
    assert_eq!(dos.year(), 1980);
    assert_eq!(dos.month(), 1);
    assert_eq!(dos.day(), 1);
    assert_eq!(dos.hour(), 0);
    assert_eq!(dos.minute(), 0);
    assert_eq!(dos.second(), 0);
    assert!(dos.is_valid());
}

#[test]
fn default_is_valid_epoch() {
    let dos = DosDateTime::default();
    assert_eq!(dos.year(), 1980);
    assert_eq!(dos.month(), 1);
    assert_eq!(dos.day(), 1);
    assert!(dos.is_valid());
}

#[test]
fn feb_29_valid_in_leap_year() {
    let dos = DosDateTime::from_components(2024, 2, 29, 12, 0, 0).unwrap();
    assert_eq!(dos.month(), 2);
    assert_eq!(dos.day(), 29);
    assert!(dos.is_valid());
}

#[test]
fn feb_29_valid_in_century_leap_year() {
    let dos = DosDateTime::from_components(2000, 2, 29, 12, 0, 0).unwrap();
    assert_eq!(dos.month(), 2);
    assert_eq!(dos.day(), 29);
    assert!(dos.is_valid());
}

#[test]
fn feb_29_invalid_in_non_leap_year() {
    assert!(DosDateTime::from_components(2023, 2, 29, 12, 0, 0).is_err());
}

#[test]
fn feb_29_invalid_in_century_non_leap_year() {
    assert!(DosDateTime::from_components(2100, 2, 29, 12, 0, 0).is_err());
}

#[test]
fn dos_time_hashable() {
    let mut set = std::collections::HashSet::new();
    set.insert(DosDateTime::from_date_time_parts(0x0021, 0x0000));
    set.insert(DosDateTime::from_date_time_parts(0x0021, 0x0000));
    set.insert(DosDateTime::from_date_time_parts(0x5921, 0x6B15));
    assert_eq!(set.len(), 2);
}

#[test]
fn display_format() {
    // 2024-06-15 13:10:42 UTC.
    let dos = DosDateTime::from_unix_seconds(1_718_457_042);
    assert_eq!(dos.to_string(), "2024-06-15 13:10:42");
}

#[test]
fn try_from_invalid_returns_error() {
    let dos = DosDateTime::from_date_time_parts(0x005E, 0x0000); // Feb 30
    assert!(dos.to_system_time().is_err());
}

#[test]
fn to_system_time_or_epoch_falls_back() {
    let dos = DosDateTime::from_date_time_parts(0x005E, 0x0000); // Feb 30
    // 1980-01-01 00:00:00 UTC.
    assert_eq!(dos.to_system_time_or_epoch(), 315_532_800);
}

#[test]
fn unix_roundtrip_and_clamping() {
    let dos = DosDateTime::from_unix_seconds(1_718_457_042);
    assert_eq!(dos.to_system_time().unwrap(), 1_718_457_042);
    // Odd seconds are truncated to two-second resolution.
    let odd = DosDateTime::from_unix_seconds(1_718_457_043);
    assert_eq!(odd.second(), 42);
    // Before 1980 clamps to the DOS epoch.
    let early = DosDateTime::from_unix_seconds(0);
    assert_eq!((early.year(), early.month(), early.day()), (1980, 1, 1));
}
