use bale::format::directory_row::DirectoryRow;

#[test]
fn stride() {
    assert_eq!(DirectoryRow::stride(256), 260);
    assert_eq!(DirectoryRow::stride(1), 5);
    assert_eq!(DirectoryRow::stride(4096), 4100);
}

#[test]
fn valid_row() {
    let path_size: u16 = 16;
    let mut data = vec![0u8; DirectoryRow::stride(path_size)];
    data[..9].copy_from_slice(b"hello.txt");
    let id_offset = path_size as usize;
    data[id_offset..id_offset + 4].copy_from_slice(&42u32.to_le_bytes());

    let row = DirectoryRow::from_bytes(&data, path_size).unwrap();
    assert_eq!(row.path_bytes(), b"hello.txt");
    assert_eq!(row.path().unwrap(), "hello.txt");
    assert_eq!(row.entry_id(), 42);
}

#[test]
fn full_length_path() {
    let path_size: u16 = 5;
    let mut data = vec![0u8; DirectoryRow::stride(path_size)];
    data[..5].copy_from_slice(b"abcde");
    data[5..9].copy_from_slice(&1u32.to_le_bytes());

    let row = DirectoryRow::from_bytes(&data, path_size).unwrap();
    assert_eq!(row.path_bytes(), b"abcde");
    assert_eq!(row.entry_id(), 1);
}

#[test]
fn wrong_size_returns_error() {
    let data = vec![0u8; 10];
    let result = DirectoryRow::from_bytes(&data, 256);
    assert!(result.is_err());
}

#[test]
fn raw_path_includes_padding() {
    let path_size: u16 = 16;
    let mut data = vec![0u8; DirectoryRow::stride(path_size)];
    data[..3].copy_from_slice(b"src");

    let row = DirectoryRow::from_bytes(&data, path_size).unwrap();
    assert_eq!(row.path_bytes_raw().len(), 16);
    assert_eq!(row.path_bytes(), b"src");
}

#[test]
fn invalid_utf8_returns_error() {
    let path_size: u16 = 8;
    let mut data = vec![0u8; DirectoryRow::stride(path_size)];
    data[0] = 0xFF;
    data[1] = 0xFE;

    let row = DirectoryRow::from_bytes(&data, path_size).unwrap();
    assert!(row.path().is_err());
}
