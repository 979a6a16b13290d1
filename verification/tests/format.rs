use bale::format::crc::Crc;
use bale::format::entry_row::{EntryRow, COMPRESSION_NONE, ENTRY_ROW_SIZE};
use bale::format::file_header::{FileHeader, FILE_HEADER_SIZE};
use bale::format::trailer::{Trailer, FLAG_COMPACTED, TRAILER_SIZE};
use bale::{BaleError, EntryKind};

// ---------------- trailer ----------------

#[test]
fn trailer_size_is_64_bytes() {
    assert_eq!(TRAILER_SIZE, 64);
    assert_eq!(Trailer::new().to_bytes().len(), 64);
}

#[test]
fn min_archive_size() {
    assert_eq!(Trailer::MIN_ARCHIVE_SIZE, 72);
}

#[test]
fn default_settings() {
    let trailer = Trailer::new();
    assert_eq!(trailer.alignment().unwrap(), Trailer::DEFAULT_ALIGNMENT);
    assert_eq!(trailer.path_size(), Trailer::DEFAULT_PATH_SIZE);
    assert_eq!(trailer.next_id(), 1);
    assert_eq!(trailer.entry_count, 0);
    assert_eq!(trailer.directory_entry_count, 0);
    assert_eq!(trailer.archive_size(), 0);
    assert_eq!(trailer.metadata_crc32c, 0);
    assert!(trailer.is_valid());
}

#[test]
fn trailer_magic_bytes() {
    let trailer = Trailer::new();
    assert_eq!(&trailer.magic, b"BALE");
    assert!(trailer.has_valid_magic());
}

#[test]
fn alignment_encoding() {
    let trailer = Trailer::new_with_options(Trailer::DEFAULT_ALIGNMENT, Trailer::DEFAULT_PATH_SIZE).unwrap();
    assert_eq!(trailer.alignment_power, Trailer::DEFAULT_ALIGNMENT_POWER);
    assert_eq!(trailer.alignment().unwrap(), Trailer::DEFAULT_ALIGNMENT);
    let trailer = Trailer::new_with_options(512, 256).unwrap();
    assert_eq!(trailer.alignment_power, 9);
    assert_eq!(trailer.alignment().unwrap(), 512);
}

#[test]
fn min_alignment_is_valid() {
    let trailer = Trailer::new_with_options(1, 256).unwrap();
    assert_eq!(trailer.alignment_power, 0);
    assert_eq!(trailer.alignment().unwrap(), 1);
    assert!(trailer.is_valid());
}

#[test]
fn path_size_encoding() {
    assert_eq!(Trailer::new_with_options(4096, 4096).unwrap().path_size(), 4096);
    assert_eq!(Trailer::new_with_options(4096, 1).unwrap().path_size(), 1);
}

#[test]
fn next_id() {
    let mut trailer = Trailer::new();
    assert_eq!(trailer.next_id(), 1);
    trailer.set_next_id(42);
    assert_eq!(trailer.next_id(), 42);
}

#[test]
fn trailer_reserved_is_zero() {
    assert!(Trailer::new().reserved.iter().all(|&b| b == 0));
}

#[test]
fn new_trailer_is_compacted() {
    let trailer = Trailer::new();
    assert!(trailer.is_compacted());
    assert!(trailer.flags() & FLAG_COMPACTED != 0);
}

#[test]
fn new_with_options_is_compacted() {
    assert!(Trailer::new_with_options(4096, 256).unwrap().is_compacted());
}

#[test]
fn compacted_flag_toggle() {
    let mut trailer = Trailer::new();
    assert!(trailer.is_compacted());
    trailer.clear_compacted();
    assert!(!trailer.is_compacted());
    assert_eq!(trailer.flags, 0);
    trailer.set_compacted();
    assert!(trailer.is_compacted());
    assert_eq!(trailer.flags, FLAG_COMPACTED);
}

#[test]
fn compacted_flag_roundtrip() {
    let mut trailer = Trailer::new();
    trailer.clear_compacted();
    let restored = Trailer::from_bytes(&trailer.to_bytes()).unwrap();
    assert!(!restored.is_compacted());
    let restored2 = Trailer::from_bytes(&Trailer::new().to_bytes()).unwrap();
    assert!(restored2.is_compacted());
}

#[test]
fn trailer_roundtrip() {
    let mut trailer = Trailer::new_with_options(8192, 512).unwrap();
    trailer.entry_table_offset = 4096;
    trailer.entry_count = 10;
    trailer.directory_table_offset = 4576;
    trailer.directory_entry_count = 15;
    trailer.set_next_id(11);
    trailer.set_archive_size(9999);
    let bytes = trailer.to_bytes();
    assert_eq!(bytes.len(), TRAILER_SIZE);
    let restored = Trailer::from_bytes(&bytes).unwrap();
    assert!(restored.is_valid());
    assert_eq!(restored.alignment().unwrap(), 8192);
    assert_eq!(restored.path_size(), 512);
    assert_eq!(restored.entry_table_offset, 4096);
    assert_eq!(restored.entry_count, 10);
    assert_eq!(restored.directory_table_offset, 4576);
    assert_eq!(restored.directory_entry_count, 15);
    assert_eq!(restored.next_id(), 11);
    assert_eq!(restored.archive_size(), 9999);
}

#[test]
fn archive_size_accessors() {
    let mut trailer = Trailer::new();
    assert_eq!(trailer.archive_size(), 0);
    trailer.set_archive_size(12345);
    assert_eq!(trailer.archive_size(), 12345);
}

#[test]
fn invalid_alignment_returns_error() {
    let result = Trailer::new_with_options(1000, 256);
    assert!(matches!(result, Err(BaleError::InvalidAlignment(1000))));
    assert!(result.unwrap_err().to_string().contains("1000"));
}

#[test]
fn zero_alignment_returns_error() {
    let result = Trailer::new_with_options(0, 256);
    assert!(matches!(result, Err(BaleError::InvalidAlignment(0))));
    assert!(result.unwrap_err().to_string().contains("0"));
}

#[test]
fn zero_path_size_returns_error() {
    assert!(matches!(Trailer::new_with_options(4096, 0), Err(BaleError::InvalidPathSize(0))));
}

#[test]
fn path_size_too_large_returns_error() {
    let too_large = Trailer::MAX_PATH_SIZE + 1;
    assert!(matches!(Trailer::new_with_options(4096, too_large), Err(BaleError::InvalidPathSize(n)) if n == too_large));
}

#[test]
fn path_size_boundaries_are_valid() {
    assert!(Trailer::new_with_options(4096, Trailer::MIN_PATH_SIZE).is_ok());
    assert!(Trailer::new_with_options(4096, Trailer::MAX_PATH_SIZE).is_ok());
}

#[test]
fn alignment_too_large_returns_error() {
    let too_large = 1u32 << 17;
    assert!(matches!(Trailer::new_with_options(too_large, 256), Err(BaleError::InvalidAlignment(a)) if a == too_large));
}

#[test]
fn max_alignment_is_valid() {
    assert!(Trailer::new_with_options(1u32 << Trailer::MAX_ALIGNMENT_POWER, 256).is_ok());
}

#[test]
fn invalid_magic_fails_validation() {
    let mut trailer = Trailer::new();
    trailer.magic[0] = b'X';
    assert!(!trailer.is_valid());
    assert!(!trailer.has_valid_magic());
}

#[test]
fn alignment_power_over_limit_fails_validation() {
    let mut trailer = Trailer::new();
    trailer.alignment_power = Trailer::MAX_ALIGNMENT_POWER + 1;
    assert!(!trailer.is_valid());
    assert!(trailer.alignment().is_err());
}

#[test]
fn next_id_zero_fails_validation() {
    let mut trailer = Trailer::new();
    trailer.set_next_id(0);
    assert!(!trailer.is_valid());
}

#[test]
fn next_id_max_passes_validation() {
    let mut trailer = Trailer::new();
    trailer.set_next_id(u32::MAX);
    assert!(trailer.is_valid());
}

#[test]
fn path_size_zero_fails_validation() {
    let mut trailer = Trailer::new();
    trailer.path_size = 0;
    assert!(!trailer.is_valid());
}

#[test]
fn path_size_over_max_fails_validation() {
    let mut trailer = Trailer::new();
    trailer.path_size = 5000;
    assert!(!trailer.is_valid());
}

#[test]
fn nonzero_reserved_passes_validation() {
    let mut trailer = Trailer::new();
    trailer.reserved[0] = 0xFF;
    trailer.reserved[10] = 0xAB;
    assert!(trailer.is_valid());
}

#[test]
fn trailer_validated_returns_ok_for_valid() {
    assert!(Trailer::new().validated().is_ok());
}

#[test]
fn trailer_validated_returns_err_for_invalid() {
    let mut trailer = Trailer::new();
    trailer.magic[0] = b'X';
    assert!(trailer.validated().is_err());
}

#[test]
fn byte_layout_matches_spec() {
    let mut trailer = Trailer::new();
    trailer.entry_table_offset = 0x1122_3344_5566_7788;
    trailer.directory_table_offset = 0xAABB_CCDD_EEFF_0011;
    trailer.set_archive_size(0x0102_0304_0506_0708);
    let bytes = trailer.to_bytes();
    assert_eq!(&bytes[0..8], 0x1122_3344_5566_7788_u64.to_le_bytes());
    assert_eq!(&bytes[8..16], 0xAABB_CCDD_EEFF_0011_u64.to_le_bytes());
    assert_eq!(&bytes[16..24], 0x0102_0304_0506_0708_u64.to_le_bytes());
    assert_eq!(&bytes[36..38], 256_u16.to_le_bytes());
    assert_eq!(bytes[38], 12);
    assert_eq!(bytes[39], FLAG_COMPACTED);
    assert_eq!(&bytes[56..60], b"BALE");
    assert_eq!(&bytes[60..64], &[0, 0, 0, 0]);
}

#[test]
fn metadata_crc_deterministic() {
    let header = [0x42, 0x41, 0x4C, 0x45, 0x00, 1, 0, 0];
    let trailer = Trailer::new();
    let crc1 = Trailer::compute_metadata_crc(&header, &[], &[], &trailer);
    let crc2 = Trailer::compute_metadata_crc(&header, &[], &[], &trailer);
    assert_eq!(crc1, crc2);
    assert_ne!(crc1, Crc::none());
}

#[test]
fn metadata_crc_changes_with_trailer() {
    let header = [0x42, 0x41, 0x4C, 0x45, 0x00, 1, 0, 0];
    let trailer1 = Trailer::new();
    let mut trailer2 = Trailer::new();
    trailer2.set_archive_size(9999);
    let crc1 = Trailer::compute_metadata_crc(&header, &[], &[], &trailer1);
    let crc2 = Trailer::compute_metadata_crc(&header, &[], &[], &trailer2);
    assert_ne!(crc1, crc2);
}

#[test]
fn metadata_crc_accessors() {
    let mut trailer = Trailer::new();
    assert_eq!(trailer.metadata_crc(), Crc::none());
    let crc = Crc::new(0xDEAD_BEEF);
    trailer.set_metadata_crc(crc);
    assert_eq!(trailer.metadata_crc(), crc);
}

// ---------------- entry row ----------------

#[test]
fn entry_row_size_is_64_bytes() {
    assert_eq!(ENTRY_ROW_SIZE, 64);
    assert_eq!(EntryRow::new_directory(1, 0, 0, 0).to_bytes().len(), 64);
}

#[test]
fn new_file() {
    let row = EntryRow::new_file(1, Crc::new(0xDEAD_BEEF), 4096, 1024, 1024, 1_700_000_000_000, 1_700_000_001_000, 0o100644);
    assert_eq!(row.entry_id, 1);
    assert_eq!(row.crc().get(), Some(0xDEAD_BEEF));
    assert_eq!(row.data_offset, 4096);
    assert_eq!(row.file_size, 1024);
    assert_eq!(row.block_size, 1024);
    assert_eq!(row.created_time, 1_700_000_000_000);
    assert_eq!(row.modified_time, 1_700_000_001_000);
    assert_eq!(row.mode, 0o100644);
    assert_eq!(row.compression, COMPRESSION_NONE);
    assert_eq!(row.flags, 0);
    assert!(row.reserved.iter().all(|&b| b == 0));
}

#[test]
fn new_directory() {
    let row = EntryRow::new_directory(3, 1_700_000_000_000, 1_700_000_001_000, 0o040755);
    assert_eq!(row.entry_id, 3);
    assert_eq!(row.crc().get(), None);
    assert_eq!(row.data_offset, 0);
    assert_eq!(row.file_size, 0);
    assert_eq!(row.block_size, 0);
    assert_eq!(row.mode, 0o040755);
    assert_eq!(row.compression, COMPRESSION_NONE);
    assert_eq!(row.flags, 0);
}

#[test]
fn kind_from_mode() {
    assert_eq!(EntryRow::new_file(1, Crc::none(), 4096, 100, 100, 0, 0, 0o100644).kind(), EntryKind::File);
    assert_eq!(EntryRow::new_directory(2, 0, 0, 0o040755).kind(), EntryKind::Directory);
    assert_eq!(EntryRow::new_file(3, Crc::none(), 4096, 11, 11, 0, 0, 0o120777).kind(), EntryKind::Symlink);
}

#[test]
fn negative_timestamps() {
    let row = EntryRow::new_file(1, Crc::none(), 4096, 100, 100, -1_000_000, -500_000, 0o100644);
    assert_eq!(row.created_time, -1_000_000);
    assert_eq!(row.modified_time, -500_000);
}

#[test]
fn entry_row_roundtrip() {
    let row = EntryRow::new_file(42, Crc::new(0xCAFE_BABE), 8192, 65536, 32768, 1_700_000_000_000, 1_700_000_001_000, 0o100755);
    let bytes = row.to_bytes();
    assert_eq!(bytes.len(), ENTRY_ROW_SIZE);
    let restored = EntryRow::from_bytes(&bytes).unwrap();
    assert_eq!(restored.entry_id, 42);
    assert_eq!(restored.crc().get(), Some(0xCAFE_BABE));
    assert_eq!(restored.data_offset, 8192);
    assert_eq!(restored.file_size, 65536);
    assert_eq!(restored.block_size, 32768);
    assert_eq!(restored.created_time, 1_700_000_000_000);
    assert_eq!(restored.modified_time, 1_700_000_001_000);
    assert_eq!(restored.mode, 0o100755);
    assert_eq!(restored.compression, COMPRESSION_NONE);
    assert_eq!(restored.flags, 0);
}

#[test]
fn boundary_entry_id_max() {
    let row = EntryRow::new_file(u32::MAX, Crc::none(), 0, 0, 0, 0, 0, 0o100644);
    assert_eq!(EntryRow::from_bytes(&row.to_bytes()).unwrap().entry_id, u32::MAX);
}

#[test]
fn boundary_file_size_max() {
    let row = EntryRow::new_file(1, Crc::none(), 0, u64::MAX, u64::MAX, 0, 0, 0o100644);
    let restored = EntryRow::from_bytes(&row.to_bytes()).unwrap();
    assert_eq!(restored.file_size, u64::MAX);
    assert_eq!(restored.block_size, u64::MAX);
}

#[test]
fn boundary_timestamps_min_max() {
    let row = EntryRow::new_file(1, Crc::none(), 0, 0, 0, i64::MIN, i64::MAX, 0o100644);
    let restored = EntryRow::from_bytes(&row.to_bytes()).unwrap();
    assert_eq!(restored.created_time, i64::MIN);
    assert_eq!(restored.modified_time, i64::MAX);
}

#[test]
fn boundary_data_offset_max() {
    let row = EntryRow::new_file(1, Crc::none(), u64::MAX, 0, 0, 0, 0, 0o100644);
    assert_eq!(EntryRow::from_bytes(&row.to_bytes()).unwrap().data_offset, u64::MAX);
}

#[test]
fn compression_and_flags_roundtrip() {
    let mut row = EntryRow::new_file(1, Crc::none(), 0, 0, 0, 0, 0, 0o100644);
    row.compression = 7;
    row.flags = 0b1010_0101;
    let restored = EntryRow::from_bytes(&row.to_bytes()).unwrap();
    assert_eq!(restored.compression, 7);
    assert_eq!(restored.flags, 0b1010_0101);
}

#[test]
fn reserved_field_roundtrip() {
    let mut row = EntryRow::new_file(1, Crc::none(), 0, 0, 0, 0, 0, 0o100644);
    row.reserved = [1, 2, 3, 4, 5, 6, 7, 8, 9, 10];
    let restored = EntryRow::from_bytes(&row.to_bytes()).unwrap();
    assert_eq!(restored.reserved, [1, 2, 3, 4, 5, 6, 7, 8, 9, 10]);
}

// ---------------- file header ----------------

#[test]
fn size_is_8_bytes() {
    assert_eq!(FILE_HEADER_SIZE, 8);
    assert_eq!(FileHeader::new().to_bytes().len(), 8);
}

#[test]
fn default_header() {
    let header = FileHeader::new();
    assert!(header.has_valid_magic());
    assert_eq!(header.version(), FileHeader::current_version());
}

#[test]
fn file_header_magic_bytes() {
    assert_eq!(&FileHeader::new().magic, b"BALE\0");
}

#[test]
fn invalid_magic() {
    let mut header = FileHeader::new();
    header.magic[0] = b'X';
    assert!(!header.has_valid_magic());
}

#[test]
fn file_header_roundtrip() {
    let bytes = FileHeader::new().to_bytes();
    assert_eq!(bytes.len(), FILE_HEADER_SIZE);
    let restored = FileHeader::from_bytes(&bytes).unwrap();
    assert!(restored.has_valid_magic());
    assert_eq!(restored.version(), FileHeader::current_version());
}

#[test]
fn byte_layout() {
    let bytes = FileHeader::new().to_bytes();
    assert_eq!(&bytes[0..5], b"BALE\0");
    assert_eq!(bytes[5], 1);
    assert_eq!(bytes[6], 0);
    assert_eq!(bytes[7], 0);
}
