//! Binary format structures for the bale archive format v1.0.0.

pub mod crc;
pub mod directory_row;
pub mod entry_row;
pub mod file_header;
pub mod trailer;

pub use crc::Crc;
pub use directory_row::DirectoryRow;
pub use entry_row::EntryRow;
pub use file_header::FileHeader;
pub use trailer::Trailer;
