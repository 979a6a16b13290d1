//! Error type for bale archive operations.

use vstd::prelude::*;
use crate::text::{spec_hex8, spec_dec, spec_octal, hex8_string, decimal_string, octal_string};

verus! {

/// Errors that can occur when working with bale archives.
#[derive(Debug, Clone, Copy, PartialEq, Eq, Structural)]
pub enum BaleError {
    /// Alignment is zero, not a power of two, or too large (the offending value).
    InvalidAlignment(u32),
    /// Alignment power stored in a trailer exceeds the maximum (the offending power).
    InvalidAlignmentPower(u8),
    /// Path size is outside the valid range 1..=4096.
    InvalidPathSize(u16),
    /// Path is invalid (traversal, empty, or malformed).
    InvalidPath,
    /// Path contains invalid UTF-8.
    InvalidUtf8,
    /// A path component violates the safe-filename rules.
    UnsafeFilename,
    /// Archive path exceeds the archive's path size.
    PathTooLong {
        /// Length of the offending path in bytes.
        len: usize,
        /// Maximum allowed path length.
        max: usize,
    },
    /// Archive is too small to contain a file header and trailer.
    TooSmall {
        /// Actual size of the archive.
        size: u64,
        /// Minimum size required.
        minimum: u64,
    },
    /// A DOS date/time component is out of range.
    InvalidDosDateTime,
    /// Entry not found in archive.
    EntryNotFound,
    /// Entry exists but is not a file.
    NotAFile,
    /// Entry exists but is not a directory.
    NotADirectory,
    /// Entry exists but is not a symlink.
    NotASymlink,
    /// Archive data is corrupted or invalid.
    Corrupted(Corruption),
    /// Path already exists in the archive.
    PathExists,
    /// Symlink resolution exceeded the maximum depth.
    SymlinkLoop,
    /// Archive has exhausted its entry ID space.
    ArchiveFull,
    /// The archive's bytes could not grow to hold what was written.
    Io,
}

/// What kind of corruption was detected.
#[derive(Debug, Clone, Copy, PartialEq, Eq, Structural)]
pub enum Corruption {
    /// The trailer failed validation.
    InvalidTrailer,
    /// The metadata CRC-32C does not match the stored value.
    MetadataCrcMismatch {
        /// Stored CRC value.
        stored: u32,
        /// Computed CRC value.
        computed: u32,
    },
    /// An entry's data CRC-32C does not match the stored value.
    EntryCrcMismatch {
        /// Stored CRC value.
        stored: u32,
        /// Computed CRC value.
        computed: u32,
    },
    /// A table lies outside the archive bytes.
    TableOutOfBounds,
    /// A data block extends beyond the archive.
    DataOutOfBounds,
    /// A directory row has the wrong size.
    RowSizeMismatch {
        /// Expected row size.
        expected: usize,
        /// Actual row size.
        actual: usize,
    },
    /// An entry has an unknown file type.
    UnknownEntryKind(u32),
}


/// The message for a corruption.
pub open spec fn corruption_text(c: Corruption) -> Seq<char> {
    match c {
        Corruption::InvalidTrailer => "invalid trailer"@,
        Corruption::MetadataCrcMismatch { stored, computed } => "metadata CRC-32C mismatch: stored "@
            + spec_hex8(stored) + ", computed "@ + spec_hex8(computed),
        Corruption::EntryCrcMismatch { stored, computed } => "CRC-32C mismatch: stored "@
            + spec_hex8(stored) + ", computed "@ + spec_hex8(computed),
        Corruption::TableOutOfBounds => "table extends beyond archive"@,
        Corruption::DataOutOfBounds => "data block extends beyond archive"@,
        Corruption::RowSizeMismatch { expected, actual } => "directory row size mismatch: expected "@
            + spec_dec(expected as nat) + ", got "@ + spec_dec(actual as nat),
        Corruption::UnknownEntryKind(mode) => "unknown entry kind for mode 0o"@ + spec_octal(
            mode as nat,
        ),
    }
}

/// The message for an error.
pub open spec fn error_text(e: BaleError) -> Seq<char> {
    match e {
        BaleError::InvalidAlignment(a) => "invalid alignment: "@ + spec_dec(a as nat),
        BaleError::InvalidAlignmentPower(p) => "invalid alignment power: "@ + spec_dec(p as nat),
        BaleError::InvalidPathSize(p) => "invalid path size: "@ + spec_dec(p as nat)
            + " is not in range 1..=4096"@,
        BaleError::InvalidPath => "invalid path"@,
        BaleError::InvalidUtf8 => "invalid UTF-8 in path"@,
        BaleError::UnsafeFilename => "unsafe filename"@,
        BaleError::PathTooLong { len, max } => "path too long: "@ + spec_dec(len as nat)
            + " bytes exceeds "@ + spec_dec(max as nat) + " bytes"@,
        BaleError::TooSmall { size, minimum } => "archive too small: "@ + spec_dec(size as nat)
            + " bytes, minimum is "@ + spec_dec(minimum as nat),
        BaleError::InvalidDosDateTime => "invalid DOS date/time"@,
        BaleError::EntryNotFound => "entry not found"@,
        BaleError::NotAFile => "not a file"@,
        BaleError::NotADirectory => "not a directory"@,
        BaleError::NotASymlink => "not a symlink"@,
        BaleError::Corrupted(c) => "corrupted archive: "@ + corruption_text(c),
        BaleError::PathExists => "path already exists"@,
        BaleError::SymlinkLoop => "symlink loop"@,
        BaleError::ArchiveFull => "archive is full: entry ID space exhausted"@,
        BaleError::Io => "I/O error: archive too large"@,
    }
}

/// Decimal text of a number.
fn dec(n: u64) -> (s: String)
    ensures
        s@ == spec_dec(n as nat),
{
    decimal_string(n)
}

/// `a`, then `b`.
fn cat(a: &str, b: &str) -> (s: String)
    ensures
        s@ == a@ + b@,
{
    let mut s = String::from_str(a);
    s.append(b);
    s
}

impl Corruption {
    /// The corruption's message.
    pub fn to_string(&self) -> (s: String)
        ensures
            s@ == corruption_text(*self),
    {
        match self {
            Corruption::InvalidTrailer => String::from_str("invalid trailer"),
            Corruption::MetadataCrcMismatch { stored, computed } => {
                let mut s = cat("metadata CRC-32C mismatch: stored ", hex8_string(*stored).as_str());
                s.append(", computed ");
                s.append(hex8_string(*computed).as_str());
                s
            },
            Corruption::EntryCrcMismatch { stored, computed } => {
                let mut s = cat("CRC-32C mismatch: stored ", hex8_string(*stored).as_str());
                s.append(", computed ");
                s.append(hex8_string(*computed).as_str());
                s
            },
            Corruption::TableOutOfBounds => String::from_str("table extends beyond archive"),
            Corruption::DataOutOfBounds => String::from_str("data block extends beyond archive"),
            Corruption::RowSizeMismatch { expected, actual } => {
                let mut s = cat(
                    "directory row size mismatch: expected ",
                    dec(*expected as u64).as_str(),
                );
                s.append(", got ");
                s.append(dec(*actual as u64).as_str());
                s
            },
            Corruption::UnknownEntryKind(mode) => cat(
                "unknown entry kind for mode 0o",
                octal_string(*mode).as_str(),
            ),
        }
    }
}

impl BaleError {
    /// The error's message.
    pub fn to_string(&self) -> (s: String)
        ensures
            s@ == error_text(*self),
    {
        match self {
            BaleError::InvalidAlignment(a) => cat("invalid alignment: ", dec(*a as u64).as_str()),
            BaleError::InvalidAlignmentPower(p) => cat(
                "invalid alignment power: ",
                dec(*p as u64).as_str(),
            ),
            BaleError::InvalidPathSize(p) => {
                let mut s = cat("invalid path size: ", dec(*p as u64).as_str());
                s.append(" is not in range 1..=4096");
                s
            },
            BaleError::InvalidPath => String::from_str("invalid path"),
            BaleError::InvalidUtf8 => String::from_str("invalid UTF-8 in path"),
            BaleError::UnsafeFilename => String::from_str("unsafe filename"),
            BaleError::PathTooLong { len, max } => {
                let mut s = cat("path too long: ", dec(*len as u64).as_str());
                s.append(" bytes exceeds ");
                s.append(dec(*max as u64).as_str());
                s.append(" bytes");
                s
            },
            BaleError::TooSmall { size, minimum } => {
                let mut s = cat("archive too small: ", dec(*size).as_str());
                s.append(" bytes, minimum is ");
                s.append(dec(*minimum).as_str());
                s
            },
            BaleError::InvalidDosDateTime => String::from_str("invalid DOS date/time"),
            BaleError::EntryNotFound => String::from_str("entry not found"),
            BaleError::NotAFile => String::from_str("not a file"),
            BaleError::NotADirectory => String::from_str("not a directory"),
            BaleError::NotASymlink => String::from_str("not a symlink"),
            BaleError::Corrupted(c) => cat("corrupted archive: ", c.to_string().as_str()),
            BaleError::PathExists => String::from_str("path already exists"),
            BaleError::SymlinkLoop => String::from_str("symlink loop"),
            BaleError::ArchiveFull => String::from_str("archive is full: entry ID space exhausted"),
            BaleError::Io => String::from_str("I/O error: archive too large"),
        }
    }
}

} // verus!
