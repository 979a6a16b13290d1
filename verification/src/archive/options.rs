//! Options for opening archives and adding entries.

use vstd::prelude::*;

verus! {

/// Options for opening an existing archive.
#[derive(Debug, Clone, Copy)]
pub struct OpenOptions {
    /// Whether to validate the metadata CRC-32C on open.
    pub validate_crc: bool,
}

impl OpenOptions {
    /// Default options: CRC validation enabled.
    pub fn default() -> (o: Self)
        ensures
            o.validate_crc,
    {
        OpenOptions { validate_crc: true }
    }
}

/// Options for adding an entry: explicit timestamps in Unix epoch
/// milliseconds; `None` means the current time.
#[derive(Debug, Clone, Copy)]
pub struct AddEntryOptions {
    /// Creation timestamp.
    pub created_time: Option<i64>,
    /// Modification timestamp.
    pub modified_time: Option<i64>,
}

impl AddEntryOptions {
    /// Default options: both timestamps taken from the clock.
    pub fn default() -> (o: Self)
        ensures
            o.created_time is None && o.modified_time is None,
    {
        AddEntryOptions { created_time: None, modified_time: None }
    }
}

} // verus!
