//! Directory table rows mapping paths to entry IDs.

use vstd::prelude::*;
use vstd::utf8::{valid_utf8, decode_utf8};
use crate::archive_path::{trim_nul, nul_trimmed_len};
use crate::error::{BaleError, Corruption};
use crate::le::{get_u32, read_u32};
use crate::text::str_from_utf8;

verus! {

/// Size of the entry ID field of a directory row.
pub const ENTRY_ID_SIZE: usize = 4;

/// A directory table row: `path_size` bytes of null-padded path followed by
/// a little-endian u32 entry ID. The stride is `path_size + 4`.
#[derive(Debug, Clone, Copy)]
pub struct DirectoryRow<'a> {
    data: &'a [u8],
    path_size: u16,
}

impl<'a> DirectoryRow<'a> {
    /// The row's bytes.
    pub closed spec fn spec_data(&self) -> Seq<u8> {
        self.data@
    }

    /// The archive's path size for this row.
    pub closed spec fn spec_path_size(&self) -> u16 {
        self.path_size
    }

    /// The row's bytes are exactly one stride long.
    pub closed spec fn wf(&self) -> bool {
        self.data@.len() == self.path_size + 4
    }

    /// Returns the stride (total row size) for a given path size.
    pub fn stride(path_size: u16) -> (r: usize)
        ensures
            r == path_size + 4,
    {
        path_size as usize + ENTRY_ID_SIZE
    }

    /// Wraps a row of exactly `path_size + 4` bytes; a corruption error
    /// naming the expected and actual sizes otherwise.
    pub fn from_bytes(data: &'a [u8], path_size: u16) -> (r: Result<Self, BaleError>)
        ensures
            data@.len() == path_size + 4 ==> (r matches Ok(row) && row.wf() && row.spec_data()
                == data@ && row.spec_path_size() == path_size),
            data@.len() != path_size + 4 ==> r == Err::<Self, BaleError>(
                BaleError::Corrupted(
                    Corruption::RowSizeMismatch {
                        expected: (path_size + 4) as usize,
                        actual: data@.len() as usize,
                    },
                ),
            ),
    {
        let expected = Self::stride(path_size);
        if data.len() != expected {
            return Err(
                BaleError::Corrupted(Corruption::RowSizeMismatch { expected, actual: data.len() }),
            );
        }
        Ok(DirectoryRow { data, path_size })
    }

    /// Returns the raw path bytes, including null padding.
    pub fn path_bytes_raw(&self) -> (r: &'a [u8])
        requires
            self.wf(),
        ensures
            r@ == self.spec_data().subrange(0, self.spec_path_size() as int),
    {
        &self.data[0..self.path_size as usize]
    }

    /// Returns the path bytes with null padding removed.
    pub fn path_bytes(&self) -> (r: &'a [u8])
        requires
            self.wf(),
        ensures
            r@ == trim_nul(self.spec_data().subrange(0, self.spec_path_size() as int)),
    {
        let raw = self.path_bytes_raw();
        let n = nul_trimmed_len(raw);
        &raw[0..n]
    }

    /// Returns the path as UTF-8 (null padding removed), or `InvalidUtf8`.
    pub fn path(&self) -> (r: Result<&'a str, BaleError>)
        requires
            self.wf(),
        ensures
            r is Ok <==> valid_utf8(
                trim_nul(self.spec_data().subrange(0, self.spec_path_size() as int)),
            ),
            r matches Ok(s) ==> s@ == decode_utf8(
                trim_nul(self.spec_data().subrange(0, self.spec_path_size() as int)),
            ),
            r matches Err(e) ==> e == BaleError::InvalidUtf8,
    {
        match str_from_utf8(self.path_bytes()) {
            Some(s) => Ok(s),
            None => Err(BaleError::InvalidUtf8),
        }
    }

    /// Returns the entry ID.
    pub fn entry_id(&self) -> (r: u32)
        requires
            self.wf(),
        ensures
            r == get_u32(self.spec_data(), self.spec_path_size() as int),
    {
        read_u32(self.data, self.path_size as usize)
    }
}

} // verus!
