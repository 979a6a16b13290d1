//! Entry table row containing per-entry metadata.

use vstd::prelude::*;
use crate::entry_kind::{EntryKind, spec_kind_of_mode};
use crate::format::crc::Crc;
use crate::le::{le32, le64, get_u32, get_u64, push_u32, push_u64, read_u32, read_u64, lemma_le32_roundtrip, lemma_le64_roundtrip, lemma_get_u32_of, lemma_get_u64_of, lemma_u32_of_get, lemma_u64_of_get, lemma_i64_bits_roundtrip, lemma_u64_bits_roundtrip, lemma_concat_prefix_subrange, lemma_concat_suffix_subrange, lemma_subrange_of_subrange};

verus! {

/// Total size of an entry row in bytes.
pub const ENTRY_ROW_SIZE: usize = 64;

/// Compression method: stored (no compression).
pub const COMPRESSION_NONE: u8 = 0;

/// Entry table row (64 bytes) with per-entry metadata.
///
/// | Offset | Size | Field             |
/// |--------|------|-------------------|
/// | 0      | 4    | Entry ID          |
/// | 4      | 4    | CRC-32C           |
/// | 8      | 8    | Data block offset |
/// | 16     | 8    | File size         |
/// | 24     | 8    | Block size        |
/// | 32     | 8    | Created time (ms) |
/// | 40     | 8    | Modified time (ms)|
/// | 48     | 4    | Mode              |
/// | 52     | 1    | Compression       |
/// | 53     | 1    | Flags             |
/// | 54     | 10   | Reserved          |
///
/// All integers are little-endian.
#[derive(Debug, Clone, Copy)]
pub struct EntryRow {
    /// Entry ID, unique within the archive. ID 0 is reserved (tombstone).
    pub entry_id: u32,
    /// CRC-32C checksum of the stored data bytes (0 = none).
    pub crc32c: u32,
    /// Byte offset to the data block (0 = no data block).
    pub data_offset: u64,
    /// Original uncompressed file size in bytes.
    pub file_size: u64,
    /// Stored size in bytes.
    pub block_size: u64,
    /// Creation time as Unix epoch milliseconds.
    pub created_time: i64,
    /// Modification time as Unix epoch milliseconds.
    pub modified_time: i64,
    /// Unix mode (file type in upper bits, permissions in lower bits).
    pub mode: u32,
    /// Compression method (0 = stored).
    pub compression: u8,
    /// Entry flags bitfield.
    pub flags: u8,
    /// Reserved bytes.
    pub reserved: [u8; 10],
}

impl EntryRow {
    /// Creates a row for a regular file (or any entry with a data block).
    pub fn new_file(
        entry_id: u32,
        crc: Crc,
        data_offset: u64,
        file_size: u64,
        block_size: u64,
        created_time: i64,
        modified_time: i64,
        mode: u32,
    ) -> (r: Self)
        ensures
            r.entry_id == entry_id,
            r.crc32c == crc.0,
            r.data_offset == data_offset,
            r.file_size == file_size,
            r.block_size == block_size,
            r.created_time == created_time,
            r.modified_time == modified_time,
            r.mode == mode,
            r.compression == COMPRESSION_NONE,
            r.flags == 0,
            r.reserved@ == Seq::new(10, |i: int| 0u8),
    {
        let r = EntryRow {
            entry_id,
            crc32c: crc.0,
            data_offset,
            file_size,
            block_size,
            created_time,
            modified_time,
            mode,
            compression: COMPRESSION_NONE,
            flags: 0,
            reserved: [0u8; 10],
        };
        assert(r.reserved@ =~= Seq::new(10, |i: int| 0u8));
        r
    }

    /// Creates a row for a directory: no data block and no CRC.
    pub fn new_directory(entry_id: u32, created_time: i64, modified_time: i64, mode: u32) -> (r:
        Self)
        ensures
            r.entry_id == entry_id,
            r.crc32c == 0,
            r.data_offset == 0,
            r.file_size == 0,
            r.block_size == 0,
            r.created_time == created_time,
            r.modified_time == modified_time,
            r.mode == mode,
            r.compression == COMPRESSION_NONE,
            r.flags == 0,
            r.reserved@ == Seq::new(10, |i: int| 0u8),
    {
        Self::new_file(entry_id, Crc::none(), 0, 0, 0, created_time, modified_time, mode)
    }

    /// Returns the CRC-32C of this entry.
    pub fn crc(&self) -> (c: Crc)
        ensures
            c.0 == self.crc32c,
    {
        Crc(self.crc32c)
    }

    /// Returns the entry kind from the mode field.
    pub fn kind(&self) -> (k: EntryKind)
        ensures
            k == spec_kind_of_mode(self.mode),
    {
        EntryKind::from_mode(self.mode)
    }

    /// The on-disk bytes of this row.
    pub open spec fn spec_bytes(&self) -> Seq<u8> {
        le32(self.entry_id) + le32(self.crc32c) + le64(self.data_offset) + le64(self.file_size)
            + le64(self.block_size) + le64(self.created_time as u64) + le64(
            self.modified_time as u64,
        ) + le32(self.mode) + seq![self.compression, self.flags] + self.reserved@
    }

    /// The row that 64 bytes starting at `off` hold.
    pub open spec fn spec_parse_at(s: Seq<u8>, off: int) -> EntryRow {
        EntryRow {
            entry_id: get_u32(s, off),
            crc32c: get_u32(s, off + 4),
            data_offset: get_u64(s, off + 8),
            file_size: get_u64(s, off + 16),
            block_size: get_u64(s, off + 24),
            created_time: get_u64(s, off + 32) as i64,
            modified_time: get_u64(s, off + 40) as i64,
            mode: get_u32(s, off + 48),
            compression: s[off + 52],
            flags: s[off + 53],
            reserved: [
                s[off + 54],
                s[off + 55],
                s[off + 56],
                s[off + 57],
                s[off + 58],
                s[off + 59],
                s[off + 60],
                s[off + 61],
                s[off + 62],
                s[off + 63],
            ],
        }
    }

    /// The row that exactly 64 bytes hold.
    pub open spec fn spec_parse(s: Seq<u8>) -> EntryRow {
        Self::spec_parse_at(s, 0)
    }

    /// Appends the on-disk bytes of this row to `v`.
    pub fn write_to(&self, v: &mut Vec<u8>)
        ensures
            final(v)@ == old(v)@ + self.spec_bytes(),
    {
        let ghost start = v@;
        push_u32(v, self.entry_id);
        push_u32(v, self.crc32c);
        push_u64(v, self.data_offset);
        push_u64(v, self.file_size);
        push_u64(v, self.block_size);
        push_u64(v, self.created_time as u64);
        push_u64(v, self.modified_time as u64);
        push_u32(v, self.mode);
        v.push(self.compression);
        v.push(self.flags);
        let mut i: usize = 0;
        let ghost mid = v@;
        while i < 10
            invariant
                i <= 10,
                v@ == mid + self.reserved@.subrange(0, i as int),
            decreases 10 - i,
        {
            v.push(self.reserved[i]);
            i = i + 1;
            assert(v@ =~= mid + self.reserved@.subrange(0, i as int));
        }
        assert(self.reserved@.subrange(0, 10) =~= self.reserved@);
        assert(v@ =~= start + self.spec_bytes());
    }

    /// Serializes the row to its 64 on-disk bytes.
    pub fn to_bytes(&self) -> (v: Vec<u8>)
        ensures
            v@ == self.spec_bytes(),
            v@.len() == ENTRY_ROW_SIZE,
    {
        let mut v: Vec<u8> = Vec::new();
        self.write_to(&mut v);
        assert(v@ =~= self.spec_bytes());
        v
    }

    /// Reads the row stored at `off` in `b`.
    pub fn read_at(b: &[u8], off: usize) -> (r: Self)
        requires
            off + ENTRY_ROW_SIZE <= b@.len(),
        ensures
            r == Self::spec_parse_at(b@, off as int),
    {
        let _n = b.len();
        EntryRow {
            entry_id: read_u32(b, off),
            crc32c: read_u32(b, off + 4),
            data_offset: read_u64(b, off + 8),
            file_size: read_u64(b, off + 16),
            block_size: read_u64(b, off + 24),
            created_time: read_u64(b, off + 32) as i64,
            modified_time: read_u64(b, off + 40) as i64,
            mode: read_u32(b, off + 48),
            compression: b[off + 52],
            flags: b[off + 53],
            reserved: [
                b[off + 54],
                b[off + 55],
                b[off + 56],
                b[off + 57],
                b[off + 58],
                b[off + 59],
                b[off + 60],
                b[off + 61],
                b[off + 62],
                b[off + 63],
            ],
        }
    }

    /// Interprets exactly 64 bytes as a row; `None` for any other length.
    pub fn from_bytes(b: &[u8]) -> (r: Option<Self>)
        ensures
            r is Some <==> b@.len() == ENTRY_ROW_SIZE,
            r matches Some(row) ==> row == Self::spec_parse(b@) && row.spec_bytes() == b@,
    {
        if b.len() != ENTRY_ROW_SIZE {
            return None;
        }
        let r = Self::read_at(b, 0);
        proof {
            lemma_entry_row_bytes_of_parse(b@, 0);
            assert(b@.subrange(0, 64) =~= b@);
        }
        Some(r)
    }
}

/// Parsing the bytes of a row gives the row back.
pub proof fn lemma_entry_row_roundtrip(r: EntryRow)
    ensures
        r.spec_bytes().len() == ENTRY_ROW_SIZE,
        EntryRow::spec_parse(r.spec_bytes()) == r,
{
    lemma_entry_row_fields(r);
    assert(r.spec_bytes().subrange(0, 64) =~= r.spec_bytes());
    lemma_entry_row_parse_of_bytes(r.spec_bytes(), 0, r);
}

/// Where each field lies in the bytes of a row.
pub proof fn lemma_entry_row_fields(r: EntryRow)
    ensures
        r.spec_bytes().len() == ENTRY_ROW_SIZE,
        r.spec_bytes().subrange(0, 4) == le32(r.entry_id),
        r.spec_bytes().subrange(4, 8) == le32(r.crc32c),
        r.spec_bytes().subrange(8, 16) == le64(r.data_offset),
        r.spec_bytes().subrange(16, 24) == le64(r.file_size),
        r.spec_bytes().subrange(24, 32) == le64(r.block_size),
        r.spec_bytes().subrange(32, 40) == le64(r.created_time as u64),
        r.spec_bytes().subrange(40, 48) == le64(r.modified_time as u64),
        r.spec_bytes().subrange(48, 52) == le32(r.mode),
        r.spec_bytes()[52] == r.compression,
        r.spec_bytes()[53] == r.flags,
        r.spec_bytes().subrange(54, 64) == r.reserved@,
{
    let q1 = le32(r.entry_id);
    let q2 = q1 + le32(r.crc32c);
    let q3 = q2 + le64(r.data_offset);
    let q4 = q3 + le64(r.file_size);
    let q5 = q4 + le64(r.block_size);
    let q6 = q5 + le64(r.created_time as u64);
    let q7 = q6 + le64(r.modified_time as u64);
    let q8 = q7 + le32(r.mode);
    let q9 = q8 + seq![r.compression, r.flags];
    let b = q9 + r.reserved@;
    assert(b == r.spec_bytes());
    lemma_concat_suffix_subrange(q9, r.reserved@);
    lemma_concat_suffix_subrange(q8, seq![r.compression, r.flags]);
    lemma_concat_suffix_subrange(q7, le32(r.mode));
    lemma_concat_suffix_subrange(q6, le64(r.modified_time as u64));
    lemma_concat_suffix_subrange(q5, le64(r.created_time as u64));
    lemma_concat_suffix_subrange(q4, le64(r.block_size));
    lemma_concat_suffix_subrange(q3, le64(r.file_size));
    lemma_concat_suffix_subrange(q2, le64(r.data_offset));
    lemma_concat_suffix_subrange(q1, le32(r.crc32c));
    // peel the prefixes
    lemma_concat_prefix_subrange(q9, r.reserved@, 0, 4);
    lemma_concat_prefix_subrange(q8, seq![r.compression, r.flags], 0, 4);
    lemma_concat_prefix_subrange(q7, le32(r.mode), 0, 4);
    lemma_concat_prefix_subrange(q6, le64(r.modified_time as u64), 0, 4);
    lemma_concat_prefix_subrange(q5, le64(r.created_time as u64), 0, 4);
    lemma_concat_prefix_subrange(q4, le64(r.block_size), 0, 4);
    lemma_concat_prefix_subrange(q3, le64(r.file_size), 0, 4);
    lemma_concat_prefix_subrange(q2, le64(r.data_offset), 0, 4);
    lemma_concat_prefix_subrange(q1, le32(r.crc32c), 0, 4);
    assert(q1.subrange(0, 4) =~= q1);

    lemma_concat_prefix_subrange(q9, r.reserved@, 4, 8);
    lemma_concat_prefix_subrange(q8, seq![r.compression, r.flags], 4, 8);
    lemma_concat_prefix_subrange(q7, le32(r.mode), 4, 8);
    lemma_concat_prefix_subrange(q6, le64(r.modified_time as u64), 4, 8);
    lemma_concat_prefix_subrange(q5, le64(r.created_time as u64), 4, 8);
    lemma_concat_prefix_subrange(q4, le64(r.block_size), 4, 8);
    lemma_concat_prefix_subrange(q3, le64(r.file_size), 4, 8);
    lemma_concat_prefix_subrange(q2, le64(r.data_offset), 4, 8);

    lemma_concat_prefix_subrange(q9, r.reserved@, 8, 16);
    lemma_concat_prefix_subrange(q8, seq![r.compression, r.flags], 8, 16);
    lemma_concat_prefix_subrange(q7, le32(r.mode), 8, 16);
    lemma_concat_prefix_subrange(q6, le64(r.modified_time as u64), 8, 16);
    lemma_concat_prefix_subrange(q5, le64(r.created_time as u64), 8, 16);
    lemma_concat_prefix_subrange(q4, le64(r.block_size), 8, 16);
    lemma_concat_prefix_subrange(q3, le64(r.file_size), 8, 16);

    lemma_concat_prefix_subrange(q9, r.reserved@, 16, 24);
    lemma_concat_prefix_subrange(q8, seq![r.compression, r.flags], 16, 24);
    lemma_concat_prefix_subrange(q7, le32(r.mode), 16, 24);
    lemma_concat_prefix_subrange(q6, le64(r.modified_time as u64), 16, 24);
    lemma_concat_prefix_subrange(q5, le64(r.created_time as u64), 16, 24);
    lemma_concat_prefix_subrange(q4, le64(r.block_size), 16, 24);

    lemma_concat_prefix_subrange(q9, r.reserved@, 24, 32);
    lemma_concat_prefix_subrange(q8, seq![r.compression, r.flags], 24, 32);
    lemma_concat_prefix_subrange(q7, le32(r.mode), 24, 32);
    lemma_concat_prefix_subrange(q6, le64(r.modified_time as u64), 24, 32);
    lemma_concat_prefix_subrange(q5, le64(r.created_time as u64), 24, 32);

    lemma_concat_prefix_subrange(q9, r.reserved@, 32, 40);
    lemma_concat_prefix_subrange(q8, seq![r.compression, r.flags], 32, 40);
    lemma_concat_prefix_subrange(q7, le32(r.mode), 32, 40);
    lemma_concat_prefix_subrange(q6, le64(r.modified_time as u64), 32, 40);

    lemma_concat_prefix_subrange(q9, r.reserved@, 40, 48);
    lemma_concat_prefix_subrange(q8, seq![r.compression, r.flags], 40, 48);
    lemma_concat_prefix_subrange(q7, le32(r.mode), 40, 48);

    lemma_concat_prefix_subrange(q9, r.reserved@, 48, 52);
    lemma_concat_prefix_subrange(q8, seq![r.compression, r.flags], 48, 52);

    lemma_concat_prefix_subrange(q9, r.reserved@, 52, 54);
    let t = b.subrange(52, 54);
    assert(t[0] == b[52] && t[1] == b[53]);
}

/// The row read from where a row's bytes were placed is that row.
pub proof fn lemma_entry_row_parse_of_bytes(s: Seq<u8>, off: int, r: EntryRow)
    requires
        0 <= off,
        off + 64 <= s.len(),
        s.subrange(off, off + 64) == r.spec_bytes(),
    ensures
        r.spec_bytes().len() == ENTRY_ROW_SIZE,
        EntryRow::spec_parse_at(s, off) == r,
{
    let b = r.spec_bytes();
    lemma_entry_row_fields(r);
    lemma_subrange_of_subrange(s, off, 64, 0, 4);
    lemma_subrange_of_subrange(s, off, 64, 4, 8);
    lemma_subrange_of_subrange(s, off, 64, 8, 16);
    lemma_subrange_of_subrange(s, off, 64, 16, 24);
    lemma_subrange_of_subrange(s, off, 64, 24, 32);
    lemma_subrange_of_subrange(s, off, 64, 32, 40);
    lemma_subrange_of_subrange(s, off, 64, 40, 48);
    lemma_subrange_of_subrange(s, off, 64, 48, 52);
    lemma_subrange_of_subrange(s, off, 64, 54, 64);
    lemma_get_u32_of(s, off, r.entry_id);
    lemma_get_u32_of(s, off + 4, r.crc32c);
    lemma_get_u64_of(s, off + 8, r.data_offset);
    lemma_get_u64_of(s, off + 16, r.file_size);
    lemma_get_u64_of(s, off + 24, r.block_size);
    lemma_get_u64_of(s, off + 32, r.created_time as u64);
    lemma_get_u64_of(s, off + 40, r.modified_time as u64);
    lemma_get_u32_of(s, off + 48, r.mode);
    lemma_i64_bits_roundtrip(r.created_time);
    lemma_i64_bits_roundtrip(r.modified_time);
    let p = EntryRow::spec_parse_at(s, off);
    assert(s[off + 52] == s.subrange(off, off + 64)[52]);
    assert(s[off + 53] == s.subrange(off, off + 64)[53]);
    assert forall|i: int| 0 <= i < 10 implies p.reserved[i] == r.reserved[i] by {
        assert(s[off + 54 + i] == s.subrange(off + 54, off + 64)[i]);
    }
    assert(p.reserved =~= r.reserved);
}

/// The bytes of the row read at `off` are the bytes stored there.
pub proof fn lemma_entry_row_bytes_of_parse(s: Seq<u8>, off: int)
    requires
        0 <= off,
        off + 64 <= s.len(),
    ensures
        EntryRow::spec_parse_at(s, off).spec_bytes() == s.subrange(off, off + 64),
{
    let p = EntryRow::spec_parse_at(s, off);
    lemma_u32_of_get(s, off);
    lemma_u32_of_get(s, off + 4);
    lemma_u64_of_get(s, off + 8);
    lemma_u64_of_get(s, off + 16);
    lemma_u64_of_get(s, off + 24);
    lemma_u64_of_get(s, off + 32);
    lemma_u64_of_get(s, off + 40);
    lemma_u32_of_get(s, off + 48);
    lemma_u64_bits_roundtrip(get_u64(s, off + 32));
    lemma_u64_bits_roundtrip(get_u64(s, off + 40));
    assert(p.spec_bytes() =~= s.subrange(off, off + 64));
}

} // verus!
