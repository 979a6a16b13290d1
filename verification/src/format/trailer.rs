//! Archive trailer at the end of every bale archive.

use vstd::prelude::*;
use vstd::arithmetic::power2::pow2;
use crate::error::{BaleError, Corruption};
use crate::format::crc::{Crc, spec_crc_of};
use crate::le::{le16, le32, le64, get_u16, get_u32, get_u64, push_u16, push_u32, push_u64, read_u16, read_u32, read_u64, lemma_get_u16_of, lemma_get_u32_of, lemma_get_u64_of, lemma_u16_of_get, lemma_u32_of_get, lemma_u64_of_get, lemma_concat_prefix_subrange, lemma_concat_suffix_subrange, lemma_subrange_of_subrange};

verus! {

/// Total size of the trailer in bytes.
pub const TRAILER_SIZE: usize = 64;

/// The trailer flag marking a sorted directory table without tombstones.
pub const FLAG_COMPACTED: u8 = 1;

/// The magic bytes `B A L E` at offset 56 of the trailer.
pub open spec fn spec_trailer_magic() -> Seq<u8> {
    seq![0x42u8, 0x41u8, 0x4Cu8, 0x45u8]
}

/// Archive trailer (64 bytes), always the last 64 bytes of the file.
///
/// | Offset | Size | Field                  |
/// |--------|------|------------------------|
/// | 0      | 8    | Entry table offset     |
/// | 8      | 8    | Directory table offset |
/// | 16     | 8    | Archive size           |
/// | 24     | 4    | Entry count            |
/// | 28     | 4    | Directory entry count  |
/// | 32     | 4    | Next entry ID          |
/// | 36     | 2    | Path size              |
/// | 38     | 1    | Alignment power        |
/// | 39     | 1    | Flags                  |
/// | 40     | 16   | Reserved               |
/// | 56     | 4    | Magic `BALE`           |
/// | 60     | 4    | Metadata CRC-32C       |
#[derive(Debug, Clone, Copy)]
pub struct Trailer {
    /// Byte offset to the entry table.
    pub entry_table_offset: u64,
    /// Byte offset to the directory table.
    pub directory_table_offset: u64,
    /// Expected total archive file size in bytes.
    pub archive_size: u64,
    /// Number of entry rows.
    pub entry_count: u32,
    /// Number of directory rows.
    pub directory_entry_count: u32,
    /// Next entry ID to assign.
    pub next_id: u32,
    /// Maximum path length in bytes (1-4096).
    pub path_size: u16,
    /// Alignment as a power of two.
    pub alignment_power: u8,
    /// Flags bitfield.
    pub flags: u8,
    /// Reserved bytes (ignored).
    pub reserved: [u8; 16],
    /// Magic bytes: `BALE`.
    pub magic: [u8; 4],
    /// Metadata CRC-32C over file header, tables and trailer bytes 0-59.
    pub metadata_crc32c: u32,
}

/// True when `a` is a power of two no larger than 2^16.
pub open spec fn valid_alignment(a: u32) -> bool {
    exists|k: nat| k <= 16 && pow2(k) == a
}

/// True when `p` is an allowed path size.
pub open spec fn valid_path_size(p: u16) -> bool {
    1 <= p <= 4096
}

impl Trailer {
    /// Minimum allowed path size.
    pub const MIN_PATH_SIZE: u16 = 1;
    /// Maximum allowed path size.
    pub const MAX_PATH_SIZE: u16 = 4096;
    /// Maximum alignment power (2^16 = 64 KB).
    pub const MAX_ALIGNMENT_POWER: u8 = 16;
    /// Default alignment power (2^12 = 4096 bytes).
    pub const DEFAULT_ALIGNMENT_POWER: u8 = 12;
    /// Default alignment in bytes.
    pub const DEFAULT_ALIGNMENT: u32 = 4096;
    /// Default path size in bytes.
    pub const DEFAULT_PATH_SIZE: u16 = 256;
    /// Minimum archive size (file header + trailer).
    pub const MIN_ARCHIVE_SIZE: u64 = 72;

    /// True when this is the trailer of an empty archive with the given
    /// alignment power and path size: no tables, next ID 1, compacted, zero
    /// reserved bytes, magic `BALE`, zero CRC.
    pub open spec fn is_empty_with(self, alignment_power: u8, path_size: u16) -> bool {
        &&& self.entry_table_offset == 0
        &&& self.directory_table_offset == 0
        &&& self.archive_size == 0
        &&& self.entry_count == 0
        &&& self.directory_entry_count == 0
        &&& self.next_id == 1
        &&& self.path_size == path_size
        &&& self.alignment_power == alignment_power
        &&& self.flags == FLAG_COMPACTED
        &&& self.reserved@ == Seq::new(16, |i: int| 0u8)
        &&& self.magic@ == spec_trailer_magic()
        &&& self.metadata_crc32c == 0
    }

    /// Creates a trailer with default settings (4096 alignment, 256 path size)
    /// and empty tables.
    pub fn new() -> (t: Self)
        ensures
            t.is_empty_with(12, 256),
    {
        let t = Trailer {
            entry_table_offset: 0,
            directory_table_offset: 0,
            archive_size: 0,
            entry_count: 0,
            directory_entry_count: 0,
            next_id: 1,
            path_size: 256,
            alignment_power: 12,
            flags: FLAG_COMPACTED,
            reserved: [0u8; 16],
            magic: [0x42, 0x41, 0x4C, 0x45],
            metadata_crc32c: 0,
        };
        assert(t.reserved@ =~= Seq::new(16, |i: int| 0u8));
        assert(t.magic@ =~= spec_trailer_magic());
        t
    }

    /// Creates a trailer with the given alignment (a power of two up to
    /// 64 KB) and path size (1..=4096).
    pub fn new_with_options(alignment: u32, path_size: u16) -> (r: Result<Self, BaleError>)
        ensures
            !valid_alignment(alignment) ==> r == Err::<Self, BaleError>(
                BaleError::InvalidAlignment(alignment),
            ),
            valid_alignment(alignment) && !valid_path_size(path_size) ==> r == Err::<
                Self,
                BaleError,
            >(BaleError::InvalidPathSize(path_size)),
            valid_alignment(alignment) && valid_path_size(path_size) ==> (r matches Ok(t) && t
                .is_empty_with(t.alignment_power, path_size) && t.alignment_power <= 16
                && pow2(t.alignment_power as nat) == alignment),
    {
        proof {
            vstd::arithmetic::power2::lemma2_to64();
        }
        let mut k: u8 = 0;
        let mut p: u32 = 1;
        let mut found = false;
        while k <= 16 && !found
            invariant
                k <= 17,
                k <= 16 ==> p == pow2(k as nat),
                !found ==> forall|j: nat| j < k ==> pow2(j) != alignment,
                found ==> k <= 16 && pow2(k as nat) == alignment,
            decreases 17 - k + (if found { 0int } else { 1int }),
        {
            if p == alignment {
                found = true;
            } else {
                proof {
                    vstd::arithmetic::power2::lemma_pow2_unfold((k + 1) as nat);
                    vstd::arithmetic::power2::lemma2_to64();
                    if k < 16 {
                        vstd::arithmetic::power2::lemma_pow2_strictly_increases((k + 1) as nat, 17);
                    }
                }
                if k < 16 {
                    p = p * 2;
                }
                k = k + 1;
            }
        }
        if !found {
            proof {
                assert forall|j: nat| j <= 16 implies pow2(j) != alignment by {
                    assert(j < k);
                }
            }
            return Err(BaleError::InvalidAlignment(alignment));
        }
        if path_size < 1 || path_size > 4096 {
            return Err(BaleError::InvalidPathSize(path_size));
        }
        let t = Trailer {
            entry_table_offset: 0,
            directory_table_offset: 0,
            archive_size: 0,
            entry_count: 0,
            directory_entry_count: 0,
            next_id: 1,
            path_size,
            alignment_power: k,
            flags: FLAG_COMPACTED,
            reserved: [0u8; 16],
            magic: [0x42, 0x41, 0x4C, 0x45],
            metadata_crc32c: 0,
        };
        assert(t.reserved@ =~= Seq::new(16, |i: int| 0u8));
        assert(t.magic@ =~= spec_trailer_magic());
        Ok(t)
    }
}


impl Trailer {
    /// True when the trailer passes validation: magic `BALE`, alignment power
    /// at most 16, path size in 1..=4096 and a non-zero next ID. Reserved
    /// bytes are not checked.
    pub open spec fn spec_is_valid(self) -> bool {
        &&& self.magic@ == spec_trailer_magic()
        &&& self.alignment_power <= 16
        &&& valid_path_size(self.path_size)
        &&& self.next_id > 0
    }

    /// Returns the alignment in bytes, 2^`alignment_power`.
    pub fn alignment(&self) -> (r: Result<u32, BaleError>)
        ensures
            self.alignment_power > 16 ==> r == Err::<u32, BaleError>(
                BaleError::InvalidAlignmentPower(self.alignment_power),
            ),
            self.alignment_power <= 16 ==> r == Ok::<u32, BaleError>(
                pow2(self.alignment_power as nat) as u32,
            ),
    {
        if self.alignment_power > 16 {
            return Err(BaleError::InvalidAlignmentPower(self.alignment_power));
        }
        let mut k: u8 = 0;
        let mut p: u32 = 1;
        proof {
            vstd::arithmetic::power2::lemma2_to64();
        }
        while k < self.alignment_power
            invariant
                k <= self.alignment_power <= 16,
                p == pow2(k as nat),
            decreases self.alignment_power - k,
        {
            proof {
                vstd::arithmetic::power2::lemma_pow2_unfold((k + 1) as nat);
                vstd::arithmetic::power2::lemma2_to64();
                vstd::arithmetic::power2::lemma_pow2_strictly_increases(k as nat, 16);
            }
            p = p * 2;
            k = k + 1;
        }
        Ok(p)
    }

    /// Returns the maximum path size.
    pub fn path_size(&self) -> (r: u16)
        ensures
            r == self.path_size,
    {
        self.path_size
    }

    /// Returns the expected total archive size.
    pub fn archive_size(&self) -> (r: u64)
        ensures
            r == self.archive_size,
    {
        self.archive_size
    }

    /// Sets the expected total archive size.
    pub fn set_archive_size(&mut self, size: u64)
        ensures
            *final(self) == (Trailer { archive_size: size, ..*old(self) }),
    {
        self.archive_size = size;
    }

    /// Returns the next entry ID to assign.
    pub fn next_id(&self) -> (r: u32)
        ensures
            r == self.next_id,
    {
        self.next_id
    }

    /// Sets the next entry ID to assign.
    pub fn set_next_id(&mut self, id: u32)
        ensures
            *final(self) == (Trailer { next_id: id, ..*old(self) }),
    {
        self.next_id = id;
    }

    /// Returns the known flag bits (unknown bits are dropped).
    pub fn flags(&self) -> (r: u8)
        ensures
            r == self.flags & FLAG_COMPACTED,
    {
        self.flags & FLAG_COMPACTED
    }

    /// Returns `true` if the compacted flag is set.
    pub fn is_compacted(&self) -> (b: bool)
        ensures
            b <==> self.flags & FLAG_COMPACTED != 0,
    {
        self.flags & FLAG_COMPACTED != 0
    }

    /// Sets the compacted flag. Unknown flag bits are dropped.
    pub fn set_compacted(&mut self)
        ensures
            *final(self) == (Trailer { flags: FLAG_COMPACTED, ..*old(self) }),
    {
        let f = self.flags;
        let known = f & FLAG_COMPACTED;
        assert(known | 1u8 == 1u8) by (bit_vector)
            requires
                known == f & 1u8,
        ;
        self.flags = known | FLAG_COMPACTED;
    }

    /// Clears the compacted flag. Unknown flag bits are dropped.
    pub fn clear_compacted(&mut self)
        ensures
            *final(self) == (Trailer { flags: 0, ..*old(self) }),
    {
        let f = self.flags;
        let known = f & FLAG_COMPACTED;
        assert(known & !1u8 == 0u8) by (bit_vector)
            requires
                known == f & 1u8,
        ;
        self.flags = known & !FLAG_COMPACTED;
    }

    /// Returns `true` if the magic bytes match `BALE`.
    pub fn has_valid_magic(&self) -> (b: bool)
        ensures
            b <==> self.magic@ == spec_trailer_magic(),
    {
        let m = &self.magic;
        let b = m[0] == 0x42 && m[1] == 0x41 && m[2] == 0x4C && m[3] == 0x45;
        proof {
            if b {
                assert(self.magic@ =~= spec_trailer_magic());
            }
            if self.magic@ == spec_trailer_magic() {
                assert(self.magic@[0] == spec_trailer_magic()[0]);
                assert(self.magic@[1] == spec_trailer_magic()[1]);
                assert(self.magic@[2] == spec_trailer_magic()[2]);
                assert(self.magic@[3] == spec_trailer_magic()[3]);
            }
        }
        b
    }

    /// Validates the trailer fields.
    pub fn is_valid(&self) -> (b: bool)
        ensures
            b <==> self.spec_is_valid(),
    {
        self.has_valid_magic() && self.alignment_power <= 16 && self.path_size >= 1
            && self.path_size <= 4096 && self.next_id > 0
    }

    /// Validates the trailer, returning it or a corruption error.
    pub fn validated(&self) -> (r: Result<&Self, BaleError>)
        ensures
            self.spec_is_valid() ==> r == Ok::<&Self, BaleError>(self),
            !self.spec_is_valid() ==> r == Err::<&Self, BaleError>(
                BaleError::Corrupted(Corruption::InvalidTrailer),
            ),
    {
        if self.is_valid() {
            Ok(self)
        } else {
            Err(BaleError::Corrupted(Corruption::InvalidTrailer))
        }
    }

    /// Sets the metadata CRC field.
    pub fn set_metadata_crc(&mut self, crc: Crc)
        ensures
            *final(self) == (Trailer { metadata_crc32c: crc.0, ..*old(self) }),
    {
        self.metadata_crc32c = crc.0;
    }

    /// Returns the stored metadata CRC.
    pub fn metadata_crc(&self) -> (c: Crc)
        ensures
            c.0 == self.metadata_crc32c,
    {
        Crc(self.metadata_crc32c)
    }

    /// The on-disk bytes of this trailer.
    pub open spec fn spec_bytes(&self) -> Seq<u8> {
        le64(self.entry_table_offset) + le64(self.directory_table_offset) + le64(
            self.archive_size,
        ) + le32(self.entry_count) + le32(self.directory_entry_count) + le32(self.next_id) + le16(
            self.path_size,
        ) + seq![self.alignment_power, self.flags] + self.reserved@ + self.magic@ + le32(
            self.metadata_crc32c,
        )
    }

    /// The trailer that 64 bytes starting at `off` hold.
    pub open spec fn spec_parse_at(s: Seq<u8>, off: int) -> Trailer {
        Trailer {
            entry_table_offset: get_u64(s, off),
            directory_table_offset: get_u64(s, off + 8),
            archive_size: get_u64(s, off + 16),
            entry_count: get_u32(s, off + 24),
            directory_entry_count: get_u32(s, off + 28),
            next_id: get_u32(s, off + 32),
            path_size: get_u16(s, off + 36),
            alignment_power: s[off + 38],
            flags: s[off + 39],
            reserved: [
                s[off + 40],
                s[off + 41],
                s[off + 42],
                s[off + 43],
                s[off + 44],
                s[off + 45],
                s[off + 46],
                s[off + 47],
                s[off + 48],
                s[off + 49],
                s[off + 50],
                s[off + 51],
                s[off + 52],
                s[off + 53],
                s[off + 54],
                s[off + 55],
            ],
            magic: [s[off + 56], s[off + 57], s[off + 58], s[off + 59]],
            metadata_crc32c: get_u32(s, off + 60),
        }
    }

    /// The trailer that exactly 64 bytes hold.
    pub open spec fn spec_parse(s: Seq<u8>) -> Trailer {
        Self::spec_parse_at(s, 0)
    }

    /// Appends the on-disk bytes of this trailer to `v`.
    pub fn write_to(&self, v: &mut Vec<u8>)
        ensures
            final(v)@ == old(v)@ + self.spec_bytes(),
    {
        let ghost start = v@;
        push_u64(v, self.entry_table_offset);
        push_u64(v, self.directory_table_offset);
        push_u64(v, self.archive_size);
        push_u32(v, self.entry_count);
        push_u32(v, self.directory_entry_count);
        push_u32(v, self.next_id);
        push_u16(v, self.path_size);
        v.push(self.alignment_power);
        v.push(self.flags);
        let mut i: usize = 0;
        let ghost mid = v@;
        while i < 16
            invariant
                i <= 16,
                v@ == mid + self.reserved@.subrange(0, i as int),
            decreases 16 - i,
        {
            v.push(self.reserved[i]);
            i = i + 1;
            assert(v@ =~= mid + self.reserved@.subrange(0, i as int));
        }
        assert(self.reserved@.subrange(0, 16) =~= self.reserved@);
        v.push(self.magic[0]);
        v.push(self.magic[1]);
        v.push(self.magic[2]);
        v.push(self.magic[3]);
        push_u32(v, self.metadata_crc32c);
        assert(v@ =~= start + self.spec_bytes());
    }

    /// Serializes the trailer to its 64 on-disk bytes.
    pub fn to_bytes(&self) -> (v: Vec<u8>)
        ensures
            v@ == self.spec_bytes(),
            v@.len() == TRAILER_SIZE,
    {
        let mut v: Vec<u8> = Vec::new();
        self.write_to(&mut v);
        assert(v@ =~= self.spec_bytes());
        v
    }

    /// Reads the trailer stored at `off` in `b`.
    pub fn read_at(b: &[u8], off: usize) -> (t: Self)
        requires
            off + TRAILER_SIZE <= b@.len(),
        ensures
            t == Self::spec_parse_at(b@, off as int),
    {
        let _n = b.len();
        Trailer {
            entry_table_offset: read_u64(b, off),
            directory_table_offset: read_u64(b, off + 8),
            archive_size: read_u64(b, off + 16),
            entry_count: read_u32(b, off + 24),
            directory_entry_count: read_u32(b, off + 28),
            next_id: read_u32(b, off + 32),
            path_size: read_u16(b, off + 36),
            alignment_power: b[off + 38],
            flags: b[off + 39],
            reserved: [
                b[off + 40],
                b[off + 41],
                b[off + 42],
                b[off + 43],
                b[off + 44],
                b[off + 45],
                b[off + 46],
                b[off + 47],
                b[off + 48],
                b[off + 49],
                b[off + 50],
                b[off + 51],
                b[off + 52],
                b[off + 53],
                b[off + 54],
                b[off + 55],
            ],
            magic: [b[off + 56], b[off + 57], b[off + 58], b[off + 59]],
            metadata_crc32c: read_u32(b, off + 60),
        }
    }

    /// Interprets exactly 64 bytes as a trailer; `None` for any other length.
    pub fn from_bytes(b: &[u8]) -> (r: Option<Self>)
        ensures
            r is Some <==> b@.len() == TRAILER_SIZE,
            r matches Some(t) ==> t == Self::spec_parse(b@) && t.spec_bytes() == b@,
    {
        if b.len() != TRAILER_SIZE {
            return None;
        }
        let t = Self::read_at(b, 0);
        proof {
            lemma_trailer_bytes_of_parse(b@, 0);
            assert(b@.subrange(0, 64) =~= b@);
        }
        Some(t)
    }

    /// Computes the metadata CRC-32C: the CRC of the file header, the entry
    /// table, the directory table and bytes 0-59 of `trailer`, in that order.
    pub fn compute_metadata_crc(
        file_header: &[u8],
        entry_table: &[u8],
        directory_table: &[u8],
        trailer: &Self,
    ) -> (c: Crc)
        ensures
            c.0 == spec_crc_of(
                file_header@ + entry_table@ + directory_table@ + trailer.spec_bytes().subrange(
                    0,
                    60,
                ),
            ),
    {
        let tb = trailer.to_bytes();
        let head = &tb.as_slice()[0..60];
        let c0 = Crc::none();
        let ghost e: Seq<u8> = Seq::empty();
        assert(c0.0 == spec_crc_of(e));
        let c1 = c0.append(file_header);
        assert(e + file_header@ =~= file_header@);
        let c2 = c1.append(entry_table);
        let c3 = c2.append(directory_table);
        let c4 = c3.append(head);
        c4
    }
}

/// Where each field lies in the bytes of a trailer.
pub proof fn lemma_trailer_fields(t: Trailer)
    ensures
        t.spec_bytes().len() == TRAILER_SIZE,
        t.spec_bytes().subrange(0, 8) == le64(t.entry_table_offset),
        t.spec_bytes().subrange(8, 16) == le64(t.directory_table_offset),
        t.spec_bytes().subrange(16, 24) == le64(t.archive_size),
        t.spec_bytes().subrange(24, 28) == le32(t.entry_count),
        t.spec_bytes().subrange(28, 32) == le32(t.directory_entry_count),
        t.spec_bytes().subrange(32, 36) == le32(t.next_id),
        t.spec_bytes().subrange(36, 38) == le16(t.path_size),
        t.spec_bytes()[38] == t.alignment_power,
        t.spec_bytes()[39] == t.flags,
        t.spec_bytes().subrange(40, 56) == t.reserved@,
        t.spec_bytes().subrange(56, 60) == t.magic@,
        t.spec_bytes().subrange(60, 64) == le32(t.metadata_crc32c),
{
    let q1 = le64(t.entry_table_offset);
    let q2 = q1 + le64(t.directory_table_offset);
    let q3 = q2 + le64(t.archive_size);
    let q4 = q3 + le32(t.entry_count);
    let q5 = q4 + le32(t.directory_entry_count);
    let q6 = q5 + le32(t.next_id);
    let q7 = q6 + le16(t.path_size);
    let q8 = q7 + seq![t.alignment_power, t.flags];
    let q9 = q8 + t.reserved@;
    let q10 = q9 + t.magic@;
    let b = q10 + le32(t.metadata_crc32c);
    assert(b == t.spec_bytes());
    lemma_concat_suffix_subrange(q10, le32(t.metadata_crc32c));
    lemma_concat_suffix_subrange(q9, t.magic@);
    lemma_concat_suffix_subrange(q8, t.reserved@);
    lemma_concat_suffix_subrange(q7, seq![t.alignment_power, t.flags]);
    lemma_concat_suffix_subrange(q6, le16(t.path_size));
    lemma_concat_suffix_subrange(q5, le32(t.next_id));
    lemma_concat_suffix_subrange(q4, le32(t.directory_entry_count));
    lemma_concat_suffix_subrange(q3, le32(t.entry_count));
    lemma_concat_suffix_subrange(q2, le64(t.archive_size));
    lemma_concat_suffix_subrange(q1, le64(t.directory_table_offset));
    lemma_peel_trailer(q1, q2, q3, q4, q5, q6, q7, q8, q9, q10, b, t, 0, 8);
    assert(q1.subrange(0, 8) =~= q1);
    lemma_peel_trailer(q1, q2, q3, q4, q5, q6, q7, q8, q9, q10, b, t, 8, 16);
    lemma_peel_trailer(q1, q2, q3, q4, q5, q6, q7, q8, q9, q10, b, t, 16, 24);
    lemma_peel_trailer(q1, q2, q3, q4, q5, q6, q7, q8, q9, q10, b, t, 24, 28);
    lemma_peel_trailer(q1, q2, q3, q4, q5, q6, q7, q8, q9, q10, b, t, 28, 32);
    lemma_peel_trailer(q1, q2, q3, q4, q5, q6, q7, q8, q9, q10, b, t, 32, 36);
    lemma_peel_trailer(q1, q2, q3, q4, q5, q6, q7, q8, q9, q10, b, t, 36, 38);
    lemma_peel_trailer(q1, q2, q3, q4, q5, q6, q7, q8, q9, q10, b, t, 38, 40);
    lemma_peel_trailer(q1, q2, q3, q4, q5, q6, q7, q8, q9, q10, b, t, 40, 56);
    lemma_peel_trailer(q1, q2, q3, q4, q5, q6, q7, q8, q9, q10, b, t, 56, 60);
    let w = b.subrange(38, 40);
    assert(w[0] == b[38] && w[1] == b[39]);
}

proof fn lemma_peel_trailer(
    q1: Seq<u8>,
    q2: Seq<u8>,
    q3: Seq<u8>,
    q4: Seq<u8>,
    q5: Seq<u8>,
    q6: Seq<u8>,
    q7: Seq<u8>,
    q8: Seq<u8>,
    q9: Seq<u8>,
    q10: Seq<u8>,
    b: Seq<u8>,
    t: Trailer,
    a: int,
    c: int,
)
    requires
        q1 == le64(t.entry_table_offset),
        q2 == q1 + le64(t.directory_table_offset),
        q3 == q2 + le64(t.archive_size),
        q4 == q3 + le32(t.entry_count),
        q5 == q4 + le32(t.directory_entry_count),
        q6 == q5 + le32(t.next_id),
        q7 == q6 + le16(t.path_size),
        q8 == q7 + seq![t.alignment_power, t.flags],
        q9 == q8 + t.reserved@,
        q10 == q9 + t.magic@,
        b == q10 + le32(t.metadata_crc32c),
        0 <= a <= c <= 60,
    ensures
        c <= 8 ==> b.subrange(a, c) == q1.subrange(a, c),
        c <= 16 ==> b.subrange(a, c) == q2.subrange(a, c),
        c <= 24 ==> b.subrange(a, c) == q3.subrange(a, c),
        c <= 28 ==> b.subrange(a, c) == q4.subrange(a, c),
        c <= 32 ==> b.subrange(a, c) == q5.subrange(a, c),
        c <= 36 ==> b.subrange(a, c) == q6.subrange(a, c),
        c <= 38 ==> b.subrange(a, c) == q7.subrange(a, c),
        c <= 40 ==> b.subrange(a, c) == q8.subrange(a, c),
        c <= 56 ==> b.subrange(a, c) == q9.subrange(a, c),
        b.subrange(a, c) == q10.subrange(a, c),
{
    lemma_concat_prefix_subrange(q10, le32(t.metadata_crc32c), a, c);
    if c <= 56 {
        lemma_concat_prefix_subrange(q9, t.magic@, a, c);
    }
    if c <= 40 {
        lemma_concat_prefix_subrange(q8, t.reserved@, a, c);
    }
    if c <= 38 {
        lemma_concat_prefix_subrange(q7, seq![t.alignment_power, t.flags], a, c);
    }
    if c <= 36 {
        lemma_concat_prefix_subrange(q6, le16(t.path_size), a, c);
    }
    if c <= 32 {
        lemma_concat_prefix_subrange(q5, le32(t.next_id), a, c);
    }
    if c <= 28 {
        lemma_concat_prefix_subrange(q4, le32(t.directory_entry_count), a, c);
    }
    if c <= 24 {
        lemma_concat_prefix_subrange(q3, le32(t.entry_count), a, c);
    }
    if c <= 16 {
        lemma_concat_prefix_subrange(q2, le64(t.archive_size), a, c);
    }
    if c <= 8 {
        lemma_concat_prefix_subrange(q1, le64(t.directory_table_offset), a, c);
    }
}

/// The trailer read from where a trailer's bytes were placed is that trailer.
pub proof fn lemma_trailer_parse_of_bytes(s: Seq<u8>, off: int, t: Trailer)
    requires
        0 <= off,
        off + 64 <= s.len(),
        s.subrange(off, off + 64) == t.spec_bytes(),
    ensures
        Trailer::spec_parse_at(s, off) == t,
{
    lemma_trailer_fields(t);
    lemma_subrange_of_subrange(s, off, 64, 0, 8);
    lemma_subrange_of_subrange(s, off, 64, 8, 16);
    lemma_subrange_of_subrange(s, off, 64, 16, 24);
    lemma_subrange_of_subrange(s, off, 64, 24, 28);
    lemma_subrange_of_subrange(s, off, 64, 28, 32);
    lemma_subrange_of_subrange(s, off, 64, 32, 36);
    lemma_subrange_of_subrange(s, off, 64, 36, 38);
    lemma_subrange_of_subrange(s, off, 64, 40, 56);
    lemma_subrange_of_subrange(s, off, 64, 56, 60);
    lemma_subrange_of_subrange(s, off, 64, 60, 64);
    lemma_get_u64_of(s, off, t.entry_table_offset);
    lemma_get_u64_of(s, off + 8, t.directory_table_offset);
    lemma_get_u64_of(s, off + 16, t.archive_size);
    lemma_get_u32_of(s, off + 24, t.entry_count);
    lemma_get_u32_of(s, off + 28, t.directory_entry_count);
    lemma_get_u32_of(s, off + 32, t.next_id);
    lemma_get_u16_of(s, off + 36, t.path_size);
    lemma_get_u32_of(s, off + 60, t.metadata_crc32c);
    let p = Trailer::spec_parse_at(s, off);
    assert(s[off + 38] == s.subrange(off, off + 64)[38]);
    assert(s[off + 39] == s.subrange(off, off + 64)[39]);
    assert forall|i: int| 0 <= i < 16 implies p.reserved[i] == t.reserved[i] by {
        assert(s[off + 40 + i] == s.subrange(off + 40, off + 56)[i]);
    }
    assert(p.reserved =~= t.reserved);
    assert forall|i: int| 0 <= i < 4 implies p.magic[i] == t.magic[i] by {
        assert(s[off + 56 + i] == s.subrange(off + 56, off + 60)[i]);
    }
    assert(p.magic =~= t.magic);
}

/// The bytes of the trailer read at `off` are the bytes stored there.
pub proof fn lemma_trailer_bytes_of_parse(s: Seq<u8>, off: int)
    requires
        0 <= off,
        off + 64 <= s.len(),
    ensures
        Trailer::spec_parse_at(s, off).spec_bytes() == s.subrange(off, off + 64),
{
    let p = Trailer::spec_parse_at(s, off);
    lemma_u64_of_get(s, off);
    lemma_u64_of_get(s, off + 8);
    lemma_u64_of_get(s, off + 16);
    lemma_u32_of_get(s, off + 24);
    lemma_u32_of_get(s, off + 28);
    lemma_u32_of_get(s, off + 32);
    lemma_u16_of_get(s, off + 36);
    lemma_u32_of_get(s, off + 60);
    assert(p.spec_bytes() =~= s.subrange(off, off + 64));
}

/// Parsing the bytes of a trailer gives the trailer back.
pub proof fn lemma_trailer_roundtrip(t: Trailer)
    ensures
        t.spec_bytes().len() == TRAILER_SIZE,
        Trailer::spec_parse(t.spec_bytes()) == t,
{
    lemma_trailer_fields(t);
    assert(t.spec_bytes().subrange(0, 64) =~= t.spec_bytes());
    lemma_trailer_parse_of_bytes(t.spec_bytes(), 0, t);
}

} // verus!
