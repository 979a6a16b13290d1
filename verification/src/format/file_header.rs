//! File header at offset 0 of every bale archive.

use vstd::prelude::*;

verus! {

/// Total size of the file header in bytes.
pub const FILE_HEADER_SIZE: usize = 8;

/// File header (8 bytes) identifying the archive and format version.
///
/// | Offset | Size | Field         |
/// |--------|------|---------------|
/// | 0      | 5    | Magic `BALE\0`|
/// | 5      | 1    | Major version |
/// | 6      | 1    | Minor version |
/// | 7      | 1    | Patch version |
#[derive(Debug, Clone, Copy)]
pub struct FileHeader {
    /// Magic bytes: `"BALE\0"`.
    pub magic: [u8; 5],
    /// Format major version.
    pub version_major: u8,
    /// Format minor version.
    pub version_minor: u8,
    /// Format patch version.
    pub version_patch: u8,
}

/// The magic bytes `B A L E NUL`.
pub open spec fn spec_header_magic() -> Seq<u8> {
    seq![0x42u8, 0x41u8, 0x4Cu8, 0x45u8, 0x00u8]
}

impl FileHeader {
    /// The header of the current format: magic `BALE\0`, version 1.0.0.
    pub open spec fn new_spec() -> FileHeader {
        FileHeader {
            magic: [0x42u8, 0x41u8, 0x4Cu8, 0x45u8, 0x00u8],
            version_major: 1,
            version_minor: 0,
            version_patch: 0,
        }
    }

    /// `new` builds exactly `new_spec`.
    pub proof fn lemma_new_spec(h: FileHeader)
        requires
            h.magic@ == spec_header_magic(),
            h.version_major == 1 && h.version_minor == 0 && h.version_patch == 0,
        ensures
            h == Self::new_spec(),
    {
        let n = Self::new_spec();
        assert(n.magic@ =~= spec_header_magic());
        assert forall|i: int| 0 <= i < 5 implies h.magic[i] == n.magic[i] by {
            assert(h.magic@[i] == n.magic@[i]);
        }
        assert(h.magic =~= n.magic);
    }

    /// The current format version (1.0.0) as (major, minor, patch).
    pub fn current_version() -> (v: (u8, u8, u8))
        ensures
            v == (1u8, 0u8, 0u8),
    {
        (1, 0, 0)
    }

    /// Creates a header with the expected magic and the current version.
    pub fn new() -> (h: Self)
        ensures
            h.magic@ == spec_header_magic(),
            h.version_major == 1 && h.version_minor == 0 && h.version_patch == 0,
    {
        let h = FileHeader {
            magic: [0x42, 0x41, 0x4C, 0x45, 0x00],
            version_major: 1,
            version_minor: 0,
            version_patch: 0,
        };
        assert(h.magic@ =~= spec_header_magic());
        h
    }

    /// Returns the version as (major, minor, patch).
    pub fn version(&self) -> (v: (u8, u8, u8))
        ensures
            v == (self.version_major, self.version_minor, self.version_patch),
    {
        (self.version_major, self.version_minor, self.version_patch)
    }

    /// Returns `true` if the magic bytes match `BALE\0`.
    pub fn has_valid_magic(&self) -> (b: bool)
        ensures
            b <==> self.magic@ == spec_header_magic(),
    {
        let m = &self.magic;
        let b = m[0] == 0x42 && m[1] == 0x41 && m[2] == 0x4C && m[3] == 0x45 && m[4] == 0x00;
        proof {
            if b {
                assert(self.magic@ =~= spec_header_magic());
            }
            if self.magic@ == spec_header_magic() {
                assert(self.magic@[0] == spec_header_magic()[0]);
                assert(self.magic@[1] == spec_header_magic()[1]);
                assert(self.magic@[2] == spec_header_magic()[2]);
                assert(self.magic@[3] == spec_header_magic()[3]);
                assert(self.magic@[4] == spec_header_magic()[4]);
            }
        }
        b
    }

    /// The on-disk bytes of this header.
    pub open spec fn spec_bytes(&self) -> Seq<u8> {
        self.magic@ + seq![self.version_major, self.version_minor, self.version_patch]
    }

    /// The header that eight bytes hold.
    pub open spec fn spec_parse(s: Seq<u8>) -> FileHeader {
        FileHeader {
            magic: [s[0], s[1], s[2], s[3], s[4]],
            version_major: s[5],
            version_minor: s[6],
            version_patch: s[7],
        }
    }

    /// Serializes the header to its eight on-disk bytes.
    pub fn to_bytes(&self) -> (v: Vec<u8>)
        ensures
            v@ == self.spec_bytes(),
            v@.len() == FILE_HEADER_SIZE,
    {
        let mut v: Vec<u8> = Vec::new();
        v.push(self.magic[0]);
        v.push(self.magic[1]);
        v.push(self.magic[2]);
        v.push(self.magic[3]);
        v.push(self.magic[4]);
        v.push(self.version_major);
        v.push(self.version_minor);
        v.push(self.version_patch);
        assert(v@ =~= self.spec_bytes());
        v
    }

    /// Interprets exactly eight bytes as a header; `None` for any other length.
    pub fn from_bytes(b: &[u8]) -> (r: Option<Self>)
        ensures
            r is Some <==> b@.len() == FILE_HEADER_SIZE,
            r matches Some(h) ==> h == Self::spec_parse(b@) && h.spec_bytes() == b@,
    {
        if b.len() != FILE_HEADER_SIZE {
            return None;
        }
        let h = FileHeader {
            magic: [b[0], b[1], b[2], b[3], b[4]],
            version_major: b[5],
            version_minor: b[6],
            version_patch: b[7],
        };
        assert(h.spec_bytes() =~= b@);
        Some(h)
    }
}

/// Parsing the bytes of a header gives the header back.
pub proof fn lemma_file_header_roundtrip(h: FileHeader)
    ensures
        h.spec_bytes().len() == FILE_HEADER_SIZE,
        FileHeader::spec_parse(h.spec_bytes()) == h,
{
    let p = FileHeader::spec_parse(h.spec_bytes());
    assert(p.magic =~= h.magic);
}

} // verus!
