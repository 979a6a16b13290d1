//! CRC-32C (Castagnoli) newtype.

use vstd::prelude::*;

verus! {

/// The CRC-32C register after feeding `data` into a register holding `crc`,
/// as `crc32c::crc32c_append` computes it.
pub uninterp spec fn crc32c_append_spec(crc: u32, data: Seq<u8>) -> u32;

/// Feeds `data` into the CRC-32C state `crc` (`crc32c::crc32c_append`).
///
/// The crate inverts the register, runs the Castagnoli table over the bytes
/// and inverts it again, so its result depends on `crc` and the bytes alone
/// (named `crc32c_append_spec`); feeding nothing returns `crc` unchanged; and
/// feeding two pieces one after the other gives what feeding their
/// concatenation gives.
#[verifier::external_body]
fn crc32c_append(crc: u32, data: &[u8]) -> (r: u32)
    ensures
        r == crc32c_append_spec(crc, data@),
        data@.len() == 0 ==> r == crc,
        forall|c0: u32, pre: Seq<u8>|
            crc == #[trigger] crc32c_append_spec(c0, pre) ==> r == crc32c_append_spec(
                c0,
                pre + data@,
            ),
{
    crc32c::crc32c_append(crc, data)
}

/// The stored CRC of a byte string: zero ("no CRC") for empty data, else
/// the CRC-32C of the bytes.
pub open spec fn spec_crc_of(data: Seq<u8>) -> u32 {
    if data.len() == 0 {
        0
    } else {
        crc32c_append_spec(0, data)
    }
}

/// CRC-32C checksum with semantic zero handling: the value `0` means
/// "no CRC" (directories and empty entries).
#[derive(Debug, Clone, Copy, PartialEq, Eq, Structural)]
pub struct Crc(pub u32);

impl Crc {
    /// No CRC (value 0), used by directories and empty data blocks.
    pub fn none() -> (c: Self)
        ensures
            c.0 == 0,
    {
        Crc(0)
    }

    /// Creates a `Crc` from a raw value.
    pub fn new(value: u32) -> (c: Self)
        ensures
            c.0 == value,
    {
        Crc(value)
    }

    /// Computes the CRC-32C of `data`; `Crc::NONE` for empty data.
    pub fn compute(data: &[u8]) -> (c: Self)
        ensures
            c.0 == spec_crc_of(data@),
    {
        if data.len() == 0 {
            return Crc(0);
        }
        Crc(crc32c_append(0, data))
    }

    /// Appends more data to a CRC. Whatever prefix the CRC was computed
    /// over, the result is the CRC of that prefix followed by `data`.
    pub fn append(self, data: &[u8]) -> (c: Self)
        ensures
            c.0 == crc32c_append_spec(self.0, data@),
            data@.len() == 0 ==> c == self,
            forall|prefix: Seq<u8>|
                self.0 == #[trigger] spec_crc_of(prefix) ==> c.0 == spec_crc_of(prefix + data@),
    {
        let r = crc32c_append(self.0, data);
        proof {
            assert forall|prefix: Seq<u8>|
                self.0 == #[trigger] spec_crc_of(prefix) implies r == spec_crc_of(
                    prefix + data@,
                ) by {
                if prefix.len() == 0 {
                    assert(prefix + data@ =~= data@);
                } else {
                    assert(self.0 == crc32c_append_spec(0, prefix));
                }
            }
        }
        Crc(r)
    }

    /// Returns the CRC value, or `None` if absent (zero).
    pub fn get(self) -> (r: Option<u32>)
        ensures
            r == (if self.0 == 0 {
                None
            } else {
                Some(self.0)
            }),
    {
        if self.0 == 0 {
            None
        } else {
            Some(self.0)
        }
    }

    /// Returns the raw value.
    pub fn to_u32(self) -> (r: u32)
        ensures
            r == self.0,
    {
        self.0
    }
}

} // verus!
