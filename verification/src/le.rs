//! Little-endian integer codecs over byte sequences.

use vstd::prelude::*;

verus! {

/// The two little-endian bytes of `x`.
pub open spec fn le16(x: u16) -> Seq<u8> {
    seq![(x & 0xff) as u8, ((x >> 8) & 0xff) as u8]
}

/// The four little-endian bytes of `x`.
pub open spec fn le32(x: u32) -> Seq<u8> {
    seq![(x & 0xff) as u8, ((x >> 8) & 0xff) as u8, ((x >> 16) & 0xff) as u8, ((x >> 24) & 0xff) as u8]
}

/// The eight little-endian bytes of `x`.
pub open spec fn le64(x: u64) -> Seq<u8> {
    seq![
        (x & 0xff) as u8,
        ((x >> 8) & 0xff) as u8,
        ((x >> 16) & 0xff) as u8,
        ((x >> 24) & 0xff) as u8,
        ((x >> 32) & 0xff) as u8,
        ((x >> 40) & 0xff) as u8,
        ((x >> 48) & 0xff) as u8,
        ((x >> 56) & 0xff) as u8,
    ]
}

/// The value of two little-endian bytes.
pub open spec fn from_le16(b0: u8, b1: u8) -> u16 {
    (b0 as u16) | ((b1 as u16) << 8)
}

/// The value of four little-endian bytes.
pub open spec fn from_le32(b0: u8, b1: u8, b2: u8, b3: u8) -> u32 {
    (b0 as u32) | ((b1 as u32) << 8) | ((b2 as u32) << 16) | ((b3 as u32) << 24)
}

/// The value of eight little-endian bytes.
pub open spec fn from_le64(b0: u8, b1: u8, b2: u8, b3: u8, b4: u8, b5: u8, b6: u8, b7: u8) -> u64 {
    (b0 as u64) | ((b1 as u64) << 8) | ((b2 as u64) << 16) | ((b3 as u64) << 24) | ((b4 as u64)
        << 32) | ((b5 as u64) << 40) | ((b6 as u64) << 48) | ((b7 as u64) << 56)
}

/// The u16 stored little-endian at `off` in `s`.
pub open spec fn get_u16(s: Seq<u8>, off: int) -> u16 {
    from_le16(s[off], s[off + 1])
}

/// The u32 stored little-endian at `off` in `s`.
pub open spec fn get_u32(s: Seq<u8>, off: int) -> u32 {
    from_le32(s[off], s[off + 1], s[off + 2], s[off + 3])
}

/// The u64 stored little-endian at `off` in `s`.
pub open spec fn get_u64(s: Seq<u8>, off: int) -> u64 {
    from_le64(
        s[off],
        s[off + 1],
        s[off + 2],
        s[off + 3],
        s[off + 4],
        s[off + 5],
        s[off + 6],
        s[off + 7],
    )
}

/// Decoding the encoding of a u16 gives it back.
pub proof fn lemma_le16_roundtrip(x: u16)
    ensures
        le16(x).len() == 2,
        from_le16(le16(x)[0], le16(x)[1]) == x,
{
    assert(from_le16((x & 0xff) as u8, ((x >> 8) & 0xff) as u8) == x) by (bit_vector);
}

/// Decoding the encoding of a u32 gives it back.
pub proof fn lemma_le32_roundtrip(x: u32)
    ensures
        le32(x).len() == 4,
        from_le32(le32(x)[0], le32(x)[1], le32(x)[2], le32(x)[3]) == x,
{
    assert(from_le32(
        (x & 0xff) as u8,
        ((x >> 8) & 0xff) as u8,
        ((x >> 16) & 0xff) as u8,
        ((x >> 24) & 0xff) as u8,
    ) == x) by (bit_vector);
}

/// Decoding the encoding of a u64 gives it back.
pub proof fn lemma_le64_roundtrip(x: u64)
    ensures
        le64(x).len() == 8,
        from_le64(
            le64(x)[0],
            le64(x)[1],
            le64(x)[2],
            le64(x)[3],
            le64(x)[4],
            le64(x)[5],
            le64(x)[6],
            le64(x)[7],
        ) == x,
{
    assert(from_le64(
        (x & 0xff) as u8,
        ((x >> 8) & 0xff) as u8,
        ((x >> 16) & 0xff) as u8,
        ((x >> 24) & 0xff) as u8,
        ((x >> 32) & 0xff) as u8,
        ((x >> 40) & 0xff) as u8,
        ((x >> 48) & 0xff) as u8,
        ((x >> 56) & 0xff) as u8,
    ) == x) by (bit_vector);
}

/// Encoding the value of two bytes gives the bytes back.
pub proof fn lemma_from_le16_roundtrip(b0: u8, b1: u8)
    ensures
        le16(from_le16(b0, b1)) == seq![b0, b1],
{
    let x = from_le16(b0, b1);
    assert((x & 0xff) as u8 == b0 && ((x >> 8) & 0xff) as u8 == b1) by (bit_vector)
        requires
            x == from_le16(b0, b1),
    ;
    assert(le16(x) =~= seq![b0, b1]);
}

/// Encoding the value of four bytes gives the bytes back.
pub proof fn lemma_from_le32_roundtrip(b0: u8, b1: u8, b2: u8, b3: u8)
    ensures
        le32(from_le32(b0, b1, b2, b3)) == seq![b0, b1, b2, b3],
{
    let x = from_le32(b0, b1, b2, b3);
    assert((x & 0xff) as u8 == b0 && ((x >> 8) & 0xff) as u8 == b1 && ((x >> 16) & 0xff) as u8
        == b2 && ((x >> 24) & 0xff) as u8 == b3) by (bit_vector)
        requires
            x == from_le32(b0, b1, b2, b3),
    ;
    assert(le32(x) =~= seq![b0, b1, b2, b3]);
}

/// Encoding the value of eight bytes gives the bytes back.
pub proof fn lemma_from_le64_roundtrip(b0: u8, b1: u8, b2: u8, b3: u8, b4: u8, b5: u8, b6: u8, b7: u8)
    ensures
        le64(from_le64(b0, b1, b2, b3, b4, b5, b6, b7)) == seq![b0, b1, b2, b3, b4, b5, b6, b7],
{
    let x = from_le64(b0, b1, b2, b3, b4, b5, b6, b7);
    assert((x & 0xff) as u8 == b0 && ((x >> 8) & 0xff) as u8 == b1 && ((x >> 16) & 0xff) as u8
        == b2 && ((x >> 24) & 0xff) as u8 == b3 && ((x >> 32) & 0xff) as u8 == b4 && ((x >> 40)
        & 0xff) as u8 == b5 && ((x >> 48) & 0xff) as u8 == b6 && ((x >> 56) & 0xff) as u8 == b7)
        by (bit_vector)
        requires
            x == from_le64(b0, b1, b2, b3, b4, b5, b6, b7),
    ;
    assert(le64(x) =~= seq![b0, b1, b2, b3, b4, b5, b6, b7]);
}

/// Reading the u16 that was written gives it back.
pub proof fn lemma_get_u16_of(s: Seq<u8>, off: int, x: u16)
    requires
        0 <= off,
        off + 2 <= s.len(),
        s.subrange(off, off + 2) == le16(x),
    ensures
        get_u16(s, off) == x,
{
    lemma_le16_roundtrip(x);
    assert(s[off] == s.subrange(off, off + 2)[0]);
    assert(s[off + 1] == s.subrange(off, off + 2)[1]);
}

/// Reading the u32 that was written gives it back.
pub proof fn lemma_get_u32_of(s: Seq<u8>, off: int, x: u32)
    requires
        0 <= off,
        off + 4 <= s.len(),
        s.subrange(off, off + 4) == le32(x),
    ensures
        get_u32(s, off) == x,
{
    lemma_le32_roundtrip(x);
    let t = s.subrange(off, off + 4);
    assert(s[off] == t[0] && s[off + 1] == t[1] && s[off + 2] == t[2] && s[off + 3] == t[3]);
}

/// Reading the u64 that was written gives it back.
pub proof fn lemma_get_u64_of(s: Seq<u8>, off: int, x: u64)
    requires
        0 <= off,
        off + 8 <= s.len(),
        s.subrange(off, off + 8) == le64(x),
    ensures
        get_u64(s, off) == x,
{
    lemma_le64_roundtrip(x);
    let t = s.subrange(off, off + 8);
    assert(s[off] == t[0] && s[off + 1] == t[1] && s[off + 2] == t[2] && s[off + 3] == t[3]);
    assert(s[off + 4] == t[4] && s[off + 5] == t[5] && s[off + 6] == t[6] && s[off + 7] == t[7]);
}

/// The bytes read back as a u32 re-encode to themselves.
pub proof fn lemma_u32_of_get(s: Seq<u8>, off: int)
    requires
        0 <= off,
        off + 4 <= s.len(),
    ensures
        le32(get_u32(s, off)) == s.subrange(off, off + 4),
{
    lemma_from_le32_roundtrip(s[off], s[off + 1], s[off + 2], s[off + 3]);
    assert(s.subrange(off, off + 4) =~= seq![s[off], s[off + 1], s[off + 2], s[off + 3]]);
}

/// The bytes read back as a u16 re-encode to themselves.
pub proof fn lemma_u16_of_get(s: Seq<u8>, off: int)
    requires
        0 <= off,
        off + 2 <= s.len(),
    ensures
        le16(get_u16(s, off)) == s.subrange(off, off + 2),
{
    lemma_from_le16_roundtrip(s[off], s[off + 1]);
    assert(s.subrange(off, off + 2) =~= seq![s[off], s[off + 1]]);
}

/// The bytes read back as a u64 re-encode to themselves.
pub proof fn lemma_u64_of_get(s: Seq<u8>, off: int)
    requires
        0 <= off,
        off + 8 <= s.len(),
    ensures
        le64(get_u64(s, off)) == s.subrange(off, off + 8),
{
    lemma_from_le64_roundtrip(
        s[off],
        s[off + 1],
        s[off + 2],
        s[off + 3],
        s[off + 4],
        s[off + 5],
        s[off + 6],
        s[off + 7],
    );
    assert(s.subrange(off, off + 8) =~= seq![
        s[off],
        s[off + 1],
        s[off + 2],
        s[off + 3],
        s[off + 4],
        s[off + 5],
        s[off + 6],
        s[off + 7],
    ]);
}

/// Reads the u16 stored little-endian at `off`.
pub fn read_u16(b: &[u8], off: usize) -> (r: u16)
    requires
        off + 2 <= b@.len(),
    ensures
        r == get_u16(b@, off as int),
{
    (b[off] as u16) | ((b[off + 1] as u16) << 8)
}

/// Reads the u32 stored little-endian at `off`.
pub fn read_u32(b: &[u8], off: usize) -> (r: u32)
    requires
        off + 4 <= b@.len(),
    ensures
        r == get_u32(b@, off as int),
{
    (b[off] as u32) | ((b[off + 1] as u32) << 8) | ((b[off + 2] as u32) << 16) | ((b[off + 3]
        as u32) << 24)
}

/// Reads the u64 stored little-endian at `off`.
pub fn read_u64(b: &[u8], off: usize) -> (r: u64)
    requires
        off + 8 <= b@.len(),
    ensures
        r == get_u64(b@, off as int),
{
    (b[off] as u64) | ((b[off + 1] as u64) << 8) | ((b[off + 2] as u64) << 16) | ((b[off + 3]
        as u64) << 24) | ((b[off + 4] as u64) << 32) | ((b[off + 5] as u64) << 40) | ((b[off
        + 6] as u64) << 48) | ((b[off + 7] as u64) << 56)
}

/// Appends the little-endian bytes of `x`.
pub fn push_u16(v: &mut Vec<u8>, x: u16)
    ensures
        final(v)@ == old(v)@ + le16(x),
{
    v.push((x & 0xff) as u8);
    v.push(((x >> 8) & 0xff) as u8);
    assert(v@ =~= old(v)@ + le16(x));
}

/// Appends the little-endian bytes of `x`.
pub fn push_u32(v: &mut Vec<u8>, x: u32)
    ensures
        final(v)@ == old(v)@ + le32(x),
{
    v.push((x & 0xff) as u8);
    v.push(((x >> 8) & 0xff) as u8);
    v.push(((x >> 16) & 0xff) as u8);
    v.push(((x >> 24) & 0xff) as u8);
    assert(v@ =~= old(v)@ + le32(x));
}

/// Appends the little-endian bytes of `x`.
pub fn push_u64(v: &mut Vec<u8>, x: u64)
    ensures
        final(v)@ == old(v)@ + le64(x),
{
    v.push((x & 0xff) as u8);
    v.push(((x >> 8) & 0xff) as u8);
    v.push(((x >> 16) & 0xff) as u8);
    v.push(((x >> 24) & 0xff) as u8);
    v.push(((x >> 32) & 0xff) as u8);
    v.push(((x >> 40) & 0xff) as u8);
    v.push(((x >> 48) & 0xff) as u8);
    v.push(((x >> 56) & 0xff) as u8);
    assert(v@ =~= old(v)@ + le64(x));
}

} // verus!

verus! {

/// Reinterpreting an i64's bit pattern as u64 and back gives it back.
pub proof fn lemma_i64_bits_roundtrip(x: i64)
    ensures
        ((x as u64) as i64) == x,
{
    assert(((x as u64) as i64) == x) by (bit_vector);
}

/// Reinterpreting a u64's bit pattern as i64 and back gives it back.
pub proof fn lemma_u64_bits_roundtrip(x: u64)
    ensures
        ((x as i64) as u64) == x,
{
    assert(((x as i64) as u64) == x) by (bit_vector);
}

} // verus!

verus! {

/// A slice inside the first part of a concatenation is a slice of that part.
pub proof fn lemma_concat_prefix_subrange(x: Seq<u8>, y: Seq<u8>, a: int, c: int)
    requires
        0 <= a <= c <= x.len(),
    ensures
        (x + y).subrange(a, c) == x.subrange(a, c),
{
    assert((x + y).subrange(a, c) =~= x.subrange(a, c));
}

/// The second part of a concatenation is the slice after the first part.
pub proof fn lemma_concat_suffix_subrange(x: Seq<u8>, y: Seq<u8>)
    ensures
        (x + y).subrange(x.len() as int, (x.len() + y.len()) as int) == y,
{
    assert((x + y).subrange(x.len() as int, (x.len() + y.len()) as int) =~= y);
}

/// A slice of a slice is a slice of the whole.
pub proof fn lemma_subrange_of_subrange(s: Seq<u8>, off: int, n: int, a: int, c: int)
    requires
        0 <= off,
        off + n <= s.len(),
        0 <= a <= c <= n,
    ensures
        s.subrange(off, off + n).subrange(a, c) == s.subrange(off + a, off + c),
{
    assert(s.subrange(off, off + n).subrange(a, c) =~= s.subrange(off + a, off + c));
}

} // verus!
