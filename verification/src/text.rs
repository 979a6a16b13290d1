//! ASCII text helpers: decimal and octal digits, padding, and the
//! conversions between bytes and strings.

use vstd::prelude::*;
use vstd::utf8::*;

verus! {

/// True when every byte is ASCII (below 0x80).
pub open spec fn is_ascii_bytes(b: Seq<u8>) -> bool {
    forall|i: int| 0 <= i < b.len() ==> #[trigger] b[i] < 0x80
}

/// The characters that ASCII bytes stand for.
pub open spec fn ascii_chars(b: Seq<u8>) -> Seq<char> {
    Seq::new(b.len(), |i: int| b[i] as char)
}

/// ASCII bytes are valid UTF-8 and decode to one character per byte.
pub proof fn lemma_ascii_decode(b: Seq<u8>)
    requires
        is_ascii_bytes(b),
    ensures
        valid_utf8(b),
        decode_utf8(b) == ascii_chars(b),
    decreases b.len(),
{
    if b.len() > 0 {
        let b0 = b[0];
        assert(b0 < 0x80);
        assert((b0 & 0x7F) == b0) by (bit_vector)
            requires
                b0 < 0x80,
        ;
        let rest = b.subrange(1, b.len() as int);
        assert(pop_first_scalar(b) == rest);
        assert(is_ascii_bytes(rest)) by {
            assert forall|i: int| 0 <= i < rest.len() implies #[trigger] rest[i] < 0x80 by {
                assert(rest[i] == b[i + 1]);
            }
        }
        lemma_ascii_decode(rest);
        assert(decode_utf8(b) =~= ascii_chars(b));
    } else {
        assert(decode_utf8(b) =~= ascii_chars(b));
    }
}

/// Views `bytes` as a string slice when they are valid UTF-8.
///
/// Calls `std::str::from_utf8`, which succeeds exactly on valid UTF-8 and
/// then borrows the same bytes as `&str`; the contract states that the
/// result is `Some` exactly on valid UTF-8 and that the string's characters
/// are the UTF-8 decoding of the bytes.
#[verifier::external_body]
pub fn str_from_utf8(bytes: &[u8]) -> (r: Option<&str>)
    ensures
        r is Some <==> valid_utf8(bytes@),
        r matches Some(s) ==> s@ == decode_utf8(bytes@),
{
    std::str::from_utf8(bytes).ok()
}

/// Converts `bytes` into an owned `String` when they are valid UTF-8.
///
/// Calls `String::from_utf8`, which succeeds exactly on valid UTF-8 and
/// keeps the bytes unchanged; the contract states that the result is `Some`
/// exactly on valid UTF-8, holding the UTF-8 decoding of the bytes.
#[verifier::external_body]
pub fn string_from_utf8(bytes: Vec<u8>) -> (r: Option<String>)
    ensures
        r is Some <==> valid_utf8(bytes@),
        r matches Some(s) ==> s@ == decode_utf8(bytes@),
{
    String::from_utf8(bytes).ok()
}

/// Converts ASCII bytes into a `String`.
pub fn string_from_ascii(bytes: Vec<u8>) -> (s: String)
    requires
        is_ascii_bytes(bytes@),
    ensures
        s@ == ascii_chars(bytes@),
{
    proof {
        lemma_ascii_decode(bytes@);
    }
    let ghost b = bytes@;
    match string_from_utf8(bytes) {
        Some(s) => s,
        None => {
            proof {
                assert(false);
            }
            String::new()
        },
    }
}

/// ASCII digit for a value below 16.
pub open spec fn digit_byte(d: nat) -> u8 {
    if d < 10 {
        (0x30 + d) as u8
    } else {
        (0x61 + d - 10) as u8
    }
}

/// Digits of `n` in the given base (2..=16), most significant first, with
/// no leading zeros ("0" for zero).
pub open spec fn spec_digits(n: nat, base: nat) -> Seq<u8>
    recommends
        2 <= base <= 16,
    decreases n,
{
    if base < 2 || n < base {
        seq![digit_byte(n % 16)]
    } else {
        proof {
            assert(n / base < n) by (nonlinear_arith)
                requires
                    base >= 2,
                    n >= base,
            ;
        }
        spec_digits(n / base, base).push(digit_byte(n % base))
    }
}

/// Decimal digits of `n`.
pub open spec fn spec_decimal(n: nat) -> Seq<u8> {
    spec_digits(n, 10)
}

/// Octal digits of `n`.
pub open spec fn spec_octal(n: nat) -> Seq<char> {
    ascii_chars(spec_digits(n, 8))
}

/// `s` padded on the left with `fill` up to `width` bytes.
pub open spec fn pad_left(s: Seq<u8>, width: nat, fill: u8) -> Seq<u8> {
    if s.len() >= width {
        s
    } else {
        Seq::new((width - s.len()) as nat, |i: int| fill) + s
    }
}

proof fn lemma_digits_ascii(n: nat, base: nat)
    requires
        2 <= base <= 16,
    ensures
        is_ascii_bytes(spec_digits(n, base)),
        spec_digits(n, base).len() >= 1,
    decreases n,
{
    if n >= base {
        assert(n / base < n) by (nonlinear_arith)
            requires
                base >= 2,
                n >= base,
        ;
        lemma_digits_ascii(n / base, base);
        assert(spec_digits(n, base) == spec_digits(n / base, base).push(digit_byte(n % base)));
    }
}

/// Digits of `n` in `base`, as bytes.
pub fn digits_bytes(n: u64, base: u64) -> (v: Vec<u8>)
    requires
        2 <= base <= 16,
    ensures
        v@ == spec_digits(n as nat, base as nat),
        is_ascii_bytes(v@),
        v@.len() >= 1,
    decreases n,
{
    proof {
        lemma_digits_ascii(n as nat, base as nat);
    }
    if n < base {
        let d = (n % 16) as u8;
        let c: u8 = if d < 10 { 0x30 + d } else { 0x61 + d - 10 };
        let mut v: Vec<u8> = Vec::new();
        v.push(c);
        assert(v@ =~= seq![digit_byte(n as nat % 16)]);
        v
    } else {
        let mut v = digits_bytes(n / base, base);
        let d = (n % base) as u8;
        let c: u8 = if d < 10 { 0x30 + d } else { 0x61 + d - 10 };
        v.push(c);
        v
    }
}

/// Decimal digits of `n`, as bytes.
pub fn decimal_bytes(n: u64) -> (v: Vec<u8>)
    ensures
        v@ == spec_decimal(n as nat),
        is_ascii_bytes(v@),
        v@.len() >= 1,
{
    digits_bytes(n, 10)
}

/// Octal digits of `n`, as a string.
pub fn octal_string(n: u32) -> (s: String)
    ensures
        s@ == spec_octal(n as nat),
{
    string_from_ascii(digits_bytes(n as u64, 8))
}

/// Decimal digits of `n`, as a string.
pub fn decimal_string(n: u64) -> (s: String)
    ensures
        s@ == ascii_chars(spec_decimal(n as nat)),
{
    string_from_ascii(decimal_bytes(n))
}

/// Digits of `n` in `base`, padded on the left with `fill` to `width`
/// bytes.
pub fn padded_digits(n: u64, base: u64, width: usize, fill: u8) -> (v: Vec<u8>)
    requires
        2 <= base <= 16,
        fill < 0x80,
        width <= 64,
    ensures
        v@ == pad_left(spec_digits(n as nat, base as nat), width as nat, fill),
        is_ascii_bytes(v@),
{
    let d = digits_bytes(n, base);
    if d.len() >= width {
        d
    } else {
        let mut v: Vec<u8> = Vec::new();
        let k = width - d.len();
        let mut i: usize = 0;
        while i < k
            invariant
                i <= k,
                v@ == Seq::new(i as nat, |j: int| fill),
            decreases k - i,
        {
            v.push(fill);
            i = i + 1;
            assert(v@ =~= Seq::new(i as nat, |j: int| fill));
        }
        extend_bytes(&mut v, d.as_slice());
        assert(v@ =~= pad_left(spec_digits(n as nat, base as nat), width as nat, fill));
        v
    }
}

/// Eight lowercase hex digits of `n` after `0x` (the `{:#010x}` form).
pub open spec fn spec_hex8(n: u32) -> Seq<char> {
    "0x"@ + ascii_chars(pad_left(spec_digits(n as nat, 16), 8, 0x30))
}

/// `n` as `0x` and eight lowercase hex digits.
pub fn hex8_string(n: u32) -> (s: String)
    ensures
        s@ == spec_hex8(n),
{
    let digits = string_from_ascii(padded_digits(n as u64, 16, 8, 0x30));
    let mut s = String::from_str("0x");
    s.append(digits.as_str());
    s
}

/// Decimal text of `n`.
pub open spec fn spec_dec(n: nat) -> Seq<char> {
    ascii_chars(spec_decimal(n))
}

/// Decimal digits of `n`, padded on the left with `fill` to `width` bytes.
pub fn padded_decimal(n: u64, width: usize, fill: u8) -> (v: Vec<u8>)
    requires
        fill < 0x80,
        width <= 64,
    ensures
        v@ == pad_left(spec_decimal(n as nat), width as nat, fill),
        is_ascii_bytes(v@),
{
    let d = decimal_bytes(n);
    if d.len() >= width {
        d
    } else {
        let mut v: Vec<u8> = Vec::new();
        let k = width - d.len();
        let mut i: usize = 0;
        while i < k
            invariant
                i <= k,
                v@ == Seq::new(i as nat, |j: int| fill),
            decreases k - i,
        {
            v.push(fill);
            i = i + 1;
            assert(v@ =~= Seq::new(i as nat, |j: int| fill));
        }
        let mut j: usize = 0;
        let ghost pre = v@;
        while j < d.len()
            invariant
                j <= d.len(),
                pre == Seq::new(k as nat, |x: int| fill),
                v@ == pre + d@.subrange(0, j as int),
            decreases d.len() - j,
        {
            v.push(d[j]);
            j = j + 1;
            assert(v@ =~= pre + d@.subrange(0, j as int));
        }
        assert(d@.subrange(0, d@.len() as int) =~= d@);
        assert(v@ =~= pad_left(spec_decimal(n as nat), width as nat, fill));
        v
    }
}

/// Appends all of `src` to `dst`.
pub fn extend_bytes(dst: &mut Vec<u8>, src: &[u8])
    ensures
        final(dst)@ == old(dst)@ + src@,
{
    let mut i: usize = 0;
    let ghost start = dst@;
    while i < src.len()
        invariant
            i <= src.len(),
            dst@ == start + src@.subrange(0, i as int),
        decreases src.len() - i,
    {
        dst.push(src[i]);
        i = i + 1;
        assert(dst@ =~= start + src@.subrange(0, i as int));
    }
    assert(src@.subrange(0, src@.len() as int) =~= src@);
}


/// The text `String::from_utf8_lossy` makes of `bytes`.
pub uninterp spec fn lossy_text(bytes: Seq<u8>) -> Seq<char>;

/// Converts bytes to text with `String::from_utf8_lossy`, which decodes
/// valid UTF-8 unchanged and replaces invalid sequences with U+FFFD.
///
/// The contract names the result `lossy_text` of the bytes and states the
/// valid case: valid UTF-8 is decoded exactly. How invalid sequences are
/// replaced is left unsaid.
#[verifier::external_body]
pub fn string_from_utf8_lossy(bytes: &[u8]) -> (s: String)
    ensures
        s@ == lossy_text(bytes@),
        valid_utf8(bytes@) ==> s@ == decode_utf8(bytes@),
{
    String::from_utf8_lossy(bytes).into_owned()
}

} // verus!
