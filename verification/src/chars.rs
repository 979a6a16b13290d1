//! Character-level helpers: whitespace, collecting a string's characters,
//! and UTF-8 encoding of character sequences.

use vstd::prelude::*;
use vstd::utf8::*;

verus! {

/// Unicode `White_Space`, the property behind `char::is_whitespace` and
/// `str::trim`.
pub open spec fn is_ws(c: char) -> bool {
    let v = c as u32;
    ||| 0x09 <= v <= 0x0D
    ||| v == 0x20
    ||| v == 0x85
    ||| v == 0xA0
    ||| v == 0x1680
    ||| 0x2000 <= v <= 0x200A
    ||| v == 0x2028
    ||| v == 0x2029
    ||| v == 0x202F
    ||| v == 0x205F
    ||| v == 0x3000
}

/// True when every character is whitespace (true of the empty sequence).
pub open spec fn all_ws(s: Seq<char>) -> bool {
    forall|i: int| 0 <= i < s.len() ==> is_ws(#[trigger] s[i])
}

/// Whether `c` is whitespace, as `char::is_whitespace` decides it.
pub fn char_is_ws(c: char) -> (b: bool)
    ensures
        b == is_ws(c),
{
    let v = c as u32;
    (0x09 <= v && v <= 0x0D) || v == 0x20 || v == 0x85 || v == 0xA0 || v == 0x1680 || (0x2000
        <= v && v <= 0x200A) || v == 0x2028 || v == 0x2029 || v == 0x202F || v == 0x205F || v
        == 0x3000
}

/// The characters of `s`.
pub fn chars_of(s: &str) -> (v: Vec<char>)
    ensures
        v@ == s@,
{
    let mut v: Vec<char> = Vec::new();
    for c in it: s.chars()
        invariant
            v@ == it.seq().take(it.index() as int),
            it.seq() == s@,
    {
        v.push(c);
    }
    v
}

/// UTF-8 encoding distributes over concatenation.
pub proof fn lemma_encode_concat(a: Seq<char>, b: Seq<char>)
    ensures
        encode_utf8(a + b) == encode_utf8(a) + encode_utf8(b),
    decreases a.len(),
{
    if a.len() == 0 {
        assert(a + b =~= b);
        assert(encode_utf8(a) =~= Seq::<u8>::empty());
        assert(encode_utf8(a) + encode_utf8(b) =~= encode_utf8(b));
    } else {
        lemma_encode_concat(a.drop_first(), b);
        assert((a + b).drop_first() =~= a.drop_first() + b);
        assert((a + b)[0] == a[0]);
        assert(encode_utf8(a + b) =~= encode_scalar(a[0] as u32) + encode_utf8(a.drop_first() + b));
    }
}

/// The encoding of one character.
pub proof fn lemma_encode_single(c: char)
    ensures
        encode_utf8(seq![c]) == encode_scalar(c as u32),
{
    assert(seq![c].drop_first() =~= Seq::<char>::empty());
    assert(encode_utf8(Seq::<char>::empty()) =~= Seq::<u8>::empty());
    assert(encode_utf8(seq![c]) =~= encode_scalar(c as u32));
}

/// Appends the UTF-8 encoding of `c`.
pub fn push_utf8(v: &mut Vec<u8>, c: char)
    ensures
        final(v)@ == old(v)@ + encode_scalar(c as u32),
{
    let x = c as u32;
    if x <= 0x7F {
        v.push((x & 0x7F) as u8);
    } else if x <= 0x7FF {
        v.push(0xC0 | ((x >> 6) & 0x1F) as u8);
        v.push(0x80 | (x & 0x3F) as u8);
    } else if x <= 0xFFFF && !(0xD800 <= x && x <= 0xDFFF) {
        v.push(0xE0 | ((x >> 12) & 0x0F) as u8);
        v.push(0x80 | ((x >> 6) & 0x3F) as u8);
        v.push(0x80 | (x & 0x3F) as u8);
    } else {
        v.push(0xF0 | ((x >> 18) & 0x7) as u8);
        v.push(0x80 | ((x >> 12) & 0x3F) as u8);
        v.push(0x80 | ((x >> 6) & 0x3F) as u8);
        v.push(0x80 | (x & 0x3F) as u8);
    }
    assert(v@ =~= old(v)@ + encode_scalar(c as u32));
}

/// The UTF-8 encoding of `s`.
pub fn encode_chars(s: &Vec<char>) -> (v: Vec<u8>)
    ensures
        v@ == encode_utf8(s@),
{
    let mut v: Vec<u8> = Vec::new();
    let mut i: usize = 0;
    while i < s.len()
        invariant
            i <= s@.len(),
            v@ == encode_utf8(s@.take(i as int)),
        decreases s@.len() - i,
    {
        proof {
            lemma_encode_concat(s@.take(i as int), seq![s@[i as int]]);
            lemma_encode_single(s@[i as int]);
            assert(s@.take(i as int) + seq![s@[i as int]] =~= s@.take(i + 1));
        }
        push_utf8(&mut v, s[i]);
        i = i + 1;
    }
    assert(s@.take(s@.len() as int) =~= s@);
    v
}

} // verus!
