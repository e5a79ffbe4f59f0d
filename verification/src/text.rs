//! Text from bytes that may not be UTF-8.
use vstd::prelude::*;
use vstd::utf8::{decode_utf8, valid_utf8};

verus! {

/// The text `String::from_utf8_lossy` makes of `b`.
pub uninterp spec fn lossy_text(b: Seq<u8>) -> Seq<char>;

/// `String::from_utf8_lossy` (std), as an owned string: the text of `b`,
/// with each invalid sequence replaced by U+FFFD. For valid UTF-8 that is
/// the decoded text; what it is otherwise is left to the name.
#[verifier::external_body]
pub fn lossy_string(b: &[u8]) -> (s: String)
    ensures
        s@ == lossy_text(b@),
        valid_utf8(b@) ==> s@ == decode_utf8(b@),
{
    String::from_utf8_lossy(b).into_owned()
}

/// The text that `lossy_string` makes of `b`: the decoded text where `b`
/// is UTF-8.
pub open spec fn text_of(b: Seq<u8>) -> Seq<char> {
    if valid_utf8(b) { decode_utf8(b) } else { lossy_text(b) }
}

/// The UTF-8 bytes of `s`.
pub fn utf8_bytes(s: &String) -> (b: &[u8])
    ensures
        b@ == vstd::utf8::encode_utf8(s@),
{
    s.as_str().as_bytes()
}

/// The little-endian bytes of `v`.
pub open spec fn le32(v: u32) -> Seq<u8> {
    seq![(v & 0xff) as u8, ((v >> 8u32) & 0xff) as u8, ((v >> 16u32) & 0xff) as u8, ((v >> 24u32) & 0xff) as u8]
}

/// The little-endian bytes of `v`.
pub fn le32_bytes(v: u32) -> (b: [u8; 4])
    ensures
        b@ == le32(v),
{
    let b = [(v & 0xff) as u8, ((v >> 8) & 0xff) as u8, ((v >> 16) & 0xff) as u8, ((v >> 24) & 0xff) as u8];
    assert(b@ =~= le32(v));
    b
}

/// The number whose little-endian bytes are `b0..b3`.
pub open spec fn from_le(b0: u8, b1: u8, b2: u8, b3: u8) -> u32 {
    (b0 as u32) | ((b1 as u32) << 8u32) | ((b2 as u32) << 16u32) | ((b3 as u32) << 24u32)
}

/// The bytes of a number read back give the number.
pub proof fn lemma_le32(v: u32)
    ensures
        from_le(le32(v)[0], le32(v)[1], le32(v)[2], le32(v)[3]) == v,
{
    let b0 = (v & 0xff) as u8;
    let b1 = ((v >> 8u32) & 0xff) as u8;
    let b2 = ((v >> 16u32) & 0xff) as u8;
    let b3 = ((v >> 24u32) & 0xff) as u8;
    assert((b0 as u32) | ((b1 as u32) << 8u32) | ((b2 as u32) << 16u32) | ((b3 as u32) << 24u32) == v) by (bit_vector)
        requires
            b0 == (v & 0xff) as u8,
            b1 == ((v >> 8u32) & 0xff) as u8,
            b2 == ((v >> 16u32) & 0xff) as u8,
            b3 == ((v >> 24u32) & 0xff) as u8,
    ;
}

/// Reads four bytes as a little-endian number.
pub fn read_le32(b0: u8, b1: u8, b2: u8, b3: u8) -> (v: u32)
    ensures
        v == from_le(b0, b1, b2, b3),
{
    (b0 as u32) | ((b1 as u32) << 8) | ((b2 as u32) << 16) | ((b3 as u32) << 24)
}

} // verus!
