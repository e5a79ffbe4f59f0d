//! The delta model: each byte becomes its difference from the one before
//! (modulo 256), and the differences are range coded.
use vstd::prelude::*;
use super::range;

verus! {

/// `a - b` modulo 256.
pub open spec fn sub_mod(a: u8, b: u8) -> u8 {
    if a >= b { (a - b) as u8 } else { (a - b + 256) as u8 }
}

/// `a + b` modulo 256.
pub open spec fn add_mod(a: u8, b: u8) -> u8 {
    if a + b > 255 { (a + b - 256) as u8 } else { (a + b) as u8 }
}

/// The differences of `s`, the first taken from zero.
pub open spec fn spec_forward(s: Seq<u8>) -> Seq<u8> {
    Seq::new(s.len(), |i: int| if i == 0 { s[0] } else { sub_mod(s[i], s[i - 1]) })
}

/// The running sums of `d`, modulo 256.
pub open spec fn spec_inverse(d: Seq<u8>) -> Seq<u8>
    decreases d.len(),
{
    if d.len() == 0 {
        Seq::empty()
    } else {
        let p = spec_inverse(d.drop_last());
        let prev: u8 = if p.len() == 0 { 0 } else { p.last() };
        p.push(add_mod(d.last(), prev))
    }
}

proof fn lemma_inverse_len(d: Seq<u8>)
    ensures
        spec_inverse(d).len() == d.len(),
    decreases d.len(),
{
    if d.len() > 0 {
        lemma_inverse_len(d.drop_last());
    }
}

/// Summing the differences of `s` gives `s` back.
pub proof fn lemma_inverse_forward(s: Seq<u8>)
    ensures
        spec_inverse(spec_forward(s)) == s,
    decreases s.len(),
{
    if s.len() > 0 {
        let p = s.drop_last();
        assert(spec_forward(s).drop_last() =~= spec_forward(p));
        lemma_inverse_forward(p);
        assert(spec_inverse(spec_forward(s)) =~= s);
    } else {
        assert(spec_inverse(spec_forward(s)) =~= s);
    }
}

fn forward(bytes: &[u8]) -> (out: Vec<u8>)
    ensures
        out@ == spec_forward(bytes@),
{
    let mut out: Vec<u8> = Vec::new();
    let mut prev: u8 = 0;
    let mut i: usize = 0;
    while i < bytes.len()
        invariant
            i <= bytes.len(),
            out@ == spec_forward(bytes@).take(i as int),
            prev == if i == 0 { 0u8 } else { bytes@[i - 1] },
        decreases bytes.len() - i,
    {
        let b = bytes[i];
        out.push(b.wrapping_sub(prev));
        prev = b;
        i = i + 1;
        assert(out@ =~= spec_forward(bytes@).take(i as int));
    }
    assert(spec_forward(bytes@).take(i as int) =~= spec_forward(bytes@));
    out
}

fn inverse(data: &[u8]) -> (out: Vec<u8>)
    ensures
        out@ == spec_inverse(data@),
{
    let mut out: Vec<u8> = Vec::new();
    let mut prev: u8 = 0;
    let mut i: usize = 0;
    while i < data.len()
        invariant
            i <= data.len(),
            out@ == spec_inverse(data@.take(i as int)),
            out@.len() == i,
            prev == if i == 0 { 0u8 } else { out@.last() },
        decreases data.len() - i,
    {
        let b = data[i].wrapping_add(prev);
        assert(data@.take(i as int + 1).drop_last() =~= data@.take(i as int));
        out.push(b);
        prev = b;
        i = i + 1;
    }
    assert(data@.take(i as int) =~= data@);
    out
}

/// Range codes the differences of `bytes`.
pub fn encode(bytes: &[u8]) -> (out: Vec<u8>)
    ensures
        out@ == range::spec_encode(spec_forward(bytes@)),
{
    let f = forward(bytes);
    range::encode(f.as_slice())
}

/// Decodes `orig_len` differences and sums them.
pub fn decode(data: &[u8], orig_len: usize) -> (out: Vec<u8>)
    ensures
        out@ == spec_inverse(range::spec_decode(data@, orig_len as nat)),
{
    let d = range::decode(data, orig_len);
    inverse(d.as_slice())
}

} // verus!
