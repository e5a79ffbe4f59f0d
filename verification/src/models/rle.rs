//! Run-length coding: each maximal run of one byte value becomes a record of
//! its length (four bytes, little-endian) and the byte.
use vstd::prelude::*;

verus! {

/// The little-endian four-byte encoding of `v`.
pub open spec fn le32(v: u32) -> Seq<u8> {
    seq![(v & 0xff) as u8, ((v >> 8) & 0xff) as u8, ((v >> 16) & 0xff) as u8, ((v >> 24) & 0xff) as u8]
}

/// The little-endian value of the four bytes at `i`.
pub open spec fn le32_at(s: Seq<u8>, i: int) -> nat {
    (s[i] + 256 * s[i + 1] + 65536 * s[i + 2] + 16777216 * s[i + 3]) as nat
}

/// `n` copies of `b`.
pub open spec fn repeat(b: u8, n: nat) -> Seq<u8> {
    Seq::new(n, |k: int| b)
}

/// The end of the run of `s[i]` that has reached `j`.
pub open spec fn run_end(s: Seq<u8>, i: int, j: int) -> int
    decreases s.len() - j,
{
    if 0 <= j < s.len() && s[j] == s[i] {
        run_end(s, i, j + 1)
    } else {
        j
    }
}

/// The records for the maximal runs of `s` from `i` on.
pub open spec fn encode_from(s: Seq<u8>, i: int) -> Seq<u8>
    decreases s.len() - i,
{
    if i < 0 || i >= s.len() {
        Seq::empty()
    } else {
        let e = run_end(s, i, i + 1);
        if e <= i || e > s.len() {
            Seq::empty()
        } else {
            le32(#[verifier::truncate] ((e - i) as u32)) + seq![s[i]] + encode_from(s, e)
        }
    }
}

/// The records for the maximal runs of `s`.
pub open spec fn spec_encode(s: Seq<u8>) -> Seq<u8> {
    encode_from(s, 0)
}

/// What a payload decodes to: each whole five-byte record gives its byte,
/// repeated its count; bytes after the last whole record are ignored.
pub open spec fn spec_decode(d: Seq<u8>) -> Seq<u8>
    decreases d.len(),
{
    if d.len() < 5 {
        Seq::empty()
    } else {
        repeat(d[4], le32_at(d, 0)) + spec_decode(d.subrange(5, d.len() as int))
    }
}

proof fn lemma_le32(v: u32)
    ensures
        le32_at(le32(v), 0) == v,
{
    let a = v & 0xff;
    let b = (v >> 8) & 0xff;
    let c = (v >> 16) & 0xff;
    let d = (v >> 24) & 0xff;
    assert(a + 256 * b + 65536 * c + 16777216 * d == v) by (bit_vector)
        requires
            a == v & 0xff,
            b == (v >> 8) & 0xff,
            c == (v >> 16) & 0xff,
            d == (v >> 24) & 0xff,
    ;
    assert(a < 256 && b < 256 && c < 256 && d < 256) by (bit_vector)
        requires
            a == v & 0xff,
            b == (v >> 8) & 0xff,
            c == (v >> 16) & 0xff,
            d == (v >> 24) & 0xff,
    ;
}

proof fn lemma_run_end(s: Seq<u8>, i: int, j: int)
    requires
        0 <= i < j <= s.len(),
        forall|k: int| i <= k < j ==> s[k] == s[i],
    ensures
        j <= run_end(s, i, j) <= s.len(),
        forall|k: int| i <= k < run_end(s, i, j) ==> s[k] == s[i],
        run_end(s, i, j) < s.len() ==> s[run_end(s, i, j)] != s[i],
    decreases s.len() - j,
{
    if j < s.len() && s[j] == s[i] {
        lemma_run_end(s, i, j + 1);
    }
}

proof fn lemma_decode_encode_from(s: Seq<u8>, i: int)
    requires
        0 <= i <= s.len(),
        s.len() <= u32::MAX,
    ensures
        spec_decode(encode_from(s, i)) == s.subrange(i, s.len() as int),
    decreases s.len() - i,
{
    if i < s.len() {
        let e = run_end(s, i, i + 1);
        lemma_run_end(s, i, i + 1);
        let rec = le32((e - i) as u32) + seq![s[i]];
        let rest = encode_from(s, e);
        let d = rec + rest;
        lemma_le32((e - i) as u32);
        assert(d.subrange(5, d.len() as int) =~= rest);
        assert(d[4] == s[i]);
        assert(le32_at(d, 0) == le32_at(rec, 0));
        lemma_decode_encode_from(s, e);
        assert(repeat(s[i], (e - i) as nat) =~= s.subrange(i, e));
        assert(s.subrange(i, e) + s.subrange(e, s.len() as int) =~= s.subrange(i, s.len() as int));
    } else {
        assert(s.subrange(i, s.len() as int) =~= Seq::<u8>::empty());
    }
}

/// Decoding the run records of `s` gives `s` back.
pub proof fn lemma_decode_encode(s: Seq<u8>)
    requires
        s.len() <= u32::MAX,
    ensures
        spec_decode(spec_encode(s)) == s,
{
    lemma_decode_encode_from(s, 0);
    assert(s.subrange(0, s.len() as int) =~= s);
}

fn push_le32(out: &mut Vec<u8>, v: u32)
    ensures
        final(out)@ == old(out)@ + le32(v),
{
    out.push((v & 0xff) as u8);
    out.push(((v >> 8) & 0xff) as u8);
    out.push(((v >> 16) & 0xff) as u8);
    out.push(((v >> 24) & 0xff) as u8);
    assert(final(out)@ =~= old(out)@ + le32(v));
}

/// Encodes `bytes` as run records.
pub fn encode(bytes: &[u8]) -> (out: Vec<u8>)
    requires
        bytes.len() <= u32::MAX,
    ensures
        out@ == spec_encode(bytes@),
        spec_decode(out@) == bytes@,
{
    let ghost s = bytes@;
    let mut out: Vec<u8> = Vec::new();
    let mut i: usize = 0;
    while i < bytes.len()
        invariant
            s == bytes@,
            s.len() <= u32::MAX,
            i <= s.len(),
            out@ + encode_from(s, i as int) == spec_encode(s),
        decreases s.len() - i,
    {
        let b = bytes[i];
        let mut run: u32 = 1;
        while i + (run as usize) < bytes.len() && bytes[i + run as usize] == b
            invariant
                s == bytes@,
                s.len() <= u32::MAX,
                i < s.len(),
                1 <= run,
                i + run <= s.len(),
                b == s[i as int],
                run_end(s, i as int, i + run) == run_end(s, i as int, i as int + 1),
            decreases s.len() - i - run,
        {
            run = run + 1;
        }
        let ghost e = run_end(s, i as int, i as int + 1);
        assert(e == i + run);
        let ghost old_out = out@;
        push_le32(&mut out, run);
        out.push(b);
        assert(out@ =~= old_out + (le32(run) + seq![b]));
        assert(encode_from(s, i as int) == le32(run) + seq![b] + encode_from(s, e));
        assert(out@ + encode_from(s, e) =~= old_out + encode_from(s, i as int));
        i = i + run as usize;
    }
    assert(encode_from(s, i as int) =~= Seq::<u8>::empty());
    assert(out@ =~= spec_encode(s));
    proof {
        lemma_decode_encode(s);
    }
    out
}

/// Expands run records back into bytes.
pub fn decode(data: &[u8]) -> (out: Vec<u8>)
    ensures
        out@ == spec_decode(data@),
{
    let ghost d = data@;
    let mut out: Vec<u8> = Vec::new();
    let mut i: usize = 0;
    assert(d.subrange(0, d.len() as int) =~= d);
    while data.len() - i >= 5
        invariant
            d == data@,
            i <= d.len(),
            out@ + spec_decode(d.subrange(i as int, d.len() as int)) == spec_decode(d),
        decreases d.len() - i,
    {
        let run: u32 = (data[i] as u32) + 256 * (data[i + 1] as u32) + 65536 * (data[i + 2] as u32)
            + 16777216 * (data[i + 3] as u32);
        let b = data[i + 4];
        let ghost rest = d.subrange(i as int, d.len() as int);
        assert(rest.subrange(5, rest.len() as int) =~= d.subrange(i + 5, d.len() as int));
        assert(run == le32_at(rest, 0));
        let ghost out0 = out@;
        let mut k: u32 = 0;
        while k < run
            invariant
                k <= run,
                out@ == out0 + repeat(b, k as nat),
            decreases run - k,
        {
            out.push(b);
            k = k + 1;
            assert(out@ =~= out0 + repeat(b, k as nat));
        }
        assert(out@ + spec_decode(d.subrange(i as int + 5, d.len() as int)) =~= out0 + spec_decode(rest));
        i = i + 5;
    }
    assert(spec_decode(d.subrange(i as int, d.len() as int)) =~= Seq::<u8>::empty());
    assert(out@ =~= spec_decode(d));
    out
}

} // verus!
