//! LZ tokens, Huffman coded: the length of the token stream, then the
//! stream through `huffman`.
use vstd::prelude::*;
use super::{huffman, lz};
use crate::biglz::{self, Token, apply, well_formed, spec_serialize};
use crate::varint;

verus! {

/// A stream framed the way `pack` frames it: its length, then its Huffman
/// coding (as `huffman::encode` states it).
pub open spec fn packed(stream: Seq<u8>, out: Seq<u8>) -> bool {
    let head = varint::encode(stream.len() as usize);
    let l = huffman::spec_code_lengths(stream);
    let t = huffman::table_bytes(l);
    let s = huffman::stream_bits(stream, l);
    let body = out.skip(head.len() as int);
    &&& head.len() + t.len() <= out.len()
    &&& out.take(head.len() as int) == head
    &&& body.take(t.len() as int) == t
    &&& crate::bits::bits_of_bytes(body.skip(t.len() as int)) == s + crate::bits::zero_bits(((8 - s.len() % 8) % 8) as nat)
}

/// The token stream that `decode` hands to the LZ decoder: the Huffman
/// decoding of what follows the length.
pub open spec fn inner_stream(data: Seq<u8>) -> Seq<u8> {
    let n = varint::value_at(data, 0);
    let p = varint::end_at(data, 0);
    huffman::spec_decode(data.skip(p), n as nat)
}

/// Frames an LZ token stream: its length, then its Huffman coding.
pub fn pack(stream: &[u8]) -> (out: Vec<u8>)
    ensures
        out@ == varint::encode(stream@.len() as usize) + huffman::spec_encode(stream@),
        packed(stream@, out@),
{
    let mut out: Vec<u8> = Vec::new();
    varint::write(&mut out, stream.len());
    let ghost head = out@;
    let h = huffman::encode(stream);
    out.extend_from_slice(h.as_slice());
    assert(out@.take(head.len() as int) =~= head);
    assert(out@.skip(head.len() as int) =~= h@);
    out
}

/// Parses `bytes` after `emit_start` (the bytes before it are history) and
/// frames the token stream with `pack`.
pub fn encode_from(bytes: &[u8], emit_start: usize) -> (out: Vec<u8>)
    requires
        emit_start <= bytes.len(),
    ensures
        ({
            let toks = biglz::spec_tokens(bytes@, emit_start as int, biglz::MAX_CHAIN as nat);
            &&& out@ == varint::encode(spec_serialize(toks).len() as usize) + huffman::spec_encode(spec_serialize(toks))
            &&& packed(spec_serialize(toks), out@)
            &&& apply(bytes@.subrange(0, emit_start as int), toks) == bytes@
            &&& well_formed(bytes@.subrange(0, emit_start as int), toks)
        }),
{
    let stream = biglz::encode_from(bytes, emit_start);
    pack(stream.as_slice())
}

/// `encode_from` with no history.
pub fn encode(bytes: &[u8]) -> (out: Vec<u8>)
    ensures
        ({
            let toks = biglz::spec_tokens(bytes@, 0, biglz::MAX_CHAIN as nat);
            &&& out@ == varint::encode(spec_serialize(toks).len() as usize) + huffman::spec_encode(spec_serialize(toks))
            &&& packed(spec_serialize(toks), out@)
            &&& apply(Seq::empty(), toks) == bytes@
            &&& well_formed(Seq::empty(), toks)
        }),
{
    let out = encode_from(bytes, 0);
    assert(bytes@.subrange(0, 0) =~= Seq::<u8>::empty());
    out
}

fn unpack(data: &[u8]) -> (stream: Vec<u8>)
    ensures
        stream@ == inner_stream(data@),
{
    let mut pos: usize = 0;
    let stream_len = varint::read(data, &mut pos);
    proof {
        varint::lemma_end_bounds(data@, 0, 0);
    }
    let rest = &data[pos..data.len()];
    assert(rest@ =~= data@.skip(pos as int));
    huffman::decode(rest, stream_len)
}

/// Decodes `orig_len` bytes.
pub fn decode(data: &[u8], orig_len: usize) -> (out: Vec<u8>)
    ensures
        out@ == lz::spec_decode(inner_stream(data@), orig_len as nat),
{
    let stream = unpack(data);
    lz::decode(stream.as_slice(), orig_len)
}

/// Decodes `orig_len` bytes whose matches may reach into `history`.
pub fn decode_windowed(data: &[u8], orig_len: usize, history: &[u8]) -> (out: Vec<u8>)
    requires
        orig_len <= usize::MAX - lz::HISTORY,
    ensures
        out@ == lz::spec_decode_windowed(inner_stream(data@), orig_len as nat, history@),
{
    let stream = unpack(data);
    lz::decode_windowed(stream.as_slice(), orig_len, history)
}

/// The framed Huffman coding of a token stream whose codes fit gives the
/// stream back.
pub proof fn lemma_inner_stream(lzs: Seq<u8>)
    requires
        lzs.len() <= usize::MAX,
        super::huffman_lossless::codes_fit(lzs),
    ensures
        inner_stream(varint::encode(lzs.len() as usize) + huffman::spec_encode(lzs)) == lzs,
{
    let head = varint::encode(lzs.len() as usize);
    let body = huffman::spec_encode(lzs);
    let data = head + body;
    varint::lemma_read_write(lzs.len() as usize, Seq::empty(), body);
    assert(Seq::<u8>::empty() + head + body =~= data);
    assert(data.skip(head.len() as int) =~= body);
    super::huffman_lossless::lemma_decode_encode(lzs);
}

/// Decoding what `encode` writes for `b` gives `b` back: its parse of `b`
/// rebuilds `b` (as `encode` ensures), and where the codes of the token
/// stream fit, the stream comes back from its Huffman coding.
pub proof fn lemma_decode_encode(b: Seq<u8>)
    requires
        ({
            let stream = spec_serialize(biglz::spec_tokens(b, 0, biglz::MAX_CHAIN as nat));
            stream.len() <= usize::MAX && super::huffman_lossless::codes_fit(stream)
        }),
        well_formed(Seq::empty(), biglz::spec_tokens(b, 0, biglz::MAX_CHAIN as nat)),
        apply(Seq::empty(), biglz::spec_tokens(b, 0, biglz::MAX_CHAIN as nat)) == b,
    ensures
        lz::spec_decode(inner_stream(varint::encode(spec_serialize(biglz::spec_tokens(b, 0, biglz::MAX_CHAIN as nat)).len() as usize)
            + huffman::spec_encode(spec_serialize(biglz::spec_tokens(b, 0, biglz::MAX_CHAIN as nat)))), b.len()) == b,
{
    let toks = biglz::spec_tokens(b, 0, biglz::MAX_CHAIN as nat);
    lemma_inner_stream(spec_serialize(toks));
    biglz::lemma_decode_serialize(Seq::empty(), toks);
}

} // verus!
