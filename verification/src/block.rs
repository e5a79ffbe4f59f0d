//! Blocks: every model is tried on a block and the smallest payload wins;
//! the model's number goes into the container beside the payload.
use vstd::prelude::*;
use crate::biglz::{self, Token};
use crate::models::{bwt, bwtm, bwtm_lossless, delta, generator, huffman, lz, lzh, lzr, lzr_lossless, ppm, huffman_lossless, range, range_lossless, rle, signal, signal_lossless, transpose, transpose_lossless, word, word_lossless};
use crate::slices;
use crate::varint;

verus! {

pub const RAW: u8 = 0;
pub const RLE: u8 = 1;
pub const ENTROPY: u8 = 2;
pub const LZ: u8 = 3;
pub const LZH: u8 = 4;
pub const BWTM: u8 = 5;
pub const RANGE: u8 = 6;
pub const PPM: u8 = 7;
pub const GEN: u8 = 8;
pub const DELTA: u8 = 9;
pub const CSVT: u8 = 10;
pub const WORD: u8 = 11;
pub const LZR: u8 = 12;
pub const SIGNAL: u8 = 13;
pub const LZR2: u8 = 14;
pub const BWTM2: u8 = 15;

/// How deep the fast mode searches the match chains.
pub const FAST_CHAIN: usize = 8;

/// How many blocks of a directory bundle share one LZ window.
pub const SEGMENT_BLOCKS: usize = 64;

/// The name shown for a model number.
pub open spec fn model_label(model: u8) -> Seq<char> {
    if model == RLE { "RLE"@ }
    else if model == ENTROPY { "ENTROPY"@ }
    else if model == LZ { "LZ"@ }
    else if model == LZH { "LZH"@ }
    else if model == BWTM { "BWTM"@ }
    else if model == RANGE { "RANGE"@ }
    else if model == PPM { "PPM"@ }
    else if model == GEN { "GEN"@ }
    else if model == DELTA { "DELTA"@ }
    else if model == CSVT { "CSV"@ }
    else if model == WORD { "WORD"@ }
    else if model == LZR { "LZR"@ }
    else if model == SIGNAL { "SIGNAL"@ }
    else if model == LZR2 { "LZR2"@ }
    else if model == BWTM2 { "BWTM2"@ }
    else { "RAW"@ }
}

/// The name of a model; unknown numbers are shown as RAW.
pub fn model_name(model: u8) -> (s: &'static str)
    ensures
        s@ == model_label(model),
{
    match model {
        RLE => "RLE",
        ENTROPY => "ENTROPY",
        LZ => "LZ",
        LZH => "LZH",
        BWTM => "BWTM",
        RANGE => "RANGE",
        PPM => "PPM",
        GEN => "GEN",
        DELTA => "DELTA",
        CSVT => "CSV",
        WORD => "WORD",
        LZR => "LZR",
        SIGNAL => "SIGNAL",
        LZR2 => "LZR2",
        BWTM2 => "BWTM2",
        _ => "RAW",
    }
}

/// Keeping the first smallest: `best`, replaced by each candidate in turn
/// that is strictly smaller.
pub open spec fn pick(best: (u8, Seq<u8>), cands: Seq<(u8, Seq<u8>)>) -> (u8, Seq<u8>)
    decreases cands.len(),
{
    if cands.len() == 0 {
        best
    } else {
        let b2 = if cands[0].1.len() < best.1.len() { cands[0] } else { best };
        pick(b2, cands.subrange(1, cands.len() as int))
    }
}

/// The Huffman candidate for `stream` under `model`: offered where every
/// byte of `stream` has a code and the code lengths fill no more than the
/// code space; otherwise `block` itself stands in its place, which never
/// wins.
pub open spec fn huffman_cand(model: u8, stream: Seq<u8>, coded: Seq<u8>, block: Seq<u8>) -> (u8, Seq<u8>) {
    if huffman_lossless::codes_fit(stream) { (model, coded) } else { (RAW, block) }
}

/// The candidates every block tries first.
pub open spec fn head_cands(b: Seq<u8>) -> Seq<(u8, Seq<u8>)> {
    seq![(RLE, rle::spec_encode(b)), (RANGE, range::spec_encode(b)), huffman_cand(ENTROPY, b, huffman::spec_encode(b), b)]
}

/// The LZ candidates for the parse `toks` of the window `combined` after
/// `emit`.
pub open spec fn lz_cands(combined: Seq<u8>, emit: int, toks: Seq<Token>) -> Seq<(u8, Seq<u8>)> {
    let lz_stream = biglz::spec_serialize(toks);
    seq![
        (LZ, lz_stream),
        huffman_cand(LZH, lz_stream, varint::encode(lz_stream.len() as usize) + huffman::spec_encode(lz_stream), combined.skip(emit)),
        (LZR2, range::events_bytes(lzr::events2(combined, toks, 0, lzr::start2(emit)))),
    ]
}

/// The slow candidates, skipped in fast mode.
pub open spec fn slow_cands(b: Seq<u8>, last: Seq<u8>, primary: usize, fast: bool) -> Seq<(u8, Seq<u8>)> {
    if fast {
        Seq::empty()
    } else {
        seq![(BWTM2, bwtm::spec_encode2(last, primary)), (PPM, ppm::spec_encode(b))]
    }
}

/// The candidates every block tries last.
pub open spec fn tail_cands(b: Seq<u8>) -> Seq<(u8, Seq<u8>)> {
    seq![
        (GEN, generator::spec_encode(b)),
        (DELTA, range::spec_encode(delta::spec_forward(b))),
        (CSVT, transpose::spec_encode(b)),
        (WORD, word::spec_encode(b)),
    ]
}

/// The candidates for a block, in the order they are tried: `b` is the
/// block, `combined` the window it sits at the end of, `toks` the parse of
/// the block with the window before it as history, `(last, primary)` its
/// BWT.
pub open spec fn candidates(b: Seq<u8>, combined: Seq<u8>, emit: int, toks: Seq<Token>, last: Seq<u8>, primary: usize, fast: bool) -> Seq<(u8, Seq<u8>)> {
    head_cands(b) + lz_cands(combined, emit, toks) + slow_cands(b, last, primary, fast) + tail_cands(b)
}

/// Where the window of a block that starts at `start` begins: up to the LZ
/// history back, but not before the start of its segment (none when `seg`
/// is 0).
pub open spec fn window_start(start: int, seg: int) -> int {
    let floor = if seg == 0 { 0 } else { start - start % seg };
    let back = if start > lz::HISTORY { start - lz::HISTORY } else { 0 };
    if back > floor { back } else { floor }
}

/// The chain limit of the parse: shorter in fast mode.
pub open spec fn chain_limit(fast: bool) -> nat {
    if fast { FAST_CHAIN as nat } else { biglz::MAX_CHAIN as nat }
}

/// The parse of the block at `start` with its window before it as history.
pub open spec fn block_tokens(input: Seq<u8>, start: int, end: int, seg: int, fast: bool) -> Seq<Token> {
    let w = window_start(start, seg);
    biglz::spec_tokens(input.subrange(w, end), start - w, chain_limit(fast))
}

/// The choice for the block `input[start..end]`, as `encode_block_seg`
/// makes it: the first shortest of the candidates, the LZ ones made from
/// the chain-search parse of the block, the BWT one from the transform of
/// the block.
pub open spec fn block_choice(input: Seq<u8>, start: int, end: int, seg: int, fast: bool, r: (u8, Seq<u8>)) -> bool {
    let b = input.subrange(start, end);
    let w = window_start(start, seg);
    let combined = input.subrange(w, end);
    let emit = start - w;
    let toks = block_tokens(input, start, end, seg, fast);
    &&& biglz::apply(combined.subrange(0, emit), toks) == combined
    &&& biglz::well_formed(combined.subrange(0, emit), toks)
    &&& biglz::spec_serialize(toks).len() <= usize::MAX
    &&& transpose::table_fits(b)
    &&& r == pick((RAW, b), candidates(b, combined, emit, toks, bwt::bwt_last(b), bwt::bwt_primary(b), fast))
}

fn keep_smaller(model: &mut u8, best: &mut Vec<u8>, m: u8, cand: Vec<u8>)
    ensures
        (*final(model), final(best)@) == (if cand@.len() < old(best)@.len() { (m, cand@) } else { (*old(model), old(best)@) }),
{
    if cand.len() < best.len() {
        *model = m;
        *best = cand;
    }
}

proof fn lemma_pick_append(best: (u8, Seq<u8>), a: Seq<(u8, Seq<u8>)>, b: Seq<(u8, Seq<u8>)>)
    ensures
        pick(best, a + b) == pick(pick(best, a), b),
    decreases a.len(),
{
    if a.len() == 0 {
        assert(a + b =~= b);
    } else {
        let b2 = if a[0].1.len() < best.1.len() { a[0] } else { best };
        assert((a + b).subrange(1, (a + b).len() as int) =~= a.subrange(1, a.len() as int) + b);
        lemma_pick_append(b2, a.subrange(1, a.len() as int), b);
    }
}

proof fn lemma_pick_one(best: (u8, Seq<u8>), c: (u8, Seq<u8>))
    ensures
        pick(best, seq![c]) == (if c.1.len() < best.1.len() { c } else { best }),
{
    let s = seq![c];
    assert(s.subrange(1, 1) =~= Seq::<(u8, Seq<u8>)>::empty());
    let b2 = if c.1.len() < best.1.len() { c } else { best };
    assert(pick(b2, Seq::<(u8, Seq<u8>)>::empty()) == b2);
}

proof fn lemma_pick_step(base: (u8, Seq<u8>), pre: Seq<(u8, Seq<u8>)>, c: (u8, Seq<u8>))
    ensures
        pick(base, pre.push(c)) == (if c.1.len() < pick(base, pre).1.len() { c } else { pick(base, pre) }),
{
    lemma_pick_append(base, pre, seq![c]);
    lemma_pick_one(pick(base, pre), c);
    assert(pre + seq![c] =~= pre.push(c));
}

fn offer(model: &mut u8, best: &mut Vec<u8>, m: u8, cand: Vec<u8>, Ghost(base): Ghost<(u8, Seq<u8>)>, Ghost(pre): Ghost<Seq<(u8, Seq<u8>)>>)
    requires
        (*old(model), old(best)@) == pick(base, pre),
    ensures
        (*final(model), final(best)@) == pick(base, pre.push((m, cand@))),
{
    proof {
        lemma_pick_step(base, pre, (m, cand@));
    }
    keep_smaller(model, best, m, cand);
}

fn try_head(bytes: &[u8], model: &mut u8, best: &mut Vec<u8>, Ghost(base): Ghost<(u8, Seq<u8>)>, Ghost(pre): Ghost<Seq<(u8, Seq<u8>)>>)
    requires
        bytes.len() <= u32::MAX,
        base == (RAW, bytes@),
        (*old(model), old(best)@) == pick(base, pre),
    ensures
        (*final(model), final(best)@) == pick(base, pre + head_cands(bytes@)),
{
    let ghost mut p = pre;
    let c = rle::encode(bytes);
    let ghost cv = c@;
    offer(model, best, RLE, c, Ghost(base), Ghost(p));
    proof { p = p.push((RLE, cv)); }
    let c = range::encode(bytes);
    let ghost cv = c@;
    offer(model, best, RANGE, c, Ghost(base), Ghost(p));
    proof { p = p.push((RANGE, cv)); }
    if huffman_lossless::fits(bytes) {
        let c = huffman::encode(bytes);
        let ghost cv = c@;
        offer(model, best, ENTROPY, c, Ghost(base), Ghost(p));
        proof { p = p.push((ENTROPY, cv)); }
    } else {
        proof {
            lemma_pick_step(base, p, (RAW, bytes@));
            lemma_pick_smallest(base, p);
            p = p.push((RAW, bytes@));
        }
    }
    assert(p =~= pre + head_cands(bytes@));
}

fn try_lz(combined: &[u8], emit: usize, tokens: &Vec<Token>, model: &mut u8, best: &mut Vec<u8>, Ghost(base): Ghost<(u8, Seq<u8>)>, Ghost(pre): Ghost<Seq<(u8, Seq<u8>)>>)
    requires
        emit + lzr::span(tokens@) <= combined.len(),
        biglz::lengths_ok(tokens@),
        emit <= combined.len(),
        base == (RAW, combined@.skip(emit as int)),
        (*old(model), old(best)@) == pick(base, pre),
    ensures
        (*final(model), final(best)@) == pick(base, pre + lz_cands(combined@, emit as int, tokens@)),
        biglz::spec_serialize(tokens@).len() <= usize::MAX,
{
    let ghost mut p = pre;
    let lz_stream = biglz::serialize(tokens.as_slice());
    assert(lz_stream@.len() == lz_stream.len());
    let c = slices::copy(lz_stream.as_slice());
    let ghost cv = c@;
    offer(model, best, LZ, c, Ghost(base), Ghost(p));
    proof { p = p.push((LZ, cv)); }
    if huffman_lossless::fits(lz_stream.as_slice()) {
        let c = lzh::pack(lz_stream.as_slice());
        let ghost cv = c@;
        offer(model, best, LZH, c, Ghost(base), Ghost(p));
        proof { p = p.push((LZH, cv)); }
    } else {
        proof {
            lemma_pick_step(base, p, (RAW, combined@.skip(emit as int)));
            lemma_pick_smallest(base, p);
            p = p.push((RAW, combined@.skip(emit as int)));
        }
    }
    let c = lzr::encode_tokens2(combined, emit, tokens.as_slice());
    let ghost cv = c@;
    offer(model, best, LZR2, c, Ghost(base), Ghost(p));
    proof { p = p.push((LZR2, cv)); }
    assert(p =~= pre + lz_cands(combined@, emit as int, tokens@));
}

fn try_slow(bytes: &[u8], model: &mut u8, best: &mut Vec<u8>, Ghost(base): Ghost<(u8, Seq<u8>)>, Ghost(pre): Ghost<Seq<(u8, Seq<u8>)>>)
    requires
        bytes.len() < usize::MAX / 2,
        (*old(model), old(best)@) == pick(base, pre),
    ensures
        (*final(model), final(best)@) == pick(base, pre + slow_cands(bytes@, bwt::bwt_last(bytes@), bwt::bwt_primary(bytes@), false)),
{
    let ghost mut p = pre;
    let c = bwtm::encode2(bytes);
    let ghost l = bwt::bwt_last(bytes@);
    let ghost pr = bwt::bwt_primary(bytes@);
    let ghost cv = c@;
    offer(model, best, BWTM2, c, Ghost(base), Ghost(p));
    proof { p = p.push((BWTM2, cv)); }
    let c = ppm::encode(bytes);
    let ghost cv = c@;
    offer(model, best, PPM, c, Ghost(base), Ghost(p));
    proof { p = p.push((PPM, cv)); }
    assert(p =~= pre + slow_cands(bytes@, l, pr, false));
}

fn try_tail(bytes: &[u8], model: &mut u8, best: &mut Vec<u8>, Ghost(base): Ghost<(u8, Seq<u8>)>, Ghost(pre): Ghost<Seq<(u8, Seq<u8>)>>)
    requires
        (*old(model), old(best)@) == pick(base, pre),
    ensures
        (*final(model), final(best)@) == pick(base, pre + tail_cands(bytes@)),
        transpose::table_fits(bytes@),
{
    let ghost mut p = pre;
    let c = generator::encode(bytes);
    let ghost cv = c@;
    offer(model, best, GEN, c, Ghost(base), Ghost(p));
    proof { p = p.push((GEN, cv)); }
    let c = delta::encode(bytes);
    let ghost cv = c@;
    offer(model, best, DELTA, c, Ghost(base), Ghost(p));
    proof { p = p.push((DELTA, cv)); }
    let c = transpose::encode(bytes);
    let ghost cv = c@;
    offer(model, best, CSVT, c, Ghost(base), Ghost(p));
    proof { p = p.push((CSVT, cv)); }
    let c = word::encode(bytes);
    let ghost cv = c@;
    offer(model, best, WORD, c, Ghost(base), Ghost(p));
    proof { p = p.push((WORD, cv)); }
    assert(p =~= pre + tail_cands(bytes@));
}

/// Encodes `input[start..end]` with every model but the signal model (see
/// `wants_signal`), keeping the first smallest payload; the LZ models may
/// look back into `input` up to the LZ history, but not before the start of
/// the block's segment of `seg` bytes (0: no segments). `fast` skips the BWT
/// and PPM models and searches the match chains less deeply.
#[verifier::rlimit(50)]
pub fn encode_block_seg(input: &[u8], start: usize, end: usize, seg: usize, fast: bool) -> (r: (u8, Vec<u8>))
    requires
        start <= end <= input.len(),
        end - start <= u32::MAX,
        end < usize::MAX / 2,
    ensures
        block_choice(input@, start as int, end as int, seg as int, fast, (r.0, r.1@)),
        r.1@.len() <= end - start,
{
    let bytes = &input[start..end];
    let ghost b = bytes@;
    let ghost base = (RAW, b);
    let mut model: u8 = RAW;
    let mut best: Vec<u8> = slices::copy(bytes);
    assert((model, best@) == pick(base, Seq::empty()));
    try_head(bytes, &mut model, &mut best, Ghost(base), Ghost(Seq::empty()));
    let ghost p1 = Seq::<(u8, Seq<u8>)>::empty() + head_cands(b);
    let floor = if seg == 0 {
        0
    } else {
        assert(start % seg <= start) by (nonlinear_arith)
            requires
                seg > 0,
        ;
        start - start % seg
    };
    let back = if start > lz::HISTORY { start - lz::HISTORY } else { 0 };
    let wstart = if back > floor { back } else { floor };
    let combined = &input[wstart..end];
    let emit = start - wstart;
    let tokens = if fast {
        biglz::tokens_chain(combined, emit, FAST_CHAIN)
    } else {
        biglz::tokens(combined, emit)
    };
    proof {
        lzr::lemma_apply_span(combined@.subrange(0, emit as int), tokens@);
        assert(window_start(start as int, seg as int) == wstart);
        assert(input@.subrange(wstart as int, end as int) =~= combined@);
        assert(tokens@ == block_tokens(input@, start as int, end as int, seg as int, fast));
    }
    assert(combined@.skip(emit as int) =~= b);
    try_lz(combined, emit, &tokens, &mut model, &mut best, Ghost(base), Ghost(p1));
    let ghost p2 = p1 + lz_cands(combined@, emit as int, tokens@);
    let ghost last = bwt::bwt_last(b);
    let ghost primary = bwt::bwt_primary(b);
    if !fast {
        try_slow(bytes, &mut model, &mut best, Ghost(base), Ghost(p2));
    } else {
        assert(p2 + slow_cands(b, last, primary, fast) =~= p2);
    }
    let ghost p3 = p2 + slow_cands(b, last, primary, fast);
    try_tail(bytes, &mut model, &mut best, Ghost(base), Ghost(p3));
    proof {
        let cs = combined@;
        assert(window_start(start as int, seg as int) == wstart);
        assert(input@.subrange(wstart as int, end as int) =~= cs);
        assert(input@.subrange(start as int, end as int) =~= b);
        assert(p3 + tail_cands(b) =~= candidates(b, cs, emit as int, tokens@, last, primary, fast));
        lemma_pick_smallest(base, candidates(b, cs, emit as int, tokens@, last, primary, fast));
    }
    (model, best)
}

/// `encode_block_seg` with no segments.
pub fn encode_block(input: &[u8], start: usize, end: usize, fast: bool) -> (r: (u8, Vec<u8>))
    requires
        start <= end <= input.len(),
        end - start <= u32::MAX,
        end < usize::MAX / 2,
    ensures
        block_choice(input@, start as int, end as int, 0, fast, (r.0, r.1@)),
        r.1@.len() <= end - start,
{
    encode_block_seg(input, start, end, 0, fast)
}

/// Whether the signal model is worth trying on a block of `n` bytes whose
/// best payload so far has `best_len` bytes: only outside fast mode, and
/// only when that payload is still over three quarters of the block.
pub fn wants_signal(fast: bool, best_len: usize, n: usize) -> (r: bool)
    requires
        n <= usize::MAX / 4,
        best_len <= n,
    ensures
        r == (!fast && best_len * 4 > n * 3),
{
    !fast && best_len * 4 > n * 3
}

/// A block coded with the signal model that decodes back to the block.
pub open spec fn signal_ok(b: Seq<u8>, r: (u8, Seq<u8>)) -> bool {
    r.0 == SIGNAL && signal::decode_spec(r.1, b.len()) == b
}

/// What a block of `input[start..end]` may be coded as: the choice of
/// `encode_block_seg`, or a signal payload that decodes back to it.
pub open spec fn encoded_ok(input: Seq<u8>, start: int, end: int, seg: int, fast: bool, r: (u8, Seq<u8>)) -> bool {
    block_choice(input, start, end, seg, fast, r) || signal_ok(input.subrange(start, end), r)
}

/// Offers the signal model's coding of `input[start..end]`, with the LPC
/// predictors `lpcs` for each layout and channel, against `choice`: it
/// replaces the choice when strictly smaller and when it decodes back to
/// the block. It always does so when the predictors fit the format and
/// the residuals have Rice codes the decoder reads whole.
pub fn offer_signal(input: &[u8], start: usize, end: usize, choice: (u8, Vec<u8>), lpcs: &Vec<Vec<Vec<(u32, Vec<i64>)>>>) -> (r: (u8, Vec<u8>))
    requires
        start <= end <= input.len(),
        end - start < 0x8000_0000,
        lpcs@.len() == signal::N_CONFIGS,
        forall|ci: int| 0 <= ci < signal::N_CONFIGS ==> (#[trigger] lpcs@[ci])@.len() == signal::config(ci).1,
        forall|ci: int, c: int|
            0 <= ci < signal::N_CONFIGS && 0 <= c < signal::config(ci).1 ==> signal::lpc_ok(#[trigger] signal::lpc_sets_view(lpcs@)[ci][c]),
    ensures
        ({
            let b = input@.subrange(start as int, end as int);
            let lv = signal::lpc_sets_view(lpcs@);
            let p = signal::encode_spec(b, lv);
            &&& (r.0, r.1@) == (if p.len() < choice.1@.len() && signal::decode_spec(p, b.len()) == b { (SIGNAL, p) } else { (choice.0, choice.1@) })
            &&& signal_lossless::lpc_sets_exact(lv) && signal_lossless::coded_safe(b, lv) && p.len() < choice.1@.len() ==> r.0 == SIGNAL
        }),
{
    let bytes = &input[start..end];
    let ghost b = bytes@;
    let ghost lv = signal::lpc_sets_view(lpcs@);
    assert(b == input@.subrange(start as int, end as int));
    proof {
        if signal_lossless::lpc_sets_exact(lv) && signal_lossless::coded_safe(b, lv) {
            signal_lossless::lemma_signal_lossless(b, lv);
        }
    }
    let p = signal::encode(bytes, lpcs);
    if p.len() < choice.1.len() {
        let back = signal::decode(p.as_slice(), bytes.len());
        if slices::equal(back.as_slice(), bytes) {
            return (SIGNAL, p);
        }
    }
    choice
}

/// What is known of the output `out` of decoding a payload with `model`:
/// exactly what the model's decoder gives. Unknown models give the
/// payload.
pub open spec fn decoded_ok(model: u8, payload: Seq<u8>, orig_len: usize, history: Seq<u8>, out: Seq<u8>) -> bool {
    &&& model == RLE ==> out == rle::spec_decode(payload)
    &&& model == ENTROPY ==> out == huffman::spec_decode(payload, orig_len as nat)
    &&& model == LZ ==> out == lz::spec_decode_windowed(payload, orig_len as nat, history)
    &&& model == LZH ==> out == lz::spec_decode_windowed(lzh::inner_stream(payload), orig_len as nat, history)
    &&& model == LZR ==> out == lzr::spec_decode_windowed(payload, orig_len as nat, history)
    &&& model == LZR2 ==> out == lzr::spec_decode_windowed2(payload, orig_len as nat, history)
    &&& model == BWTM ==> out == bwtm::spec_decode(payload, orig_len as nat)
    &&& model == BWTM2 ==> out == bwtm::spec_decode2(payload, orig_len as nat)
    &&& model == RANGE ==> out == range::spec_decode(payload, orig_len as nat)
    &&& model == PPM ==> out == ppm::spec_decode(payload, orig_len as nat)
    &&& model == GEN ==> out == generator::spec_decode(payload)
    &&& model == DELTA ==> out == delta::spec_inverse(range::spec_decode(payload, orig_len as nat))
    &&& model == CSVT ==> out == transpose::spec_decode(payload)
    &&& model == WORD ==> out == word::spec_decode(payload)
    &&& model == SIGNAL ==> out == signal::decode_spec(payload, orig_len as nat)
    &&& (model == RAW || model > BWTM2) ==> out == payload
}

/// Decodes a block payload with its model; matches of the LZ models may
/// reach into `history`. Unknown models give the payload back.
pub fn decode_block(model: u8, payload: &[u8], orig_len: usize, history: &[u8]) -> (out: Vec<u8>)
    requires
        orig_len <= usize::MAX - lz::HISTORY,
    ensures
        decoded_ok(model, payload@, orig_len, history@, out@),
{
    match model {
        RLE => rle::decode(payload),
        ENTROPY => huffman::decode(payload, orig_len),
        LZ => lz::decode_windowed(payload, orig_len, history),
        LZH => lzh::decode_windowed(payload, orig_len, history),
        LZR => lzr::decode_windowed(payload, orig_len, history),
        LZR2 => lzr::decode_windowed2(payload, orig_len, history),
        BWTM => bwtm::decode(payload, orig_len),
        BWTM2 => bwtm::decode2(payload, orig_len),
        RANGE => range::decode(payload, orig_len),
        PPM => ppm::decode(payload, orig_len),
        GEN => generator::decode(payload),
        DELTA => delta::decode(payload, orig_len),
        CSVT => transpose::decode(payload, orig_len),
        WORD => word::decode(payload, orig_len),
        SIGNAL => signal::decode(payload, orig_len),
        _ => slices::copy(payload),
    }
}


/// The choice among `cands` from `best` is `best` or one of the candidates.
pub proof fn lemma_pick_member(best: (u8, Seq<u8>), cands: Seq<(u8, Seq<u8>)>)
    ensures
        pick(best, cands) == best || exists|i: int| 0 <= i < cands.len() && #[trigger] cands[i] == pick(best, cands),
    decreases cands.len(),
{
    if cands.len() > 0 {
        let b2 = if cands[0].1.len() < best.1.len() { cands[0] } else { best };
        let rest = cands.subrange(1, cands.len() as int);
        lemma_pick_member(b2, rest);
        if pick(b2, rest) != b2 {
            let i = choose|i: int| 0 <= i < rest.len() && #[trigger] rest[i] == pick(b2, rest);
            assert(cands[i + 1] == rest[i]);
        } else if b2 != best {
            assert(cands[0] == pick(best, cands));
        }
    }
}

/// The pick is no longer than where it started, nor than any candidate.
pub proof fn lemma_pick_smallest(best: (u8, Seq<u8>), cands: Seq<(u8, Seq<u8>)>)
    ensures
        pick(best, cands).1.len() <= best.1.len(),
        forall|i: int| 0 <= i < cands.len() ==> pick(best, cands).1.len() <= (#[trigger] cands[i]).1.len(),
    decreases cands.len(),
{
    if cands.len() > 0 {
        let b2 = if cands[0].1.len() < best.1.len() { cands[0] } else { best };
        let rest = cands.subrange(1, cands.len() as int);
        lemma_pick_smallest(b2, rest);
        assert forall|i: int| 0 <= i < cands.len() implies pick(best, cands).1.len() <= (#[trigger] cands[i]).1.len() by {
            if i > 0 {
                assert(cands[i] == rest[i - 1]);
            }
        }
    }
}

/// The payload a block gets is no longer than the block, nor than what
/// any model tried on it gives.
pub proof fn lemma_block_smallest(input: Seq<u8>, start: int, end: int, seg: int, fast: bool, r: (u8, Seq<u8>))
    requires
        0 <= start <= end <= input.len(),
        block_choice(input, start, end, seg, fast, r),
    ensures
        ({
            let b = input.subrange(start, end);
            let w = window_start(start, seg);
            let cands = candidates(b, input.subrange(w, end), start - w, block_tokens(input, start, end, seg, fast),
                bwt::bwt_last(b), bwt::bwt_primary(b), fast);
            &&& r.1.len() <= b.len()
            &&& forall|i: int| 0 <= i < cands.len() ==> r.1.len() <= (#[trigger] cands[i]).1.len()
        }),
{
    let b = input.subrange(start, end);
    let w = window_start(start, seg);
    let cands = candidates(b, input.subrange(w, end), start - w, block_tokens(input, start, end, seg, fast),
        bwt::bwt_last(b), bwt::bwt_primary(b), fast);
    lemma_pick_smallest((RAW, b), cands);
}

/// Where the segment of the block at `start` begins (0 without segments).
pub open spec fn segment_floor(start: int, seg: int) -> int {
    if seg == 0 { 0 } else { start - start % seg }
}

/// A block decodes back to itself: decoding the payload chosen for it (by
/// `encode_block_seg`, or a signal payload `offer_signal` took), with its
/// model and with what came before the block since its segment began as
/// history, gives the block.
pub proof fn lemma_block_roundtrip(input: Seq<u8>, start: int, end: int, seg: int, fast: bool, r: (u8, Seq<u8>))
    requires
        0 <= start <= end <= input.len(),
        end - start <= u32::MAX,
        end - start <= usize::MAX / 64,
        seg >= 0,
        encoded_ok(input, start, end, seg, fast, r),
    ensures
        decoded_ok(r.0, r.1, (end - start) as usize, input.subrange(segment_floor(start, seg), start), input.subrange(start, end)),
{
    let b = input.subrange(start, end);
    let toks = block_tokens(input, start, end, seg, fast);
    let lzs = biglz::spec_serialize(toks);
    if !signal_ok(b, r) {
        lemma_choice_cases(input, start, end, seg, fast, r);
        if r.0 == RLE {
            rle::lemma_decode_encode(b);
        } else if r.0 == RANGE {
            range_lossless::lemma_decode_encode(b);
        } else if r.0 == DELTA {
            range_lossless::lemma_decode_encode(delta::spec_forward(b));
            delta::lemma_inverse_forward(b);
        } else if r.0 == PPM {
            ppm::lemma_decode_encode(b);
        } else if r.0 == WORD {
            word_lossless::lemma_decode_encode(b);
        } else if r.0 == GEN {
            generator::lemma_decode_encode(b);
        } else if r.0 == LZ {
            lemma_lz_roundtrip(input, start, end, seg, toks);
        } else if r.0 == ENTROPY {
            huffman_lossless::lemma_decode_encode(b);
        } else if r.0 == LZH {
            lzh::lemma_inner_stream(lzs);
            lemma_lz_roundtrip(input, start, end, seg, toks);
        } else if r.0 == CSVT {
            transpose_lossless::lemma_decode_encode(b);
        } else if r.0 == BWTM2 {
            bwtm_lossless::lemma_decode_encode2(b);
        } else if r.0 == LZR2 {
            lemma_lzr2_roundtrip(input, start, end, seg, toks);
        }
    }
}

proof fn lemma_lzr2_roundtrip(input: Seq<u8>, start: int, end: int, seg: int, toks: Seq<Token>)
    requires
        0 <= start <= end <= input.len(),
        end - start <= usize::MAX / 64,
        seg >= 0,
        biglz::apply(input.subrange(window_start(start, seg), end).subrange(0, start - window_start(start, seg)), toks)
            == input.subrange(window_start(start, seg), end),
        biglz::well_formed(input.subrange(window_start(start, seg), end).subrange(0, start - window_start(start, seg)), toks),
    ensures
        lzr::spec_decode_windowed2(range::events_bytes(lzr::events2(input.subrange(window_start(start, seg), end), toks, 0,
            lzr::start2(start - window_start(start, seg)))), (end - start) as nat, input.subrange(segment_floor(start, seg), start))
            == input.subrange(start, end),
{
    let w = window_start(start, seg);
    let combined = input.subrange(w, end);
    let emit = start - w;
    let history = input.subrange(segment_floor(start, seg), start);
    lemma_seed_window(input, start, seg);
    assert(lzr::seed_of(history) =~= lz::seed_of(history));
    assert(combined.take(emit) =~= input.subrange(w, start));
    assert(combined.take(emit) =~= combined.subrange(0, emit));
    lzr_lossless::lemma_decode_encode2(combined, emit, toks, history);
    assert(combined.skip(emit) =~= input.subrange(start, end));
}

/// What the chosen candidate of a block can be: the block itself, or one
/// of the coded candidates, each with the model it was offered under.
#[verifier::rlimit(60)]
proof fn lemma_choice_cases(input: Seq<u8>, start: int, end: int, seg: int, fast: bool, r: (u8, Seq<u8>))
    requires
        0 <= start <= end <= input.len(),
        seg >= 0,
        block_choice(input, start, end, seg, fast, r),
    ensures
        ({
            let b = input.subrange(start, end);
            let lzs = biglz::spec_serialize(block_tokens(input, start, end, seg, fast));
            ||| r == (RAW, b)
            ||| r == (RLE, rle::spec_encode(b))
            ||| r == (RANGE, range::spec_encode(b))
            ||| (r == (ENTROPY, huffman::spec_encode(b)) && huffman_lossless::codes_fit(b))
            ||| r == (LZ, lzs)
            ||| (r == (LZH, varint::encode(lzs.len() as usize) + huffman::spec_encode(lzs)) && huffman_lossless::codes_fit(lzs))
            ||| r == (LZR2, range::events_bytes(lzr::events2(input.subrange(window_start(start, seg), end), block_tokens(input, start, end, seg, fast),
                    0, lzr::start2(start - window_start(start, seg)))))
            ||| r == (BWTM2, bwtm::spec_encode2(bwt::bwt_last(b), bwt::bwt_primary(b)))
            ||| r == (PPM, ppm::spec_encode(b))
            ||| r == (GEN, generator::spec_encode(b))
            ||| r == (DELTA, range::spec_encode(delta::spec_forward(b)))
            ||| r == (CSVT, transpose::spec_encode(b))
            ||| r == (WORD, word::spec_encode(b))
        }),
{
    let b = input.subrange(start, end);
    let w = window_start(start, seg);
    let combined = input.subrange(w, end);
    let emit = start - w;
    let toks = block_tokens(input, start, end, seg, fast);
    let last = bwt::bwt_last(b);
    let primary = bwt::bwt_primary(b);
    let cands = candidates(b, combined, emit, toks, last, primary, fast);
    lemma_pick_member((RAW, b), cands);
    let lzs = biglz::spec_serialize(toks);
    assert(combined.skip(emit) =~= b);
    assert(cands[0] == (RLE, rle::spec_encode(b)));
    assert(cands[1] == (RANGE, range::spec_encode(b)));
    assert(cands[2] == huffman_cand(ENTROPY, b, huffman::spec_encode(b), b));
    assert(cands[3] == (LZ, lzs));
    assert(cands[4] == huffman_cand(LZH, lzs, varint::encode(lzs.len() as usize) + huffman::spec_encode(lzs), b));
    assert(cands[5] == (LZR2, range::events_bytes(lzr::events2(combined, toks, 0, lzr::start2(emit)))));
    if fast {
        assert(cands.len() == 10);
        assert(cands[6] == (GEN, generator::spec_encode(b)));
        assert(cands[7] == (DELTA, range::spec_encode(delta::spec_forward(b))));
        assert(cands[8] == (CSVT, transpose::spec_encode(b)));
        assert(cands[9] == (WORD, word::spec_encode(b)));
    } else {
        assert(cands.len() == 12);
        assert(cands[6] == (BWTM2, bwtm::spec_encode2(last, primary)));
        assert(cands[7] == (PPM, ppm::spec_encode(b)));
        assert(cands[8] == (GEN, generator::spec_encode(b)));
        assert(cands[9] == (DELTA, range::spec_encode(delta::spec_forward(b))));
        assert(cands[10] == (CSVT, transpose::spec_encode(b)));
        assert(cands[11] == (WORD, word::spec_encode(b)));
    }
    if r != (RAW, b) {
        let i = choose|i: int| 0 <= i < cands.len() && #[trigger] cands[i] == r;
        assert(cands[i] == r);
    }
}


proof fn lemma_seed_window(input: Seq<u8>, start: int, seg: int)
    requires
        0 <= start <= input.len(),
        seg >= 0,
    ensures
        0 <= segment_floor(start, seg) <= window_start(start, seg) <= start,
        lz::seed_of(input.subrange(segment_floor(start, seg), start)) == input.subrange(window_start(start, seg), start),
{
    if seg > 0 {
        vstd::arithmetic::div_mod::lemma_fundamental_div_mod(start, seg);
        vstd::arithmetic::div_mod::lemma_mod_bound(start, seg);
        assert(start / seg >= 0) by {
            vstd::arithmetic::div_mod::lemma_div_pos_is_pos(start, seg);
        }
        assert(seg * (start / seg) >= 0) by (nonlinear_arith)
            requires
                seg > 0,
                start / seg >= 0,
        ;
    }
    let f = segment_floor(start, seg);
    let hist = input.subrange(f, start);
    let w = window_start(start, seg);
    if hist.len() <= lz::HISTORY {
        assert(hist =~= input.subrange(w, start));
    } else {
        assert(lz::seed_of(hist) =~= input.subrange(w, start));
    }
}

proof fn lemma_lz_roundtrip(input: Seq<u8>, start: int, end: int, seg: int, toks: Seq<Token>)
    requires
        0 <= start <= end <= input.len(),
        seg >= 0,
        biglz::apply(input.subrange(window_start(start, seg), end).subrange(0, start - window_start(start, seg)), toks)
            == input.subrange(window_start(start, seg), end),
        biglz::well_formed(input.subrange(window_start(start, seg), end).subrange(0, start - window_start(start, seg)), toks),
    ensures
        lz::spec_decode_windowed(biglz::spec_serialize(toks), (end - start) as nat, input.subrange(segment_floor(start, seg), start))
            == input.subrange(start, end),
{
    let w = window_start(start, seg);
    let combined = input.subrange(w, end);
    lemma_seed_window(input, start, seg);
    let seed = combined.subrange(0, start - w);
    assert(seed =~= input.subrange(w, start));
    biglz::lemma_decode_serialize(seed, toks);
    let full = lz::dec(biglz::spec_serialize(toks), (seed.len() + (end - start)) as nat, 0, 8, 0, seed);
    assert(full == combined);
    assert(full.subrange(seed.len() as int, full.len() as int) =~= input.subrange(start, end));
}

} // verus!
