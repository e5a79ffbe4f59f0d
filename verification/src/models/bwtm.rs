//! BWT, then move-to-front, then range coding; the second form codes runs
//! of zeros as lengths with a model of their own.
use vstd::prelude::*;
use super::range::{self, Decoder, Encoder, Model, counts_after, dec_start, dec_symbol, decode_symbol, events_bytes, initial_counts, initial_state, lemma_group_byte, lemma_run_concat, model_event, run_from, value_events, group_byte};
use super::{bwt, mtf};
use crate::slices;
use crate::varint;

verus! {

/// What `encode` writes for the transform `(last, primary)` of the input:
/// the row, then the range coding of the move-to-front codes of the column.
pub open spec fn spec_encode(last: Seq<u8>, primary: usize) -> Seq<u8> {
    varint::encode(primary) + range::spec_encode(mtf::spec_forward(last))
}

/// Transforms and codes `bytes`.
pub fn encode(bytes: &[u8]) -> (out: Vec<u8>)
    requires
        bytes.len() < usize::MAX / 2,
    ensures
        out@ == spec_encode(bwt::bwt_last(bytes@), bwt::bwt_primary(bytes@)),
{
    let (last, primary) = bwt::forward(bytes);
    let moved = mtf::forward(last.as_slice());
    let mut out: Vec<u8> = Vec::new();
    varint::write(&mut out, primary);
    let coded = range::encode(moved.as_slice());
    slices::append(&mut out, coded.as_slice());
    assert(out@ == spec_encode(last@, primary));
    out
}

proof fn lemma_range_decode_len(data: Seq<u8>, k: nat)
    ensures
        range::dec_state(data, k).5.len() == k,
    decreases k,
{
    if k > 0 {
        lemma_range_decode_len(data, (k - 1) as nat);
    }
}

/// What `decode` gives: the column rebuilt from the range coded codes and
/// turned back with the row at the start; nothing when that row is not
/// inside the column.
pub open spec fn spec_decode(d: Seq<u8>, orig_len: nat) -> Seq<u8> {
    let primary = varint::value_at(d, 0);
    let last = mtf::spec_inverse(range::spec_decode(d.skip(varint::end_at(d, 0)), orig_len));
    if orig_len > 0 && primary >= orig_len {
        Seq::empty()
    } else {
        bwt::spec_inverse(last, primary as int)
    }
}

/// The coding stages after the transform lose nothing: decoding what
/// `encode` writes for the transform of `b` inverts that transform of `b`.
pub proof fn lemma_decode_encode_transform(b: Seq<u8>)
    ensures
        spec_decode(spec_encode(bwt::bwt_last(b), bwt::bwt_primary(b)), b.len())
            == bwt::spec_inverse(bwt::bwt_last(b), bwt::bwt_primary(b) as int),
{
    let last = bwt::bwt_last(b);
    let primary = bwt::bwt_primary(b);
    let moved = mtf::spec_forward(last);
    let d = spec_encode(last, primary);
    varint::lemma_read_write(primary, Seq::empty(), range::spec_encode(moved));
    assert(d =~= Seq::<u8>::empty() + varint::encode(primary) + range::spec_encode(moved));
    assert(d.skip(varint::encode(primary).len() as int) =~= range::spec_encode(moved));
    assert(moved.len() == b.len());
    super::range_lossless::lemma_decode_encode(moved);
    mtf::lemma_inverse_forward(last);
    if b.len() > 0 {
        bwt::lemma_rows_distinct(b, 0, 0);
    }
}

/// Decoding what `encode` writes for `b` gives `b` back.
pub proof fn lemma_decode_encode(b: Seq<u8>)
    requires
        b.len() <= usize::MAX,
    ensures
        spec_decode(spec_encode(bwt::bwt_last(b), bwt::bwt_primary(b)), b.len()) == b,
{
    lemma_decode_encode_transform(b);
    super::bwt_lossless::lemma_inverse_forward(b);
}

/// Decodes `orig_len` bytes that `encode` wrote.
pub fn decode(data: &[u8], orig_len: usize) -> (out: Vec<u8>)
    ensures
        out@ == spec_decode(data@, orig_len as nat),
{
    let mut pos: usize = 0;
    let primary = varint::read(data, &mut pos);
    proof {
        varint::lemma_end_bounds(data@, 0, 0);
    }
    let rest = &data[pos..data.len()];
    assert(rest@ =~= data@.skip(pos as int));
    let moved = range::decode(rest, orig_len);
    let last = mtf::inverse(moved.as_slice());
    proof {
        lemma_range_decode_len(rest@, orig_len as nat);
    }
    if orig_len > 0 && primary >= orig_len {
        return Vec::new();
    }
    bwt::inverse(last.as_slice(), primary)
}

/// How many zeros follow `i` in a run that has `r` of them so far.
pub open spec fn zero_run_from(m: Seq<u8>, i: int, r: int) -> int
    decreases m.len() - (i + r),
{
    if 0 <= i + r < m.len() && m[i + r] == 0 {
        zero_run_from(m, i, r + 1)
    } else {
        r
    }
}

/// The symbols `encode2` codes for the codes `m` from `i` on, with the
/// symbol counts `sc` and the run counts `rc`: each code, and after a zero
/// the length of its run of zeros less one.
pub open spec fn events2(m: Seq<u8>, i: int, sc: Seq<u32>, rc: Seq<u32>) -> Seq<(u32, u32, u32)>
    decreases m.len() - i,
{
    if i < 0 || i >= m.len() {
        Seq::empty()
    } else {
        let sym = m[i] as int;
        let e = model_event(sc, sym);
        let sc2 = counts_after(sc, sym);
        if sym == 0 {
            let run = zero_run_from(m, i, 1);
            if run >= 1 && i + run <= m.len() {
                let ve = value_events(rc, (run - 1) as usize);
                seq![e] + ve.0 + events2(m, i + run, sc2, ve.1)
            } else {
                seq![e]
            }
        } else {
            seq![e] + events2(m, i + 1, sc2, rc)
        }
    }
}

/// What `encode2` writes for a transform `(last, primary)`: the row, then
/// the coded symbols.
pub open spec fn spec_encode2(last: Seq<u8>, primary: usize) -> Seq<u8> {
    varint::encode(primary) + events_bytes(events2(mtf::spec_forward(last), 0, initial_counts(), initial_counts()))
}

fn encode_run(enc: &mut Encoder, model: &mut Model, v: usize)
    requires
        old(enc).wf(),
        old(model).wf(),
    ensures
        final(enc).wf(),
        final(model).wf(),
        final(enc).state() == run_from(old(enc).state(), value_events(old(model).counts(), v).0),
        final(model).counts() == value_events(old(model).counts(), v).1,
{
    let ghost s0 = enc.state();
    let ghost c0 = model.counts();
    let ghost v0 = v;
    let ghost mut done: Seq<(u32, u32, u32)> = Seq::empty();
    let mut v = v;
    loop
        invariant_except_break
            enc.wf(),
            model.wf(),
            value_events(c0, v0).0 == done + value_events(model.counts(), v).0,
            value_events(c0, v0).1 == value_events(model.counts(), v).1,
            enc.state() == run_from(s0, done),
        ensures
            enc.wf(),
            model.wf(),
            enc.state() == run_from(s0, value_events(c0, v0).0),
            model.counts() == value_events(c0, v0).1,
        decreases v,
    {
        proof {
            lemma_group_byte(v);
        }
        let byte: usize = if v >= 0x80 { (v & 0x7f) | 0x80 } else { v & 0x7f };
        let ghost c1 = model.counts();
        let ghost st0 = enc.state();
        let cum = model.cum_freq(byte);
        let f = model.freq(byte);
        let t = model.total();
        enc.encode(cum, f, t);
        model.update(byte);
        proof {
            let e = model_event(c1, byte as int);
            assert(e == (cum, f, t));
            assert(enc.state() == range::step_state(st0, e));
            let d2 = done.push(e);
            assert(d2.drop_last() =~= done);
            done = d2;
        }
        if v < 0x80 {
            assert(value_events(c1, v).0 =~= seq![model_event(c1, byte as int)]);
            assert(value_events(c0, v0).0 =~= done);
            break;
        }
        assert(value_events(c0, v0).0 =~= done + value_events(model.counts(), v >> 7).0);
        v = v >> 7;
    }
}

/// The largest number of seven-bit groups a `usize` takes.
fn max_run_chunks() -> (n: usize)
    ensures
        n == (usize::BITS + 6) / 7,
        7 * (n - 1) < usize::BITS,
{
    ((usize::BITS + 6) / 7) as usize
}

/// A run length read with the run counts `rc` from decoder state `st`:
/// seven bits per symbol, low group first, while the high bit is set, at
/// most `chunks` symbols; the state and counts after it, and the value.
pub open spec fn run_read(data: Seq<u8>, st: (u32, u32, u32, int), rc: Seq<u32>, k: nat, chunks: nat, v: usize)
    -> ((u32, u32, u32, int), Seq<u32>, usize)
    decreases chunks - k,
{
    if k >= chunks {
        (st, rc, v)
    } else {
        let (byte, st1, rc1) = dec_symbol(data, st, rc);
        let b = byte as usize;
        let v1 = v | ((b & 0x7f) << ((7 * k) as u32));
        if b & 0x80 == 0 {
            (st1, rc1, v1)
        } else {
            run_read(data, st1, rc1, k + 1, chunks, v1)
        }
    }
}

fn decode_run(dec: &mut Decoder, model: &mut Model) -> (v: usize)
    requires
        old(dec).ready(),
        old(model).wf(),
    ensures
        final(dec).ready(),
        final(dec).data() == old(dec).data(),
        final(model).wf(),
        ((final(dec).low(), final(dec).range(), final(dec).code(), final(dec).pos()), final(model).counts(), v)
            == run_read(old(dec).data(), (old(dec).low(), old(dec).range(), old(dec).code(), old(dec).pos()),
                old(model).counts(), 0, ((usize::BITS + 6) / 7) as nat, 0),
{
    let ghost data = dec.data();
    let ghost total = run_read(data, (dec.low(), dec.range(), dec.code(), dec.pos()), model.counts(), 0, ((usize::BITS + 6) / 7) as nat, 0);
    let chunks = max_run_chunks();
    let mut v: usize = 0;
    let mut shift: u32 = 0;
    let mut k: usize = 0;
    while k < chunks
        invariant_except_break
            dec.ready(),
            dec.data() == data,
            model.wf(),
            k <= chunks,
            chunks == (usize::BITS + 6) / 7,
            shift == 7 * k,
            total == run_read(data, (dec.low(), dec.range(), dec.code(), dec.pos()), model.counts(), k as nat, chunks as nat, v),
        ensures
            dec.ready(),
            dec.data() == data,
            model.wf(),
            total == ((dec.low(), dec.range(), dec.code(), dec.pos()), model.counts(), v),
        decreases chunks - k,
    {
        let byte = decode_symbol(dec, model);
        v = v | ((byte & 0x7f) << shift);
        if byte & 0x80 == 0 {
            break;
        }
        shift = shift + 7;
        k = k + 1;
    }
    v
}

/// Transforms `bytes` and codes each code with one model, following every
/// zero by the length of its run of zeros (less one) under a second model.
pub fn encode2(bytes: &[u8]) -> (out: Vec<u8>)
    requires
        bytes.len() < usize::MAX / 2,
    ensures
        out@ == spec_encode2(bwt::bwt_last(bytes@), bwt::bwt_primary(bytes@)),
{
    let (last, primary) = bwt::forward(bytes);
    let moved = mtf::forward(last.as_slice());
    let ghost m = moved@;
    let ghost full = events2(m, 0, initial_counts(), initial_counts());
    let mut enc = Encoder::new();
    let mut sym_model = Model::new();
    let mut run_model = Model::new();
    let ghost mut done: Seq<(u32, u32, u32)> = Seq::empty();
    let mut i: usize = 0;
    assert(enc.state() == initial_state());
    assert(full == done + full);
    while i < moved.len()
        invariant
            m == moved@,
            i <= m.len(),
            m.len() < usize::MAX / 2,
            enc.wf(),
            sym_model.wf(),
            run_model.wf(),
            full == done + events2(m, i as int, sym_model.counts(), run_model.counts()),
            enc.state() == run_from(initial_state(), done),
        decreases m.len() - i,
    {
        let sym = moved[i] as usize;
        let ghost sc = sym_model.counts();
        let ghost rc = run_model.counts();
        let ghost st0 = enc.state();
        let cum = sym_model.cum_freq(sym);
        let f = sym_model.freq(sym);
        let t = sym_model.total();
        enc.encode(cum, f, t);
        sym_model.update(sym);
        let ghost e = model_event(sc, sym as int);
        proof {
            assert(e == (cum, f, t));
            assert(enc.state() == range::step_state(st0, e));
            let d2 = done.push(e);
            assert(d2.drop_last() =~= done);
            done = d2;
        }
        if sym == 0 {
            let mut run: usize = 1;
            while i + run < moved.len() && moved[i + run] == 0
                invariant
                    m == moved@,
                    i < m.len(),
                    m.len() < usize::MAX / 2,
                    1 <= run,
                    i + run <= m.len(),
                    zero_run_from(m, i as int, run as int) == zero_run_from(m, i as int, 1),
                decreases m.len() - i - run,
            {
                run = run + 1;
            }
            let ghost before = done;
            let ghost st = enc.state();
            encode_run(&mut enc, &mut run_model, run - 1);
            proof {
                let ve = value_events(rc, (run - 1) as usize);
                lemma_run_concat(initial_state(), before, ve.0);
                done = before + ve.0;
                assert(full == done + events2(m, (i + run) as int, sym_model.counts(), run_model.counts()));
            }
            i = i + run;
        } else {
            assert(full == done + events2(m, (i + 1) as int, sym_model.counts(), run_model.counts()));
            i = i + 1;
        }
    }
    assert(full =~= done);
    let tail = enc.finish();
    let mut out: Vec<u8> = Vec::new();
    varint::write(&mut out, primary);
    slices::append(&mut out, tail.as_slice());
    assert(out@ == spec_encode2(last@, primary));
    out
}

/// The move-to-front codes after one more step of `decode2` from `s` (the
/// decoder's state, the symbol counts, the run counts, the codes so far): a
/// symbol, and after a zero the length of its run, cut at `orig_len`.
pub open spec fn moved_step(data: Seq<u8>, s: ((u32, u32, u32, int), Seq<u32>, Seq<u32>, Seq<u8>), orig_len: nat)
    -> ((u32, u32, u32, int), Seq<u32>, Seq<u32>, Seq<u8>)
{
    let (sym, st1, sc1) = dec_symbol(data, s.0, s.1);
    if sym == 0 {
        let (st2, rc2, r) = run_read(data, st1, s.2, 0, ((usize::BITS + 6) / 7) as nat, 0);
        let room = orig_len - s.3.len();
        let run: int = if r < room { r + 1 } else { room };
        (st2, sc1, rc2, s.3 + Seq::new(run as nat, |i: int| 0u8))
    } else {
        (st1, sc1, s.2, s.3.push(sym as u8))
    }
}

/// Steps of `decode2` from `s` until `orig_len` codes are out, at most
/// `fuel` of them.
pub open spec fn moved_loop(data: Seq<u8>, s: ((u32, u32, u32, int), Seq<u32>, Seq<u32>, Seq<u8>), orig_len: nat, fuel: nat)
    -> ((u32, u32, u32, int), Seq<u32>, Seq<u32>, Seq<u8>)
    decreases fuel,
{
    if fuel == 0 || s.3.len() >= orig_len {
        s
    } else {
        moved_loop(data, moved_step(data, s, orig_len), orig_len, (fuel - 1) as nat)
    }
}

/// The `orig_len` move-to-front codes `decode2` rebuilds from the coded
/// symbols `data`.
pub open spec fn spec_moved2(data: Seq<u8>, orig_len: nat) -> Seq<u8> {
    moved_loop(data, (dec_start(data), initial_counts(), initial_counts(), Seq::empty()), orig_len, orig_len).3
}

/// What `decode2` gives: as `spec_decode`, with the codes rebuilt by
/// `spec_moved2`.
pub open spec fn spec_decode2(d: Seq<u8>, orig_len: nat) -> Seq<u8> {
    let primary = varint::value_at(d, 0);
    let last = mtf::spec_inverse(spec_moved2(d.skip(varint::end_at(d, 0)), orig_len));
    if orig_len > 0 && primary >= orig_len {
        Seq::empty()
    } else {
        bwt::spec_inverse(last, primary as int)
    }
}

/// Decodes `orig_len` bytes that `encode2` wrote: the codes are rebuilt
/// (a zero brings its run, cut at `orig_len`), then undone as in `decode`;
/// nothing when the row is not inside the column.
pub fn decode2(data: &[u8], orig_len: usize) -> (out: Vec<u8>)
    ensures
        out@ == spec_decode2(data@, orig_len as nat),
{
    let mut pos: usize = 0;
    let primary = varint::read(data, &mut pos);
    proof {
        varint::lemma_end_bounds(data@, 0, 0);
    }
    let rest = &data[pos..data.len()];
    let ghost d = rest@;
    assert(d =~= data@.skip(varint::end_at(data@, 0)));
    let mut dec = Decoder::new(rest);
    let mut sym_model = Model::new();
    let mut run_model = Model::new();
    let mut moved: Vec<u8> = Vec::new();
    let ghost start = (dec_start(d), initial_counts(), initial_counts(), Seq::<u8>::empty());
    let ghost mut steps: nat = 0;
    assert((dec.low(), dec.range(), dec.code(), dec.pos()) == dec_start(d));
    while moved.len() < orig_len
        invariant
            dec.ready(),
            dec.data() == d,
            sym_model.wf(),
            run_model.wf(),
            moved@.len() <= orig_len,
            steps <= moved@.len(),
            moved_loop(d, start, orig_len as nat, orig_len as nat)
                == moved_loop(d, ((dec.low(), dec.range(), dec.code(), dec.pos()), sym_model.counts(), run_model.counts(), moved@),
                    orig_len as nat, (orig_len - steps) as nat),
        decreases orig_len - moved@.len(),
    {
        let ghost s0 = ((dec.low(), dec.range(), dec.code(), dec.pos()), sym_model.counts(), run_model.counts(), moved@);
        let sym = decode_symbol(&mut dec, &mut sym_model);
        if sym == 0 {
            let r = decode_run(&mut dec, &mut run_model);
            let room = orig_len - moved.len();
            let run = if r < room { r + 1 } else { room };
            let ghost m0 = moved@;
            let mut k: usize = 0;
            while k < run
                invariant
                    k <= run,
                    moved@ == m0 + Seq::new(k as nat, |i: int| 0u8),
                    m0.len() + run <= orig_len,
                decreases run - k,
            {
                moved.push(0);
                k = k + 1;
                assert(moved@ =~= m0 + Seq::new(k as nat, |i: int| 0u8));
            }
        } else {
            moved.push(sym as u8);
        }
        proof {
            assert(((dec.low(), dec.range(), dec.code(), dec.pos()), sym_model.counts(), run_model.counts(), moved@)
                == moved_step(d, s0, orig_len as nat));
            steps = steps + 1;
        }
    }
    assert(moved@ == spec_moved2(d, orig_len as nat));
    let last = mtf::inverse(moved.as_slice());
    if orig_len > 0 && primary >= orig_len {
        return Vec::new();
    }
    bwt::inverse(last.as_slice(), primary)
}

} // verus!
