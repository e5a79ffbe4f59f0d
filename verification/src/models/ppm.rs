//! Order-1 context modelling: each byte is range coded with the model of the
//! byte before it.
use vstd::prelude::*;
use super::range::{self, Decoder, Encoder, Model, counts_after, cum_of, seq_sum, narrow, enc_norm, dec_norm, find_from, slot_value, initial_counts, initial_code, next_pos, flush_bytes, counts_ok, coder_ok, BOT, lemma_counts_after_ok, lemma_dec_norm_ok};
use super::range_lossless::{be32, lemma_flush_value, lemma_initial_code, lemma_initial_sum, lemma_norm_read, lemma_step_ok, lemma_symbol_back};

verus! {

/// The counts of every context at the start.
pub open spec fn initial_tables() -> Seq<Seq<u32>> {
    Seq::new(256, |i: int| initial_counts())
}

/// The encoder state after `s`: the context tables, the interval, the bytes
/// emitted.
pub open spec fn enc_state(s: Seq<u8>) -> (Seq<Seq<u32>>, u32, u32, Seq<u8>)
    decreases s.len(),
{
    if s.len() == 0 {
        (initial_tables(), 0, u32::MAX, Seq::empty())
    } else {
        let (t, low, range, out) = enc_state(s.drop_last());
        let ctx: int = if s.len() == 1 { 0 } else { s[s.len() - 2] as int };
        let c = t[ctx];
        let sym = s.last() as int;
        let (l1, r1) = narrow(low, range, cum_of(c, sym) as u32, c[sym], seq_sum(c) as u32);
        let n = enc_norm(l1, r1);
        (t.update(ctx, counts_after(c, sym)), n.0, n.1, out + n.2)
    }
}

/// The bytes `encode` produces.
pub open spec fn spec_encode(s: Seq<u8>) -> Seq<u8> {
    let st = enc_state(s);
    st.3 + flush_bytes(st.1)
}

/// The decoder state after `k` symbols.
pub open spec fn dec_state(data: Seq<u8>, k: nat) -> (Seq<Seq<u32>>, u32, u32, u32, int, Seq<u8>)
    decreases k,
{
    if k == 0 {
        (initial_tables(), 0, u32::MAX, initial_code(data), next_pos(data, next_pos(data, next_pos(data, next_pos(data, 0)))), Seq::empty())
    } else {
        let (t, low, range, code, pos, out) = dec_state(data, (k - 1) as nat);
        let ctx: int = if out.len() == 0 { 0 } else { out.last() as int };
        let c = t[ctx];
        let total = seq_sum(c) as u32;
        let sym = find_from(c, slot_value(low, range, code, total) as int, 0);
        let (l1, r1) = narrow(low, range, cum_of(c, sym) as u32, c[sym], total);
        let n = dec_norm(l1, r1, code, data, pos);
        (t.update(ctx, counts_after(c, sym)), n.0, n.1, n.2, n.3, out.push(sym as u8))
    }
}

/// The bytes `decode` produces.
pub open spec fn spec_decode(data: Seq<u8>, count: nat) -> Seq<u8> {
    dec_state(data, count).5
}

/// The counts of the models in `models`.
pub open spec fn tables_of(models: Seq<Model>) -> Seq<Seq<u32>> {
    models.map_values(|m: Model| m.counts())
}

fn new_tables() -> (models: Vec<Model>)
    ensures
        models@.len() == 256,
        forall|i: int| 0 <= i < 256 ==> #[trigger] models@[i].wf(),
        tables_of(models@) == initial_tables(),
{
    let mut models: Vec<Model> = Vec::new();
    let mut i: usize = 0;
    while i < 256
        invariant
            i <= 256,
            models@.len() == i,
            forall|k: int| 0 <= k < i ==> #[trigger] models@[k].wf(),
            forall|k: int| 0 <= k < i ==> #[trigger] models@[k].counts() == initial_counts(),
        decreases 256 - i,
    {
        models.push(Model::new());
        i = i + 1;
    }
    assert(tables_of(models@) =~= initial_tables());
    models
}

/// Codes `bytes`, each with the model of its predecessor.
pub fn encode(bytes: &[u8]) -> (out: Vec<u8>)
    ensures
        out@ == spec_encode(bytes@),
{
    let mut models = new_tables();
    let mut enc = Encoder::new();
    let mut ctx: usize = 0;
    let mut i: usize = 0;
    while i < bytes.len()
        invariant
            i <= bytes.len(),
            models@.len() == 256,
            forall|k: int| 0 <= k < 256 ==> #[trigger] models@[k].wf(),
            enc.wf(),
            ctx < 256,
            ctx == if i == 0 { 0 } else { bytes@[i - 1] as usize },
            enc_state(bytes@.take(i as int)) == (tables_of(models@), enc.low(), enc.range(), enc.bytes()),
        decreases bytes.len() - i,
    {
        let sym = bytes[i] as usize;
        assert(bytes@.take(i as int + 1).drop_last() =~= bytes@.take(i as int));
        assert(i > 0 ==> bytes@.take(i as int + 1)[i - 1] == bytes@[i - 1]);
        let cum = models[ctx].cum_freq(sym);
        let f = models[ctx].freq(sym);
        let t = models[ctx].total();
        enc.encode(cum, f, t);
        let ghost before = models@;
        models[ctx].update(sym);
        assert(tables_of(models@) =~= tables_of(before).update(ctx as int, counts_after(before[ctx as int].counts(), sym as int)));
        ctx = sym;
        i = i + 1;
    }
    assert(bytes@.take(i as int) =~= bytes@);
    enc.finish()
}

/// Decodes `count` bytes coded by `encode`.
pub fn decode(data: &[u8], count: usize) -> (out: Vec<u8>)
    ensures
        out@ == spec_decode(data@, count as nat),
{
    let mut models = new_tables();
    let mut dec = Decoder::new(data);
    let mut out: Vec<u8> = Vec::new();
    let mut ctx: usize = 0;
    let mut k: usize = 0;
    while k < count
        invariant
            k <= count,
            models@.len() == 256,
            forall|j: int| 0 <= j < 256 ==> #[trigger] models@[j].wf(),
            dec.ready(),
            dec.data() == data@,
            ctx < 256,
            ctx == if out@.len() == 0 { 0 } else { out@.last() as usize },
            dec_state(data@, k as nat) == (tables_of(models@), dec.low(), dec.range(), dec.code(), dec.pos(), out@),
        decreases count - k,
    {
        let t = models[ctx].total();
        let value = dec.decode_freq(t);
        let sym = models[ctx].find(value);
        let cum = models[ctx].cum_freq(sym);
        let f = models[ctx].freq(sym);
        dec.update(cum, f);
        out.push(sym as u8);
        let ghost before = models@;
        models[ctx].update(sym);
        assert(tables_of(models@) =~= tables_of(before).update(ctx as int, counts_after(before[ctx as int].counts(), sym as int)));
        ctx = sym;
        k = k + 1;
    }
    out
}

proof fn lemma_enc_state_ok(s: Seq<u8>)
    ensures
        enc_state(s).0.len() == 256,
        forall|i: int| 0 <= i < 256 ==> counts_ok(#[trigger] enc_state(s).0[i]),
        coder_ok(enc_state(s).1, enc_state(s).2),
        enc_state(s).2 >= BOT,
    decreases s.len(),
{
    if s.len() == 0 {
        lemma_initial_sum(256);
        assert(initial_counts() =~= Seq::new(256, |i: int| 1u32));
    } else {
        let p = s.drop_last();
        lemma_enc_state_ok(p);
        let (t, low, range, out) = enc_state(p);
        let ctx: int = if s.len() == 1 { 0 } else { s[s.len() - 2] as int };
        let sym = s.last() as int;
        lemma_step_ok(t[ctx], low, range, sym);
        lemma_counts_after_ok(t[ctx], sym);
    }
}

/// The interval after `j` bytes of `s` holds the first four of the bytes
/// coding writes from there on.
proof fn lemma_future(s: Seq<u8>, j: int)
    requires
        0 <= j <= s.len(),
    ensures
        ({
            let st = enc_state(s.take(j));
            let rest = spec_encode(s).skip(st.3.len() as int);
            &&& st.3.len() + 4 <= spec_encode(s).len()
            &&& spec_encode(s).subrange(0, st.3.len() as int) == st.3
            &&& st.1 <= be32(rest) < st.1 + st.2
        }),
    decreases s.len() - j,
{
    let st = enc_state(s.take(j));
    let data = spec_encode(s);
    lemma_enc_state_ok(s.take(j));
    if j == s.len() {
        assert(s.take(j) =~= s);
        assert(data.skip(st.3.len() as int) =~= flush_bytes(st.1));
        assert(data.subrange(0, st.3.len() as int) =~= st.3);
        lemma_flush_value(st.1);
    } else {
        lemma_future(s, j + 1);
        let q = s.take(j + 1);
        let st1 = enc_state(q);
        assert(q.drop_last() =~= s.take(j));
        let ctx: int = if q.len() == 1 { 0 } else { q[q.len() - 2] as int };
        let sym = s[j] as int;
        let c = st.0[ctx];
        let (l1, r1) = narrow(st.1, st.2, cum_of(c, sym) as u32, c[sym], seq_sum(c) as u32);
        let nb = enc_norm(l1, r1).2;
        assert(st1.3 == st.3 + nb);
        let rest1 = data.skip(st1.3.len() as int);
        lemma_symbol_back(c, st.1, st.2, sym, rest1);
        assert(data.subrange(0, st1.3.len() as int).subrange(0, st.3.len() as int) =~= data.subrange(0, st.3.len() as int));
        assert(data.subrange(0, st.3.len() as int) =~= st.3);
        assert(data.skip(st.3.len() as int) =~= nb + rest1) by {
            assert forall|i: int| 0 <= i < nb.len() implies data.skip(st.3.len() as int)[i] == nb[i] by {
                assert(data.subrange(0, st1.3.len() as int)[st.3.len() + i] == st1.3[st.3.len() + i]);
            }
        }
    }
}

/// After `j` bytes of the coding of `s`, the decoder holds the encoder's
/// tables and interval, the four bytes written after the first `j` bytes
/// and the bytes so far.
proof fn lemma_decoder_follows(s: Seq<u8>, j: int)
    requires
        0 <= j <= s.len(),
    ensures
        ({
            let data = spec_encode(s);
            let st = enc_state(s.take(j));
            let ds = dec_state(data, j as nat);
            &&& ds.0 == st.0
            &&& ds.1 == st.1
            &&& ds.2 == st.2
            &&& ds.4 == st.3.len() + 4
            &&& ds.3 == be32(data.skip(st.3.len() as int))
            &&& ds.5 == s.take(j)
        }),
    decreases j,
{
    let data = spec_encode(s);
    lemma_future(s, j);
    if j == 0 {
        assert(s.take(0) =~= Seq::<u8>::empty());
        assert(next_pos(data, 0) == 1);
        assert(next_pos(data, 1) == 2);
        assert(next_pos(data, 2) == 3);
        assert(next_pos(data, 3) == 4);
        lemma_initial_code(data[0], data[1], data[2], data[3]);
        assert(data.skip(0) =~= data);
    } else {
        lemma_decoder_follows(s, j - 1);
        lemma_future(s, j - 1);
        let p = s.take(j - 1);
        let q = s.take(j);
        assert(q.drop_last() =~= p);
        let st = enc_state(p);
        let ds = dec_state(data, (j - 1) as nat);
        lemma_enc_state_ok(p);
        let ctx: int = if q.len() == 1 { 0 } else { q[q.len() - 2] as int };
        assert(ctx == if ds.5.len() == 0 { 0 } else { ds.5.last() as int });
        let c = st.0[ctx];
        let sym = s[j - 1] as int;
        let total = seq_sum(c) as u32;
        let (l1, r1) = narrow(st.1, st.2, cum_of(c, sym) as u32, c[sym], total);
        let nb = enc_norm(l1, r1).2;
        let st1 = enc_state(q);
        assert(st1.3 == st.3 + nb);
        let rest = data.skip(st.3.len() as int);
        let rest1 = data.skip(st1.3.len() as int);
        assert(rest =~= nb + rest1) by {
            assert forall|i: int| 0 <= i < nb.len() implies rest[i] == nb[i] by {
                assert(data.subrange(0, st1.3.len() as int)[st.3.len() + i] == st1.3[st.3.len() + i]);
            }
        }
        lemma_symbol_back(c, st.1, st.2, sym, rest1);
        let code = ds.3;
        lemma_dec_norm_ok(l1, r1, code, data, ds.4);
        assert(data.subrange(ds.4 - 4, ds.4) =~= rest.subrange(0, 4));
        lemma_norm_read(l1, r1, code, data, ds.4);
        assert(data.subrange(ds.4 + nb.len() - 4, ds.4 + nb.len()) =~= rest1.subrange(0, 4));
    }
}

/// Decoding the coding of `s`, for as many bytes as `s` has, gives `s`
/// back.
pub proof fn lemma_decode_encode(s: Seq<u8>)
    ensures
        spec_decode(spec_encode(s), s.len()) == s,
{
    lemma_decoder_follows(s, s.len() as int);
    assert(s.take(s.len() as int) =~= s);
}

} // verus!
