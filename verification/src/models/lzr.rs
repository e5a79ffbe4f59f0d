//! LZ tokens, range coded: a match flag per token (modelled by the kind of
//! the token before), literals with the byte before them as context, and
//! lengths and distances as seven-bit groups.
use vstd::prelude::*;
use super::lz::{self, HISTORY};
use super::range::{self, Decoder, Encoder, Model, BOT, dec_start, dec_symbol, decode_symbol, narrow, dec_norm, slot_value, counts_after, initial_counts, initial_state, lemma_group_byte, lemma_run_concat, model_event, run_from, step_state, value_events, events_bytes};
use crate::biglz::{self, Token, MIN_MATCH};
use crate::slices;

verus! {

/// The counts of a binary model at the start.
pub open spec fn bit_init() -> (u32, u32) {
    (1, 1)
}

/// Coding `bit` with the counts `c`.
pub open spec fn bit_event(c: (u32, u32), bit: int) -> (u32, u32, u32) {
    if bit == 0 { (0, c.0, (c.0 + c.1) as u32) } else { (c.0, c.1, (c.0 + c.1) as u32) }
}

/// The counts after `bit`: its count grows by 24, and both are halved (and
/// kept odd) once they reach 60000 together.
pub open spec fn bit_bump(c: (u32, u32), bit: int) -> (u32, u32) {
    let c1: (u32, u32) = if bit == 0 { ((c.0 + 24) as u32, c.1) } else { (c.0, (c.1 + 24) as u32) };
    if c1.0 + c1.1 >= 60000 { ((c1.0 >> 1u32) | 1, (c1.1 >> 1u32) | 1) } else { c1 }
}

/// Counts of a binary model in range.
pub open spec fn bit_ok(c: (u32, u32)) -> bool {
    c.0 >= 1 && c.1 >= 1 && c.0 + c.1 < 60000
}

pub proof fn lemma_bit_bump(c: (u32, u32), bit: int)
    requires
        bit_ok(c),
    ensures
        bit_ok(bit_bump(c, bit)),
{
    let c1: (u32, u32) = if bit == 0 { ((c.0 + 24) as u32, c.1) } else { (c.0, (c.1 + 24) as u32) };
    let a = c1.0;
    let b = c1.1;
    assert((a >> 1u32) | 1 >= 1 && (a >> 1u32) | 1 <= a / 2 + 1 && (b >> 1u32) | 1 >= 1 && (b >> 1u32) | 1 <= b / 2 + 1) by (bit_vector);
}

/// A decoder's state as plain values: the interval, the code register and
/// the read position.
pub open spec fn dec_view(d: &Decoder) -> (u32, u32, u32, int) {
    (d.low(), d.range(), d.code(), d.pos())
}

/// A bit decoded with the binary counts `c` from decoder state `st`: the
/// bit, the decoder's state after it, the counts after it.
pub open spec fn bit_dec(data: Seq<u8>, st: (u32, u32, u32, int), c: (u32, u32)) -> (int, (u32, u32, u32, int), (u32, u32)) {
    let total = (c.0 + c.1) as u32;
    let v = slot_value(st.0, st.1, st.2, total);
    let bit: int = if v < c.0 { 0 } else { 1 };
    let cum: u32 = if bit == 0 { 0 } else { c.0 };
    let freq: u32 = if bit == 0 { c.0 } else { c.1 };
    let (l1, r1) = narrow(st.0, st.1, cum, freq, total);
    let n = dec_norm(l1, r1, st.2, data, st.3);
    (bit, (n.0, n.1, n.2, n.3), bit_bump(c, bit))
}

/// An adaptive binary model.
pub struct Bit {
    c0: u32,
    c1: u32,
}

impl Bit {
    /// The two counts.
    pub closed spec fn counts(&self) -> (u32, u32) {
        (self.c0, self.c1)
    }

    pub closed spec fn wf(&self) -> bool {
        bit_ok(self.counts())
    }

    pub fn new() -> (b: Self)
        ensures
            b.wf(),
            b.counts() == bit_init(),
    {
        Bit { c0: 1, c1: 1 }
    }

    pub fn total(&self) -> (t: u32)
        requires
            self.wf(),
        ensures
            t == self.counts().0 + self.counts().1,
            0 < t < 60000,
    {
        self.c0 + self.c1
    }

    pub fn bump(&mut self, bit: u8)
        requires
            old(self).wf(),
        ensures
            final(self).wf(),
            final(self).counts() == bit_bump(old(self).counts(), bit as int),
    {
        proof {
            lemma_bit_bump(self.counts(), bit as int);
        }
        if bit == 0 {
            self.c0 = self.c0 + 24;
        } else {
            self.c1 = self.c1 + 24;
        }
        if self.c0 + self.c1 >= 60000 {
            self.c0 = (self.c0 >> 1) | 1;
            self.c1 = (self.c1 >> 1) | 1;
        }
    }

    /// Codes `bit` (any nonzero value counts as one) and adapts.
    pub fn encode(&mut self, enc: &mut Encoder, bit: u8)
        requires
            old(self).wf(),
            old(enc).wf(),
        ensures
            final(self).wf(),
            final(enc).wf(),
            final(self).counts() == bit_bump(old(self).counts(), if bit == 0 { 0 } else { 1 }),
            final(enc).state() == step_state(old(enc).state(), bit_event(old(self).counts(), if bit == 0 { 0 } else { 1 })),
    {
        let t = self.total();
        if bit == 0 {
            enc.encode(0, self.c0, t);
        } else {
            enc.encode(self.c0, self.c1, t);
        }
        self.bump(if bit == 0 { 0 } else { 1 });
    }

    /// Decodes a bit and adapts.
    pub fn decode(&mut self, dec: &mut Decoder) -> (bit: u8)
        requires
            old(self).wf(),
            old(dec).ready(),
        ensures
            final(self).wf(),
            final(dec).ready(),
            final(dec).data() == old(dec).data(),
            bit <= 1,
            final(self).counts() == bit_bump(old(self).counts(), bit as int),
            (bit as int, dec_view(final(dec)), final(self).counts()) == bit_dec(old(dec).data(), dec_view(old(dec)), old(self).counts()),
    {
        let total = self.total();
        let v = dec.decode_freq(total);
        let bit: u8 = if v < self.c0 { 0 } else { 1 };
        if bit == 0 {
            dec.update(0, self.c0);
        } else {
            dec.update(self.c0, self.c1);
        }
        self.bump(bit);
        bit
    }
}

/// Coding `v` as seven-bit groups, group by group with model `j` of `ms`
/// and then the next one (the last model is kept for all further groups):
/// the symbols, and the models after.
pub open spec fn value_events_ctx(ms: Seq<Seq<u32>>, v: usize, j: int) -> (Seq<(u32, u32, u32)>, Seq<Seq<u32>>)
    decreases v,
{
    let byte = range::group_byte(v);
    let e = model_event(ms[j], byte);
    let ms2 = ms.update(j, counts_after(ms[j], byte));
    if v < 0x80 {
        (seq![e], ms2)
    } else {
        proof {
            lemma_group_byte(v);
        }
        let next = if j + 1 < ms.len() { j + 1 } else { j };
        let r = value_events_ctx(ms2, v >> 7, next);
        (seq![e] + r.0, r.1)
    }
}

fn encode_value(enc: &mut Encoder, model: &mut Model, v: usize)
    requires
        old(enc).wf(),
        old(model).wf(),
    ensures
        final(enc).wf(),
        final(model).wf(),
        final(enc).state() == run_from(old(enc).state(), value_events(old(model).counts(), v).0),
        final(model).counts() == value_events(old(model).counts(), v).1,
{
    let ghost s0 = enc.state();
    let ghost c0 = model.counts();
    let ghost v0 = v;
    let ghost mut done: Seq<(u32, u32, u32)> = Seq::empty();
    let mut v = v;
    loop
        invariant_except_break
            enc.wf(),
            model.wf(),
            value_events(c0, v0).0 == done + value_events(model.counts(), v).0,
            value_events(c0, v0).1 == value_events(model.counts(), v).1,
            enc.state() == run_from(s0, done),
        ensures
            enc.wf(),
            model.wf(),
            enc.state() == run_from(s0, value_events(c0, v0).0),
            model.counts() == value_events(c0, v0).1,
        decreases v,
    {
        proof {
            lemma_group_byte(v);
        }
        let byte: usize = if v >= 0x80 { (v & 0x7f) | 0x80 } else { v & 0x7f };
        let ghost c1 = model.counts();
        let ghost st0 = enc.state();
        let cum = model.cum_freq(byte);
        let f = model.freq(byte);
        let t = model.total();
        enc.encode(cum, f, t);
        model.update(byte);
        proof {
            let e = model_event(c1, byte as int);
            assert(e == (cum, f, t));
            let d2 = done.push(e);
            assert(d2.drop_last() =~= done);
            done = d2;
        }
        if v < 0x80 {
            assert(value_events(c1, v).0 =~= seq![model_event(c1, byte as int)]);
            assert(value_events(c0, v0).0 =~= done);
            break;
        }
        assert(value_events(c0, v0).0 =~= done + value_events(model.counts(), v >> 7).0);
        v = v >> 7;
    }
}

/// The counts of each model.
pub open spec fn tables_of(models: Seq<Model>) -> Seq<Seq<u32>> {
    models.map_values(|m: Model| m.counts())
}

/// Every model is well formed.
pub open spec fn all_wf(models: Seq<Model>) -> bool {
    forall|i: int| 0 <= i < models.len() ==> #[trigger] models[i].wf()
}

fn new_models(n: usize) -> (models: Vec<Model>)
    ensures
        models@.len() == n,
        all_wf(models@),
        tables_of(models@) == Seq::new(n as nat, |i: int| initial_counts()),
{
    let mut models: Vec<Model> = Vec::new();
    let mut i: usize = 0;
    while i < n
        invariant
            i <= n,
            models@.len() == i,
            all_wf(models@),
            forall|k: int| 0 <= k < i ==> #[trigger] models@[k].counts() == initial_counts(),
        decreases n - i,
    {
        models.push(Model::new());
        i = i + 1;
    }
    assert(tables_of(models@) =~= Seq::new(n as nat, |i: int| initial_counts()));
    models
}

fn encode_value_ctx(enc: &mut Encoder, models: &mut Vec<Model>, v: usize)
    requires
        old(enc).wf(),
        all_wf(old(models)@),
        old(models)@.len() >= 1,
    ensures
        final(enc).wf(),
        all_wf(final(models)@),
        final(models)@.len() == old(models)@.len(),
        final(enc).state() == run_from(old(enc).state(), value_events_ctx(tables_of(old(models)@), v, 0).0),
        tables_of(final(models)@) == value_events_ctx(tables_of(old(models)@), v, 0).1,
{
    let ghost s0 = enc.state();
    let ghost t0 = tables_of(models@);
    let ghost v0 = v;
    let ghost n = models@.len();
    let ghost mut done: Seq<(u32, u32, u32)> = Seq::empty();
    let mut v = v;
    let mut j: usize = 0;
    loop
        invariant_except_break
            enc.wf(),
            all_wf(models@),
            models@.len() == n,
            n >= 1,
            j < n,
            value_events_ctx(t0, v0, 0).0 == done + value_events_ctx(tables_of(models@), v, j as int).0,
            value_events_ctx(t0, v0, 0).1 == value_events_ctx(tables_of(models@), v, j as int).1,
            enc.state() == run_from(s0, done),
        ensures
            enc.wf(),
            all_wf(models@),
            models@.len() == n,
            enc.state() == run_from(s0, value_events_ctx(t0, v0, 0).0),
            tables_of(models@) == value_events_ctx(t0, v0, 0).1,
        decreases v,
    {
        proof {
            lemma_group_byte(v);
        }
        let byte: usize = if v >= 0x80 { (v & 0x7f) | 0x80 } else { v & 0x7f };
        let ghost tb = tables_of(models@);
        let ghost st0 = enc.state();
        let cum = models[j].cum_freq(byte);
        let f = models[j].freq(byte);
        let t = models[j].total();
        enc.encode(cum, f, t);
        let ghost before = models@;
        models[j].update(byte);
        proof {
            assert(tables_of(models@) =~= tb.update(j as int, counts_after(tb[j as int], byte as int)));
            assert forall|k: int| 0 <= k < models@.len() implies #[trigger] models@[k].wf() by {
                if k != j {
                    assert(models@[k] == before[k]);
                }
            }
            let e = model_event(tb[j as int], byte as int);
            assert(e == (cum, f, t));
            let d2 = done.push(e);
            assert(d2.drop_last() =~= done);
            done = d2;
        }
        if v < 0x80 {
            assert(value_events_ctx(tb, v, j as int).0 =~= seq![model_event(tb[j as int], byte as int)]);
            assert(value_events_ctx(t0, v0, 0).0 =~= done);
            break;
        }
        let next = if j < models.len() - 1 { j + 1 } else { j };
        assert(value_events_ctx(t0, v0, 0).0 =~= done + value_events_ctx(tables_of(models@), v >> 7, next as int).0);
        v = v >> 7;
        j = next;
    }
}

/// How many bytes a token stands for.
pub open spec fn tok_len(t: Token) -> int {
    match t {
        Token::Lit(_) => 1,
        Token::Match { len, .. } => len as int,
    }
}

/// How many bytes the tokens stand for.
pub open spec fn span(toks: Seq<Token>) -> int
    decreases toks.len(),
{
    if toks.len() == 0 {
        0
    } else {
        span(toks.drop_last()) + tok_len(toks.last())
    }
}

proof fn lemma_span_take(toks: Seq<Token>, k: int)
    requires
        0 <= k <= toks.len(),
    ensures
        0 <= span(toks.take(k)) <= span(toks),
    decreases toks.len() - k,
{
    if k < toks.len() {
        lemma_span_take(toks, k + 1);
        assert(toks.take(k + 1).drop_last() =~= toks.take(k));
    } else {
        assert(toks.take(k) =~= toks);
    }
    lemma_span_nonneg(toks.take(k));
}

proof fn lemma_span_nonneg(toks: Seq<Token>)
    ensures
        span(toks) >= 0,
    decreases toks.len(),
{
    if toks.len() > 0 {
        lemma_span_nonneg(toks.drop_last());
    }
}

/// The context of a literal at `pos`: the byte before it, or zero.
pub open spec fn lit_ctx(bytes: Seq<u8>, pos: int) -> int {
    if pos > 0 { bytes[pos - 1] as int } else { 0 }
}

/// Whether a token is a match, as a bit.
pub open spec fn is_match_bit(t: Token) -> int {
    if t is Match { 1 } else { 0 }
}

/// The model state of the first token coder.
pub struct Lzr1 {
    pub flags: Seq<(u32, u32)>,
    pub lits: Seq<Seq<u32>>,
    pub lm: Seq<u32>,
    pub dm: Seq<u32>,
    pub pos: int,
    pub prev: int,
}

/// The symbols coded for the tokens from `k` on, from state `st`.
pub open spec fn events1(bytes: Seq<u8>, toks: Seq<Token>, k: int, st: Lzr1) -> Seq<(u32, u32, u32)>
    decreases toks.len() - k,
{
    if k < 0 || k >= toks.len() {
        Seq::empty()
    } else {
        let bit = is_match_bit(toks[k]);
        let fe = bit_event(st.flags[st.prev], bit);
        let f2 = st.flags.update(st.prev, bit_bump(st.flags[st.prev], bit));
        match toks[k] {
            Token::Lit(b) => {
                let ctx = lit_ctx(bytes, st.pos);
                let le = model_event(st.lits[ctx], b as int);
                let st2 = Lzr1 { flags: f2, lits: st.lits.update(ctx, counts_after(st.lits[ctx], b as int)), pos: st.pos + 1, prev: 0, ..st };
                seq![fe, le] + events1(bytes, toks, k + 1, st2)
            },
            Token::Match { dist, len } => {
                let lv = value_events(st.lm, (len - MIN_MATCH) as usize);
                let dv = value_events(st.dm, dist);
                let st2 = Lzr1 { flags: f2, lm: lv.1, dm: dv.1, pos: st.pos + len, prev: 1, ..st };
                seq![fe] + lv.0 + dv.0 + events1(bytes, toks, k + 1, st2)
            },
        }
    }
}

/// The starting state of the first token coder for output starting at
/// `emit_start`.
pub open spec fn start1(emit_start: int) -> Lzr1 {
    Lzr1 {
        flags: seq![bit_init(), bit_init()],
        lits: Seq::new(256, |i: int| initial_counts()),
        lm: initial_counts(),
        dm: initial_counts(),
        pos: emit_start,
        prev: 0,
    }
}

/// The counts of each binary model.
pub open spec fn bit_counts(v: Seq<Bit>) -> Seq<(u32, u32)> {
    v.map_values(|b: Bit| b.counts())
}

fn new_flags() -> (v: Vec<Bit>)
    ensures
        v@.len() == 2,
        v@[0].wf() && v@[1].wf(),
        bit_counts(v@) == seq![bit_init(), bit_init()],
{
    let mut v: Vec<Bit> = Vec::new();
    v.push(Bit::new());
    v.push(Bit::new());
    assert(bit_counts(v@) =~= seq![bit_init(), bit_init()]);
    v
}

/// Range codes `tokens` (the parse of `bytes` after `emit_start`).
pub fn encode_tokens(bytes: &[u8], emit_start: usize, tokens: &[Token]) -> (out: Vec<u8>)
    requires
        emit_start + span(tokens@) <= bytes.len(),
        biglz::lengths_ok(tokens@),
    ensures
        out@ == events_bytes(events1(bytes@, tokens@, 0, start1(emit_start as int))),
{
    let ghost b = bytes@;
    let ghost toks = tokens@;
    let ghost full = events1(b, toks, 0, start1(emit_start as int));
    let mut enc = Encoder::new();
    let mut flag = new_flags();
    let mut lits = new_models(256);
    let mut len_model = Model::new();
    let mut dist_model = Model::new();
    let mut pos: usize = emit_start;
    let mut prev: usize = 0;
    let ghost mut done: Seq<(u32, u32, u32)> = Seq::empty();
    assert(full == done + full);
    assert(toks.take(0) =~= Seq::<Token>::empty());
    let mut k: usize = 0;
    while k < tokens.len()
        invariant
            b == bytes@,
            toks == tokens@,
            k <= toks.len(),
            emit_start + span(toks) <= b.len(),
            biglz::lengths_ok(toks),
            pos == emit_start + span(toks.take(k as int)),
            prev <= 1,
            enc.wf(),
            flag@.len() == 2,
            flag@[0].wf() && flag@[1].wf(),
            lits@.len() == 256,
            all_wf(lits@),
            len_model.wf(),
            dist_model.wf(),
            full == done + events1(b, toks, k as int, Lzr1 {
                flags: bit_counts(flag@),
                lits: tables_of(lits@),
                lm: len_model.counts(),
                dm: dist_model.counts(),
                pos: pos as int,
                prev: prev as int,
            }),
            enc.state() == run_from(initial_state(), done),
        decreases toks.len() - k,
    {
        proof {
            lemma_span_take(toks, k as int + 1);
            assert(toks.take(k as int + 1).drop_last() =~= toks.take(k as int));
            lemma_span_nonneg(toks.take(k as int));
        }
        let ghost st = Lzr1 {
            flags: bit_counts(flag@),
            lits: tables_of(lits@),
            lm: len_model.counts(),
            dm: dist_model.counts(),
            pos: pos as int,
            prev: prev as int,
        };
        let ghost fl0 = flag@;
        let ghost s0 = enc.state();
        assert(st.flags[prev as int] == fl0[prev as int].counts());
        assert(toks.take(k as int + 1).last() == toks[k as int]);
        assert(span(toks.take(k as int + 1)) == span(toks.take(k as int)) + tok_len(toks[k as int]));
        match &tokens[k] {
            Token::Lit(byte) => {
                flag[prev].encode(&mut enc, 0);
                proof {
                    assert(bit_counts(flag@) =~= st.flags.update(prev as int, bit_bump(st.flags[prev as int], 0)));
                    assert(flag@[1 - prev as int] == fl0[1 - prev as int]);
                }
                let ghost s1 = enc.state();
                assert(s1 == step_state(s0, bit_event(st.flags[prev as int], 0)));
                let ctx: usize = if pos > 0 { bytes[pos - 1] as usize } else { 0 };
                let sym = *byte as usize;
                let cum = lits[ctx].cum_freq(sym);
                let f = lits[ctx].freq(sym);
                let t = lits[ctx].total();
                enc.encode(cum, f, t);
                let ghost lb = lits@;
                lits[ctx].update(sym);
                proof {
                    assert(tables_of(lits@) =~= st.lits.update(ctx as int, counts_after(st.lits[ctx as int], sym as int)));
                    assert forall|i: int| 0 <= i < lits@.len() implies #[trigger] lits@[i].wf() by {
                        if i != ctx {
                            assert(lits@[i] == lb[i]);
                        }
                    }
                    let fe = bit_event(st.flags[prev as int], 0);
                    let le = model_event(st.lits[ctx as int], sym as int);
                    assert(st.lits[ctx as int] == lb[ctx as int].counts());
                    assert(le == (cum, f, t));
                    assert(enc.state() == step_state(s1, le));
                    let d1 = done.push(fe);
                    assert(d1.drop_last() =~= done);
                    assert(run_from(initial_state(), d1) == step_state(s0, fe));
                    let d2 = d1.push(le);
                    assert(d2.drop_last() =~= d1);
                    assert(run_from(initial_state(), d2) == step_state(s1, le));
                    assert(done + seq![fe, le] =~= d2);
                    done = d2;
                }
                assert(enc.state() == run_from(initial_state(), done));
                pos = pos + 1;
                prev = 0;
            },
            Token::Match { dist, len } => {
                flag[prev].encode(&mut enc, 1);
                proof {
                    assert(bit_counts(flag@) =~= st.flags.update(prev as int, bit_bump(st.flags[prev as int], 1)));
                    assert(flag@[1 - prev as int] == fl0[1 - prev as int]);
                    let fe = bit_event(st.flags[prev as int], 1);
                    assert(enc.state() == step_state(s0, fe));
                    let d1 = done.push(fe);
                    assert(d1.drop_last() =~= done);
                    done = d1;
                }
                assert(toks[k as int] matches Token::Match { len, .. } ==> len >= MIN_MATCH);
                let ghost d1 = done;
                let ghost lc = len_model.counts();
                let ghost dc = dist_model.counts();
                let ghost sa = enc.state();
                encode_value(&mut enc, &mut len_model, *len - MIN_MATCH);
                let ghost sb = enc.state();
                encode_value(&mut enc, &mut dist_model, *dist);
                proof {
                    assert(sa == run_from(initial_state(), d1));
                    let lv = value_events(lc, (*len - MIN_MATCH) as usize);
                    let dv = value_events(dc, *dist);
                    lemma_run_concat(initial_state(), d1, lv.0);
                    lemma_run_concat(initial_state(), d1 + lv.0, dv.0);
                    done = d1 + lv.0 + dv.0;
                }
                assert(enc.state() == run_from(initial_state(), done));
                assert(pos + *len <= bytes.len());
                pos = pos + *len;
                prev = 1;
            },
        }
        k = k + 1;
        assert(full == done + events1(b, toks, k as int, Lzr1 {
            flags: bit_counts(flag@),
            lits: tables_of(lits@),
            lm: len_model.counts(),
            dm: dist_model.counts(),
            pos: pos as int,
            prev: prev as int,
        }));
    }
    assert(full =~= done);
    enc.finish()
}

/// Parses `bytes` after `emit_start` and range codes the tokens.
pub fn encode_from(bytes: &[u8], emit_start: usize) -> (out: Vec<u8>)
    requires
        emit_start <= bytes.len(),
    ensures
        ({
            let toks = biglz::spec_tokens(bytes@, emit_start as int, biglz::MAX_CHAIN as nat);
            &&& out@ == events_bytes(events1(bytes@, toks, 0, start1(emit_start as int)))
            &&& biglz::apply(bytes@.subrange(0, emit_start as int), toks) == bytes@
            &&& biglz::well_formed(bytes@.subrange(0, emit_start as int), toks)
        }),
{
    let toks = biglz::tokens(bytes, emit_start);
    proof {
        lemma_apply_span(bytes@.subrange(0, emit_start as int), toks@);
    }
    encode_tokens(bytes, emit_start, toks.as_slice())
}

/// `encode_from` with no history.
pub fn encode(bytes: &[u8]) -> (out: Vec<u8>)
    ensures
        ({
            let toks = biglz::spec_tokens(bytes@, 0, biglz::MAX_CHAIN as nat);
            &&& out@ == events_bytes(events1(bytes@, toks, 0, start1(0)))
            &&& biglz::apply(Seq::empty(), toks) == bytes@
            &&& biglz::well_formed(Seq::empty(), toks)
        }),
{
    let out = encode_from(bytes, 0);
    assert(bytes@.subrange(0, 0) =~= Seq::<u8>::empty());
    out
}

/// Applying tokens after `out` adds exactly their span.
pub proof fn lemma_apply_span(out: Seq<u8>, toks: Seq<Token>)
    requires
        biglz::well_formed(out, toks),
    ensures
        biglz::apply(out, toks).len() == out.len() + span(toks),
    decreases toks.len(),
{
    if toks.len() > 0 {
        let rest = toks.subrange(1, toks.len() as int);
        let o2 = match toks[0] {
            Token::Lit(b) => out.push(b),
            Token::Match { dist, len } => lz::copy_match(out, dist as nat, len as nat),
        };
        if let Token::Match { dist, len } = toks[0] {
            lz::lemma_copy_extends(out, dist as nat, len as nat);
        }
        lemma_apply_span(o2, rest);
        lemma_span_front(toks);
    }
}

proof fn lemma_span_front(toks: Seq<Token>)
    requires
        toks.len() > 0,
    ensures
        span(toks) == tok_len(toks[0]) + span(toks.subrange(1, toks.len() as int)),
    decreases toks.len(),
{
    if toks.len() > 1 {
        lemma_span_front(toks.drop_last());
        assert(toks.drop_last().subrange(1, toks.len() - 1) =~= toks.subrange(1, toks.len() as int).drop_last());
    } else {
        assert(toks.subrange(1, toks.len() as int) =~= Seq::<Token>::empty());
        assert(toks.drop_last() =~= Seq::<Token>::empty());
    }
}

/// The model state of the second token coder.
pub struct Lzr2 {
    pub flags: Seq<(u32, u32)>,
    pub rep: (u32, u32),
    pub lits: Seq<Seq<u32>>,
    pub lms: Seq<Seq<u32>>,
    pub dms: Seq<Seq<u32>>,
    pub pos: int,
    pub prev: int,
    pub last: usize,
}

/// The symbols the second coder codes for the tokens from `k` on: as the
/// first, but once a match was coded a bit says whether the next match
/// repeats its distance, and then only its length is coded; lengths and
/// distances use a model per group.
pub open spec fn events2(bytes: Seq<u8>, toks: Seq<Token>, k: int, st: Lzr2) -> Seq<(u32, u32, u32)>
    decreases toks.len() - k,
{
    if k < 0 || k >= toks.len() {
        Seq::empty()
    } else {
        let bit = is_match_bit(toks[k]);
        let fe = bit_event(st.flags[st.prev], bit);
        let f2 = st.flags.update(st.prev, bit_bump(st.flags[st.prev], bit));
        match toks[k] {
            Token::Lit(b) => {
                let ctx = lit_ctx(bytes, st.pos);
                let le = model_event(st.lits[ctx], b as int);
                let st2 = Lzr2 { flags: f2, lits: st.lits.update(ctx, counts_after(st.lits[ctx], b as int)), pos: st.pos + 1, prev: 0, ..st };
                seq![fe, le] + events2(bytes, toks, k + 1, st2)
            },
            Token::Match { dist, len } => {
                let lv = value_events_ctx(st.lms, (len - MIN_MATCH) as usize, 0);
                if st.last != 0 && dist == st.last {
                    let re = bit_event(st.rep, 1);
                    let st2 = Lzr2 { flags: f2, rep: bit_bump(st.rep, 1), lms: lv.1, pos: st.pos + len, prev: 1, ..st };
                    seq![fe, re] + lv.0 + events2(bytes, toks, k + 1, st2)
                } else {
                    let rs: Seq<(u32, u32, u32)> = if st.last != 0 { seq![bit_event(st.rep, 0)] } else { Seq::empty() };
                    let rep2 = if st.last != 0 { bit_bump(st.rep, 0) } else { st.rep };
                    let dv = value_events_ctx(st.dms, dist, 0);
                    let st2 = Lzr2 { flags: f2, rep: rep2, lms: lv.1, dms: dv.1, pos: st.pos + len, prev: 1, last: dist, ..st };
                    seq![fe] + rs + lv.0 + dv.0 + events2(bytes, toks, k + 1, st2)
                }
            },
        }
    }
}

/// The starting state of the second token coder.
pub open spec fn start2(emit_start: int) -> Lzr2 {
    Lzr2 {
        flags: seq![bit_init(), bit_init()],
        rep: bit_init(),
        lits: Seq::new(256, |i: int| initial_counts()),
        lms: Seq::new(2, |i: int| initial_counts()),
        dms: Seq::new(3, |i: int| initial_counts()),
        pos: emit_start,
        prev: 0,
        last: 0,
    }
}

/// Range codes `tokens` with repeated distances and per-group models.
#[verifier::rlimit(60)]
pub fn encode_tokens2(bytes: &[u8], emit_start: usize, tokens: &[Token]) -> (out: Vec<u8>)
    requires
        emit_start + span(tokens@) <= bytes.len(),
        biglz::lengths_ok(tokens@),
    ensures
        out@ == events_bytes(events2(bytes@, tokens@, 0, start2(emit_start as int))),
{
    let ghost b = bytes@;
    let ghost toks = tokens@;
    let ghost full = events2(b, toks, 0, start2(emit_start as int));
    let mut enc = Encoder::new();
    let mut flag = new_flags();
    let mut rep = Bit::new();
    let mut lits = new_models(256);
    let mut len_models = new_models(2);
    let mut dist_models = new_models(3);
    let mut pos: usize = emit_start;
    let mut prev: usize = 0;
    let mut last_dist: usize = 0;
    let ghost mut done: Seq<(u32, u32, u32)> = Seq::empty();
    assert(full == done + full);
    assert(toks.take(0) =~= Seq::<Token>::empty());
    let mut k: usize = 0;
    while k < tokens.len()
        invariant
            b == bytes@,
            toks == tokens@,
            k <= toks.len(),
            emit_start + span(toks) <= b.len(),
            biglz::lengths_ok(toks),
            pos == emit_start + span(toks.take(k as int)),
            prev <= 1,
            enc.wf(),
            flag@.len() == 2,
            flag@[0].wf() && flag@[1].wf(),
            rep.wf(),
            lits@.len() == 256,
            all_wf(lits@),
            len_models@.len() == 2,
            all_wf(len_models@),
            dist_models@.len() == 3,
            all_wf(dist_models@),
            full == done + events2(b, toks, k as int, Lzr2 {
                flags: bit_counts(flag@),
                rep: rep.counts(),
                lits: tables_of(lits@),
                lms: tables_of(len_models@),
                dms: tables_of(dist_models@),
                pos: pos as int,
                prev: prev as int,
                last: last_dist,
            }),
            enc.state() == run_from(initial_state(), done),
        decreases toks.len() - k,
    {
        proof {
            lemma_span_take(toks, k as int + 1);
            assert(toks.take(k as int + 1).drop_last() =~= toks.take(k as int));
            lemma_span_nonneg(toks.take(k as int));
        }
        let ghost st = Lzr2 {
            flags: bit_counts(flag@),
            rep: rep.counts(),
            lits: tables_of(lits@),
            lms: tables_of(len_models@),
            dms: tables_of(dist_models@),
            pos: pos as int,
            prev: prev as int,
            last: last_dist,
        };
        let ghost fl0 = flag@;
        let ghost s0 = enc.state();
        assert(st.flags[prev as int] == fl0[prev as int].counts());
        assert(toks.take(k as int + 1).last() == toks[k as int]);
        assert(span(toks.take(k as int + 1)) == span(toks.take(k as int)) + tok_len(toks[k as int]));
        match &tokens[k] {
            Token::Lit(byte) => {
                flag[prev].encode(&mut enc, 0);
                proof {
                    assert(bit_counts(flag@) =~= st.flags.update(prev as int, bit_bump(st.flags[prev as int], 0)));
                    assert(flag@[1 - prev as int] == fl0[1 - prev as int]);
                }
                let ghost s1 = enc.state();
                assert(s1 == step_state(s0, bit_event(st.flags[prev as int], 0)));
                let ctx: usize = if pos > 0 { bytes[pos - 1] as usize } else { 0 };
                let sym = *byte as usize;
                let cum = lits[ctx].cum_freq(sym);
                let f = lits[ctx].freq(sym);
                let t = lits[ctx].total();
                enc.encode(cum, f, t);
                let ghost lb = lits@;
                lits[ctx].update(sym);
                proof {
                    assert(tables_of(lits@) =~= st.lits.update(ctx as int, counts_after(st.lits[ctx as int], sym as int)));
                    assert forall|i: int| 0 <= i < lits@.len() implies #[trigger] lits@[i].wf() by {
                        if i != ctx {
                            assert(lits@[i] == lb[i]);
                        }
                    }
                    let fe = bit_event(st.flags[prev as int], 0);
                    let le = model_event(st.lits[ctx as int], sym as int);
                    assert(st.lits[ctx as int] == lb[ctx as int].counts());
                    assert(le == (cum, f, t));
                    assert(enc.state() == step_state(s1, le));
                    let d1 = done.push(fe);
                    assert(d1.drop_last() =~= done);
                    assert(run_from(initial_state(), d1) == step_state(s0, fe));
                    let d2 = d1.push(le);
                    assert(d2.drop_last() =~= d1);
                    assert(run_from(initial_state(), d2) == step_state(s1, le));
                    assert(done + seq![fe, le] =~= d2);
                    done = d2;
                }
                pos = pos + 1;
                prev = 0;
            },
            Token::Match { dist, len } => {
                flag[prev].encode(&mut enc, 1);
                proof {
                    assert(bit_counts(flag@) =~= st.flags.update(prev as int, bit_bump(st.flags[prev as int], 1)));
                    assert(flag@[1 - prev as int] == fl0[1 - prev as int]);
                    let fe = bit_event(st.flags[prev as int], 1);
                    assert(enc.state() == step_state(s0, fe));
                    let d1 = done.push(fe);
                    assert(d1.drop_last() =~= done);
                    assert(run_from(initial_state(), d1) == step_state(s0, fe));
                    done = d1;
                }
                assert(toks[k as int] matches Token::Match { len, .. } ==> len >= MIN_MATCH);
                assert(pos + *len <= bytes.len());
                let ghost lc = tables_of(len_models@);
                let ghost dc = tables_of(dist_models@);
                let ghost rc = rep.counts();
                if last_dist != 0 && *dist == last_dist {
                    let ghost s1 = enc.state();
                    rep.encode(&mut enc, 1);
                    proof {
                        let re = bit_event(rc, 1);
                        let d2 = done.push(re);
                        assert(d2.drop_last() =~= done);
                        assert(run_from(initial_state(), d2) == step_state(s1, re));
                        done = d2;
                    }
                    let ghost d2 = done;
                    encode_value_ctx(&mut enc, &mut len_models, *len - MIN_MATCH);
                    proof {
                        let lv = value_events_ctx(lc, (*len - MIN_MATCH) as usize, 0);
                        lemma_run_concat(initial_state(), d2, lv.0);
                        done = d2 + lv.0;
                    }
                    pos = pos + *len;
                    prev = 1;
                } else {
                    if last_dist != 0 {
                        let ghost s1 = enc.state();
                        rep.encode(&mut enc, 0);
                        proof {
                            let re = bit_event(rc, 0);
                            let d2 = done.push(re);
                            assert(d2.drop_last() =~= done);
                            assert(run_from(initial_state(), d2) == step_state(s1, re));
                            done = d2;
                        }
                    }
                    let ghost d2 = done;
                    encode_value_ctx(&mut enc, &mut len_models, *len - MIN_MATCH);
                    let ghost d3 = d2 + value_events_ctx(lc, (*len - MIN_MATCH) as usize, 0).0;
                    proof {
                        lemma_run_concat(initial_state(), d2, value_events_ctx(lc, (*len - MIN_MATCH) as usize, 0).0);
                    }
                    encode_value_ctx(&mut enc, &mut dist_models, *dist);
                    proof {
                        let dv = value_events_ctx(dc, *dist, 0);
                        lemma_run_concat(initial_state(), d3, dv.0);
                        done = d3 + dv.0;
                    }
                    last_dist = *dist;
                    pos = pos + *len;
                    prev = 1;
                }
            },
        }
        k = k + 1;
        assert(full == done + events2(b, toks, k as int, Lzr2 {
            flags: bit_counts(flag@),
            rep: rep.counts(),
            lits: tables_of(lits@),
            lms: tables_of(len_models@),
            dms: tables_of(dist_models@),
            pos: pos as int,
            prev: prev as int,
            last: last_dist,
        }));
    }
    assert(full =~= done);
    enc.finish()
}

/// A number read as seven-bit groups with the counts `c` from decoder state
/// `st`, the groups so far giving `v` and the next going in at `shift`
/// (wrapping), while the high bit is set and at most `fuel` groups: the
/// state and counts after it, and the number.
pub open spec fn value_read(data: Seq<u8>, st: (u32, u32, u32, int), c: Seq<u32>, v: usize, shift: u32, fuel: nat)
    -> ((u32, u32, u32, int), Seq<u32>, usize)
    decreases fuel,
{
    if fuel == 0 {
        (st, c, v)
    } else {
        let (byte, st1, c1) = dec_symbol(data, st, c);
        let b = byte as usize;
        let v1 = v | (b & 0x7f).wrapping_shl(shift);
        if b & 0x80 == 0 {
            (st1, c1, v1)
        } else {
            value_read(data, st1, c1, v1, shift.wrapping_add(7), (fuel - 1) as nat)
        }
    }
}

/// As `value_read`, with the models `ms`: group by group model `j` and
/// then the next one, the last one kept for all further groups.
pub open spec fn value_ctx_read(data: Seq<u8>, st: (u32, u32, u32, int), ms: Seq<Seq<u32>>, j: int, v: usize, shift: u32, fuel: nat)
    -> ((u32, u32, u32, int), Seq<Seq<u32>>, usize)
    decreases fuel,
{
    if fuel == 0 {
        (st, ms, v)
    } else {
        let (byte, st1, c1) = dec_symbol(data, st, ms[j]);
        let ms1 = ms.update(j, c1);
        let b = byte as usize;
        let v1 = v | (b & 0x7f).wrapping_shl(shift);
        if b & 0x80 == 0 {
            (st1, ms1, v1)
        } else {
            value_ctx_read(data, st1, ms1, if j < ms.len() - 1 { j + 1 } else { j }, v1, shift.wrapping_add(7), (fuel - 1) as nat)
        }
    }
}

fn decode_value(dec: &mut Decoder, model: &mut Model) -> (v: usize)
    requires
        old(dec).ready(),
        old(model).wf(),
    ensures
        final(dec).ready(),
        final(dec).data() == old(dec).data(),
        final(model).wf(),
        (dec_view(final(dec)), final(model).counts(), v)
            == value_read(old(dec).data(), dec_view(old(dec)), old(model).counts(), 0, 0, usize::MAX as nat),
{
    let ghost data = dec.data();
    let ghost goal = value_read(data, dec_view(dec), model.counts(), 0, 0, usize::MAX as nat);
    let mut v: usize = 0;
    let mut shift: u32 = 0;
    let mut fuel: usize = usize::MAX;
    while fuel > 0
        invariant_except_break
            dec.ready(),
            dec.data() == data,
            model.wf(),
            goal == value_read(data, dec_view(dec), model.counts(), v, shift, fuel as nat),
        ensures
            dec.ready(),
            dec.data() == data,
            model.wf(),
            goal == (dec_view(dec), model.counts(), v),
        decreases fuel,
    {
        let byte = decode_symbol(dec, model);
        v = v | (byte & 0x7f).wrapping_shl(shift);
        if byte & 0x80 == 0 {
            break;
        }
        shift = shift.wrapping_add(7);
        fuel = fuel - 1;
    }
    v
}

fn decode_value_ctx(dec: &mut Decoder, models: &mut Vec<Model>) -> (v: usize)
    requires
        old(dec).ready(),
        all_wf(old(models)@),
        old(models)@.len() >= 1,
    ensures
        final(dec).ready(),
        final(dec).data() == old(dec).data(),
        all_wf(final(models)@),
        final(models)@.len() == old(models)@.len(),
        (dec_view(final(dec)), tables_of(final(models)@), v)
            == value_ctx_read(old(dec).data(), dec_view(old(dec)), tables_of(old(models)@), 0, 0, 0, usize::MAX as nat),
{
    let ghost data = dec.data();
    let ghost goal = value_ctx_read(data, dec_view(dec), tables_of(models@), 0, 0, 0, usize::MAX as nat);
    let mut v: usize = 0;
    let mut shift: u32 = 0;
    let mut j: usize = 0;
    let mut fuel: usize = usize::MAX;
    while fuel > 0
        invariant_except_break
            dec.ready(),
            dec.data() == data,
            all_wf(models@),
            models@.len() == old(models)@.len(),
            models@.len() >= 1,
            j < models@.len(),
            goal == value_ctx_read(data, dec_view(dec), tables_of(models@), j as int, v, shift, fuel as nat),
        ensures
            dec.ready(),
            dec.data() == data,
            all_wf(models@),
            models@.len() == old(models)@.len(),
            goal == (dec_view(dec), tables_of(models@), v),
        decreases fuel,
    {
        let ghost st0 = dec_view(dec);
        let ghost before = models@;
        let t = models[j].total();
        let value = dec.decode_freq(t);
        let byte = models[j].find(value);
        let cum = models[j].cum_freq(byte);
        let f = models[j].freq(byte);
        dec.update(cum, f);
        models[j].update(byte);
        assert forall|k: int| 0 <= k < models@.len() implies #[trigger] models@[k].wf() by {
            if k != j {
                assert(models@[k] == before[k]);
            }
        }
        proof {
            let d = dec_symbol(data, st0, tables_of(before)[j as int]);
            assert(d.0 == byte as int);
            assert(d.1 == dec_view(dec));
            assert(tables_of(models@) =~= tables_of(before).update(j as int, d.2));
        }
        v = v | (byte & 0x7f).wrapping_shl(shift);
        if byte & 0x80 == 0 {
            break;
        }
        shift = shift.wrapping_add(7);
        if j < models.len() - 1 {
            j = j + 1;
        }
        fuel = fuel - 1;
    }
    v
}

fn copy_back(out: &mut Vec<u8>, dist: usize, len: usize)
    requires
        0 < dist <= old(out)@.len(),
    ensures
        final(out)@ == lz::copy_match(old(out)@, dist as nat, len as nat),
{
    let ghost o0 = out@;
    let mut x: usize = 0;
    while x < len
        invariant
            x <= len,
            0 < dist <= o0.len(),
            out@.len() == o0.len() + x,
            lz::copy_match(o0, dist as nat, len as nat) == lz::copy_match(out@, dist as nat, (len - x) as nat),
        decreases len - x,
    {
        let b = out[out.len() - dist];
        let ghost o1 = out@;
        out.push(b);
        assert(lz::copy_match(o1, dist as nat, (len - x) as nat) == lz::copy_match(out@, dist as nat, (len - x - 1) as nat));
        x = x + 1;
    }
}

/// The state of the first token decoder: the range decoder's, the flag,
/// literal, length and distance counts, whether the last token was a
/// match, and the output (the history first).
pub struct Dec1 {
    pub st: (u32, u32, u32, int),
    pub flags: Seq<(u32, u32)>,
    pub lits: Seq<Seq<u32>>,
    pub lm: Seq<u32>,
    pub dm: Seq<u32>,
    pub prev: int,
    pub out: Seq<u8>,
}

/// The context of the next literal: the last byte out, 0 at the start.
pub open spec fn out_ctx(out: Seq<u8>) -> int {
    if out.len() == 0 { 0 } else { out.last() as int }
}

/// One token decoded from `s`: a literal, or a match copied from the
/// output; and whether the decoding stops there (a match distance of zero
/// or past the output).
pub open spec fn dec1_step(data: Seq<u8>, s: Dec1) -> (Dec1, bool) {
    let (bit, st1, f1) = bit_dec(data, s.st, s.flags[s.prev]);
    let flags1 = s.flags.update(s.prev, f1);
    if bit == 0 {
        let ctx = out_ctx(s.out);
        let (sym, st2, c2) = dec_symbol(data, st1, s.lits[ctx]);
        (Dec1 { st: st2, flags: flags1, lits: s.lits.update(ctx, c2), prev: 0, out: s.out.push(sym as u8), ..s }, false)
    } else {
        let (st2, lm2, lv) = value_read(data, st1, s.lm, 0, 0, usize::MAX as nat);
        let len = lv.wrapping_add(MIN_MATCH);
        let (st3, dm2, dist) = value_read(data, st2, s.dm, 0, 0, usize::MAX as nat);
        let s3 = Dec1 { st: st3, flags: flags1, lm: lm2, dm: dm2, ..s };
        if dist == 0 || dist > s.out.len() {
            (s3, true)
        } else {
            (Dec1 { prev: 1, out: lz::copy_match(s.out, dist as nat, len as nat), ..s3 }, false)
        }
    }
}

/// Tokens decoded from `s` until the output reaches `target`, a token
/// stops the decoding, or `fuel` tokens were read.
pub open spec fn dec1_loop(data: Seq<u8>, s: Dec1, target: int, fuel: nat) -> Dec1
    decreases fuel,
{
    if fuel == 0 || s.out.len() >= target {
        s
    } else {
        let (s2, stop) = dec1_step(data, s);
        if stop { s2 } else { dec1_loop(data, s2, target, (fuel - 1) as nat) }
    }
}

/// The last `HISTORY` bytes of `history` (all of them if fewer).
pub open spec fn seed_of(history: Seq<u8>) -> Seq<u8> {
    let seed = if history.len() < HISTORY { history.len() as int } else { HISTORY as int };
    history.subrange(history.len() - seed, history.len() as int)
}

/// What `decode_windowed` gives: the output of the token decoder started
/// on the seed, past the seed.
pub open spec fn spec_decode_windowed(data: Seq<u8>, count: nat, history: Seq<u8>) -> Seq<u8> {
    let h = seed_of(history);
    let start = Dec1 {
        st: dec_start(data),
        flags: seq![bit_init(), bit_init()],
        lits: Seq::new(256, |i: int| initial_counts()),
        lm: initial_counts(),
        dm: initial_counts(),
        prev: 0,
        out: h,
    };
    dec1_loop(data, start, (h.len() + count) as int, usize::MAX as nat).out.skip(h.len() as int)
}

proof fn lemma_dec1_len(data: Seq<u8>, s: Dec1, target: int, fuel: nat)
    ensures
        dec1_loop(data, s, target, fuel).out.len() >= s.out.len(),
    decreases fuel,
{
    if !(fuel == 0 || s.out.len() >= target) {
        let (s2, stop) = dec1_step(data, s);
        let (bit, st1, f1) = bit_dec(data, s.st, s.flags[s.prev]);
        if bit != 0 {
            let (st2, lm2, lv) = value_read(data, st1, s.lm, 0, 0, usize::MAX as nat);
            let (st3, dm2, dist) = value_read(data, st2, s.dm, 0, 0, usize::MAX as nat);
            if !(dist == 0 || dist > s.out.len()) {
                lz::lemma_copy_extends(s.out, dist as nat, lv.wrapping_add(MIN_MATCH) as nat);
            }
        }
        if !stop {
            lemma_dec1_len(data, s2, target, (fuel - 1) as nat);
        }
    }
}

/// Decodes `count` bytes coded by `encode_tokens`, whose matches may reach
/// into the last `HISTORY` bytes of `history`. A match that reaches before
/// the start ends the decoding; a match may run past `count`.
pub fn decode_windowed(data: &[u8], count: usize, history: &[u8]) -> (out: Vec<u8>)
    requires
        count <= usize::MAX - HISTORY,
    ensures
        out@ == spec_decode_windowed(data@, count as nat, history@),
{
    let seed = if history.len() < HISTORY { history.len() } else { HISTORY };
    let mut out: Vec<u8> = Vec::new();
    slices::append(&mut out, &history[history.len() - seed..history.len()]);
    assert(out@ =~= seed_of(history@));
    let target = seed + count;
    let mut dec = Decoder::new(data);
    let mut flag = new_flags();
    let mut lits = new_models(256);
    let mut len_model = Model::new();
    let mut dist_model = Model::new();
    let mut prev: usize = 0;
    let mut fuel: usize = usize::MAX;
    let ghost d = data@;
    let ghost goal = dec1_loop(d, Dec1 {
        st: dec_view(&dec),
        flags: bit_counts(flag@),
        lits: tables_of(lits@),
        lm: len_model.counts(),
        dm: dist_model.counts(),
        prev: 0,
        out: out@,
    }, target as int, usize::MAX as nat);
    assert(bit_counts(flag@) =~= seq![bit_init(), bit_init()]);
    assert(dec_view(&dec) == dec_start(d));
    assert(goal == dec1_loop(d, Dec1 {
        st: dec_start(d),
        flags: seq![bit_init(), bit_init()],
        lits: Seq::new(256, |i: int| initial_counts()),
        lm: initial_counts(),
        dm: initial_counts(),
        prev: 0,
        out: seed_of(history@),
    }, target as int, usize::MAX as nat));
    proof {
        lemma_dec1_len(d, Dec1 {
            st: dec_view(&dec),
            flags: bit_counts(flag@),
            lits: tables_of(lits@),
            lm: len_model.counts(),
            dm: dist_model.counts(),
            prev: 0,
            out: out@,
        }, target as int, usize::MAX as nat);
    }
    while out.len() < target && fuel > 0
        invariant_except_break
            dec.ready(),
            dec.data() == d,
            flag@.len() == 2,
            flag@[0].wf() && flag@[1].wf(),
            prev <= 1,
            lits@.len() == 256,
            all_wf(lits@),
            len_model.wf(),
            dist_model.wf(),
            out@.len() >= seed,
            target == seed + count,
            goal == dec1_loop(d, Dec1 {
                st: dec_view(&dec),
                flags: bit_counts(flag@),
                lits: tables_of(lits@),
                lm: len_model.counts(),
                dm: dist_model.counts(),
                prev: prev as int,
                out: out@,
            }, target as int, fuel as nat),
        ensures
            goal.out == out@,
            out@.len() >= seed,
        decreases fuel,
    {
        let ghost s = Dec1 {
            st: dec_view(&dec),
            flags: bit_counts(flag@),
            lits: tables_of(lits@),
            lm: len_model.counts(),
            dm: dist_model.counts(),
            prev: prev as int,
            out: out@,
        };
        let ghost step = dec1_step(d, s);
        fuel = fuel - 1;
        let ghost fb = flag@;
        let is_match = flag[prev].decode(&mut dec);
        assert(bit_counts(flag@) =~= s.flags.update(prev as int, flag@[prev as int].counts()));
        if is_match == 0 {
            let ctx: usize = if out.len() == 0 { 0 } else { out[out.len() - 1] as usize };
            assert(ctx as int == out_ctx(out@));
            let ghost st1 = dec_view(&dec);
            let t = lits[ctx].total();
            let value = dec.decode_freq(t);
            let sym = lits[ctx].find(value);
            let cum = lits[ctx].cum_freq(sym);
            let f = lits[ctx].freq(sym);
            dec.update(cum, f);
            let ghost lb = lits@;
            lits[ctx].update(sym);
            assert forall|i: int| 0 <= i < lits@.len() implies #[trigger] lits@[i].wf() by {
                if i != ctx {
                    assert(lits@[i] == lb[i]);
                }
            }
            proof {
                let dd = dec_symbol(d, st1, tables_of(lb)[ctx as int]);
                assert(dd.0 == sym as int);
                assert(dd.1 == dec_view(&dec));
                assert(tables_of(lits@) =~= tables_of(lb).update(ctx as int, dd.2));
            }
            out.push(sym as u8);
            prev = 0;
            assert(step.0 == Dec1 {
                st: dec_view(&dec),
                flags: bit_counts(flag@),
                lits: tables_of(lits@),
                lm: len_model.counts(),
                dm: dist_model.counts(),
                prev: prev as int,
                out: out@,
            } && !step.1);
        } else {
            let len = decode_value(&mut dec, &mut len_model).wrapping_add(MIN_MATCH);
            let dist = decode_value(&mut dec, &mut dist_model);
            if dist == 0 || dist > out.len() {
                assert(step.1 && step.0.out == out@);
                assert(goal == step.0);
                break;
            }
            let ghost o0 = out@;
            copy_back(&mut out, dist, len);
            proof {
                lz::lemma_copy_extends(o0, dist as nat, len as nat);
            }
            prev = 1;
            assert(step.0 == Dec1 {
                st: dec_view(&dec),
                flags: bit_counts(flag@),
                lits: tables_of(lits@),
                lm: len_model.counts(),
                dm: dist_model.counts(),
                prev: prev as int,
                out: out@,
            } && !step.1);
        }
    }
    let tail = slices::copy(&out.as_slice()[seed..out.len()]);
    assert(tail@ =~= goal.out.skip(seed as int));
    tail
}

/// `decode_windowed` with no history.
pub fn decode(data: &[u8], count: usize) -> (out: Vec<u8>)
    requires
        count <= usize::MAX - HISTORY,
    ensures
        out@ == spec_decode_windowed(data@, count as nat, Seq::empty()),
{
    let none: Vec<u8> = Vec::new();
    assert(none@ =~= Seq::<u8>::empty());
    decode_windowed(data, count, none.as_slice())
}


/// The state of the second token decoder: as the first, with the repeat
/// bit's counts, a model per group for lengths and distances, and the last
/// distance.
pub struct Dec2 {
    pub st: (u32, u32, u32, int),
    pub flags: Seq<(u32, u32)>,
    pub rep: (u32, u32),
    pub lits: Seq<Seq<u32>>,
    pub lms: Seq<Seq<u32>>,
    pub dms: Seq<Seq<u32>>,
    pub prev: int,
    pub last: usize,
    pub out: Seq<u8>,
}

/// One token decoded from `s` by the second decoder: as `dec1_step`, but
/// once a distance was read a bit says whether a match repeats it, and
/// then only its length is read.
pub open spec fn dec2_step(data: Seq<u8>, s: Dec2) -> (Dec2, bool) {
    let (bit, st1, f1) = bit_dec(data, s.st, s.flags[s.prev]);
    let flags1 = s.flags.update(s.prev, f1);
    if bit == 0 {
        let ctx = out_ctx(s.out);
        let (sym, st2, c2) = dec_symbol(data, st1, s.lits[ctx]);
        (Dec2 { st: st2, flags: flags1, lits: s.lits.update(ctx, c2), prev: 0, out: s.out.push(sym as u8), ..s }, false)
    } else {
        let (rb, st_a, rep2) = if s.last != 0 { bit_dec(data, st1, s.rep) } else { (0int, st1, s.rep) };
        let (st2, lms2, lv) = value_ctx_read(data, st_a, s.lms, 0, 0, 0, usize::MAX as nat);
        let len = lv.wrapping_add(MIN_MATCH);
        let (st3, dms2, dist) = if rb == 1 {
            (st2, s.dms, s.last)
        } else {
            value_ctx_read(data, st2, s.dms, 0, 0, 0, usize::MAX as nat)
        };
        let s3 = Dec2 { st: st3, flags: flags1, rep: rep2, lms: lms2, dms: dms2, last: dist, ..s };
        if dist == 0 || dist > s.out.len() {
            (s3, true)
        } else {
            (Dec2 { prev: 1, out: lz::copy_match(s.out, dist as nat, len as nat), ..s3 }, false)
        }
    }
}

/// Tokens decoded by the second decoder from `s` until the output reaches
/// `target`, a token stops the decoding, or `fuel` tokens were read.
pub open spec fn dec2_loop(data: Seq<u8>, s: Dec2, target: int, fuel: nat) -> Dec2
    decreases fuel,
{
    if fuel == 0 || s.out.len() >= target {
        s
    } else {
        let (s2, stop) = dec2_step(data, s);
        if stop { s2 } else { dec2_loop(data, s2, target, (fuel - 1) as nat) }
    }
}

/// What `decode_windowed2` gives: the output of the second token decoder
/// started on the seed, past the seed.
pub open spec fn spec_decode_windowed2(data: Seq<u8>, count: nat, history: Seq<u8>) -> Seq<u8> {
    let h = seed_of(history);
    let start = Dec2 {
        st: dec_start(data),
        flags: seq![bit_init(), bit_init()],
        rep: bit_init(),
        lits: Seq::new(256, |i: int| initial_counts()),
        lms: Seq::new(2, |i: int| initial_counts()),
        dms: Seq::new(3, |i: int| initial_counts()),
        prev: 0,
        last: 0,
        out: h,
    };
    dec2_loop(data, start, (h.len() + count) as int, usize::MAX as nat).out.skip(h.len() as int)
}

proof fn lemma_dec2_len(data: Seq<u8>, s: Dec2, target: int, fuel: nat)
    ensures
        dec2_loop(data, s, target, fuel).out.len() >= s.out.len(),
    decreases fuel,
{
    if !(fuel == 0 || s.out.len() >= target) {
        let (s2, stop) = dec2_step(data, s);
        let (bit, st1, f1) = bit_dec(data, s.st, s.flags[s.prev]);
        if bit != 0 {
            let (rb, st_a, rep2) = if s.last != 0 { bit_dec(data, st1, s.rep) } else { (0int, st1, s.rep) };
            let (st2, lms2, lv) = value_ctx_read(data, st_a, s.lms, 0, 0, 0, usize::MAX as nat);
            let (st3, dms2, dist) = if rb == 1 {
                (st2, s.dms, s.last)
            } else {
                value_ctx_read(data, st2, s.dms, 0, 0, 0, usize::MAX as nat)
            };
            if !(dist == 0 || dist > s.out.len()) {
                lz::lemma_copy_extends(s.out, dist as nat, lv.wrapping_add(MIN_MATCH) as nat);
            }
        }
        if !stop {
            lemma_dec2_len(data, s2, target, (fuel - 1) as nat);
        }
    }
}

/// Decodes `count` bytes coded by `encode_tokens2`, as `decode_windowed`
/// does for `encode_tokens`.
#[verifier::rlimit(60)]
pub fn decode_windowed2(data: &[u8], count: usize, history: &[u8]) -> (out: Vec<u8>)
    requires
        count <= usize::MAX - HISTORY,
    ensures
        out@ == spec_decode_windowed2(data@, count as nat, history@),
{
    let seed = if history.len() < HISTORY { history.len() } else { HISTORY };
    let mut out: Vec<u8> = Vec::new();
    slices::append(&mut out, &history[history.len() - seed..history.len()]);
    assert(out@ =~= seed_of(history@));
    let target = seed + count;
    let mut dec = Decoder::new(data);
    let mut flag = new_flags();
    let mut rep = Bit::new();
    let mut lits = new_models(256);
    let mut len_models = new_models(2);
    let mut dist_models = new_models(3);
    let mut prev: usize = 0;
    let mut last_dist: usize = 0;
    let mut fuel: usize = usize::MAX;
    let ghost d = data@;
    let ghost s0 = Dec2 {
        st: dec_view(&dec),
        flags: bit_counts(flag@),
        rep: rep.counts(),
        lits: tables_of(lits@),
        lms: tables_of(len_models@),
        dms: tables_of(dist_models@),
        prev: 0,
        last: 0,
        out: out@,
    };
    let ghost goal = dec2_loop(d, s0, target as int, usize::MAX as nat);
    assert(bit_counts(flag@) =~= seq![bit_init(), bit_init()]);
    assert(dec_view(&dec) == dec_start(d));
    proof {
        lemma_dec2_len(d, s0, target as int, usize::MAX as nat);
    }
    while out.len() < target && fuel > 0
        invariant_except_break
            dec.ready(),
            dec.data() == d,
            flag@.len() == 2,
            flag@[0].wf() && flag@[1].wf(),
            rep.wf(),
            prev <= 1,
            lits@.len() == 256,
            all_wf(lits@),
            len_models@.len() == 2,
            all_wf(len_models@),
            dist_models@.len() == 3,
            all_wf(dist_models@),
            out@.len() >= seed,
            target == seed + count,
            goal == dec2_loop(d, Dec2 {
                st: dec_view(&dec),
                flags: bit_counts(flag@),
                rep: rep.counts(),
                lits: tables_of(lits@),
                lms: tables_of(len_models@),
                dms: tables_of(dist_models@),
                prev: prev as int,
                last: last_dist,
                out: out@,
            }, target as int, fuel as nat),
        ensures
            goal.out == out@,
            out@.len() >= seed,
        decreases fuel,
    {
        let ghost s = Dec2 {
            st: dec_view(&dec),
            flags: bit_counts(flag@),
            rep: rep.counts(),
            lits: tables_of(lits@),
            lms: tables_of(len_models@),
            dms: tables_of(dist_models@),
            prev: prev as int,
            last: last_dist,
            out: out@,
        };
        let ghost step = dec2_step(d, s);
        fuel = fuel - 1;
        let is_match = flag[prev].decode(&mut dec);
        assert(bit_counts(flag@) =~= s.flags.update(prev as int, flag@[prev as int].counts()));
        if is_match == 0 {
            let ctx: usize = if out.len() == 0 { 0 } else { out[out.len() - 1] as usize };
            assert(ctx as int == out_ctx(out@));
            let ghost st1 = dec_view(&dec);
            let t = lits[ctx].total();
            let value = dec.decode_freq(t);
            let sym = lits[ctx].find(value);
            let cum = lits[ctx].cum_freq(sym);
            let f = lits[ctx].freq(sym);
            dec.update(cum, f);
            let ghost lb = lits@;
            lits[ctx].update(sym);
            assert forall|i: int| 0 <= i < lits@.len() implies #[trigger] lits@[i].wf() by {
                if i != ctx {
                    assert(lits@[i] == lb[i]);
                }
            }
            proof {
                let dd = dec_symbol(d, st1, tables_of(lb)[ctx as int]);
                assert(dd.0 == sym as int);
                assert(dd.1 == dec_view(&dec));
                assert(tables_of(lits@) =~= tables_of(lb).update(ctx as int, dd.2));
            }
            out.push(sym as u8);
            prev = 0;
            assert(step.0 == Dec2 {
                st: dec_view(&dec),
                flags: bit_counts(flag@),
                rep: rep.counts(),
                lits: tables_of(lits@),
                lms: tables_of(len_models@),
                dms: tables_of(dist_models@),
                prev: prev as int,
                last: last_dist,
                out: out@,
            } && !step.1);
        } else {
            let repeat = if last_dist != 0 { rep.decode(&mut dec) == 1 } else { false };
            let dist;
            let len;
            if repeat {
                dist = last_dist;
                len = decode_value_ctx(&mut dec, &mut len_models).wrapping_add(MIN_MATCH);
            } else {
                len = decode_value_ctx(&mut dec, &mut len_models).wrapping_add(MIN_MATCH);
                dist = decode_value_ctx(&mut dec, &mut dist_models);
                last_dist = dist;
            }
            if dist == 0 || dist > out.len() {
                assert(step.1 && step.0.out == out@);
                assert(goal == step.0);
                break;
            }
            let ghost o0 = out@;
            copy_back(&mut out, dist, len);
            proof {
                lz::lemma_copy_extends(o0, dist as nat, len as nat);
            }
            prev = 1;
            assert(step.0 == Dec2 {
                st: dec_view(&dec),
                flags: bit_counts(flag@),
                rep: rep.counts(),
                lits: tables_of(lits@),
                lms: tables_of(len_models@),
                dms: tables_of(dist_models@),
                prev: prev as int,
                last: last_dist,
                out: out@,
            } && !step.1);
        }
    }
    let tail = slices::copy(&out.as_slice()[seed..out.len()]);
    assert(tail@ =~= goal.out.skip(seed as int));
    tail
}

} // verus!
