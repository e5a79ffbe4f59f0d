//! The second range-coded LZ form gives its block back: every flag, repeat
//! bit, literal and number is read with the counts it was coded with, so
//! the decoder replays the encoder's tokens.
use vstd::prelude::*;
use super::range::{counts_ok, counts_after, dec_symbol, dec_start, events_bytes, group_byte, initial_counts, value_events,
    lemma_counts_after_ok, lemma_group_byte, model_event, slot_value, narrow, dec_norm};
use super::range_events::{event_ok, events_ok, dec_at, lemma_dec_start, lemma_event_back, lemma_model_event_ok, lemma_slot_back};
use super::lzr::{bit_event, bit_bump, bit_ok, bit_dec, bit_init, lemma_bit_bump, value_events_ctx, value_ctx_read, events2, start2,
    Lzr2, Dec2, dec2_step, dec2_loop, spec_decode_windowed2, lit_ctx, out_ctx, is_match_bit,
    Lzr1, Dec1, events1, start1, dec1_step, dec1_loop, spec_decode_windowed, value_read};
use super::lz;
use super::bwtm_lossless::lemma_group_bits;
use crate::biglz::{self, Token, MIN_MATCH, MAX_MATCH, apply, well_formed};

verus! {

/// Every table of `ms` is well formed.
pub open spec fn tables_ok(ms: Seq<Seq<u32>>) -> bool {
    forall|i: int| 0 <= i < ms.len() ==> counts_ok(#[trigger] ms[i])
}

proof fn lemma_bit_event_ok(c: (u32, u32), bit: int)
    requires
        bit_ok(c),
    ensures
        event_ok(bit_event(c, bit)),
{
}

/// A bit read back with the counts that coded it.
proof fn lemma_bit_back(ev: Seq<(u32, u32, u32)>, j: int, c: (u32, u32), bit: int)
    requires
        events_ok(ev),
        0 <= j < ev.len(),
        bit_ok(c),
        bit == 0 || bit == 1,
        ev[j] == bit_event(c, bit),
    ensures
        bit_dec(events_bytes(ev), dec_at(ev, j), c) == (bit, dec_at(ev, j + 1), bit_bump(c, bit)),
{
    lemma_slot_back(ev, j);
}

/// Coding a number with well-formed tables keeps them well formed and
/// codes each group with a well-formed table.
proof fn lemma_ctx_events_ok(ms: Seq<Seq<u32>>, v: usize, jj: int)
    requires
        tables_ok(ms),
        0 <= jj < ms.len(),
    ensures
        events_ok(value_events_ctx(ms, v, jj).0),
        tables_ok(value_events_ctx(ms, v, jj).1),
        value_events_ctx(ms, v, jj).1.len() == ms.len(),
    decreases v,
{
    lemma_group_byte(v);
    let byte = group_byte(v);
    let e = model_event(ms[jj], byte);
    lemma_model_event_ok(ms[jj], byte);
    lemma_counts_after_ok(ms[jj], byte);
    let ms2 = ms.update(jj, counts_after(ms[jj], byte));
    assert(tables_ok(ms2));
    if v >= 0x80 {
        let next = if jj + 1 < ms.len() { jj + 1 } else { jj };
        lemma_ctx_events_ok(ms2, v >> 7, next);
        let r = value_events_ctx(ms2, v >> 7, next);
        assert forall|k: int| 0 <= k < (seq![e] + r.0).len() implies event_ok(#[trigger] (seq![e] + r.0)[k]) by {
            if k > 0 {
                assert((seq![e] + r.0)[k] == r.0[k - 1]);
            }
        }
    } else {
        assert forall|k: int| 0 <= k < seq![e].len() implies event_ok(#[trigger] seq![e][k]) by {}
    }
}

/// Reading a number back with the tables `ms` from group `k` on.
proof fn lemma_ctx_back(ev: Seq<(u32, u32, u32)>, j: int, ms: Seq<Seq<u32>>, jj: int, v: usize, k: nat, fuel: nat)
    requires
        events_ok(ev),
        tables_ok(ms),
        0 <= jj < ms.len(),
        7 * k < usize::BITS,
        usize::BITS <= 7 * k + 7 * fuel,
        0 <= j,
        j + value_events_ctx(ms, v >> ((7 * k) as u32), jj).0.len() <= ev.len(),
        ev.subrange(j, j + value_events_ctx(ms, v >> ((7 * k) as u32), jj).0.len()) == value_events_ctx(ms, v >> ((7 * k) as u32), jj).0,
    ensures
        ({
            let ve = value_events_ctx(ms, v >> ((7 * k) as u32), jj);
            value_ctx_read(events_bytes(ev), dec_at(ev, j), ms, jj, v & !((!0usize) << ((7 * k) as u32)), (7 * k) as u32, fuel)
                == (dec_at(ev, j + ve.0.len()), ve.1, v)
        }),
    decreases usize::BITS - 7 * k,
{
    let s = (7 * k) as u32;
    let w = v >> s;
    let ve = value_events_ctx(ms, w, jj);
    lemma_group_bits(v, s);
    lemma_group_byte(w);
    let byte = group_byte(w);
    assert(ev[j] == ve.0[0]);
    lemma_event_back(ev, j, ms[jj], byte);
    let b = byte as usize;
    let c1 = counts_after(ms[jj], byte);
    let ms1 = ms.update(jj, c1);
    lemma_counts_after_ok(ms[jj], byte);
    assert(tables_ok(ms1));
    assert(fuel > 0);
    vstd::arithmetic::div_mod::lemma_small_mod(s as nat, usize::BITS as nat);
    assert((b & 0x7f).wrapping_shl(s) == (b & 0x7f) << s);
    if w >= 0x80 {
        assert(b == ((w & 0x7f) | 0x80));
        let s1 = (7 * (k + 1)) as u32;
        assert(s1 == (s + 7) as u32);
        assert(s.wrapping_add(7) == s1);
        let next = if jj < ms.len() - 1 { jj + 1 } else { jj };
        let r = value_events_ctx(ms1, w >> 7, next);
        assert(ve.0 == seq![model_event(ms[jj], byte)] + r.0);
        assert(ev.subrange(j + 1, j + 1 + r.0.len()) =~= r.0) by {
            assert forall|t: int| 0 <= t < r.0.len() implies #[trigger] ev.subrange(j + 1, j + 1 + r.0.len())[t] == r.0[t] by {
                assert(ev[j + 1 + t] == ev.subrange(j, j + ve.0.len())[1 + t]);
            }
        }
        assert(v >> s1 == w >> 7);
        lemma_ctx_back(ev, j + 1, ms1, next, v, k + 1, (fuel - 1) as nat);
    } else {
        assert(b == (w & 0x7f));
    }
}

/// The second coder's models are well formed.
pub open spec fn lzr2_ok(st: Lzr2) -> bool {
    &&& st.flags.len() == 2
    &&& bit_ok(st.flags[0]) && bit_ok(st.flags[1])
    &&& bit_ok(st.rep)
    &&& st.lits.len() == 256 && tables_ok(st.lits)
    &&& st.lms.len() == 2 && tables_ok(st.lms)
    &&& st.dms.len() == 3 && tables_ok(st.dms)
    &&& (st.prev == 0 || st.prev == 1)
}

/// The decoder state that matches the coder state `st`, with the decoder
/// at `ds` and `out` decoded.
pub open spec fn dec2_of(st: Lzr2, ds: (u32, u32, u32, int), out: Seq<u8>) -> Dec2 {
    Dec2 { st: ds, flags: st.flags, rep: st.rep, lits: st.lits, lms: st.lms, dms: st.dms, prev: st.prev, last: st.last, out }
}

/// The symbols the second coder writes for the token `t` from state `st`.
pub open spec fn token_events(bytes: Seq<u8>, t: Token, st: Lzr2) -> Seq<(u32, u32, u32)> {
    let bit = is_match_bit(t);
    let fe = bit_event(st.flags[st.prev], bit);
    match t {
        Token::Lit(b) => seq![fe, model_event(st.lits[lit_ctx(bytes, st.pos)], b as int)],
        Token::Match { dist, len } => {
            let lv = value_events_ctx(st.lms, (len - MIN_MATCH) as usize, 0);
            if st.last != 0 && dist == st.last {
                seq![fe, bit_event(st.rep, 1)] + lv.0
            } else {
                let rs: Seq<(u32, u32, u32)> = if st.last != 0 { seq![bit_event(st.rep, 0)] } else { Seq::empty() };
                seq![fe] + rs + lv.0 + value_events_ctx(st.dms, dist, 0).0
            }
        },
    }
}

/// The second coder's state after the token `t`.
pub open spec fn token_state(bytes: Seq<u8>, t: Token, st: Lzr2) -> Lzr2 {
    let bit = is_match_bit(t);
    let f2 = st.flags.update(st.prev, bit_bump(st.flags[st.prev], bit));
    match t {
        Token::Lit(b) => {
            let ctx = lit_ctx(bytes, st.pos);
            Lzr2 { flags: f2, lits: st.lits.update(ctx, counts_after(st.lits[ctx], b as int)), pos: st.pos + 1, prev: 0, ..st }
        },
        Token::Match { dist, len } => {
            let lv = value_events_ctx(st.lms, (len - MIN_MATCH) as usize, 0);
            if st.last != 0 && dist == st.last {
                Lzr2 { flags: f2, rep: bit_bump(st.rep, 1), lms: lv.1, pos: st.pos + len, prev: 1, ..st }
            } else {
                let rep2 = if st.last != 0 { bit_bump(st.rep, 0) } else { st.rep };
                let dv = value_events_ctx(st.dms, dist, 0);
                Lzr2 { flags: f2, rep: rep2, lms: lv.1, dms: dv.1, pos: st.pos + len, prev: 1, last: dist, ..st }
            }
        },
    }
}

proof fn lemma_events2_unfold(bytes: Seq<u8>, toks: Seq<Token>, k: int, st: Lzr2)
    requires
        0 <= k < toks.len(),
    ensures
        events2(bytes, toks, k, st) == token_events(bytes, toks[k], st) + events2(bytes, toks, k + 1, token_state(bytes, toks[k], st)),
{
    match toks[k] {
        Token::Lit(b) => {},
        Token::Match { dist, len } => {
            let lv = value_events_ctx(st.lms, (len - MIN_MATCH) as usize, 0);
            if st.last != 0 && dist == st.last {
                assert(seq![bit_event(st.flags[st.prev], 1), bit_event(st.rep, 1)] + lv.0 =~= seq![bit_event(st.flags[st.prev], 1), bit_event(st.rep, 1)] + lv.0);
            }
        },
    }
}

proof fn lemma_ok_concat(a: Seq<(u32, u32, u32)>, b: Seq<(u32, u32, u32)>)
    requires
        events_ok(a),
        events_ok(b),
    ensures
        events_ok(a + b),
{
    assert forall|i: int| 0 <= i < (a + b).len() implies event_ok(#[trigger] (a + b)[i]) by {
        if i >= a.len() {
            assert((a + b)[i] == b[i - a.len()]);
        } else {
            assert((a + b)[i] == a[i]);
        }
    }
}

/// A token's symbols are coded with well-formed counts, and the coder's
/// models stay well formed.
proof fn lemma_token_ok(bytes: Seq<u8>, t: Token, st: Lzr2)
    requires
        lzr2_ok(st),
    ensures
        events_ok(token_events(bytes, t, st)),
        lzr2_ok(token_state(bytes, t, st)),
{
    let bit = is_match_bit(t);
    let fe = bit_event(st.flags[st.prev], bit);
    lemma_bit_event_ok(st.flags[st.prev], bit);
    lemma_bit_bump(st.flags[st.prev], bit);
    assert(events_ok(seq![fe])) by {
        assert forall|i: int| 0 <= i < seq![fe].len() implies event_ok(#[trigger] seq![fe][i]) by {}
    }
    match t {
        Token::Lit(b) => {
            let ctx = lit_ctx(bytes, st.pos);
            lemma_model_event_ok(st.lits[ctx], b as int);
            lemma_counts_after_ok(st.lits[ctx], b as int);
            let le = model_event(st.lits[ctx], b as int);
            let h2 = seq![fe, le];
            assert(events_ok(h2)) by {
                assert forall|i: int| 0 <= i < h2.len() implies event_ok(#[trigger] h2[i]) by {}
            }
        },
        Token::Match { dist, len } => {
            lemma_ctx_events_ok(st.lms, (len - MIN_MATCH) as usize, 0);
            let lv = value_events_ctx(st.lms, (len - MIN_MATCH) as usize, 0);
            lemma_bit_event_ok(st.rep, 1);
            lemma_bit_event_ok(st.rep, 0);
            lemma_bit_bump(st.rep, 1);
            lemma_bit_bump(st.rep, 0);
            if st.last != 0 && dist == st.last {
                let h = seq![fe, bit_event(st.rep, 1)];
                assert(events_ok(h)) by {
                    assert forall|i: int| 0 <= i < h.len() implies event_ok(#[trigger] h[i]) by {}
                }
                lemma_ok_concat(h, lv.0);
            } else {
                let rs: Seq<(u32, u32, u32)> = if st.last != 0 { seq![bit_event(st.rep, 0)] } else { Seq::empty() };
                assert(events_ok(rs)) by {
                    assert forall|i: int| 0 <= i < rs.len() implies event_ok(#[trigger] rs[i]) by {}
                }
                lemma_ctx_events_ok(st.dms, dist, 0);
                let dv = value_events_ctx(st.dms, dist, 0);
                lemma_ok_concat(seq![fe], rs);
                lemma_ok_concat(seq![fe] + rs, lv.0);
                lemma_ok_concat(seq![fe] + rs + lv.0, dv.0);
            }
        },
    }
}

/// Every symbol the second coder writes is coded with well-formed counts.
proof fn lemma_events2_ok(bytes: Seq<u8>, toks: Seq<Token>, k: int, st: Lzr2)
    requires
        lzr2_ok(st),
    ensures
        events_ok(events2(bytes, toks, k, st)),
    decreases toks.len() - k,
{
    if 0 <= k < toks.len() {
        lemma_events2_unfold(bytes, toks, k, st);
        lemma_token_ok(bytes, toks[k], st);
        lemma_events2_ok(bytes, toks, k + 1, token_state(bytes, toks[k], st));
        lemma_ok_concat(token_events(bytes, toks[k], st), events2(bytes, toks, k + 1, token_state(bytes, toks[k], st)));
    } else {
        assert forall|i: int| 0 <= i < events2(bytes, toks, k, st).len() implies event_ok(#[trigger] events2(bytes, toks, k, st)[i]) by {}
    }
}

/// One token read back: a decoder that matches the coder before the
/// token's symbols replays the token and matches the coder after them.
#[verifier::rlimit(60)]
proof fn lemma_token_back(ev: Seq<(u32, u32, u32)>, bytes: Seq<u8>, toks: Seq<Token>, k: int, st: Lzr2, j: int)
    requires
        events_ok(ev),
        lzr2_ok(st),
        0 <= k < toks.len(),
        0 <= j,
        j + token_events(bytes, toks[k], st).len() <= ev.len(),
        ev.subrange(j, j + token_events(bytes, toks[k], st).len()) == token_events(bytes, toks[k], st),
        0 <= st.pos <= bytes.len(),
        bytes.len() <= usize::MAX,
        well_formed(bytes.take(st.pos), toks.skip(k)),
        apply(bytes.take(st.pos), toks.skip(k)) == bytes,
    ensures
        ({
            let st2 = token_state(bytes, toks[k], st);
            let te = token_events(bytes, toks[k], st);
            &&& dec2_step(events_bytes(ev), dec2_of(st, dec_at(ev, j), bytes.take(st.pos)))
                == (dec2_of(st2, dec_at(ev, j + te.len()), bytes.take(st2.pos)), false)
            &&& st.pos < st2.pos <= bytes.len()
            &&& well_formed(bytes.take(st2.pos), toks.skip(k + 1))
            &&& apply(bytes.take(st2.pos), toks.skip(k + 1)) == bytes
        }),
{
    let data = events_bytes(ev);
    let out = bytes.take(st.pos);
    let ts = toks.skip(k);
    let t = toks[k];
    let rest = toks.skip(k + 1);
    assert(ts[0] == t);
    assert(ts.subrange(1, ts.len() as int) =~= rest);
    let te = token_events(bytes, t, st);
    assert forall|i: int| 0 <= i < te.len() implies ev[j + i] == #[trigger] te[i] by {
        assert(ev.subrange(j, j + te.len())[i] == te[i]);
    }
    let bit = is_match_bit(t);
    assert(ev[j] == te[0]);
    lemma_bit_back(ev, j, st.flags[st.prev], bit);
    match t {
        Token::Lit(b) => {
            let ctx = lit_ctx(bytes, st.pos);
            assert(out_ctx(out) == ctx);
            assert(ev[j + 1] == te[1]);
            lemma_event_back(ev, j + 1, st.lits[ctx], b as int);
            let o2 = out.push(b);
            biglz::lemma_apply_extends(o2, rest);
            assert(bytes.take(st.pos + 1) =~= o2);
        },
        Token::Match { dist, len } => {
            let v = (len - MIN_MATCH) as usize;
            let lv = value_events_ctx(st.lms, v, 0);
            lemma_group_bits(v, 0u32);
            assert((7 * 0nat) as u32 == 0u32);
            let rep = st.last != 0 && dist == st.last;
            let jr: int = if st.last != 0 { j + 2 } else { j + 1 };
            if st.last != 0 {
                assert(ev[j + 1] == te[1]);
                lemma_bit_back(ev, j + 1, st.rep, if rep { 1int } else { 0int });
            }
            assert(ev.subrange(jr, jr + lv.0.len()) =~= lv.0) by {
                assert forall|i: int| 0 <= i < lv.0.len() implies #[trigger] ev.subrange(jr, jr + lv.0.len())[i] == lv.0[i] by {
                    assert(te[jr - j + i] == lv.0[i]);
                    assert(ev[j + (jr - j + i)] == te[jr - j + i]);
                }
            }
            lemma_ctx_back(ev, jr, st.lms, 0, v, 0, usize::MAX as nat);
            assert(v.wrapping_add(MIN_MATCH) == len);
            if !rep {
                let jd = jr + lv.0.len();
                let dv = value_events_ctx(st.dms, dist, 0);
                lemma_group_bits(dist, 0u32);
                assert(ev.subrange(jd, jd + dv.0.len()) =~= dv.0) by {
                    assert forall|i: int| 0 <= i < dv.0.len() implies #[trigger] ev.subrange(jd, jd + dv.0.len())[i] == dv.0[i] by {
                        assert(te[jd - j + i] == dv.0[i]);
                        assert(ev[j + (jd - j + i)] == te[jd - j + i]);
                    }
                }
                lemma_ctx_back(ev, jd, st.dms, 0, dist, 0, usize::MAX as nat);
            }
            lz::lemma_copy_extends(out, dist as nat, len as nat);
            let o2 = lz::copy_match(out, dist as nat, len as nat);
            biglz::lemma_apply_extends(o2, rest);
            assert(bytes.take(st.pos + len) =~= o2);
        },
    }
}

/// Where the coder is at token `k` with symbol `j`, the decoder's loop
/// from the matching state replays the remaining tokens.
proof fn lemma_dec2_back(ev: Seq<(u32, u32, u32)>, bytes: Seq<u8>, toks: Seq<Token>, k: int, st: Lzr2, j: int, fuel: nat)
    requires
        events_ok(ev),
        lzr2_ok(st),
        0 <= k <= toks.len(),
        0 <= j,
        j + events2(bytes, toks, k, st).len() == ev.len(),
        ev.skip(j) == events2(bytes, toks, k, st),
        0 <= st.pos <= bytes.len(),
        bytes.len() <= usize::MAX,
        well_formed(bytes.take(st.pos), toks.skip(k)),
        apply(bytes.take(st.pos), toks.skip(k)) == bytes,
        toks.len() - k <= fuel,
    ensures
        dec2_loop(events_bytes(ev), dec2_of(st, dec_at(ev, j), bytes.take(st.pos)), bytes.len() as int, fuel).out == bytes,
    decreases toks.len() - k,
{
    let out = bytes.take(st.pos);
    if k == toks.len() {
        assert(toks.skip(k) =~= Seq::<Token>::empty());
    } else {
        biglz::lemma_apply_extends(out, toks.skip(k));
        lemma_events2_unfold(bytes, toks, k, st);
        let te = token_events(bytes, toks[k], st);
        let st2 = token_state(bytes, toks[k], st);
        let tail = events2(bytes, toks, k + 1, st2);
        assert(ev.subrange(j, j + te.len()) =~= te) by {
            assert forall|i: int| 0 <= i < te.len() implies #[trigger] ev.subrange(j, j + te.len())[i] == te[i] by {
                assert(ev.skip(j)[i] == (te + tail)[i]);
            }
        }
        lemma_token_back(ev, bytes, toks, k, st, j);
        assert(ev.skip(j + te.len()) =~= tail) by {
            assert forall|i: int| 0 <= i < tail.len() implies #[trigger] ev.skip(j + te.len())[i] == tail[i] by {
                assert(ev.skip(j)[te.len() + i] == (te + tail)[te.len() + i]);
            }
        }
        lemma_token_ok(bytes, toks[k], st);
        lemma_dec2_back(ev, bytes, toks, k + 1, st2, j + te.len(), (fuel - 1) as nat);
    }
}

/// The second coder's models at the start are well formed.
proof fn lemma_start2_ok(emit: int)
    ensures
        lzr2_ok(start2(emit)),
{
    super::range_lossless::lemma_initial_sum(256);
    assert(initial_counts() =~= Seq::new(256, |i: int| 1u32));
    assert(counts_ok(initial_counts()));
}

/// Decoding what the second coder writes for the parse `toks` of the
/// window `combined` after `emit` (the bytes before `emit` being the last
/// bytes of `history`) gives the window's bytes after `emit`.
pub proof fn lemma_decode_encode2(combined: Seq<u8>, emit: int, toks: Seq<Token>, history: Seq<u8>)
    requires
        0 <= emit <= combined.len(),
        combined.len() <= usize::MAX,
        well_formed(combined.take(emit), toks),
        apply(combined.take(emit), toks) == combined,
        super::lzr::seed_of(history) == combined.take(emit),
    ensures
        spec_decode_windowed2(events_bytes(events2(combined, toks, 0, start2(emit))), (combined.len() - emit) as nat, history)
            == combined.skip(emit),
{
    let st = start2(emit);
    let ev = events2(combined, toks, 0, st);
    lemma_start2_ok(emit);
    lemma_events2_ok(combined, toks, 0, st);
    lemma_dec_start(ev);
    biglz::lemma_apply_extends(combined.take(emit), toks);
    assert(toks.skip(0) =~= toks);
    assert(ev.skip(0) =~= ev);
    lemma_dec2_back(ev, combined, toks, 0, st, 0, usize::MAX as nat);
}

/// Reading a number back with the table `c` from group `k` on.
proof fn lemma_val_back(ev: Seq<(u32, u32, u32)>, j: int, c: Seq<u32>, v: usize, k: nat, fuel: nat)
    requires
        events_ok(ev),
        counts_ok(c),
        7 * k < usize::BITS,
        usize::BITS <= 7 * k + 7 * fuel,
        0 <= j,
        j + value_events(c, v >> ((7 * k) as u32)).0.len() <= ev.len(),
        ev.subrange(j, j + value_events(c, v >> ((7 * k) as u32)).0.len()) == value_events(c, v >> ((7 * k) as u32)).0,
    ensures
        ({
            let ve = value_events(c, v >> ((7 * k) as u32));
            value_read(events_bytes(ev), dec_at(ev, j), c, v & !((!0usize) << ((7 * k) as u32)), (7 * k) as u32, fuel)
                == (dec_at(ev, j + ve.0.len()), ve.1, v)
        }),
    decreases usize::BITS - 7 * k,
{
    let s = (7 * k) as u32;
    let w = v >> s;
    let ve = value_events(c, w);
    lemma_group_bits(v, s);
    lemma_group_byte(w);
    let byte = group_byte(w);
    assert(ev[j] == ve.0[0]);
    lemma_event_back(ev, j, c, byte);
    let b = byte as usize;
    let c1 = counts_after(c, byte);
    lemma_counts_after_ok(c, byte);
    assert(fuel > 0);
    vstd::arithmetic::div_mod::lemma_small_mod(s as nat, usize::BITS as nat);
    assert((b & 0x7f).wrapping_shl(s) == (b & 0x7f) << s);
    if w >= 0x80 {
        assert(b == ((w & 0x7f) | 0x80));
        let s1 = (7 * (k + 1)) as u32;
        assert(s1 == (s + 7) as u32);
        assert(s.wrapping_add(7) == s1);
        let r = value_events(c1, w >> 7);
        assert(ve.0 == seq![model_event(c, byte)] + r.0);
        assert(ev.subrange(j + 1, j + 1 + r.0.len()) =~= r.0) by {
            assert forall|t: int| 0 <= t < r.0.len() implies #[trigger] ev.subrange(j + 1, j + 1 + r.0.len())[t] == r.0[t] by {
                assert(ev[j + 1 + t] == ev.subrange(j, j + ve.0.len())[1 + t]);
            }
        }
        assert(v >> s1 == w >> 7);
        lemma_val_back(ev, j + 1, c1, v, k + 1, (fuel - 1) as nat);
    } else {
        assert(b == (w & 0x7f));
    }
}

/// Coding a number with a well-formed table keeps it well formed.
proof fn lemma_val_events_ok(c: Seq<u32>, v: usize)
    requires
        counts_ok(c),
    ensures
        events_ok(value_events(c, v).0),
        counts_ok(value_events(c, v).1),
    decreases v,
{
    lemma_group_byte(v);
    let byte = group_byte(v);
    let e = model_event(c, byte);
    lemma_model_event_ok(c, byte);
    lemma_counts_after_ok(c, byte);
    let c2 = counts_after(c, byte);
    if v >= 0x80 {
        lemma_val_events_ok(c2, v >> 7);
        let r = value_events(c2, v >> 7);
        assert forall|k: int| 0 <= k < (seq![e] + r.0).len() implies event_ok(#[trigger] (seq![e] + r.0)[k]) by {
            if k > 0 {
                assert((seq![e] + r.0)[k] == r.0[k - 1]);
            }
        }
    } else {
        assert forall|k: int| 0 <= k < seq![e].len() implies event_ok(#[trigger] seq![e][k]) by {}
    }
}

/// The first coder's models are well formed.
pub open spec fn lzr1_ok(st: Lzr1) -> bool {
    &&& st.flags.len() == 2
    &&& bit_ok(st.flags[0]) && bit_ok(st.flags[1])
    &&& st.lits.len() == 256 && tables_ok(st.lits)
    &&& counts_ok(st.lm)
    &&& counts_ok(st.dm)
    &&& (st.prev == 0 || st.prev == 1)
}

/// The decoder state that matches the first coder's state `st`.
pub open spec fn dec1_of(st: Lzr1, ds: (u32, u32, u32, int), out: Seq<u8>) -> Dec1 {
    Dec1 { st: ds, flags: st.flags, lits: st.lits, lm: st.lm, dm: st.dm, prev: st.prev, out }
}

/// The symbols the first coder writes for the token `t` from state `st`.
pub open spec fn token_events1(bytes: Seq<u8>, t: Token, st: Lzr1) -> Seq<(u32, u32, u32)> {
    let fe = bit_event(st.flags[st.prev], is_match_bit(t));
    match t {
        Token::Lit(b) => seq![fe, model_event(st.lits[lit_ctx(bytes, st.pos)], b as int)],
        Token::Match { dist, len } => seq![fe] + value_events(st.lm, (len - MIN_MATCH) as usize).0 + value_events(st.dm, dist).0,
    }
}

/// The first coder's state after the token `t`.
pub open spec fn token_state1(bytes: Seq<u8>, t: Token, st: Lzr1) -> Lzr1 {
    let f2 = st.flags.update(st.prev, bit_bump(st.flags[st.prev], is_match_bit(t)));
    match t {
        Token::Lit(b) => {
            let ctx = lit_ctx(bytes, st.pos);
            Lzr1 { flags: f2, lits: st.lits.update(ctx, counts_after(st.lits[ctx], b as int)), pos: st.pos + 1, prev: 0, ..st }
        },
        Token::Match { dist, len } => Lzr1 {
            flags: f2,
            lm: value_events(st.lm, (len - MIN_MATCH) as usize).1,
            dm: value_events(st.dm, dist).1,
            pos: st.pos + len,
            prev: 1,
            ..st
        },
    }
}

proof fn lemma_events1_unfold(bytes: Seq<u8>, toks: Seq<Token>, k: int, st: Lzr1)
    requires
        0 <= k < toks.len(),
    ensures
        events1(bytes, toks, k, st) == token_events1(bytes, toks[k], st) + events1(bytes, toks, k + 1, token_state1(bytes, toks[k], st)),
{
}

proof fn lemma_token1_ok(bytes: Seq<u8>, t: Token, st: Lzr1)
    requires
        lzr1_ok(st),
    ensures
        events_ok(token_events1(bytes, t, st)),
        lzr1_ok(token_state1(bytes, t, st)),
{
    let bit = is_match_bit(t);
    let fe = bit_event(st.flags[st.prev], bit);
    lemma_bit_event_ok(st.flags[st.prev], bit);
    lemma_bit_bump(st.flags[st.prev], bit);
    assert(events_ok(seq![fe])) by {
        assert forall|i: int| 0 <= i < seq![fe].len() implies event_ok(#[trigger] seq![fe][i]) by {}
    }
    match t {
        Token::Lit(b) => {
            let ctx = lit_ctx(bytes, st.pos);
            lemma_model_event_ok(st.lits[ctx], b as int);
            lemma_counts_after_ok(st.lits[ctx], b as int);
            let h2 = seq![fe, model_event(st.lits[ctx], b as int)];
            assert(events_ok(h2)) by {
                assert forall|i: int| 0 <= i < h2.len() implies event_ok(#[trigger] h2[i]) by {}
            }
        },
        Token::Match { dist, len } => {
            lemma_val_events_ok(st.lm, (len - MIN_MATCH) as usize);
            lemma_val_events_ok(st.dm, dist);
            lemma_ok_concat(seq![fe], value_events(st.lm, (len - MIN_MATCH) as usize).0);
            lemma_ok_concat(seq![fe] + value_events(st.lm, (len - MIN_MATCH) as usize).0, value_events(st.dm, dist).0);
        },
    }
}

proof fn lemma_events1_ok(bytes: Seq<u8>, toks: Seq<Token>, k: int, st: Lzr1)
    requires
        lzr1_ok(st),
    ensures
        events_ok(events1(bytes, toks, k, st)),
    decreases toks.len() - k,
{
    if 0 <= k < toks.len() {
        lemma_events1_unfold(bytes, toks, k, st);
        lemma_token1_ok(bytes, toks[k], st);
        lemma_events1_ok(bytes, toks, k + 1, token_state1(bytes, toks[k], st));
        lemma_ok_concat(token_events1(bytes, toks[k], st), events1(bytes, toks, k + 1, token_state1(bytes, toks[k], st)));
    } else {
        assert forall|i: int| 0 <= i < events1(bytes, toks, k, st).len() implies event_ok(#[trigger] events1(bytes, toks, k, st)[i]) by {}
    }
}

/// One token of the first coder read back.
#[verifier::rlimit(60)]
proof fn lemma_token1_back(ev: Seq<(u32, u32, u32)>, bytes: Seq<u8>, toks: Seq<Token>, k: int, st: Lzr1, j: int)
    requires
        events_ok(ev),
        lzr1_ok(st),
        0 <= k < toks.len(),
        0 <= j,
        j + token_events1(bytes, toks[k], st).len() <= ev.len(),
        ev.subrange(j, j + token_events1(bytes, toks[k], st).len()) == token_events1(bytes, toks[k], st),
        0 <= st.pos <= bytes.len(),
        bytes.len() <= usize::MAX,
        well_formed(bytes.take(st.pos), toks.skip(k)),
        apply(bytes.take(st.pos), toks.skip(k)) == bytes,
    ensures
        ({
            let st2 = token_state1(bytes, toks[k], st);
            let te = token_events1(bytes, toks[k], st);
            &&& dec1_step(events_bytes(ev), dec1_of(st, dec_at(ev, j), bytes.take(st.pos)))
                == (dec1_of(st2, dec_at(ev, j + te.len()), bytes.take(st2.pos)), false)
            &&& st.pos < st2.pos <= bytes.len()
            &&& well_formed(bytes.take(st2.pos), toks.skip(k + 1))
            &&& apply(bytes.take(st2.pos), toks.skip(k + 1)) == bytes
        }),
{
    let out = bytes.take(st.pos);
    let ts = toks.skip(k);
    let t = toks[k];
    let rest = toks.skip(k + 1);
    assert(ts[0] == t);
    assert(ts.subrange(1, ts.len() as int) =~= rest);
    let te = token_events1(bytes, t, st);
    assert forall|i: int| 0 <= i < te.len() implies ev[j + i] == #[trigger] te[i] by {
        assert(ev.subrange(j, j + te.len())[i] == te[i]);
    }
    let bit = is_match_bit(t);
    assert(ev[j] == te[0]);
    lemma_bit_back(ev, j, st.flags[st.prev], bit);
    match t {
        Token::Lit(b) => {
            let ctx = lit_ctx(bytes, st.pos);
            assert(out_ctx(out) == ctx);
            assert(ev[j + 1] == te[1]);
            lemma_event_back(ev, j + 1, st.lits[ctx], b as int);
            let o2 = out.push(b);
            biglz::lemma_apply_extends(o2, rest);
            assert(bytes.take(st.pos + 1) =~= o2);
        },
        Token::Match { dist, len } => {
            let v = (len - MIN_MATCH) as usize;
            let lv = value_events(st.lm, v);
            lemma_group_bits(v, 0u32);
            assert((7 * 0nat) as u32 == 0u32);
            let jr = j + 1;
            assert(ev.subrange(jr, jr + lv.0.len()) =~= lv.0) by {
                assert forall|i: int| 0 <= i < lv.0.len() implies #[trigger] ev.subrange(jr, jr + lv.0.len())[i] == lv.0[i] by {
                    assert(te[1 + i] == lv.0[i]);
                    assert(ev[j + (1 + i)] == te[1 + i]);
                }
            }
            lemma_val_back(ev, jr, st.lm, v, 0, usize::MAX as nat);
            assert(v.wrapping_add(MIN_MATCH) == len);
            let jd = jr + lv.0.len();
            let dv = value_events(st.dm, dist);
            lemma_group_bits(dist, 0u32);
            assert(ev.subrange(jd, jd + dv.0.len()) =~= dv.0) by {
                assert forall|i: int| 0 <= i < dv.0.len() implies #[trigger] ev.subrange(jd, jd + dv.0.len())[i] == dv.0[i] by {
                    assert(te[jd - j + i] == dv.0[i]);
                    assert(ev[j + (jd - j + i)] == te[jd - j + i]);
                }
            }
            lemma_val_back(ev, jd, st.dm, dist, 0, usize::MAX as nat);
            lz::lemma_copy_extends(out, dist as nat, len as nat);
            let o2 = lz::copy_match(out, dist as nat, len as nat);
            biglz::lemma_apply_extends(o2, rest);
            assert(bytes.take(st.pos + len) =~= o2);
        },
    }
}

proof fn lemma_dec1_back(ev: Seq<(u32, u32, u32)>, bytes: Seq<u8>, toks: Seq<Token>, k: int, st: Lzr1, j: int, fuel: nat)
    requires
        events_ok(ev),
        lzr1_ok(st),
        0 <= k <= toks.len(),
        0 <= j,
        j + events1(bytes, toks, k, st).len() == ev.len(),
        ev.skip(j) == events1(bytes, toks, k, st),
        0 <= st.pos <= bytes.len(),
        bytes.len() <= usize::MAX,
        well_formed(bytes.take(st.pos), toks.skip(k)),
        apply(bytes.take(st.pos), toks.skip(k)) == bytes,
        toks.len() - k <= fuel,
    ensures
        dec1_loop(events_bytes(ev), dec1_of(st, dec_at(ev, j), bytes.take(st.pos)), bytes.len() as int, fuel).out == bytes,
    decreases toks.len() - k,
{
    let out = bytes.take(st.pos);
    if k == toks.len() {
        assert(toks.skip(k) =~= Seq::<Token>::empty());
    } else {
        biglz::lemma_apply_extends(out, toks.skip(k));
        lemma_events1_unfold(bytes, toks, k, st);
        let te = token_events1(bytes, toks[k], st);
        let st2 = token_state1(bytes, toks[k], st);
        let tail = events1(bytes, toks, k + 1, st2);
        assert(ev.subrange(j, j + te.len()) =~= te) by {
            assert forall|i: int| 0 <= i < te.len() implies #[trigger] ev.subrange(j, j + te.len())[i] == te[i] by {
                assert(ev.skip(j)[i] == (te + tail)[i]);
            }
        }
        lemma_token1_back(ev, bytes, toks, k, st, j);
        assert(ev.skip(j + te.len()) =~= tail) by {
            assert forall|i: int| 0 <= i < tail.len() implies #[trigger] ev.skip(j + te.len())[i] == tail[i] by {
                assert(ev.skip(j)[te.len() + i] == (te + tail)[te.len() + i]);
            }
        }
        lemma_token1_ok(bytes, toks[k], st);
        lemma_dec1_back(ev, bytes, toks, k + 1, st2, j + te.len(), (fuel - 1) as nat);
    }
}

/// Decoding what the first coder writes for the parse `toks` of the
/// window `combined` after `emit` (the bytes before `emit` being the last
/// bytes of `history`) gives the window's bytes after `emit`.
pub proof fn lemma_decode_encode1(combined: Seq<u8>, emit: int, toks: Seq<Token>, history: Seq<u8>)
    requires
        0 <= emit <= combined.len(),
        combined.len() <= usize::MAX,
        well_formed(combined.take(emit), toks),
        apply(combined.take(emit), toks) == combined,
        super::lzr::seed_of(history) == combined.take(emit),
    ensures
        spec_decode_windowed(events_bytes(events1(combined, toks, 0, start1(emit))), (combined.len() - emit) as nat, history)
            == combined.skip(emit),
{
    let st = start1(emit);
    let ev = events1(combined, toks, 0, st);
    super::range_lossless::lemma_initial_sum(256);
    assert(initial_counts() =~= Seq::new(256, |i: int| 1u32));
    assert(counts_ok(initial_counts()));
    assert(lzr1_ok(st));
    lemma_events1_ok(combined, toks, 0, st);
    lemma_dec_start(ev);
    biglz::lemma_apply_extends(combined.take(emit), toks);
    assert(toks.skip(0) =~= toks);
    assert(ev.skip(0) =~= ev);
    lemma_dec1_back(ev, combined, toks, 0, st, 0, usize::MAX as nat);
}

/// Decoding what the first coder writes for a parse `toks` of `b` with no
/// history gives `b` back.
pub proof fn lemma_decode_encode(b: Seq<u8>, toks: Seq<Token>)
    requires
        b.len() <= usize::MAX,
        well_formed(Seq::empty(), toks),
        apply(Seq::empty(), toks) == b,
    ensures
        spec_decode_windowed(events_bytes(events1(b, toks, 0, start1(0))), b.len(), Seq::empty()) == b,
{
    assert(b.take(0) =~= Seq::<u8>::empty());
    assert(super::lzr::seed_of(Seq::<u8>::empty()) =~= Seq::<u8>::empty());
    lemma_decode_encode1(b, 0, toks, Seq::empty());
    assert(b.skip(0) =~= b);
}

} // verus!
