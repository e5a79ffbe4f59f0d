//! The second BWT coding gives its input back: every move-to-front code is
//! read with the counts it was coded with, and each run of zeros with its
//! length.
use vstd::prelude::*;
use super::range::{counts_ok, counts_after, dec_symbol, dec_start, events_bytes, group_byte, initial_counts,
    lemma_counts_after_ok, lemma_group_byte, model_event, value_events};
use super::range_events::{event_ok, events_ok, dec_at, lemma_dec_start, lemma_event_back, lemma_model_event_ok};
use super::bwtm::{events2, zero_run_from, run_read, moved_step, moved_loop, spec_moved2, spec_encode2, spec_decode2};
use super::{bwt, bwt_lossless, mtf};
use crate::varint;

verus! {

/// The bit facts of reading a value back seven bits at a time, low group
/// first: `s` bits are read so far, `v >> s` is still to come.
pub proof fn lemma_group_bits(v: usize, s: u32)
    by (bit_vector)
    requires
        s < usize::BITS,
    ensures
        v >> 0u32 == v,
        v & !((!0usize) << 0u32) == 0,
        (v >> s) >= 0x80 ==> s + 7 < usize::BITS,
        (v >> s) >= 0x80 ==> (((v >> s) & 0x7f) | 0x80) & 0x80 != 0,
        (v >> s) >= 0x80 ==> ((v & !((!0usize) << s)) | (((((v >> s) & 0x7f) | 0x80) & 0x7f) << s))
            == v & !((!0usize) << ((s + 7) as u32)),
        (v >> s) >= 0x80 ==> (v >> s) >> 7u32 == v >> ((s + 7) as u32),
        (v >> s) < 0x80 ==> ((v >> s) & 0x7f) & 0x80 == 0,
        (v >> s) < 0x80 ==> ((v & !((!0usize) << s)) | ((((v >> s) & 0x7f) & 0x7f) << s)) == v,
{
}

/// Coding a value with a well-formed table keeps the table well formed,
/// and codes each group with a well-formed table.
proof fn lemma_value_events_ok(c: Seq<u32>, v: usize)
    requires
        counts_ok(c),
    ensures
        events_ok(value_events(c, v).0),
        counts_ok(value_events(c, v).1),
    decreases v,
{
    lemma_group_byte(v);
    let byte = group_byte(v);
    let e = model_event(c, byte);
    lemma_model_event_ok(c, byte);
    let c2 = counts_after(c, byte);
    lemma_counts_after_ok(c, byte);
    if v >= 0x80 {
        lemma_value_events_ok(c2, v >> 7);
        let r = value_events(c2, v >> 7);
        assert forall|k: int| 0 <= k < (seq![e] + r.0).len() implies event_ok(#[trigger] (seq![e] + r.0)[k]) by {
            if k > 0 {
                assert((seq![e] + r.0)[k] == r.0[k - 1]);
            }
        }
    } else {
        assert forall|k: int| 0 <= k < seq![e].len() implies event_ok(#[trigger] seq![e][k]) by {}
    }
}

/// How long a run of zeros is: at least what was counted, within the codes,
/// and zeros throughout.
proof fn lemma_zero_run(m: Seq<u8>, i: int, r: int)
    requires
        0 <= i,
        1 <= r,
        i + r <= m.len(),
        forall|k: int| i <= k < i + r ==> m[k] == 0,
    ensures
        r <= zero_run_from(m, i, r) <= m.len() - i,
        forall|k: int| i <= k < i + zero_run_from(m, i, r) ==> m[k] == 0,
    decreases m.len() - (i + r),
{
    if i + r < m.len() && m[i + r] == 0 {
        lemma_zero_run(m, i, r + 1);
    }
}

/// Reading a value back: a decoder that matches the encoder where the groups
/// of `v >> s` begin reads them, and with the `s` low bits already read
/// gives `v`.
proof fn lemma_run_back(ev: Seq<(u32, u32, u32)>, j: int, rc: Seq<u32>, v: usize, k: nat)
    requires
        events_ok(ev),
        counts_ok(rc),
        7 * k < usize::BITS,
        0 <= j,
        j + value_events(rc, v >> ((7 * k) as u32)).0.len() <= ev.len(),
        ev.subrange(j, j + value_events(rc, v >> ((7 * k) as u32)).0.len()) == value_events(rc, v >> ((7 * k) as u32)).0,
    ensures
        ({
            let ve = value_events(rc, v >> ((7 * k) as u32));
            run_read(events_bytes(ev), dec_at(ev, j), rc, k, ((usize::BITS + 6) / 7) as nat, v & !((!0usize) << ((7 * k) as u32)))
                == (dec_at(ev, j + ve.0.len()), ve.1, v)
        }),
    decreases usize::BITS - 7 * k,
{
    let s = (7 * k) as u32;
    let w = v >> s;
    let acc = v & !((!0usize) << s);
    let chunks = ((usize::BITS + 6) / 7) as nat;
    let data = events_bytes(ev);
    lemma_group_bits(v, s);
    lemma_group_byte(w);
    let byte = group_byte(w);
    let ve = value_events(rc, w);
    assert(ev[j] == ve.0[0]);
    lemma_event_back(ev, j, rc, byte);
    let b = byte as usize;
    let rc1 = counts_after(rc, byte);
    assert(k < chunks);
    if w >= 0x80 {
        assert(b == ((w & 0x7f) | 0x80));
        let s1 = (7 * (k + 1)) as u32;
        assert(s1 == (s + 7) as u32);
        lemma_counts_after_ok(rc, byte);
        let r = value_events(rc1, w >> 7);
        assert(ve.0 == seq![model_event(rc, byte)] + r.0);
        assert(ev.subrange(j + 1, j + 1 + r.0.len()) =~= r.0) by {
            assert forall|t: int| 0 <= t < r.0.len() implies #[trigger] ev.subrange(j + 1, j + 1 + r.0.len())[t] == r.0[t] by {
                assert(ev[j + 1 + t] == ev.subrange(j, j + ve.0.len())[1 + t]);
            }
        }
        assert(v >> s1 == w >> 7);
        lemma_run_back(ev, j + 1, rc1, v, k + 1);
    } else {
        assert(b == (w & 0x7f));
    }
}

/// The state `decode2` keeps, matched with the encoder's: the decoder after
/// `j` coded symbols, the two tables, and the first `i` codes.
pub open spec fn sim_state(ev: Seq<(u32, u32, u32)>, j: int, sc: Seq<u32>, rc: Seq<u32>, m: Seq<u8>, i: int)
    -> ((u32, u32, u32, int), Seq<u32>, Seq<u32>, Seq<u8>)
{
    (dec_at(ev, j), sc, rc, m.take(i))
}

/// Where the encoder is at code `i` with symbol `j`, the decoder's loop
/// from the matching state rebuilds all the codes.
proof fn lemma_moved_back(ev: Seq<(u32, u32, u32)>, m: Seq<u8>, i: int, j: int, sc: Seq<u32>, rc: Seq<u32>, fuel: nat)
    requires
        events_ok(ev),
        counts_ok(sc),
        counts_ok(rc),
        0 <= i <= m.len(),
        0 <= j,
        m.len() - i <= fuel,
        m.len() <= usize::MAX,
        j + events2(m, i, sc, rc).len() == ev.len(),
        ev.skip(j) == events2(m, i, sc, rc),
    ensures
        moved_loop(events_bytes(ev), sim_state(ev, j, sc, rc, m, i), m.len(), fuel).3 == m,
    decreases m.len() - i,
{
    let data = events_bytes(ev);
    let s = sim_state(ev, j, sc, rc, m, i);
    if i == m.len() {
        assert(m.take(i) =~= m);
    } else {
        let sym = m[i] as int;
        let e = model_event(sc, sym);
        let sc2 = counts_after(sc, sym);
        lemma_counts_after_ok(sc, sym);
        let rest = events2(m, i, sc, rc);
        assert(ev[j] == rest[0]);
        assert(rest[0] == e);
        lemma_event_back(ev, j, sc, sym);
        assert(dec_symbol(data, s.0, s.1) == (sym, dec_at(ev, j + 1), sc2));
        if sym == 0 {
            lemma_zero_run(m, i, 1);
            let run = zero_run_from(m, i, 1);
            let v = (run - 1) as usize;
            let ve = value_events(rc, v);
            lemma_value_events_ok(rc, v);
            assert(rest == seq![e] + ve.0 + events2(m, i + run, sc2, ve.1));
            assert(ev.subrange(j + 1, j + 1 + ve.0.len()) =~= ve.0) by {
                assert forall|t: int| 0 <= t < ve.0.len() implies #[trigger] ev.subrange(j + 1, j + 1 + ve.0.len())[t] == ve.0[t] by {
                    assert(ev[j + 1 + t] == ev.skip(j)[1 + t]);
                }
            }
            lemma_group_bits(v, 0u32);
            assert((7 * 0nat) as u32 == 0u32);
            lemma_run_back(ev, j + 1, rc, v, 0);
            let j2 = j + 1 + ve.0.len();
            let room = m.len() - m.take(i).len();
            assert(run - 1 < room);
            let s2 = moved_step(data, s, m.len());
            assert(m.take(i) + Seq::new(run as nat, |t: int| 0u8) =~= m.take(i + run));
            assert(s2 == sim_state(ev, j2, sc2, ve.1, m, i + run));
            assert(ev.skip(j2) =~= events2(m, i + run, sc2, ve.1)) by {
                assert forall|t: int| 0 <= t < ev.skip(j2).len() implies #[trigger] ev.skip(j2)[t] == events2(m, i + run, sc2, ve.1)[t] by {
                    assert(ev.skip(j2)[t] == ev.skip(j)[1 + ve.0.len() + t]);
                }
            }
            lemma_moved_back(ev, m, i + run, j2, sc2, ve.1, (fuel - 1) as nat);
        } else {
            assert(rest == seq![e] + events2(m, i + 1, sc2, rc));
            let s2 = moved_step(data, s, m.len());
            assert(m.take(i).push(sym as u8) =~= m.take(i + 1));
            assert(s2 == sim_state(ev, j + 1, sc2, rc, m, i + 1));
            assert(ev.skip(j + 1) =~= events2(m, i + 1, sc2, rc)) by {
                assert forall|t: int| 0 <= t < ev.skip(j + 1).len() implies #[trigger] ev.skip(j + 1)[t] == events2(m, i + 1, sc2, rc)[t] by {
                    assert(ev.skip(j + 1)[t] == ev.skip(j)[1 + t]);
                }
            }
            lemma_moved_back(ev, m, i + 1, j + 1, sc2, rc, (fuel - 1) as nat);
        }
    }
}

/// Every symbol the zero-run coding writes is coded with a well-formed
/// table.
proof fn lemma_events2_ok(m: Seq<u8>, i: int, sc: Seq<u32>, rc: Seq<u32>)
    requires
        counts_ok(sc),
        counts_ok(rc),
    ensures
        events_ok(events2(m, i, sc, rc)),
    decreases m.len() - i,
{
    if 0 <= i < m.len() {
        let sym = m[i] as int;
        let e = model_event(sc, sym);
        lemma_model_event_ok(sc, sym);
        let sc2 = counts_after(sc, sym);
        lemma_counts_after_ok(sc, sym);
        let all = events2(m, i, sc, rc);
        if sym == 0 {
            let run = zero_run_from(m, i, 1);
            if run >= 1 && i + run <= m.len() {
                let ve = value_events(rc, (run - 1) as usize);
                lemma_value_events_ok(rc, (run - 1) as usize);
                lemma_events2_ok(m, i + run, sc2, ve.1);
                let tail = events2(m, i + run, sc2, ve.1);
                assert(all == seq![e] + ve.0 + tail);
                assert forall|k: int| 0 <= k < all.len() implies event_ok(#[trigger] all[k]) by {
                    if k == 0 {
                    } else if k < 1 + ve.0.len() {
                        assert(all[k] == ve.0[k - 1]);
                    } else {
                        assert(all[k] == tail[k - 1 - ve.0.len()]);
                    }
                }
            } else {
                assert forall|k: int| 0 <= k < all.len() implies event_ok(#[trigger] all[k]) by {}
            }
        } else {
            lemma_events2_ok(m, i + 1, sc2, rc);
            let tail = events2(m, i + 1, sc2, rc);
            assert(all == seq![e] + tail);
            assert forall|k: int| 0 <= k < all.len() implies event_ok(#[trigger] all[k]) by {
                if k > 0 {
                    assert(all[k] == tail[k - 1]);
                }
            }
        }
    }
}

/// Decoding what `encode2` writes for `b` gives `b` back.
pub proof fn lemma_decode_encode2(b: Seq<u8>)
    requires
        b.len() <= usize::MAX,
    ensures
        spec_decode2(spec_encode2(bwt::bwt_last(b), bwt::bwt_primary(b)), b.len()) == b,
{
    let last = bwt::bwt_last(b);
    let primary = bwt::bwt_primary(b);
    let m = mtf::spec_forward(last);
    let init = initial_counts();
    let ev = events2(m, 0, init, init);
    let coded = events_bytes(ev);
    let d = spec_encode2(last, primary);
    varint::lemma_read_write(primary, Seq::empty(), coded);
    assert(d =~= Seq::<u8>::empty() + varint::encode(primary) + coded);
    assert(d.skip(varint::encode(primary).len() as int) =~= coded);
    super::range_lossless::lemma_initial_sum(256);
    assert(init =~= Seq::new(256, |i: int| 1u32));
    assert(counts_ok(init));
    lemma_events2_ok(m, 0, init, init);
    lemma_dec_start(ev);
    assert(m.len() == b.len());
    assert(ev.skip(0) =~= ev);
    assert(m.take(0) =~= Seq::<u8>::empty());
    assert(sim_state(ev, 0, init, init, m, 0) == (dec_start(coded), init, init, Seq::<u8>::empty()));
    lemma_moved_back(ev, m, 0, 0, init, init, m.len());
    assert(spec_moved2(coded, b.len()) == m);
    mtf::lemma_inverse_forward(last);
    bwt_lossless::lemma_inverse_forward(b);
    if b.len() > 0 {
        bwt::lemma_rows_distinct(b, 0, 0);
    }
}

} // verus!
