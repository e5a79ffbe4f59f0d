//! Range decoding of any run of coded symbols: a decoder that holds the
//! encoder's interval and the next four bytes it wrote, and uses the counts
//! the encoder used, finds the symbol the encoder coded and moves on to the
//! encoder's next state.
use vstd::prelude::*;
use super::range::{
    BOT, MAX_TOTAL, coder_ok, counts_ok, counts_after, cum_of, dec_norm, dec_start, dec_symbol, enc_norm, events_bytes,
    find_from, flush_bytes, initial_state, model_event, narrow, run_from, seq_sum, slot_value, step_state, initial_code, next_pos,
    lemma_narrow, lemma_enc_norm_ok, lemma_sum_bounds_each,
};
use super::range_lossless::{be32, lemma_cum_bounds, lemma_find, lemma_flush_value, lemma_initial_code, lemma_norm_back, lemma_norm_read};

verus! {

/// `e` codes a symbol: a slot of positive width inside a total the coder
/// can divide its interval by.
pub open spec fn event_ok(e: (u32, u32, u32)) -> bool {
    0 < e.1 && e.0 + e.1 <= e.2 && 0 < e.2 <= BOT
}

/// Coding a byte with a well-formed table is such a symbol.
pub proof fn lemma_model_event_ok(c: Seq<u32>, sym: int)
    requires
        counts_ok(c),
        0 <= sym < 256,
    ensures
        event_ok(model_event(c, sym)),
{
    lemma_cum_bounds(c, sym);
    lemma_sum_bounds_each(c, sym);
}

/// Every symbol of `ev` is such a symbol.
pub open spec fn events_ok(ev: Seq<(u32, u32, u32)>) -> bool {
    forall|k: int| 0 <= k < ev.len() ==> event_ok(#[trigger] ev[k])
}

/// The encoder after the first `j` symbols of `ev`.
pub open spec fn state_at(ev: Seq<(u32, u32, u32)>, j: int) -> (u32, u32, Seq<u8>) {
    run_from(initial_state(), ev.take(j))
}

/// The decoder that matches the encoder after `j` symbols of `ev`: its
/// interval, the four bytes written from there on, and the position after
/// them.
pub open spec fn dec_at(ev: Seq<(u32, u32, u32)>, j: int) -> (u32, u32, u32, int) {
    let st = state_at(ev, j);
    let data = events_bytes(ev);
    (st.0, st.1, be32(data.skip(st.2.len() as int)) as u32, (st.2.len() + 4) as int)
}

/// The encoder stays well formed.
pub proof fn lemma_state_ok(ev: Seq<(u32, u32, u32)>, j: int)
    requires
        events_ok(ev),
        0 <= j <= ev.len(),
    ensures
        coder_ok(state_at(ev, j).0, state_at(ev, j).1),
        state_at(ev, j).1 >= BOT,
    decreases j,
{
    if j > 0 {
        lemma_state_ok(ev, j - 1);
        assert(ev.take(j).drop_last() =~= ev.take(j - 1));
        let st = state_at(ev, j - 1);
        let e = ev[j - 1];
        assert(event_ok(e));
        lemma_narrow(st.0, st.1, e.0, e.1, e.2);
        let (l1, r1) = narrow(st.0, st.1, e.0, e.1, e.2);
        lemma_enc_norm_ok(l1, r1);
    } else {
        assert(ev.take(0) =~= Seq::<(u32, u32, u32)>::empty());
    }
}

/// The interval after `j` symbols holds the first four of the bytes written
/// from there on.
pub proof fn lemma_future_events(ev: Seq<(u32, u32, u32)>, j: int)
    requires
        events_ok(ev),
        0 <= j <= ev.len(),
    ensures
        ({
            let st = state_at(ev, j);
            let data = events_bytes(ev);
            let rest = data.skip(st.2.len() as int);
            &&& st.2.len() + 4 <= data.len()
            &&& data.subrange(0, st.2.len() as int) == st.2
            &&& st.0 <= be32(rest) < st.0 + st.1
        }),
    decreases ev.len() - j,
{
    let st = state_at(ev, j);
    let data = events_bytes(ev);
    lemma_state_ok(ev, j);
    if j == ev.len() {
        assert(ev.take(j) =~= ev);
        let f = flush_bytes(st.0);
        assert(data.skip(st.2.len() as int) =~= f);
        assert(data.subrange(0, st.2.len() as int) =~= st.2);
        lemma_flush_value(st.0);
    } else {
        lemma_future_events(ev, j + 1);
        let st1 = state_at(ev, j + 1);
        assert(ev.take(j + 1).drop_last() =~= ev.take(j));
        let e = ev[j];
        assert(event_ok(e));
        let total = e.2;
        let (l1, r1) = narrow(st.0, st.1, e.0, e.1, e.2);
        lemma_narrow(st.0, st.1, e.0, e.1, e.2);
        lemma_enc_norm_ok(l1, r1);
        let nb = enc_norm(l1, r1).2;
        assert(st1 == step_state(st, e));
        assert(st1.2 == st.2 + nb);
        let rest1 = data.skip(st1.2.len() as int);
        lemma_norm_back(l1, r1, rest1);
        assert(data.subrange(0, st1.2.len() as int).subrange(0, st.2.len() as int) =~= data.subrange(0, st.2.len() as int));
        assert(data.subrange(0, st.2.len() as int) =~= st.2);
        assert(data.skip(st.2.len() as int) =~= nb + rest1) by {
            assert forall|i: int| 0 <= i < nb.len() implies data.skip(st.2.len() as int)[i] == nb[i] by {
                assert(data.subrange(0, st1.2.len() as int)[st.2.len() + i] == st1.2[st.2.len() + i]);
            }
        }
        assert(e.0 * (st.1 / total) >= 0) by (nonlinear_arith)
            requires
                e.0 >= 0,
                st.1 / total >= 1,
        ;
    }
}

/// A fresh decoder matches the encoder before any symbol.
pub proof fn lemma_dec_start(ev: Seq<(u32, u32, u32)>)
    requires
        events_ok(ev),
    ensures
        dec_start(events_bytes(ev)) == dec_at(ev, 0),
{
    let data = events_bytes(ev);
    lemma_future_events(ev, 0);
    assert(ev.take(0) =~= Seq::<(u32, u32, u32)>::empty());
    assert(next_pos(data, 0) == 1);
    assert(next_pos(data, 1) == 2);
    assert(next_pos(data, 2) == 3);
    assert(next_pos(data, 3) == 4);
    lemma_initial_code(data[0], data[1], data[2], data[3]);
    assert(data.skip(0) =~= data);
    assert(initial_code(data) as int == be32(data));
}

/// One symbol read back, at the level of slots: a decoder that matches the
/// encoder before symbol `j` finds a slot value inside that symbol's slot,
/// and after narrowing to it and renormalising matches the encoder after
/// it.
pub proof fn lemma_slot_back(ev: Seq<(u32, u32, u32)>, j: int)
    requires
        events_ok(ev),
        0 <= j < ev.len(),
    ensures
        ({
            let e = ev[j];
            let ds = dec_at(ev, j);
            let v = slot_value(ds.0, ds.1, ds.2, e.2);
            let (l1, r1) = narrow(ds.0, ds.1, e.0, e.1, e.2);
            let n = dec_norm(l1, r1, ds.2, events_bytes(ev), ds.3);
            &&& e.0 <= v < e.0 + e.1
            &&& (n.0, n.1, n.2, n.3) == dec_at(ev, j + 1)
        }),
{
    let data = events_bytes(ev);
    lemma_future_events(ev, j);
    lemma_future_events(ev, j + 1);
    lemma_state_ok(ev, j);
    let st = state_at(ev, j);
    let st1 = state_at(ev, j + 1);
    assert(ev.take(j + 1).drop_last() =~= ev.take(j));
    let e = ev[j];
    assert(event_ok(e));
    let total = e.2;
    let (l1, r1) = narrow(st.0, st.1, e.0, e.1, e.2);
    lemma_narrow(st.0, st.1, e.0, e.1, e.2);
    lemma_enc_norm_ok(l1, r1);
    let nb = enc_norm(l1, r1).2;
    assert(st1 == step_state(st, e));
    assert(st1.2 == st.2 + nb);
    let rest = data.skip(st.2.len() as int);
    let rest1 = data.skip(st1.2.len() as int);
    assert(rest =~= nb + rest1) by {
        assert forall|i: int| 0 <= i < nb.len() implies rest[i] == nb[i] by {
            assert(data.subrange(0, st1.2.len() as int)[st.2.len() + i] == st1.2[st.2.len() + i]);
        }
    }
    lemma_norm_back(l1, r1, rest1);
    let ds = dec_at(ev, j);
    let code = ds.2;
    assert(code as int == be32(rest));
    let r = st.1 / total;
    assert(e.0 * r >= 0) by (nonlinear_arith)
        requires
            e.0 >= 0,
            r >= 1,
    ;
    let dd = code - st.0;
    assert(e.0 * r <= dd < (e.0 + e.1) * r) by (nonlinear_arith)
        requires
            dd == code - st.0,
            l1 == st.0 + e.0 * r,
            r1 == e.1 * r,
            l1 <= code < l1 + r1,
    ;
    let q = dd / (r as int);
    assert(e.0 <= q < e.0 + e.1) by (nonlinear_arith)
        requires
            e.0 * r <= dd < (e.0 + e.1) * r,
            r >= 1,
            q == dd / (r as int),
    ;
    assert(slot_value(st.0, st.1, code as u32, total) == q);
    super::range::lemma_dec_norm_ok(l1, r1, code, data, ds.3);
    assert(data.subrange(ds.3 - 4, ds.3) =~= rest.subrange(0, 4));
    lemma_norm_read(l1, r1, code, data, ds.3);
    assert(data.subrange(ds.3 + nb.len() - 4, ds.3 + nb.len()) =~= rest1.subrange(0, 4));
}

/// One byte read back: a decoder that matches the encoder before symbol
/// `j`, using the counts that coded it, finds its byte and matches the
/// encoder after it.
pub proof fn lemma_event_back(ev: Seq<(u32, u32, u32)>, j: int, c: Seq<u32>, sym: int)
    requires
        events_ok(ev),
        0 <= j < ev.len(),
        counts_ok(c),
        0 <= sym < 256,
        ev[j] == model_event(c, sym),
    ensures
        dec_symbol(events_bytes(ev), dec_at(ev, j), c) == (sym, dec_at(ev, j + 1), counts_after(c, sym)),
{
    lemma_slot_back(ev, j);
    lemma_cum_bounds(c, sym);
    let ds = dec_at(ev, j);
    let v = slot_value(ds.0, ds.1, ds.2, seq_sum(c) as u32);
    lemma_find(c, v as int, sym, 0);
}

} // verus!
