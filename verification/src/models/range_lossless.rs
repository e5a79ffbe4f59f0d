//! Range decoding gives back what range coding coded: the decoder's code
//! register always holds the next four bytes the encoder wrote, and those
//! lie inside the encoder's interval at that point.
use vstd::prelude::*;
use super::range::{
    BOT, MAX_TOTAL, coder_ok, counts_ok, cum_of, dec_norm, dec_state, enc_norm, enc_state, find_from,
    flush_bytes, initial_counts, lemma_counts_after_ok, lemma_dec_norm_ok, lemma_enc_norm_ok, lemma_narrow,
    lemma_shift_step, lemma_sum_bounds_each, lemma_sum_take_mono, narrow, needs_shift, neg_low_16, nm1, nm2,
    nm3, seq_sum, shifted, slot_value, spec_decode, spec_encode, wrapped_sum, TOP,
};

verus! {

/// The first four bytes of `t`, most significant first, as a number.
pub open spec fn be32(t: Seq<u8>) -> int {
    t[0] as int * 0x100_0000 + t[1] as int * 0x1_0000 + t[2] as int * 0x100 + t[3] as int
}

proof fn lemma_be32_cons(b: u8, t: Seq<u8>)
    requires
        t.len() >= 4,
    ensures
        be32(seq![b] + t) == b as int * 0x100_0000 + be32(t) / 256,
        0 <= be32(t) < 0x1_0000_0000,
{
    let u = seq![b] + t;
    assert(u[0] == b && u[1] == t[0] && u[2] == t[1] && u[3] == t[2]);
    let hi = t[0] as int * 0x1_0000 + t[1] as int * 0x100 + t[2] as int;
    assert(be32(t) == hi * 256 + t[3] as int);
    vstd::arithmetic::div_mod::lemma_fundamental_div_mod_converse(be32(t), 256, hi, t[3] as int);
}

proof fn lemma_back_bv(low: u32, range: u32, ra2: u32, w: u32)
    by (bit_vector)
    requires
        ((low << 8u32) as u64) + (ra2 as u64) <= 0x1_0000_0000u64,
        ra2 & 0xFFu32 == 0u32,
        (ra2 >> 8u32) <= range,
        (low as u64) + (range as u64) <= 0x1_0000_0000u64,
        (low << 8u32) <= w,
        (w as u64) < ((low << 8u32) as u64) + (ra2 as u64),
    ensures
        (low as u64) <= ((low & 0xFF00_0000u32) as u64) + ((w >> 8u32) as u64),
        ((low & 0xFF00_0000u32) as u64) + ((w >> 8u32) as u64) < (low as u64) + (range as u64),
        ((low >> 24u32) as u8) as u64 * 0x100_0000u64 == (low & 0xFF00_0000u32) as u64,
        (w >> 8u32) as u64 == (w as u64) / 256u64,
{
}

proof fn lemma_cut_bv(low: u32, range: u32, ws: u32, r: u32)
    by (bit_vector)
    requires
        (low as u64) + (range as u64) <= 0x1_0000_0000u64,
        range >= 1u32,
        range < 0x1_0000u32,
        ws == ((low as u64) + (range as u64)) as u32,
        (low ^ ws) >= 0x100_0000u32,
        r == (if low == 0u32 { 0u32 } else { (0x1_0000_0000u64 - (low as u64)) as u32 }) & 0xFFFFu32,
    ensures
        r <= range,
        ((r << 8u32) >> 8u32) == r,
        (r << 8u32) & 0xFFu32 == 0u32,
{
}

proof fn lemma_whole_bv(range: u32)
    by (bit_vector)
    ensures
        ((range << 8u32) >> 8u32) <= range,
        (range << 8u32) & 0xFFu32 == 0u32,
{
}

/// One renormalisation step read backwards: a value in the shifted
/// interval, behind the byte shifted out, lies in the interval before.
proof fn lemma_shift_back(low: u32, range: u32, w: u32)
    requires
        coder_ok(low, range),
        needs_shift(low, range),
        shifted(low, range).0 <= w,
        w < shifted(low, range).0 + shifted(low, range).1,
    ensures
        low <= ((low >> 24) as u8) as int * 0x100_0000 + w as int / 256 < low + range,
{
    lemma_shift_step(low, range);
    let (l2, r2) = shifted(low, range);
    let ws = wrapped_sum(low, range);
    assert(((low as u64) + (range as u64)) as int == low + range);
    if low + range < 0x1_0000_0000 {
        assert(ws == ((low as u64) + (range as u64)) as u32);
    } else {
        assert(ws == 0);
        assert(((low as u64) + (range as u64)) as u32 == 0u32) by (bit_vector)
            requires
                (low as u64) + (range as u64) == 0x1_0000_0000u64,
        ;
    }
    if (low ^ ws) < TOP {
        lemma_whole_bv(range);
    } else {
        lemma_cut_bv(low, range, ws, neg_low_16(low));
    }
    lemma_back_bv(low, range, r2, w);
}

/// Renormalisation read backwards: a stream whose first four bytes lie in
/// the interval after renormalisation, behind the bytes it emitted, starts
/// with four bytes in the interval before.
pub proof fn lemma_norm_back(low: u32, range: u32, s: Seq<u8>)
    requires
        coder_ok(low, range),
        s.len() >= 4,
        enc_norm(low, range).0 <= be32(s) < enc_norm(low, range).0 + enc_norm(low, range).1,
    ensures
        low <= be32(enc_norm(low, range).2 + s) < low + range,
    decreases nm1(low, range), nm2(low, range), nm3(low, range),
{
    if needs_shift(low, range) {
        lemma_shift_step(low, range);
        let (l2, r2) = shifted(low, range);
        let rest = enc_norm(l2, r2);
        lemma_norm_back(l2, r2, s);
        let t = rest.2 + s;
        let b = (low >> 24) as u8;
        assert(enc_norm(low, range).2 == seq![b] + rest.2);
        assert(enc_norm(low, range).2 + s =~= seq![b] + t);
        lemma_be32_cons(b, t);
        lemma_shift_back(low, range, be32(t) as u32);
    } else {
        assert(enc_norm(low, range).2 + s =~= s);
    }
}

/// Byte-level facts of the coder: shifting a byte into the register, and
/// the four bytes that flush `low`.
proof fn lemma_register_bv(c: u32, b: u8, low: u32)
    by (bit_vector)
    ensures
        ((c << 8u32) | (b as u32)) as u64 == ((c as u64) % 0x100_0000u64) * 256u64 + (b as u64),
        ((low >> 24u32) as u8) as u64 * 0x100_0000u64 + (((low << 8u32) >> 24u32) as u8) as u64 * 0x1_0000u64
            + ((((low << 8u32) << 8u32) >> 24u32) as u8) as u64 * 0x100u64 + (((((low << 8u32) << 8u32) << 8u32) >> 24u32) as u8) as u64
            == low as u64,
{
}

/// Shifting the next byte into a register that holds four bytes of `d`
/// gives the next four.
proof fn lemma_register_step(d: Seq<u8>, p: int, c: u32)
    requires
        4 <= p < d.len(),
        c == be32(d.subrange(p - 4, p)),
    ensures
        ((c << 8) | (d[p] as u32)) == be32(d.subrange(p - 3, p + 1)),
{
    lemma_register_bv(c, d[p], 0u32);
    let t = d.subrange(p - 4, p);
    let hi = t[0] as int;
    let lo = t[1] as int * 0x1_0000 + t[2] as int * 0x100 + t[3] as int;
    assert(c == hi * 0x100_0000 + lo);
    vstd::arithmetic::div_mod::lemma_fundamental_div_mod_converse(c as int, 0x100_0000, hi, lo);
}

/// The decoder's renormalisation reads exactly the bytes the encoder's
/// emitted, and its register then holds the four bytes after them.
pub proof fn lemma_norm_read(low: u32, range: u32, code: u32, d: Seq<u8>, p: int)
    requires
        coder_ok(low, range),
        4 <= p,
        p + enc_norm(low, range).2.len() <= d.len(),
        code == be32(d.subrange(p - 4, p)),
    ensures
        dec_norm(low, range, code, d, p).2 == be32(d.subrange(p + enc_norm(low, range).2.len() - 4, p + enc_norm(low, range).2.len())),
        dec_norm(low, range, code, d, p).3 == p + enc_norm(low, range).2.len(),
    decreases nm1(low, range), nm2(low, range), nm3(low, range),
{
    if needs_shift(low, range) {
        lemma_shift_step(low, range);
        let (l2, r2) = shifted(low, range);
        let rest = enc_norm(l2, r2);
        let k = rest.2.len();
        assert(enc_norm(low, range).2 == seq![(low >> 24) as u8] + rest.2);
        assert(super::range::byte_at(d, p) == d[p]);
        assert(super::range::next_pos(d, p) == p + 1);
        lemma_register_step(d, p, code);
        lemma_norm_read(l2, r2, (code << 8) | (d[p] as u32), d, p + 1);
    }
}

/// Every count table the encoder goes through is well formed, and its
/// interval is at least 2^16 wide.
proof fn lemma_enc_state_ok(s: Seq<u8>)
    ensures
        counts_ok(enc_state(s).0),
        coder_ok(enc_state(s).1, enc_state(s).2),
        enc_state(s).2 >= BOT,
    decreases s.len(),
{
    if s.len() == 0 {
        lemma_initial_sum(256);
        assert(initial_counts() =~= Seq::new(256, |i: int| 1u32));
    } else {
        let p = s.drop_last();
        lemma_enc_state_ok(p);
        let (c, low, range, out) = enc_state(p);
        let sym = s.last() as int;
        lemma_step_ok(c, low, range, sym);
        lemma_counts_after_ok(c, sym);
    }
}

pub proof fn lemma_initial_sum(m: nat)
    ensures
        seq_sum(Seq::new(m, |i: int| 1u32)) == m,
    decreases m,
{
    if m > 0 {
        assert(Seq::new(m, |i: int| 1u32).drop_last() =~= Seq::new((m - 1) as nat, |i: int| 1u32));
        lemma_initial_sum((m - 1) as nat);
    }
}

pub proof fn lemma_cum_bounds(c: Seq<u32>, sym: int)
    requires
        counts_ok(c),
        0 <= sym < 256,
    ensures
        0 <= cum_of(c, sym),
        cum_of(c, sym + 1) == cum_of(c, sym) + c[sym],
        cum_of(c, sym + 1) <= seq_sum(c),
{
    lemma_sum_take_mono(c, sym);
    lemma_sum_take_mono(c, sym + 1);
}

/// Coding one symbol from a well-formed state: the narrowed interval is
/// inside the old one, and renormalising it keeps the coder well formed.
pub proof fn lemma_step_ok(c: Seq<u32>, low: u32, range: u32, sym: int)
    requires
        counts_ok(c),
        coder_ok(low, range),
        range >= BOT,
        0 <= sym < 256,
    ensures
        ({
            let total = seq_sum(c) as u32;
            let r = range / total;
            let (l1, r1) = narrow(low, range, cum_of(c, sym) as u32, c[sym], total);
            &&& 0 < total < MAX_TOTAL
            &&& r >= 1
            &&& l1 == low + cum_of(c, sym) * r
            &&& r1 == c[sym] * r
            &&& cum_of(c, sym) * r + c[sym] * r <= range
            &&& coder_ok(l1, r1)
            &&& coder_ok(enc_norm(l1, r1).0, enc_norm(l1, r1).1)
            &&& enc_norm(l1, r1).1 >= BOT
        }),
{
    lemma_cum_bounds(c, sym);
    lemma_sum_bounds_each(c, sym);
    let total = seq_sum(c) as u32;
    lemma_narrow(low, range, cum_of(c, sym) as u32, c[sym], total);
    let (l1, r1) = narrow(low, range, cum_of(c, sym) as u32, c[sym], total);
    lemma_enc_norm_ok(l1, r1);
}

proof fn lemma_cum_mono(c: Seq<u32>, a: int, b: int)
    requires
        counts_ok(c),
        0 <= a <= b <= 256,
    ensures
        cum_of(c, a) <= cum_of(c, b),
{
    lemma_sum_take_mono(c.take(b), a);
    assert(c.take(b).take(a) =~= c.take(a));
}

/// The symbol whose slot holds a value between its cumulative count and
/// the next is that symbol.
pub proof fn lemma_find(c: Seq<u32>, v: int, sym: int, k: int)
    requires
        counts_ok(c),
        0 <= sym < 256,
        0 <= k <= sym,
        cum_of(c, sym) <= v < cum_of(c, sym + 1),
    ensures
        find_from(c, v, k) == sym,
    decreases sym - k,
{
    if k < sym {
        lemma_cum_mono(c, k + 1, sym);
        lemma_find(c, v, sym, k + 1);
    }
}

/// One symbol read back: when the bytes after coding `sym` from a state
/// start with four bytes inside the interval after it, the bytes from
/// that state on start with four bytes inside its interval, and a decoder
/// in that state finds `sym`.
pub proof fn lemma_symbol_back(c: Seq<u32>, low: u32, range: u32, sym: int, rest1: Seq<u8>)
    requires
        counts_ok(c),
        coder_ok(low, range),
        range >= BOT,
        0 <= sym < 256,
        rest1.len() >= 4,
        ({
            let (l1, r1) = narrow(low, range, cum_of(c, sym) as u32, c[sym], seq_sum(c) as u32);
            enc_norm(l1, r1).0 <= be32(rest1) < enc_norm(l1, r1).0 + enc_norm(l1, r1).1
        }),
    ensures
        ({
            let total = seq_sum(c) as u32;
            let (l1, r1) = narrow(low, range, cum_of(c, sym) as u32, c[sym], total);
            let code = be32(enc_norm(l1, r1).2 + rest1);
            &&& low <= code < low + range
            &&& find_from(c, slot_value(low, range, code as u32, total) as int, 0) == sym
            &&& coder_ok(l1, r1)
            &&& coder_ok(enc_norm(l1, r1).0, enc_norm(l1, r1).1)
            &&& enc_norm(l1, r1).1 >= BOT
        }),
{
    let total = seq_sum(c) as u32;
    let r = range / total;
    lemma_step_ok(c, low, range, sym);
    lemma_cum_bounds(c, sym);
    let (l1, r1) = narrow(low, range, cum_of(c, sym) as u32, c[sym], total);
    lemma_norm_back(l1, r1, rest1);
    let code = be32(enc_norm(l1, r1).2 + rest1);
    assert(cum_of(c, sym) * r >= 0) by (nonlinear_arith)
        requires
            cum_of(c, sym) >= 0,
            r >= 1,
    ;
    let dd = code - low;
    assert(cum_of(c, sym) * r <= dd < (cum_of(c, sym) + c[sym]) * r) by (nonlinear_arith)
        requires
            dd == code - low,
            l1 == low + cum_of(c, sym) * r,
            r1 == c[sym] * r,
            l1 <= code < l1 + r1,
    ;
    let q = dd / (r as int);
    assert(cum_of(c, sym) <= q < cum_of(c, sym) + c[sym]) by (nonlinear_arith)
        requires
            cum_of(c, sym) * r <= dd < (cum_of(c, sym) + c[sym]) * r,
            r >= 1,
            q == dd / (r as int),
    ;
    assert(slot_value(low, range, code as u32, total) == q);
    lemma_find(c, q, sym, 0);
}

/// The interval after `j` symbols of `s` holds the first four of the bytes
/// coding writes from there on.
proof fn lemma_future(s: Seq<u8>, j: int)
    requires
        0 <= j <= s.len(),
    ensures
        ({
            let st = enc_state(s.take(j));
            let rest = spec_encode(s).skip(st.3.len() as int);
            &&& st.3.len() + 4 <= spec_encode(s).len()
            &&& spec_encode(s).subrange(0, st.3.len() as int) == st.3
            &&& st.1 <= be32(rest) < st.1 + st.2
        }),
    decreases s.len() - j,
{
    let st = enc_state(s.take(j));
    let data = spec_encode(s);
    lemma_enc_state_ok(s.take(j));
    if j == s.len() {
        assert(s.take(j) =~= s);
        let f = flush_bytes(st.1);
        assert(data.skip(st.3.len() as int) =~= f);
        assert(data.subrange(0, st.3.len() as int) =~= st.3);
        lemma_flush_value(st.1);
    } else {
        lemma_future(s, j + 1);
        let st1 = enc_state(s.take(j + 1));
        assert(s.take(j + 1).drop_last() =~= s.take(j));
        let sym = s[j] as int;
        let total = seq_sum(st.0) as u32;
        let (l1, r1) = narrow(st.1, st.2, cum_of(st.0, sym) as u32, st.0[sym], total);
        lemma_step_ok(st.0, st.1, st.2, sym);
        let nb = enc_norm(l1, r1).2;
        assert(st1.3 == st.3 + nb);
        let rest1 = data.skip(st1.3.len() as int);
        lemma_norm_back(l1, r1, rest1);
        assert(data.subrange(0, st1.3.len() as int).subrange(0, st.3.len() as int) =~= data.subrange(0, st.3.len() as int));
        assert(data.subrange(0, st.3.len() as int) =~= st.3);
        assert(data.skip(st.3.len() as int) =~= nb + rest1) by {
            assert forall|i: int| 0 <= i < nb.len() implies data.skip(st.3.len() as int)[i] == nb[i] by {
                assert(data.subrange(0, st1.3.len() as int)[st.3.len() + i] == st1.3[st.3.len() + i]);
            }
        }
        lemma_cum_bounds(st.0, sym);
        assert(cum_of(st.0, sym) * (st.2 / total) >= 0) by (nonlinear_arith)
            requires
                cum_of(st.0, sym) >= 0,
                st.2 / total >= 1,
        ;
    }
}


pub proof fn lemma_flush_value(low: u32)
    ensures
        be32(flush_bytes(low)) == low,
{
    lemma_register_bv(0u32, 0u8, low);
}

/// The register after shifting in four bytes, starting from zero.
pub proof fn lemma_initial_code(b0: u8, b1: u8, b2: u8, b3: u8)
    ensures
        ((((((((0u32 << 8) | (b0 as u32)) << 8) | (b1 as u32)) << 8) | (b2 as u32)) << 8) | (b3 as u32)) as int
            == b0 as int * 0x100_0000 + b1 as int * 0x1_0000 + b2 as int * 0x100 + b3 as int,
{
    let c0 = (0u32 << 8) | (b0 as u32);
    lemma_register_bv(0u32, b0, 0u32);
    let c1 = (c0 << 8) | (b1 as u32);
    lemma_register_bv(c0, b1, 0u32);
    assert(c1 as int == b0 as int * 0x100 + b1 as int);
    let c2 = (c1 << 8) | (b2 as u32);
    lemma_register_bv(c1, b2, 0u32);
    assert(c2 as int == b0 as int * 0x1_0000 + b1 as int * 0x100 + b2 as int);
    lemma_register_bv(c2, b3, 0u32);
}

/// After `j` symbols of the coding of `s`, the decoder holds the encoder's
/// counts and interval, the four bytes written after the first `j` symbols
/// and the symbols so far.
proof fn lemma_decoder_follows(s: Seq<u8>, j: int)
    requires
        0 <= j <= s.len(),
    ensures
        ({
            let data = spec_encode(s);
            let st = enc_state(s.take(j));
            let ds = dec_state(data, j as nat);
            &&& ds.0 == st.0
            &&& ds.1 == st.1
            &&& ds.2 == st.2
            &&& ds.4 == st.3.len() + 4
            &&& ds.3 == be32(data.skip(st.3.len() as int))
            &&& ds.5 == s.take(j)
        }),
    decreases j,
{
    let data = spec_encode(s);
    lemma_future(s, j);
    if j == 0 {
        assert(s.take(0) =~= Seq::<u8>::empty());
        assert(super::range::next_pos(data, 0) == 1);
        assert(super::range::next_pos(data, 1) == 2);
        assert(super::range::next_pos(data, 2) == 3);
        assert(super::range::next_pos(data, 3) == 4);
        lemma_initial_code(data[0], data[1], data[2], data[3]);
        assert(data.skip(0) =~= data);
    } else {
        lemma_decoder_follows(s, j - 1);
        lemma_future(s, j - 1);
        let p = s.take(j - 1);
        assert(s.take(j).drop_last() =~= p);
        let st = enc_state(p);
        let ds = dec_state(data, (j - 1) as nat);
        lemma_enc_state_ok(p);
        let c = st.0;
        let sym = s[j - 1] as int;
        let total = seq_sum(c) as u32;
        let (l1, r1) = narrow(st.1, st.2, cum_of(c, sym) as u32, c[sym], total);
        let nb = enc_norm(l1, r1).2;
        let st1 = enc_state(s.take(j));
        assert(st1.3 == st.3 + nb);
        let rest = data.skip(st.3.len() as int);
        let rest1 = data.skip(st1.3.len() as int);
        assert(rest =~= nb + rest1) by {
            assert forall|i: int| 0 <= i < nb.len() implies rest[i] == nb[i] by {
                assert(data.subrange(0, st1.3.len() as int)[st.3.len() + i] == st1.3[st.3.len() + i]);
            }
        }
        lemma_symbol_back(c, st.1, st.2, sym, rest1);
        let code = ds.3;
        lemma_dec_norm_ok(l1, r1, code, data, ds.4);
        assert(data.subrange(ds.4 - 4, ds.4) =~= rest.subrange(0, 4));
        lemma_norm_read(l1, r1, code, data, ds.4);
        assert(data.subrange(ds.4 + nb.len() - 4, ds.4 + nb.len()) =~= rest1.subrange(0, 4));
    }
}

/// Range decoding the coding of `s`, for as many symbols as `s` has, gives
/// `s` back.
pub proof fn lemma_decode_encode(s: Seq<u8>)
    ensures
        spec_decode(spec_encode(s), s.len()) == s,
{
    lemma_decoder_follows(s, s.len() as int);
    assert(s.take(s.len() as int) =~= s);
}

} // verus!
