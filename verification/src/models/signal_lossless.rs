//! The signal model gives back what it coded: reading the bits that the
//! encoder writes yields the values that went in, channel by channel, and
//! decoding a coded block gives the block.
use vstd::prelude::*;
use vstd::arithmetic::power2::pow2;
use super::signal::{
    COEF_BITS, advance, bits_value, coef_bits, coefs_read, lemma_msb_bits_len, lemma_pow2k_pow2, msb_bits, pow2k, rice_all,
    rice_bits, rice_ones, rice_read, rice_run, signed_of, unzig_spec, warm_bits, warm_read, zig, lemma_unzig_zig,
    best_k_spec, k_centre, best_k_from, lemma_best_k_from_nonempty, part_bits, parts_read, best_p_from, part_chunk,
    channel_bits, channel_read, coefs_ok, fixed_spec, head_bits, head_read, lemma_fixed_ok, lemma_restore_residual,
    residual_bits, residual_spec, restored, channel_cands, pick_cand, channel_code, lpc_ok, sample_at, sample_bytes,
    unmix, frames_bytes, raw_sample, frame_len, channel_spec, config, depth_spec, layout_ok, lemma_config_bounds,
    pick_layout, fits, body_spec, stream_spec, encode_spec, decode_spec, N_CONFIGS,
};
use crate::bits::{bits_of_bytes, packed, zero_bits, lemma_packed_bits};

verus! {

proof fn lemma_bits_value_last(bits: Seq<u8>, i: int, n: nat, acc: int)
    ensures
        bits_value(bits, i, n + 1, acc) == 2 * bits_value(bits, i, n, acc)
            + (if 0 <= i + n < bits.len() { bits[i + n] as int } else { 0 }),
    decreases n,
{
    let b: int = if 0 <= i < bits.len() { bits[i] as int } else { 0 };
    assert(bits_value(bits, i, n + 1, acc) == bits_value(bits, i + 1, n, 2 * acc + b));
    if n > 0 {
        lemma_bits_value_last(bits, i + 1, (n - 1) as nat, 2 * acc + b);
        assert(bits_value(bits, i, n, acc) == bits_value(bits, i + 1, (n - 1) as nat, 2 * acc + b));
    } else {
        assert(bits_value(bits, i + 1, 0, 2 * acc + b) == 2 * acc + b);
        assert(bits_value(bits, i, 0, acc) == acc);
    }
}

/// Reading `n` bits where `msb_bits` wrote `v` gives `v` modulo `2^n`.
pub proof fn lemma_read_msb(bits: Seq<u8>, i: int, v: nat, n: nat)
    requires
        0 <= i,
        i + n <= bits.len(),
        bits.subrange(i, i + n) == msb_bits(v, n),
    ensures
        bits_value(bits, i, n, 0) == v % pow2(n),
        advance(bits, i, n as int) == i + n,
    decreases n,
{
    if n == 0 {
        vstd::arithmetic::power2::lemma2_to64();
    } else {
        let m = (n - 1) as nat;
        lemma_msb_bits_len(v / 2, m);
        assert(bits.subrange(i, i + m) == bits.subrange(i, i + n).subrange(0, m as int));
        assert(msb_bits(v, n).subrange(0, m as int) =~= msb_bits(v / 2, m));
        lemma_read_msb(bits, i, v / 2, m);
        lemma_bits_value_last(bits, i, m, 0);
        assert(bits[i + m] == msb_bits(v, n)[m as int]);
        vstd::arithmetic::power2::lemma_pow2_unfold(n);
        vstd::arithmetic::power2::lemma_pow2_pos(m);
        vstd::arithmetic::div_mod::lemma_mod_breakdown(v as int, 2, pow2(m) as int);
    }
}

proof fn lemma_neg_mod(v: i64, n: u64, m: u64)
    by (bit_vector)
    requires
        1 <= n <= 32,
        m == n - 1,
        -((1u64 << m) as int) <= v < 0,
    ensures
        ((v as u64) % (1u64 << n)) as int == v as int + (1u64 << n) as int,
{
}

/// Reading `n` bits where the `n` low bits of `v` were written, as two's
/// complement, gives `v` back when it fits.
pub proof fn lemma_read_signed(bits: Seq<u8>, i: int, v: i64, n: nat)
    requires
        1 <= n <= 32,
        -pow2((n - 1) as nat) <= v < pow2((n - 1) as nat),
        0 <= i,
        i + n <= bits.len(),
        bits.subrange(i, i + n) == msb_bits((v as u64) as nat, n),
    ensures
        signed_of(bits_value(bits, i, n, 0), n) == v,
        advance(bits, i, n as int) == i + n,
{
    lemma_read_msb(bits, i, (v as u64) as nat, n);
    lemma_pow2k_pow2(n);
    lemma_pow2k_pow2((n - 1) as nat);
    vstd::arithmetic::power2::lemma_pow2_unfold(n);
    vstd::arithmetic::power2::lemma_pow2_strictly_increases(n, 64);
    vstd::arithmetic::power2::lemma_pow2_strictly_increases((n - 1) as nat, 64);
    vstd::arithmetic::power2::lemma2_to64_rest();
    vstd::bits::lemma_u64_shl_is_mul(1, n as u64);
    vstd::bits::lemma_u64_shl_is_mul(1, (n - 1) as u64);
    if v < 0 {
        lemma_neg_mod(v, n as u64, (n - 1) as u64);
    } else {
        assert((v as u64) as nat == v);
        vstd::arithmetic::div_mod::lemma_small_mod(v as nat, pow2(n));
    }
}

proof fn lemma_ones_read(bits: Seq<u8>, i: int, q: nat, t: nat)
    requires
        0 <= i,
        t <= q <= 0x100_0000,
        i + q + 1 <= bits.len(),
        forall|j: int| i <= j < i + q ==> bits[j] == 1,
        bits[i + q] == 0,
    ensures
        rice_ones(bits, i + t, t) == (q, i + q + 1),
    decreases q - t,
{
    if t < q {
        lemma_ones_read(bits, i, q, t + 1);
    }
}

/// Reading a Rice code that `rice_bits` wrote gives its value back, when
/// the quotient stays within the reader's limit.
pub proof fn lemma_read_rice(bits: Seq<u8>, i: int, u: nat, k: nat)
    requires
        0 <= i,
        k < 32,
        u / pow2(k) <= 0x100_0000,
        i + rice_bits(u, k).len() <= bits.len(),
        bits.subrange(i, i + rice_bits(u, k).len()) == rice_bits(u, k),
    ensures
        rice_read(bits, i, k) == (u as int, i + rice_bits(u, k).len()),
{
    vstd::arithmetic::power2::lemma_pow2_pos(k);
    let q = u / pow2(k);
    let rb = rice_bits(u, k);
    let ones = Seq::new(q, |j: int| 1u8);
    lemma_msb_bits_len(u, k);
    assert(rb.len() == q + 1 + k);
    assert forall|j: int| i <= j < i + q implies bits[j] == 1 by {
        assert(bits[j] == bits.subrange(i, i + rb.len())[j - i]);
        assert(rb[j - i] == ones[j - i]);
    }
    assert(bits[i + q] == bits.subrange(i, i + rb.len())[q as int]);
    assert(rb[q as int] == 0);
    lemma_ones_read(bits, i, q, 0);
    let j = i + q + 1;
    if k > 0 {
        assert(bits.subrange(j, j + k) =~= rb.subrange((q + 1) as int, (q + 1 + k) as int));
        assert(rb.subrange((q + 1) as int, (q + 1 + k) as int) =~= msb_bits(u, k));
        lemma_read_msb(bits, j, u, k);
        lemma_pow2k_pow2(k);
        vstd::arithmetic::power2::lemma_pow2_pos(k);
        vstd::arithmetic::div_mod::lemma_fundamental_div_mod(u as int, pow2(k) as int);
        assert(q * pow2(k) == pow2(k) * q) by (nonlinear_arith);
    } else {
        vstd::arithmetic::power2::lemma2_to64();
    }
}

proof fn lemma_coef_bits_front(q: Seq<i64>, m: int)
    requires
        1 <= m <= q.len(),
    ensures
        coef_bits(q, m) == msb_bits((q[0] as u64) as nat, COEF_BITS as nat) + coef_bits(q.skip(1), m - 1),
    decreases m,
{
    if m > 1 {
        lemma_coef_bits_front(q, m - 1);
        assert(q.skip(1)[m - 2] == q[m - 1]);
        assert(coef_bits(q, m) =~= msb_bits((q[0] as u64) as nat, COEF_BITS as nat) + coef_bits(q.skip(1), m - 1));
    } else {
        assert(coef_bits(q, 0) =~= Seq::<u8>::empty());
        assert(coef_bits(q.skip(1), 0) =~= Seq::<u8>::empty());
        assert(coef_bits(q, 1) =~= msb_bits((q[0] as u64) as nat, COEF_BITS as nat) + coef_bits(q.skip(1), 0));
    }
}

proof fn lemma_coef_bits_len(q: Seq<i64>, m: int)
    requires
        0 <= m,
    ensures
        coef_bits(q, m).len() == COEF_BITS * m,
    decreases m,
{
    if m > 0 {
        lemma_coef_bits_len(q, m - 1);
        lemma_msb_bits_len((q[m - 1] as u64) as nat, COEF_BITS as nat);
    }
}

/// Reading the coefficients `coef_bits` wrote gives them back.
pub proof fn lemma_read_coefs(bits: Seq<u8>, i: int, q: Seq<i64>)
    requires
        0 <= i,
        i + COEF_BITS * q.len() <= bits.len(),
        bits.subrange(i, i + COEF_BITS * q.len()) == coef_bits(q, q.len() as int),
        forall|j: int| 0 <= j < q.len() ==> -16384 <= #[trigger] q[j] < 16384,
    ensures
        coefs_read(bits, i, q.len()) == (q, i + COEF_BITS * q.len()),
    decreases q.len(),
{
    if q.len() > 0 {
        let m = q.len() as int;
        let t = q.skip(1);
        lemma_coef_bits_front(q, m);
        lemma_msb_bits_len((q[0] as u64) as nat, COEF_BITS as nat);
        lemma_coef_bits_len(t, m - 1);
        let whole = bits.subrange(i, i + COEF_BITS * m);
        assert(bits.subrange(i, i + 15) =~= whole.subrange(0, 15));
        assert(whole.subrange(0, 15) =~= msb_bits((q[0] as u64) as nat, COEF_BITS as nat));
        vstd::arithmetic::power2::lemma2_to64();
        lemma_read_signed(bits, i, q[0], 15);
        assert(bits.subrange(i + 15, i + 15 + COEF_BITS * t.len()) =~= whole.subrange(15, COEF_BITS * m));
        assert(whole.subrange(15, COEF_BITS * m) =~= coef_bits(t, m - 1));
        lemma_read_coefs(bits, i + 15, t);
        assert(seq![q[0]] + t =~= q);
    }
}

proof fn lemma_warm_bits_front(x: Seq<i32>, m: int, depth: u32)
    requires
        1 <= m <= x.len(),
    ensures
        warm_bits(x, m, depth) == msb_bits((x[0] as u64) as nat, depth as nat) + warm_bits(x.skip(1), m - 1, depth),
    decreases m,
{
    if m > 1 {
        lemma_warm_bits_front(x, m - 1, depth);
        assert(x.skip(1)[m - 2] == x[m - 1]);
        assert(warm_bits(x, m, depth) =~= msb_bits((x[0] as u64) as nat, depth as nat) + warm_bits(x.skip(1), m - 1, depth));
    } else {
        assert(warm_bits(x, 0, depth) =~= Seq::<u8>::empty());
        assert(warm_bits(x.skip(1), 0, depth) =~= Seq::<u8>::empty());
        assert(warm_bits(x, 1, depth) =~= msb_bits((x[0] as u64) as nat, depth as nat) + warm_bits(x.skip(1), 0, depth));
    }
}

proof fn lemma_warm_bits_len(x: Seq<i32>, m: int, depth: u32)
    requires
        0 <= m,
    ensures
        warm_bits(x, m, depth).len() == depth * m,
    decreases m,
{
    if m > 0 {
        lemma_warm_bits_len(x, m - 1, depth);
        lemma_msb_bits_len((x[m - 1] as u64) as nat, depth as nat);
        assert(warm_bits(x, m, depth) == warm_bits(x, m - 1, depth) + msb_bits((x[m - 1] as u64) as nat, depth as nat));
        assert(depth * m == depth * (m - 1) + depth) by (nonlinear_arith);
    } else {
        assert(warm_bits(x, 0, depth) =~= Seq::<u8>::empty());
    }
}

/// A sample fits `depth` bits: in two's complement when `signed`, else as
/// an unsigned number.
pub open spec fn fits_depth(v: i32, depth: nat, signed: bool) -> bool {
    if signed {
        -pow2((depth - 1) as nat) <= v < pow2((depth - 1) as nat)
    } else {
        0 <= v < pow2(depth)
    }
}

/// Reading the warm-up samples `warm_bits` wrote gives them back.
pub proof fn lemma_read_warm(bits: Seq<u8>, i: int, x: Seq<i32>, m: int, depth: u32, signed: bool)
    requires
        0 <= i,
        0 <= m <= x.len(),
        1 <= depth <= 32,
        i + depth * m <= bits.len(),
        bits.subrange(i, i + depth * m) == warm_bits(x, m, depth),
        forall|j: int| 0 <= j < m ==> fits_depth(#[trigger] x[j], depth as nat, signed),
    ensures
        warm_read(bits, i, m as nat, depth as nat, signed) == (x.take(m), i + depth * m),
    decreases m,
{
    if m > 0 {
        let t = x.skip(1);
        lemma_warm_bits_front(x, m, depth);
        lemma_msb_bits_len((x[0] as u64) as nat, depth as nat);
        lemma_warm_bits_len(t, m - 1, depth);
        let whole = bits.subrange(i, i + depth * m);
        assert(depth * m == depth + depth * (m - 1)) by (nonlinear_arith);
        assert(bits.subrange(i, i + depth) =~= whole.subrange(0, depth as int));
        assert(whole.subrange(0, depth as int) =~= msb_bits((x[0] as u64) as nat, depth as nat));
        assert(fits_depth(x[0], depth as nat, signed));
        if signed {
            assert((x[0] as u64) == ((x[0] as i64) as u64));
            lemma_read_signed(bits, i, x[0] as i64, depth as nat);
        } else {
            lemma_read_msb(bits, i, (x[0] as u64) as nat, depth as nat);
            vstd::arithmetic::div_mod::lemma_small_mod(x[0] as nat, pow2(depth as nat));
        }
        assert(bits.subrange(i + depth, i + depth + depth * (m - 1)) =~= whole.subrange(depth as int, depth * m));
        assert(whole.subrange(depth as int, depth * m) =~= warm_bits(t, m - 1, depth));
        assert forall|j: int| 0 <= j < m - 1 implies fits_depth(#[trigger] t[j], depth as nat, signed) by {
            assert(t[j] == x[j + 1]);
        }
        lemma_read_warm(bits, i + depth, t, m - 1, depth, signed);
        let u = bits_value(bits, i, depth as nat, 0);
        let v: i32 = if signed { signed_of(u, depth as nat) as i32 } else { u as i32 };
        assert(v == x[0]);
        assert(advance(bits, i, depth as int) == i + depth);
        assert(seq![x[0]] + t.take(m - 1) =~= x.take(m));
    } else {
        assert(x.take(0) =~= Seq::<i32>::empty());
        assert(depth * m == 0) by (nonlinear_arith)
            requires
                m == 0,
        ;
    }
}

proof fn lemma_rice_all_front(c: Seq<i32>, k: nat, m: int)
    requires
        1 <= m <= c.len(),
    ensures
        rice_all(c, k, m) == rice_bits(zig(c[0] as i64), k) + rice_all(c.skip(1), k, m - 1),
    decreases m,
{
    if m > 1 {
        lemma_rice_all_front(c, k, m - 1);
        assert(c.skip(1)[m - 2] == c[m - 1]);
        assert(rice_all(c, k, m) =~= rice_bits(zig(c[0] as i64), k) + rice_all(c.skip(1), k, m - 1));
    } else {
        assert(rice_all(c, k, 0) =~= Seq::<u8>::empty());
        assert(rice_all(c.skip(1), k, 0) =~= Seq::<u8>::empty());
        assert(rice_all(c, k, 1) =~= rice_bits(zig(c[0] as i64), k) + rice_all(c.skip(1), k, 0));
    }
}

/// A residual whose Rice code the reader takes whole, whatever the
/// parameter: its zigzag value is at most `2^24`.
pub open spec fn rice_safe(v: i32) -> bool {
    zig(v as i64) <= 0x100_0000
}

/// Reading Rice codes that `rice_all` wrote gives the residuals back.
pub proof fn lemma_read_rice_run(bits: Seq<u8>, i: int, c: Seq<i32>, k: nat, m: int)
    requires
        0 <= i,
        0 <= m <= c.len(),
        k < 32,
        i + rice_all(c, k, m).len() <= bits.len(),
        bits.subrange(i, i + rice_all(c, k, m).len()) == rice_all(c, k, m),
        forall|j: int| 0 <= j < m ==> rice_safe(#[trigger] c[j]),
    ensures
        rice_run(bits, i, m as nat, k) == (c.take(m), i + rice_all(c, k, m).len()),
    decreases m,
{
    if m > 0 {
        let t = c.skip(1);
        let u = zig(c[0] as i64);
        lemma_rice_all_front(c, k, m);
        let rb = rice_bits(u, k);
        let whole = bits.subrange(i, i + rice_all(c, k, m).len());
        assert(bits.subrange(i, i + rb.len()) =~= whole.subrange(0, rb.len() as int));
        assert(whole.subrange(0, rb.len() as int) =~= rb);
        assert(rice_safe(c[0]));
        vstd::arithmetic::power2::lemma_pow2_pos(k);
        vstd::arithmetic::div_mod::lemma_div_is_ordered_by_denominator(u as int, 1, pow2(k) as int);
        assert(u / pow2(k) <= u);
        lemma_read_rice(bits, i, u, k);
        lemma_unzig_zig(c[0] as i64);
        let j = i + rb.len();
        assert(bits.subrange(j, j + rice_all(t, k, m - 1).len()) =~= whole.subrange(rb.len() as int, whole.len() as int));
        assert(whole.subrange(rb.len() as int, whole.len() as int) =~= rice_all(t, k, m - 1));
        assert forall|jj: int| 0 <= jj < m - 1 implies rice_safe(#[trigger] t[jj]) by {
            assert(t[jj] == c[jj + 1]);
        }
        lemma_read_rice_run(bits, j, t, k, m - 1);
        assert(seq![c[0]] + t.take(m - 1) =~= c.take(m));
    } else {
        assert(c.take(0) =~= Seq::<i32>::empty());
        assert(rice_all(c, k, 0) =~= Seq::<u8>::empty());
    }
}

proof fn lemma_best_k_small(c: Seq<i32>)
    ensures
        best_k_spec(c).0 <= 30,
{
    let kc = k_centre(c);
    let lo: nat = if kc >= 2 { (kc - 2) as nat } else { 0 };
    let hi: nat = if kc + 2 < 30 { kc + 2 } else { 30 };
    if lo <= hi {
        lemma_best_k_from_nonempty(c, lo, hi, (0, u64::MAX as nat));
    }
}

/// Reading the partitions `part_bits` wrote gives the residuals back.
pub proof fn lemma_read_parts(bits: Seq<u8>, i: int, res: Seq<i32>, chunk: nat, start: int)
    requires
        0 <= i,
        0 <= start <= res.len(),
        chunk >= 1,
        i + part_bits(res, chunk, start).len() <= bits.len(),
        bits.subrange(i, i + part_bits(res, chunk, start).len()) == part_bits(res, chunk, start),
        forall|j: int| 0 <= j < res.len() ==> rice_safe(#[trigger] res[j]),
    ensures
        parts_read(bits, i, (res.len() - start) as nat, chunk) == (res.skip(start), i + part_bits(res, chunk, start).len()),
    decreases res.len() - start,
{
    if start < res.len() {
        let end = if start + chunk < res.len() { start + chunk } else { res.len() as int };
        let c = res.subrange(start, end);
        let k = best_k_spec(c).0;
        lemma_best_k_small(c);
        let ra = rice_all(c, k, c.len() as int);
        let rest = part_bits(res, chunk, end);
        let pb = part_bits(res, chunk, start);
        assert(pb == msb_bits(k, 5) + ra + rest);
        lemma_msb_bits_len(k, 5);
        assert(bits.subrange(i, i + 5) =~= pb.subrange(0, 5));
        assert(pb.subrange(0, 5) =~= msb_bits(k, 5));
        lemma_read_msb(bits, i, k, 5);
        vstd::arithmetic::power2::lemma2_to64();
        vstd::arithmetic::div_mod::lemma_small_mod(k, 32);
        assert(bits.subrange(i + 5, i + 5 + ra.len()) =~= pb.subrange(5, (5 + ra.len()) as int));
        assert(pb.subrange(5, (5 + ra.len()) as int) =~= ra);
        assert forall|j: int| 0 <= j < c.len() implies rice_safe(#[trigger] c[j]) by {
            assert(c[j] == res[start + j]);
        }
        lemma_read_rice_run(bits, i + 5, c, k, c.len() as int);
        let j = i + 5 + ra.len();
        assert(bits.subrange(j, j + rest.len()) =~= pb.subrange((5 + ra.len()) as int, pb.len() as int));
        assert(pb.subrange((5 + ra.len()) as int, pb.len() as int) =~= rest);
        lemma_read_parts(bits, j, res, chunk, end);
        assert(c.take(c.len() as int) =~= c);
        assert(c + res.skip(end) =~= res.skip(start));
    } else {
        assert(res.skip(start) =~= Seq::<i32>::empty());
    }
}

/// Every element is a bit.
pub open spec fn is_bits(s: Seq<u8>) -> bool {
    forall|i: int| 0 <= i < s.len() ==> #[trigger] s[i] <= 1
}

proof fn lemma_is_bits_add(a: Seq<u8>, b: Seq<u8>)
    requires
        is_bits(a),
        is_bits(b),
    ensures
        is_bits(a + b),
{
    assert forall|i: int| 0 <= i < (a + b).len() implies #[trigger] (a + b)[i] <= 1 by {
        if i < a.len() {
            assert((a + b)[i] == a[i]);
        } else {
            assert((a + b)[i] == b[i - a.len()]);
        }
    }
}

proof fn lemma_msb_is_bits(v: nat, n: nat)
    ensures
        is_bits(msb_bits(v, n)),
    decreases n,
{
    if n > 0 {
        lemma_msb_is_bits(v / 2, (n - 1) as nat);
        lemma_is_bits_add(msb_bits(v / 2, (n - 1) as nat), seq![(v % 2) as u8]);
    } else {
        assert(msb_bits(v, 0) =~= Seq::<u8>::empty());
    }
}

proof fn lemma_rice_is_bits(u: nat, k: nat)
    ensures
        is_bits(rice_bits(u, k)),
{
    vstd::arithmetic::power2::lemma_pow2_pos(k);
    let ones = Seq::new(u / pow2(k), |j: int| 1u8);
    assert(is_bits(ones));
    lemma_msb_is_bits(u, k);
    lemma_is_bits_add(ones, seq![0u8]);
    lemma_is_bits_add(ones + seq![0u8], msb_bits(u, k));
    assert(rice_bits(u, k) =~= ones + seq![0u8] + msb_bits(u, k));
}

proof fn lemma_coef_is_bits(q: Seq<i64>, m: int)
    ensures
        is_bits(coef_bits(q, m)),
    decreases m,
{
    if m > 0 {
        lemma_coef_is_bits(q, m - 1);
        lemma_msb_is_bits((q[m - 1] as u64) as nat, COEF_BITS as nat);
        lemma_is_bits_add(coef_bits(q, m - 1), msb_bits((q[m - 1] as u64) as nat, COEF_BITS as nat));
    } else {
        assert(coef_bits(q, m) =~= Seq::<u8>::empty());
    }
}

proof fn lemma_warm_is_bits(x: Seq<i32>, m: int, depth: u32)
    ensures
        is_bits(warm_bits(x, m, depth)),
    decreases m,
{
    if m > 0 {
        lemma_warm_is_bits(x, m - 1, depth);
        lemma_msb_is_bits((x[m - 1] as u64) as nat, depth as nat);
        lemma_is_bits_add(warm_bits(x, m - 1, depth), msb_bits((x[m - 1] as u64) as nat, depth as nat));
    } else {
        assert(warm_bits(x, m, depth) =~= Seq::<u8>::empty());
    }
}

proof fn lemma_rice_all_is_bits(c: Seq<i32>, k: nat, m: int)
    ensures
        is_bits(rice_all(c, k, m)),
    decreases m,
{
    if m > 0 {
        lemma_rice_all_is_bits(c, k, m - 1);
        lemma_rice_is_bits(zig(c[m - 1] as i64), k);
        lemma_is_bits_add(rice_all(c, k, m - 1), rice_bits(zig(c[m - 1] as i64), k));
    } else {
        assert(rice_all(c, k, m) =~= Seq::<u8>::empty());
    }
}

proof fn lemma_parts_is_bits(res: Seq<i32>, chunk: nat, start: int)
    ensures
        is_bits(part_bits(res, chunk, start)),
    decreases res.len() - start,
{
    if chunk == 0 || start < 0 || start >= res.len() {
        assert(part_bits(res, chunk, start) =~= Seq::<u8>::empty());
    } else {
        let end = if start + chunk < res.len() { start + chunk } else { res.len() as int };
        let c = res.subrange(start, end);
        let k = best_k_spec(c).0;
        lemma_msb_is_bits(k, 5);
        lemma_rice_all_is_bits(c, k, c.len() as int);
        lemma_parts_is_bits(res, chunk, end);
        lemma_is_bits_add(msb_bits(k, 5), rice_all(c, k, c.len() as int));
        lemma_is_bits_add(msb_bits(k, 5) + rice_all(c, k, c.len() as int), part_bits(res, chunk, end));
    }
}

proof fn lemma_best_p_small(res: Seq<i32>, p: nat, best: (nat, nat))
    requires
        best.0 <= 6,
    ensures
        best_p_from(res, p, best).0 <= 6,
    decreases 7 - p,
{
    if !(p > 6 || pow2(p) > res.len()) {
        let bits = 3 + super::signal::chunks_cost(res, part_chunk(res.len(), p), 0);
        lemma_best_p_small(res, p + 1, if bits < best.1 { (p, bits) } else { best });
    }
}

/// A predictor that the channel reader takes back as written: a fixed one
/// (order at most 4, shift 0), or an LPC one with fewer than 64
/// coefficients of 15 bits and a shift below 16.
pub open spec fn cand_ok(c: (bool, Seq<i64>, u32)) -> bool {
    if c.0 {
        &&& c.1.len() < 64
        &&& c.2 < 16
        &&& forall|j: int| 0 <= j < c.1.len() ==> -16384 <= #[trigger] c.1[j] < 16384
    } else {
        c.1.len() <= 4 && c.1 == fixed_spec(c.1.len() as int) && c.2 == 0
    }
}

proof fn lemma_read_head(bits: Seq<u8>, i: int, c: (bool, Seq<i64>, u32))
    requires
        0 <= i,
        cand_ok(c),
        i + head_bits(c).len() <= bits.len(),
        bits.subrange(i, i + head_bits(c).len()) == head_bits(c),
    ensures
        head_read(bits, i) == (c.1, c.2, i + head_bits(c).len()),
        is_bits(head_bits(c)),
        coefs_ok(c.1),
{
    let hb = head_bits(c);
    let order = c.1.len();
    vstd::arithmetic::power2::lemma2_to64();
    assert(bits[i] == hb[0]);
    if c.0 {
        lemma_msb_bits_len(order, 6);
        lemma_msb_bits_len(c.2 as nat, 4);
        lemma_coef_bits_len(c.1, order as int);
        assert(bits.subrange(i + 1, i + 7) =~= hb.subrange(1, 7));
        assert(hb.subrange(1, 7) =~= msb_bits(order, 6));
        lemma_read_msb(bits, i + 1, order, 6);
        vstd::arithmetic::div_mod::lemma_small_mod(order, 64);
        assert(bits.subrange(i + 7, i + 11) =~= hb.subrange(7, 11));
        assert(hb.subrange(7, 11) =~= msb_bits(c.2 as nat, 4));
        lemma_read_msb(bits, i + 7, c.2 as nat, 4);
        vstd::arithmetic::div_mod::lemma_small_mod(c.2 as nat, 16);
        assert(bits.subrange(i + 11, i + 11 + COEF_BITS * order) =~= hb.subrange(11, hb.len() as int));
        assert(hb.subrange(11, hb.len() as int) =~= coef_bits(c.1, order as int));
        lemma_read_coefs(bits, i + 11, c.1);
        lemma_msb_is_bits(order, 6);
        lemma_msb_is_bits(c.2 as nat, 4);
        lemma_coef_is_bits(c.1, order as int);
        lemma_is_bits_add(seq![1u8], msb_bits(order, 6));
        lemma_is_bits_add(seq![1u8] + msb_bits(order, 6), msb_bits(c.2 as nat, 4));
        lemma_is_bits_add(seq![1u8] + msb_bits(order, 6) + msb_bits(c.2 as nat, 4), coef_bits(c.1, order as int));
    } else {
        lemma_msb_bits_len(order, 3);
        assert(bits.subrange(i + 1, i + 4) =~= hb.subrange(1, 4));
        assert(hb.subrange(1, 4) =~= msb_bits(order, 3));
        lemma_read_msb(bits, i + 1, order, 3);
        vstd::arithmetic::div_mod::lemma_small_mod(order, 8);
        lemma_fixed_ok(order as int);
        lemma_msb_is_bits(order, 3);
        lemma_is_bits_add(seq![0u8], msb_bits(order, 3));
    }
}

/// Reading a channel that `channel_bits` wrote with a predictor it takes
/// back gives the channel, when its samples fit the depth and its
/// residuals' Rice codes stay within the reader's limit.
pub proof fn lemma_read_channel(bits: Seq<u8>, i: int, x: Seq<i32>, depth: u32, signed: bool, c: (bool, Seq<i64>, u32))
    requires
        0 <= i,
        1 <= depth <= 32,
        cand_ok(c),
        c.1.len() < x.len(),
        forall|j: int| 0 <= j < x.len() ==> fits_depth(#[trigger] x[j], depth as nat, signed),
        forall|t: int| 0 <= t < residual_spec(x, c.1, c.2).len() ==> rice_safe(#[trigger] residual_spec(x, c.1, c.2)[t]),
        i + channel_bits(x, depth, c).len() <= bits.len(),
        bits.subrange(i, i + channel_bits(x, depth, c).len()) == channel_bits(x, depth, c),
    ensures
        channel_read(bits, i, x.len(), depth as nat, signed) == (x, i + channel_bits(x, depth, c).len()),
        is_bits(channel_bits(x, depth, c)),
{
    let cb = channel_bits(x, depth, c);
    let hb = head_bits(c);
    let order = c.1.len();
    let wb = warm_bits(x, order as int, depth);
    let res = residual_spec(x, c.1, c.2);
    let rb = residual_bits(res);
    assert(cb == hb + wb + rb);
    lemma_warm_bits_len(x, order as int, depth);
    assert(bits.subrange(i, i + hb.len()) =~= cb.subrange(0, hb.len() as int));
    assert(cb.subrange(0, hb.len() as int) =~= hb);
    lemma_read_head(bits, i, c);
    let i2 = i + hb.len();
    assert(bits.subrange(i2, i2 + wb.len()) =~= cb.subrange(hb.len() as int, (hb.len() + wb.len()) as int));
    assert(cb.subrange(hb.len() as int, (hb.len() + wb.len()) as int) =~= wb);
    lemma_read_warm(bits, i2, x, order as int, depth, signed);
    let i3 = i2 + wb.len();
    let p = best_p_from(res, 0, (0, u64::MAX as nat)).0;
    lemma_best_p_small(res, 0, (0, u64::MAX as nat));
    let chunk = part_chunk(res.len(), p);
    let pb = part_bits(res, chunk, 0);
    assert(rb == msb_bits(p, 3) + pb);
    lemma_msb_bits_len(p, 3);
    assert(bits.subrange(i3, i3 + 3) =~= cb.subrange((hb.len() + wb.len()) as int, (hb.len() + wb.len() + 3) as int));
    assert(cb.subrange((hb.len() + wb.len()) as int, (hb.len() + wb.len() + 3) as int) =~= msb_bits(p, 3));
    lemma_read_msb(bits, i3, p, 3);
    vstd::arithmetic::power2::lemma2_to64();
    vstd::arithmetic::div_mod::lemma_small_mod(p, 8);
    assert(res.len() == x.len() - order);
    assert(chunk >= 1);
    assert(bits.subrange(i3 + 3, i3 + 3 + pb.len()) =~= cb.subrange((hb.len() + wb.len() + 3) as int, cb.len() as int));
    assert(cb.subrange((hb.len() + wb.len() + 3) as int, cb.len() as int) =~= pb);
    lemma_read_parts(bits, i3 + 3, res, chunk, 0);
    assert(res.skip(0) =~= res);
    lemma_restore_residual(x, c.1, c.2);
    lemma_warm_is_bits(x, order as int, depth);
    lemma_msb_is_bits(p, 3);
    lemma_parts_is_bits(res, chunk, 0);
    lemma_is_bits_add(msb_bits(p, 3), pb);
    lemma_is_bits_add(hb, wb);
    lemma_is_bits_add(hb + wb, rb);
}

/// The LPC predictors the reader takes back as written: besides what the
/// encoder takes, shifts below 16 and coefficients below `2^14` in
/// magnitude.
pub open spec fn lpc_exact(l: Seq<(u32, Seq<i64>)>) -> bool {
    &&& lpc_ok(l)
    &&& forall|i: int| 0 <= i < l.len() ==> (#[trigger] l[i]).0 < 16
    &&& forall|i: int, j: int| 0 <= i < l.len() && 0 <= j < l[i].1.len() ==> -16384 <= #[trigger] l[i].1[j] < 16384
}

/// The predictor the encoder picks for the channel `x`.
pub open spec fn picked(x: Seq<i32>, depth: u32, lv: Seq<(u32, Seq<i64>)>) -> (bool, Seq<i64>, u32) {
    let cs = channel_cands(lv);
    cs[pick_cand(x, depth, cs, 0, None).unwrap().0]
}

/// The residuals of the predictor picked for `x` all have Rice codes the
/// reader takes whole.
pub open spec fn channel_safe(x: Seq<i32>, depth: u32, lv: Seq<(u32, Seq<i64>)>) -> bool {
    let c = picked(x, depth, lv);
    forall|t: int| 0 <= t < residual_spec(x, c.1, c.2).len() ==> rice_safe(#[trigger] residual_spec(x, c.1, c.2)[t])
}

proof fn lemma_pick_cand(x: Seq<i32>, depth: u32, cs: Seq<(bool, Seq<i64>, u32)>, i: int, best: Option<(int, nat)>)
    requires
        0 <= i,
        best is Some ==> 0 <= best.unwrap().0 < cs.len() && cs[best.unwrap().0].1.len() < x.len(),
    ensures
        best is Some ==> pick_cand(x, depth, cs, i, best) is Some,
        pick_cand(x, depth, cs, i, best) is Some ==> ({
            let j = pick_cand(x, depth, cs, i, best).unwrap().0;
            0 <= j < cs.len() && cs[j].1.len() < x.len()
        }),
    decreases cs.len() - i,
{
    if i < cs.len() {
        if cs[i].1.len() >= x.len() {
            lemma_pick_cand(x, depth, cs, i + 1, best);
        } else {
            let t = super::signal::cand_total(x, depth, cs[i]);
            let b2 = match best {
                None => Some((i, t)),
                Some((bi, bt)) => if t < bt { Some((i, t)) } else { best },
            };
            lemma_pick_cand(x, depth, cs, i + 1, b2);
        }
    }
}

proof fn lemma_picked_ok(x: Seq<i32>, depth: u32, lv: Seq<(u32, Seq<i64>)>)
    requires
        x.len() >= 1,
        lpc_exact(lv),
    ensures
        cand_ok(picked(x, depth, lv)),
        picked(x, depth, lv).1.len() < x.len(),
        channel_code(x, depth, lv) == channel_bits(x, depth, picked(x, depth, lv)),
{
    let cs = channel_cands(lv);
    assert(cs[0] == (false, fixed_spec(0), 0u32));
    assert(fixed_spec(0).len() == 0);
    let t = super::signal::cand_total(x, depth, cs[0]);
    assert(pick_cand(x, depth, cs, 0, None) == pick_cand(x, depth, cs, 1, Some((0int, t))));
    lemma_pick_cand(x, depth, cs, 1, Some((0int, t)));
    let j = pick_cand(x, depth, cs, 0, None).unwrap().0;
    if j < 5 {
        assert(cs[j] == (false, fixed_spec(j), 0u32));
        lemma_fixed_ok(j);
        assert(fixed_spec(j).len() == j);
    } else {
        assert(cs[j] == (true, lv[j - 5].1, lv[j - 5].0));
        assert(coefs_ok(lv[j - 5].1));
        assert(lv[j - 5].0 < 16);
        assert forall|jj: int| 0 <= jj < lv[j - 5].1.len() implies -16384 <= #[trigger] lv[j - 5].1[jj] < 16384 by {
            assert(-16384 <= lv[j - 5].1[jj] < 16384);
        }
    }
}

proof fn lemma_sample_bits(b0: u8, b1: u8, b2: u8, s1: i32, s2: i32, s3: i32)
    by (bit_vector)
    requires
        s1 == b0 as i32,
        s2 == (if (b0 as i32) + (b1 as i32) * 256 >= 0x8000 {
            (b0 as i32) + (b1 as i32) * 256 - 0x1_0000
        } else {
            (b0 as i32) + (b1 as i32) * 256
        }),
        s3 == (if (b0 as i32) + (b1 as i32) * 256 + (b2 as i32) * 65536 >= 0x80_0000 {
            (b0 as i32) + (b1 as i32) * 256 + (b2 as i32) * 65536 - 0x100_0000
        } else {
            (b0 as i32) + (b1 as i32) * 256 + (b2 as i32) * 65536
        }),
    ensures
        (s1 & 0xFF) as u8 == b0,
        (s2 & 0xFF) as u8 == b0,
        ((s2 >> 8i32) & 0xFF) as u8 == b1,
        (s3 & 0xFF) as u8 == b0,
        ((s3 >> 8i32) & 0xFF) as u8 == b1,
        ((s3 >> 16i32) & 0xFF) as u8 == b2,
{
}

proof fn lemma_sample_parts(lo: u8, mid: u8, hi: u8)
    ensures
        ({
            let u1: int = lo as int;
            let s1 = u1 as i32;
            let u2: int = lo + mid * 256;
            let s2 = (if u2 >= 0x8000 { u2 - 0x1_0000 } else { u2 }) as i32;
            let u3: int = lo + mid * 256 + hi * 65536;
            let s3 = (if u3 >= 0x80_0000 { u3 - 0x100_0000 } else { u3 }) as i32;
            &&& (s1 & 0xFF) as u8 == lo
            &&& (s2 & 0xFF) as u8 == lo
            &&& ((s2 >> 8i32) & 0xFF) as u8 == mid
            &&& (s3 & 0xFF) as u8 == lo
            &&& ((s3 >> 8i32) & 0xFF) as u8 == mid
            &&& ((s3 >> 16i32) & 0xFF) as u8 == hi
        }),
{
    let u2: int = lo + mid * 256;
    let u3: int = lo + mid * 256 + hi * 65536;
    let s2 = (if u2 >= 0x8000 { u2 - 0x1_0000 } else { u2 }) as i32;
    let s3 = (if u3 >= 0x80_0000 { u3 - 0x100_0000 } else { u3 }) as i32;
    lemma_sample_bits(lo, mid, hi, lo as i32, s2, s3);
}

/// Writing back a sample read from `b` gives the bytes it was read from.
pub proof fn lemma_sample_roundtrip(b: Seq<u8>, off: int, width: u8, be: bool)
    requires
        1 <= width <= 3,
        0 <= off,
        off + width <= b.len(),
    ensures
        sample_bytes(sample_at(b, off, width, be) as i32, width, be) == b.subrange(off, off + width),
{
    if width == 1 {
        lemma_sample_parts(b[off], 0, 0);
    } else if width == 2 {
        if be {
            lemma_sample_parts(b[off + 1], b[off], 0);
        } else {
            lemma_sample_parts(b[off], b[off + 1], 0);
        }
    } else {
        if be {
            lemma_sample_parts(b[off + 2], b[off + 1], b[off]);
        } else {
            lemma_sample_parts(b[off], b[off + 1], b[off + 2]);
        }
    }
    assert(sample_bytes(sample_at(b, off, width, be) as i32, width, be) =~= b.subrange(off, off + width));
}

proof fn lemma_unmix_bv(l: i32, r: i32, mid: i32, side: i32)
    by (bit_vector)
    requires
        -0x80_0000 <= l < 0x80_0000,
        -0x80_0000 <= r < 0x80_0000,
        2 * mid <= l + r,
        l + r <= 2 * mid + 1,
        side == l - r,
    ensures
        ((mid << 1u32) | (side & 1i32)) == l + r,
        (((l + r) + side) as i32 >> 1i32) == l,
        (((l + r) - side) as i32 >> 1i32) == r,
{
}

/// Undoing mid/side on the mid and side of two samples gives them back.
pub proof fn lemma_unmix(l: i32, r: i32)
    requires
        -0x80_0000 <= l < 0x80_0000,
        -0x80_0000 <= r < 0x80_0000,
    ensures
        unmix(((l + r) / 2) as i32, (l - r) as i32) == (l, r),
{
    let mid = ((l + r) / 2) as i32;
    let side = (l - r) as i32;
    lemma_unmix_bv(l, r, mid, side);
    assert(mid.wrapping_shl(1) == mid << 1u32);
    let sum = mid.wrapping_shl(1) | (side & 1);
    assert(sum == l + r);
    assert(sum.wrapping_add(side) == (sum + side) as i32);
    assert(sum.wrapping_sub(side) == (sum - side) as i32);
}

proof fn lemma_sample_span(b: Seq<u8>, off: int, width: u8, be: bool)
    requires
        1 <= width <= 3,
        0 <= off,
        off + width <= b.len(),
    ensures
        width == 1 ==> 0 <= sample_at(b, off, width, be) < 0x100,
        width == 2 ==> -0x8000 <= sample_at(b, off, width, be) < 0x8000,
        width == 3 ==> -0x80_0000 <= sample_at(b, off, width, be) < 0x80_0000,
{
}

proof fn lemma_pick_layout(b: Seq<u8>, lv: Seq<Seq<Seq<(u32, Seq<i64>)>>>, ci: int, best: Option<(int, nat)>)
    requires
        0 <= ci,
        best is Some ==> 0 <= best.unwrap().0 < 13 && fits(b, best.unwrap().0),
    ensures
        pick_layout(b, lv, ci, best) is Some ==> ({
            let j = pick_layout(b, lv, ci, best).unwrap().0;
            0 <= j < 13 && fits(b, j)
        }),
    decreases 13 - ci,
{
    if ci < 13 {
        if !fits(b, ci) {
            lemma_pick_layout(b, lv, ci + 1, best);
        } else {
            let l = body_spec(b, config(ci), lv[ci]).len();
            let b2 = match best {
                None => Some((ci, l)),
                Some((bi, bl)) => if l < bl { Some((ci, l)) } else { best },
            };
            lemma_pick_layout(b, lv, ci + 1, b2);
        }
    }
}

proof fn lemma_channel_fits_at(b: Seq<u8>, c: (u8, u8, bool, bool), ch: int, f: int)
    requires
        layout_ok(c),
        0 <= ch < c.1,
        0 <= f < b.len() as int / frame_len(c),
    ensures
        fits_depth(channel_spec(b, c, ch)[f], depth_spec(c.0, c.2, ch).0 as nat, depth_spec(c.0, c.2, ch).1),
{
    vstd::arithmetic::power2::lemma2_to64();
    let frame = frame_len(c);
    let n = b.len() as int / frame;
    assert(f * frame + frame <= n * frame) by (nonlinear_arith)
        requires
            f < n,
            frame > 0,
    ;
    assert(n * frame <= b.len()) by (nonlinear_arith)
        requires
            frame > 0,
            n == b.len() as int / frame,
    ;
    assert(0 <= f * frame) by (nonlinear_arith)
        requires
            f >= 0,
            frame > 0,
    ;
    let r0 = raw_sample(b, c, f, 0);
    lemma_sample_span(b, f * frame, c.0, c.3);
    let v = channel_spec(b, c, ch)[f];
    let (d, sg) = depth_spec(c.0, c.2, ch);
    if c.1 == 2 {
        let r1 = raw_sample(b, c, f, 1);
        lemma_sample_span(b, f * frame + c.0, c.0, c.3);
        if c.2 && ch == 0 {
            assert(v == ((r0 + r1) / 2) as i32);
        } else if c.2 {
            assert(v == (r0 - r1) as i32);
        } else if ch == 1 {
            assert(v == r1 as i32);
        } else {
            assert(v == r0 as i32);
        }
    } else {
        assert(v == r0 as i32);
    }
    if c.0 == 1 {
        assert(d == 8 && !sg);
    } else if c.0 == 2 {
        assert(d == 16 || d == 17);
    } else {
        assert(d == 24 || d == 25);
    }
}

/// The samples of channel `ch` fit the depth the coder gives it.
proof fn lemma_channel_fits(b: Seq<u8>, c: (u8, u8, bool, bool), ch: int)
    requires
        layout_ok(c),
        0 <= ch < c.1,
    ensures
        forall|f: int| 0 <= f < channel_spec(b, c, ch).len() ==> fits_depth(
            #[trigger] channel_spec(b, c, ch)[f],
            depth_spec(c.0, c.2, ch).0 as nat,
            depth_spec(c.0, c.2, ch).1,
        ),
{
    assert forall|f: int| 0 <= f < channel_spec(b, c, ch).len() implies fits_depth(
        #[trigger] channel_spec(b, c, ch)[f],
        depth_spec(c.0, c.2, ch).0 as nat,
        depth_spec(c.0, c.2, ch).1,
    ) by {
        lemma_channel_fits_at(b, c, ch, f);
    }
}

proof fn lemma_frames(b: Seq<u8>, c: (u8, u8, bool, bool), a: Seq<i32>, bb: Seq<i32>, f: int)
    requires
        layout_ok(c),
        0 <= f <= b.len() as int / frame_len(c),
        a.len() >= f,
        c.1 == 2 ==> bb.len() >= f,
        forall|g: int| 0 <= g < f ==> #[trigger] a[g] == raw_sample(b, c, g, 0) as i32,
        forall|g: int| 0 <= g < f && c.1 == 2 ==> #[trigger] bb[g] == raw_sample(b, c, g, 1) as i32,
    ensures
        frames_bytes(a, bb, c, f) == b.take(f * frame_len(c)),
    decreases f,
{
    let frame = frame_len(c);
    if f > 0 {
        lemma_frames(b, c, a, bb, f - 1);
        let n = b.len() as int / frame;
        assert(n * frame <= b.len()) by (nonlinear_arith)
            requires
                frame > 0,
                n == b.len() as int / frame,
        ;
        assert(f * frame == (f - 1) * frame + frame) by (nonlinear_arith);
        assert(f * frame <= n * frame) by (nonlinear_arith)
            requires
                f <= n,
                frame > 0,
        ;
        let off = (f - 1) * frame;
        assert(0 <= (f - 1) * frame) by (nonlinear_arith)
            requires
                f >= 1,
                frame > 0,
        ;
        lemma_sample_roundtrip(b, off, c.0, c.3);
        assert(a[f - 1] == raw_sample(b, c, f - 1, 0) as i32);
        if c.1 == 2 {
            lemma_sample_roundtrip(b, off + c.0, c.0, c.3);
            assert(bb[f - 1] == raw_sample(b, c, f - 1, 1) as i32);
            assert(b.take(off) + b.subrange(off, off + c.0) + b.subrange(off + c.0, off + 2 * c.0) =~= b.take(f * frame));
        } else {
            assert(b.take(off) + b.subrange(off, off + c.0) + Seq::<u8>::empty() =~= b.take(f * frame));
        }
    } else {
        assert(b.take(0) =~= Seq::<u8>::empty());
        assert(f * frame == 0) by (nonlinear_arith)
            requires
                f == 0,
        ;
    }
}

/// The layout the encoder picks for `b` codes each channel with a
/// predictor whose residuals have Rice codes the reader takes whole.
pub open spec fn coded_safe(b: Seq<u8>, lv: Seq<Seq<Seq<(u32, Seq<i64>)>>>) -> bool {
    match pick_layout(b, lv, 0, None) {
        None => true,
        Some((ci, _)) => {
            let c = config(ci);
            forall|ch: int| 0 <= ch < c.1 ==> channel_safe(
                #[trigger] channel_spec(b, c, ch),
                depth_spec(c.0, c.2, ch).0,
                lv[ci][ch],
            )
        },
    }
}

proof fn lemma_channel_code_bits(b: Seq<u8>, c: (u8, u8, bool, bool), lv: Seq<(u32, Seq<i64>)>, ch: int, bits: Seq<u8>, i: int)
    requires
        layout_ok(c),
        0 <= ch < c.1,
        b.len() >= frame_len(c),
        lpc_exact(lv),
        channel_safe(channel_spec(b, c, ch), depth_spec(c.0, c.2, ch).0, lv),
        0 <= i,
        i + channel_code(channel_spec(b, c, ch), depth_spec(c.0, c.2, ch).0, lv).len() <= bits.len(),
        bits.subrange(i, i + channel_code(channel_spec(b, c, ch), depth_spec(c.0, c.2, ch).0, lv).len())
            == channel_code(channel_spec(b, c, ch), depth_spec(c.0, c.2, ch).0, lv),
    ensures
        is_bits(channel_code(channel_spec(b, c, ch), depth_spec(c.0, c.2, ch).0, lv)),
        channel_read(bits, i, channel_spec(b, c, ch).len(), depth_spec(c.0, c.2, ch).0 as nat, depth_spec(c.0, c.2, ch).1)
            == (channel_spec(b, c, ch), i + channel_code(channel_spec(b, c, ch), depth_spec(c.0, c.2, ch).0, lv).len()),
{
    let x = channel_spec(b, c, ch);
    let d = depth_spec(c.0, c.2, ch).0;
    let sg = depth_spec(c.0, c.2, ch).1;
    let frame = frame_len(c);
    assert(x.len() >= 1) by {
        vstd::arithmetic::div_mod::lemma_div_is_ordered(frame, b.len() as int, frame);
        vstd::arithmetic::div_mod::lemma_div_by_self(frame);
    }
    lemma_picked_ok(x, d, lv);
    let p = picked(x, d, lv);
    lemma_channel_fits(b, c, ch);
    lemma_read_channel(bits, i, x, d, sg, p);
}

proof fn lemma_stream_read(b: Seq<u8>, c: (u8, u8, bool, bool), lv: Seq<Seq<(u32, Seq<i64>)>>)
    requires
        layout_ok(c),
        b.len() >= frame_len(c),
        forall|ch: int| 0 <= ch < c.1 ==> lpc_exact(#[trigger] lv[ch]),
        forall|ch: int| 0 <= ch < c.1 ==> channel_safe(#[trigger] channel_spec(b, c, ch), depth_spec(c.0, c.2, ch).0, lv[ch]),
    ensures
        ({
            let bits = bits_of_bytes(packed(stream_spec(b, c, lv)));
            let n = b.len() as int / frame_len(c);
            let (d0, s0) = depth_spec(c.0, c.2, 0);
            let (d1, s1) = depth_spec(c.0, c.2, 1);
            let (ch0, i1) = channel_read(bits, 0, n as nat, d0 as nat, s0);
            &&& ch0 == channel_spec(b, c, 0)
            &&& c.1 == 2 ==> channel_read(bits, i1, n as nat, d1 as nat, s1).0 == channel_spec(b, c, 1)
        }),
{
    let n = b.len() as int / frame_len(c);
    let (d0, s0) = depth_spec(c.0, c.2, 0);
    let (d1, s1) = depth_spec(c.0, c.2, 1);
    let x0 = channel_spec(b, c, 0);
    let x1 = channel_spec(b, c, 1);
    assert(lpc_exact(lv[0]));
    assert(channel_safe(channel_spec(b, c, 0), d0, lv[0]));
    let cb0 = channel_code(x0, d0, lv[0]);
    assert(cb0.subrange(0, cb0.len() as int) =~= cb0);
    lemma_channel_code_bits(b, c, lv[0], 0, cb0, 0);
    let stream = stream_spec(b, c, lv);
    if c.1 == 2 {
        assert(lpc_exact(lv[1]));
        assert(channel_safe(channel_spec(b, c, 1), d1, lv[1]));
        let cb1 = channel_code(x1, d1, lv[1]);
        assert(cb1.subrange(0, cb1.len() as int) =~= cb1);
        lemma_channel_code_bits(b, c, lv[1], 1, cb1, 0);
        assert(stream == cb0 + cb1);
        lemma_is_bits_add(cb0, cb1);
        lemma_packed_bits(stream);
        let bits = bits_of_bytes(packed(stream));
        assert(bits.subrange(0, cb0.len() as int) =~= cb0);
        assert(bits.subrange(cb0.len() as int, (cb0.len() + cb1.len()) as int) =~= cb1);
        lemma_channel_code_bits(b, c, lv[0], 0, bits, 0);
        lemma_channel_code_bits(b, c, lv[1], 1, bits, cb0.len() as int);
    } else {
        assert(stream == cb0);
        lemma_packed_bits(stream);
        let bits = bits_of_bytes(packed(stream));
        assert(bits.subrange(0, cb0.len() as int) =~= cb0);
        lemma_channel_code_bits(b, c, lv[0], 0, bits, 0);
    }
}

proof fn lemma_unmixed(b: Seq<u8>, c: (u8, u8, bool, bool), g: int)
    requires
        layout_ok(c),
        c.1 == 2,
        0 <= g < b.len() as int / frame_len(c),
    ensures
        c.2 ==> unmix(channel_spec(b, c, 0)[g], channel_spec(b, c, 1)[g])
            == (raw_sample(b, c, g, 0) as i32, raw_sample(b, c, g, 1) as i32),
        !c.2 ==> channel_spec(b, c, 0)[g] == raw_sample(b, c, g, 0) as i32
            && channel_spec(b, c, 1)[g] == raw_sample(b, c, g, 1) as i32,
{
    let frame = frame_len(c);
    let n = b.len() as int / frame;
    assert(g * frame + frame <= n * frame) by (nonlinear_arith)
        requires
            g < n,
            frame > 0,
    ;
    assert(n * frame <= b.len()) by (nonlinear_arith)
        requires
            frame > 0,
            n == b.len() as int / frame,
    ;
    assert(0 <= g * frame) by (nonlinear_arith)
        requires
            g >= 0,
            frame > 0,
    ;
    lemma_sample_span(b, g * frame, c.0, c.3);
    lemma_sample_span(b, g * frame + c.0, c.0, c.3);
    if c.2 {
        let l = raw_sample(b, c, g, 0) as i32;
        let r = raw_sample(b, c, g, 1) as i32;
        lemma_unmix(l, r);
    }
}

#[verifier::spinoff_prover]
#[verifier::rlimit(100)]
proof fn lemma_layout_lossless(b: Seq<u8>, lvc: Seq<Seq<(u32, Seq<i64>)>>, ci: int)
    requires
        0 <= ci < N_CONFIGS,
        fits(b, ci),
        forall|ch: int| 0 <= ch < config(ci).1 ==> lpc_exact(#[trigger] lvc[ch]),
        forall|ch: int| 0 <= ch < config(ci).1 ==> channel_safe(
            #[trigger] channel_spec(b, config(ci), ch),
            depth_spec(config(ci).0, config(ci).2, ch).0,
            lvc[ch],
        ),
    ensures
        decode_spec(seq![ci as u8] + body_spec(b, config(ci), lvc), b.len()) == b,
{
    let c = config(ci);
    lemma_config_bounds(ci);
    let data = seq![ci as u8] + body_spec(b, c, lvc);
    let frame = frame_len(c);
    let n = b.len() as int / frame;
    let tail = b.len() as int % frame;
    vstd::arithmetic::div_mod::lemma_fundamental_div_mod(b.len() as int, frame);
    assert(n * frame == frame * n) by (nonlinear_arith);
    let stream = stream_spec(b, c, lvc);
    assert(data[0] == ci as u8);
    assert(b.skip(n * frame).len() == tail);
    assert(data.skip(1 + tail) =~= packed(stream));
    assert(data.subrange(1, 1 + tail) =~= b.skip(n * frame));
    lemma_stream_read(b, c, lvc);
    let bits = bits_of_bytes(data.skip(1 + tail));
    let (d0, s0) = depth_spec(c.0, c.2, 0);
    let (d1, s1) = depth_spec(c.0, c.2, 1);
    let (ch0, i1) = channel_read(bits, 0, n as nat, d0 as nat, s0);
    let ch1 = if c.1 == 2 { channel_read(bits, i1, n as nat, d1 as nat, s1).0 } else { Seq::empty() };
    let a = Seq::new(n as nat, |f: int| if c.1 == 2 && c.2 { unmix(ch0[f], ch1[f]).0 } else { ch0[f] });
    let bb = Seq::new(n as nat, |f: int| if c.1 == 2 && c.2 { unmix(ch0[f], ch1[f]).1 } else { ch1[f] });
    assert forall|g: int| 0 <= g < n implies #[trigger] a[g] == raw_sample(b, c, g, 0) as i32
        && (c.1 == 2 ==> bb[g] == raw_sample(b, c, g, 1) as i32) by {
        if c.1 == 2 {
            lemma_unmixed(b, c, g);
        }
    }
    assert forall|g: int| 0 <= g < n && c.1 == 2 implies #[trigger] bb[g] == raw_sample(b, c, g, 1) as i32 by {
        assert(a[g] == raw_sample(b, c, g, 0) as i32);
    }
    lemma_frames(b, c, a, bb, n);
    assert(decode_spec(data, b.len()) == frames_bytes(a, bb, c, n) + data.subrange(1, 1 + tail));
    assert(b.take(n * frame) + b.skip(n * frame) =~= b);
}

/// Every layout's LPC predictors fit the format's fields.
pub open spec fn lpc_sets_exact(lv: Seq<Seq<Seq<(u32, Seq<i64>)>>>) -> bool {
    &&& lv.len() == N_CONFIGS
    &&& forall|ci: int, ch: int| 0 <= ci < N_CONFIGS && 0 <= ch < config(ci).1 ==> lpc_exact(#[trigger] lv[ci][ch])
}

/// The signal model is lossless: decoding what the encoder writes for `b`
/// gives `b` back, when the LPC predictors offered fit the format's fields
/// and the residuals of the predictors picked have Rice codes the decoder
/// reads whole.
pub proof fn lemma_signal_lossless(b: Seq<u8>, lv: Seq<Seq<Seq<(u32, Seq<i64>)>>>)
    requires
        lv.len() == N_CONFIGS,
        forall|ci: int, ch: int| 0 <= ci < N_CONFIGS && 0 <= ch < config(ci).1 ==> lpc_exact(#[trigger] lv[ci][ch]),
        coded_safe(b, lv),
    ensures
        decode_spec(encode_spec(b, lv), b.len()) == b,
{
    let data = encode_spec(b, lv);
    lemma_pick_layout(b, lv, 0, None);
    match pick_layout(b, lv, 0, None) {
        None => {
            assert(data.skip(1) =~= b);
        },
        Some((ci, l)) => {
            let c = config(ci);
            assert forall|ch: int| 0 <= ch < c.1 implies lpc_exact(#[trigger] lv[ci][ch]) by {
                assert(lpc_exact(lv[ci][ch]));
            }
            lemma_layout_lossless(b, lv[ci], ci);
        },
    }
}

} // verus!
