//! Audio-style sample coding: frames of 8-, 16- or 24-bit samples in one or
//! two channels (optionally mid/side), each channel a fixed or LPC
//! predictor and Rice-coded residuals in partitions.
use vstd::prelude::*;
use crate::bits::{BitReader, BitWriter, packed};
use vstd::arithmetic::power2::pow2;
use crate::slices;

verus! {

/// Bits per quantized LPC coefficient.
pub const COEF_BITS: u32 = 15;

/// The sample layouts, by index: (bytes per sample, channels, mid/side,
/// big-endian).
pub open spec fn config(i: int) -> (u8, u8, bool, bool) {
    if i == 0 { (1, 1, false, false) }
    else if i == 1 { (2, 1, false, false) }
    else if i == 2 { (2, 1, false, true) }
    else if i == 3 { (2, 2, false, false) }
    else if i == 4 { (2, 2, true, false) }
    else if i == 5 { (2, 2, false, true) }
    else if i == 6 { (2, 2, true, true) }
    else if i == 7 { (3, 1, false, false) }
    else if i == 8 { (3, 1, false, true) }
    else if i == 9 { (3, 2, false, false) }
    else if i == 10 { (3, 2, true, false) }
    else if i == 11 { (3, 2, false, true) }
    else { (3, 2, true, true) }
}

/// The number of layouts.
pub const N_CONFIGS: u8 = 13;

pub(crate) proof fn lemma_config_bounds(i: int)
    ensures
        1 <= config(i).0 <= 3,
        1 <= config(i).1 <= 2,
        config(i).0 * config(i).1 >= 1,
        layout_ok(config(i)),
{
}

/// A sample layout.
pub struct Config {
    pub width: u8,
    pub channels: u8,
    pub ms: bool,
    pub be: bool,
}

/// Layout `i` (`i < N_CONFIGS`).
pub fn config_at(i: u8) -> (c: Config)
    requires
        i < N_CONFIGS,
    ensures
        (c.width, c.channels, c.ms, c.be) == config(i as int),
{
    match i {
        0 => Config { width: 1, channels: 1, ms: false, be: false },
        1 => Config { width: 2, channels: 1, ms: false, be: false },
        2 => Config { width: 2, channels: 1, ms: false, be: true },
        3 => Config { width: 2, channels: 2, ms: false, be: false },
        4 => Config { width: 2, channels: 2, ms: true, be: false },
        5 => Config { width: 2, channels: 2, ms: false, be: true },
        6 => Config { width: 2, channels: 2, ms: true, be: true },
        7 => Config { width: 3, channels: 1, ms: false, be: false },
        8 => Config { width: 3, channels: 1, ms: false, be: true },
        9 => Config { width: 3, channels: 2, ms: false, be: false },
        10 => Config { width: 3, channels: 2, ms: true, be: false },
        11 => Config { width: 3, channels: 2, ms: false, be: true },
        _ => Config { width: 3, channels: 2, ms: true, be: true },
    }
}

/// Two to the power `k`.
pub open spec fn pow2k(k: nat) -> nat
    decreases k,
{
    if k == 0 { 1 } else { 2 * pow2k((k - 1) as nat) }
}

pub(crate) proof fn lemma_pow2k_mono(a: nat, b: nat)
    requires
        a <= b,
    ensures
        pow2k(a) <= pow2k(b),
        pow2k(a) >= 1,
    decreases b,
{
    if a < b {
        lemma_pow2k_mono(a, (b - 1) as nat);
    } else if a > 0 {
        lemma_pow2k_mono((a - 1) as nat, (a - 1) as nat);
    }
}

pub(crate) proof fn lemma_pow2k_32()
    ensures
        pow2k(32) == 0x1_0000_0000,
{
    reveal_with_fuel(pow2k, 33);
}

/// The number made of `n` bits read from `idx` on (zero past the end),
/// most significant first, after the bits already in `v`.
pub open spec fn bits_value(bits: Seq<u8>, idx: int, n: nat, v: int) -> int
    decreases n,
{
    if n == 0 {
        v
    } else {
        let b: int = if 0 <= idx < bits.len() { bits[idx] as int } else { 0 };
        bits_value(bits, idx + 1, (n - 1) as nat, 2 * v + b)
    }
}

/// Where a reader at `i` stands after `n` more bits: it stops at the end.
pub open spec fn advance(bits: Seq<u8>, i: int, n: int) -> int {
    if i + n <= bits.len() { i + n } else { bits.len() as int }
}

/// `u`, the value of `bits` bits, read as two's complement.
pub open spec fn signed_of(u: int, bits: nat) -> int {
    if u >= pow2k((bits - 1) as nat) { u - pow2k(bits) } else { u }
}

/// Reads `n` bits as an unsigned number; missing bits read as zero.
pub fn get(r: &mut BitReader, n: u32) -> (v: u64)
    requires
        old(r).wf(),
        n <= 32,
    ensures
        final(r).wf(),
        final(r).data() == old(r).data(),
        v == bits_value(crate::bits::bits_of_bytes(old(r).data()), old(r).index(), n as nat, 0),
        v < pow2k(n as nat),
        final(r).index() == advance(crate::bits::bits_of_bytes(old(r).data()), old(r).index(), n as int),
{
    let ghost bits = crate::bits::bits_of_bytes(r.data());
    let ghost i0 = r.index();
    proof {
        r.lemma_index_bound();
        lemma_pow2k_mono(n as nat, 32);
        lemma_pow2k_32();
    }
    let mut v: u64 = 0;
    let mut k: u32 = 0;
    while k < n
        invariant
            k <= n <= 32,
            pow2k(n as nat) <= 0x1_0000_0000,
            r.wf(),
            r.data() == old(r).data(),
            bits == crate::bits::bits_of_bytes(r.data()),
            0 <= i0 <= bits.len(),
            v < pow2k(k as nat),
            bits_value(bits, i0, n as nat, 0) == bits_value(bits, i0 + k, (n - k) as nat, v as int),
            (i0 + k <= bits.len() && r.index() == i0 + k) || (i0 + k > bits.len() && r.index() == bits.len()),
        decreases n - k,
    {
        let b = match r.read_bit() {
            Some(x) => x,
            None => 0,
        };
        assert(b as int == (if 0 <= i0 + k < bits.len() { bits[i0 + k] as int } else { 0int }));
        assert(b <= 1) by {
            if 0 <= i0 + k < bits.len() {
                let byte = r.data()[(i0 + k) / 8];
                let sh = (7 - (i0 + k) % 8) as u8;
                assert((byte >> sh) & 1 <= 1) by (bit_vector);
            }
        }
        proof {
            lemma_pow2k_mono(k as nat + 1, n as nat);
        }
        v = v * 2 + (b as u64);
        k = k + 1;
    }
    v
}

/// Reads `bits` bits as a two's complement number.
pub fn get_signed(r: &mut BitReader, bits: u32) -> (v: i64)
    requires
        old(r).wf(),
        1 <= bits <= 32,
    ensures
        final(r).wf(),
        final(r).data() == old(r).data(),
        v == signed_of(bits_value(crate::bits::bits_of_bytes(old(r).data()), old(r).index(), bits as nat, 0), bits as nat),
        -pow2k((bits - 1) as nat) <= v < pow2k((bits - 1) as nat),
        final(r).index() == advance(crate::bits::bits_of_bytes(old(r).data()), old(r).index(), bits as int),
{
    let u = get(r, bits);
    let mut p: u64 = 1;
    let mut i: u32 = 0;
    proof {
        lemma_pow2k_mono(bits as nat, 32);
        lemma_pow2k_32();
    }
    while i < bits
        invariant
            i <= bits <= 32,
            p == pow2k(i as nat),
            pow2k(bits as nat) <= 0x1_0000_0000,
        decreases bits - i,
    {
        proof {
            lemma_pow2k_mono(i as nat + 1, bits as nat);
        }
        p = p * 2;
        i = i + 1;
    }
    let half = p / 2;
    assert(half == pow2k((bits - 1) as nat));
    if u >= half {
        (u as i64) - (p as i64)
    } else {
        u as i64
    }
}

/// Undoes the zigzag mapping of signed to unsigned numbers.
pub fn unzig(u: u64) -> (x: i64)
    ensures
        x == (if u % 2 == 0 { (u / 2) as int } else { -((u / 2) as int) - 1 }),
        // the same as `((u >> 1) as i64) ^ -((u & 1) as i64)`
{
    let h = (u / 2) as i64;
    if u % 2 == 0 { h } else { -h - 1 }
}

/// The ones of a Rice code read from `i`, `q` of them counted so far: how
/// many, and where the reader stops. The zero that ends them is read too;
/// past `2^24` ones the reading stops at once.
pub open spec fn rice_ones(bits: Seq<u8>, i: int, q: nat) -> (nat, int)
    decreases 0x100_0001 - q,
{
    if q > 0x100_0000 || i < 0 {
        (q, i)
    } else if i < bits.len() && bits[i] == 1 {
        rice_ones(bits, i + 1, q + 1)
    } else if i < bits.len() {
        (q, i + 1)
    } else {
        (q, i)
    }
}

/// A Rice code with parameter `k` read at `i`: the ones times `2^k` plus
/// the `k` bits after them, and where the reader stops.
pub open spec fn rice_read(bits: Seq<u8>, i: int, k: nat) -> (int, int) {
    let (q, j) = rice_ones(bits, i, 0);
    if k > 0 {
        (q * pow2k(k) + bits_value(bits, j, k, 0), advance(bits, j, k as int))
    } else {
        (q as int, j)
    }
}

pub(crate) proof fn lemma_pow2k_pow2(k: nat)
    ensures
        pow2k(k) == pow2(k),
    decreases k,
{
    if k > 0 {
        vstd::arithmetic::power2::lemma_pow2_unfold(k);
        lemma_pow2k_pow2((k - 1) as nat);
    } else {
        vstd::arithmetic::power2::lemma2_to64();
    }
}

proof fn lemma_or_low(q: u64, k: u64, rem: u64)
    by (bit_vector)
    requires
        k < 32,
        q <= 0x100_0001,
        rem < (1u64 << k),
    ensures
        (q << k) | rem == (q << k) + rem,
{
}

/// Reads a Rice code with parameter `k`: ones (at most about 2^24) ended by
/// a zero, then `k` low bits.
pub fn rice_get(r: &mut BitReader, k: u32) -> (v: u64)
    requires
        old(r).wf(),
        k < 32,
    ensures
        final(r).wf(),
        final(r).data() == old(r).data(),
        (v as int, final(r).index()) == rice_read(crate::bits::bits_of_bytes(old(r).data()), old(r).index(), k as nat),
{
    let ghost bits = crate::bits::bits_of_bytes(r.data());
    let ghost i0 = r.index();
    proof {
        r.lemma_index_bound();
    }
    let mut q: u64 = 0;
    loop
        invariant_except_break
            r.wf(),
            r.data() == old(r).data(),
            bits == crate::bits::bits_of_bytes(r.data()),
            q <= 0x100_0000,
            0 <= r.index() <= bits.len(),
            rice_ones(bits, i0, 0) == rice_ones(bits, r.index(), q as nat),
        ensures
            r.wf(),
            r.data() == old(r).data(),
            q <= 0x100_0001,
            rice_ones(bits, i0, 0) == (q as nat, r.index()),
        decreases 0x100_0001 - q,
    {
        proof {
            r.lemma_index_bound();
        }
        let ghost idx = r.index();
        let ghost q0 = q as nat;
        match r.read_bit() {
            Some(1) => {
                assert(rice_ones(bits, idx, q0) == rice_ones(bits, idx + 1, q0 + 1));
                q = q + 1;
                if q > 0x100_0000 {
                    break;
                }
            },
            _ => {
                break;
            },
        }
    }
    proof {
        r.lemma_index_bound();
    }
    let ghost ij = r.index();
    let rem = if k > 0 { get(r, k) } else { 0 };
    proof {
        lemma_pow2k_pow2(k as nat);
        lemma_pow2k_mono(k as nat, 32);
        lemma_pow2k_32();
        assert(q * pow2k(k as nat) <= 0x100_0001 * 0x1_0000_0000) by (nonlinear_arith)
            requires
                q <= 0x100_0001,
                pow2k(k as nat) <= 0x1_0000_0000,
        ;
        vstd::bits::lemma_u64_shl_is_mul(q, k as u64);
        vstd::bits::lemma_u64_shl_is_mul(1, k as u64);
        lemma_or_low(q, k as u64, rem);
    }
    let v = (q << (k as u64)) | rem;
    assert(v == q * pow2k(k as nat) + rem);
    assert(rice_ones(bits, i0, 0) == (q as nat, ij));
    assert(k > 0 ==> r.index() == advance(bits, ij, k as int));
    assert(k == 0 ==> r.index() == ij);
    v
}

/// The coefficients of the fixed predictors of order 1 to 4 (none for any
/// other order).
pub fn fixed_coefs(order: usize) -> (c: Vec<i64>)
    ensures
        order == 1 ==> c@ == seq![1i64],
        order == 2 ==> c@ == seq![2i64, -1i64],
        order == 3 ==> c@ == seq![3i64, -3i64, 1i64],
        order == 4 ==> c@ == seq![4i64, -6i64, 4i64, -1i64],
        (order == 0 || order > 4) ==> c@.len() == 0,
{
    match order {
        1 => vec![1],
        2 => vec![2, -1],
        3 => vec![3, -3, 1],
        4 => vec![4, -6, 4, -1],
        _ => Vec::new(),
    }
}

/// The prediction at `i`: the coefficients against the samples before it.
pub open spec fn predict(x: Seq<i32>, q: Seq<i64>, i: int, j: int) -> int
    decreases j,
{
    if j <= 0 {
        0
    } else {
        predict(x, q, i, j - 1) + q[j - 1] * x[i - j]
    }
}

/// Coefficients that fit the quantizer: at most 63, each within 15 bits.
pub open spec fn coefs_ok(q: Seq<i64>) -> bool {
    q.len() < 64 && forall|j: int| 0 <= j < q.len() ==> -16384 <= #[trigger] q[j] <= 16384
}

proof fn lemma_predict_bound(x: Seq<i32>, q: Seq<i64>, i: int, j: int)
    requires
        coefs_ok(q),
        0 <= j <= q.len(),
        j <= i <= x.len(),
    ensures
        -j * 0x4000_0000_0000 <= predict(x, q, i, j) <= j * 0x4000_0000_0000,
    decreases j,
{
    if j > 0 {
        lemma_predict_bound(x, q, i, j - 1);
        let c = q[j - 1];
        let s = x[i - j];
        assert(-0x4000_0000_0000 <= c * s <= 0x4000_0000_0000) by (nonlinear_arith)
            requires
                -16384 <= c <= 16384,
                -0x8000_0000 <= s < 0x8000_0000,
        ;
    }
}

/// The samples rebuilt from the warm-up samples and the residuals: each
/// later sample is its residual plus the prediction shifted right.
pub open spec fn restored(warm: Seq<i32>, res: Seq<i32>, q: Seq<i64>, shift: u32, n: int) -> Seq<i32>
    decreases n,
{
    if n <= warm.len() {
        warm
    } else {
        let x = restored(warm, res, q, shift, n - 1);
        let i = n - 1;
        x.push((res[i - q.len()] as int + ((predict(x, q, i, q.len() as int) as i64) >> shift)) as i32)
    }
}

/// Rebuilds `n` samples from the predictor `q`, `shift`, the warm-up
/// samples and the residuals.
pub fn restore(warmup: &Vec<i32>, res: &Vec<i32>, q: &Vec<i64>, shift: u32, n: usize) -> (x: Vec<i32>)
    requires
        coefs_ok(q@),
        warmup@.len() == q@.len(),
        res@.len() + q@.len() == n,
        shift < 64,
    ensures
        x@ == restored(warmup@, res@, q@, shift, n as int),
        x@.len() == n,
{
    let order = q.len();
    let mut x: Vec<i32> = Vec::new();
    slices::append_i32(&mut x, warmup);
    let mut i: usize = order;
    while i < n
        invariant
            order == q@.len(),
            order <= i <= n,
            coefs_ok(q@),
            res@.len() + order == n,
            shift < 64,
            x@.len() == i,
            x@ == restored(warmup@, res@, q@, shift, i as int),
        decreases n - i,
    {
        let mut acc: i64 = 0;
        let mut j: usize = 0;
        while j < order
            invariant
                j <= order,
                order == q@.len(),
                order <= i,
                x@.len() == i,
                coefs_ok(q@),
                acc == predict(x@, q@, i as int, j as int),
            decreases order - j,
        {
            proof {
                lemma_predict_bound(x@, q@, i as int, j as int + 1);
            }
            let c = q[j];
            let s = x[i - 1 - j] as i64;
            assert(-0x4000_0000_0000 <= c * s <= 0x4000_0000_0000) by (nonlinear_arith)
                requires
                    -16384 <= c <= 16384,
                    -0x8000_0000 <= s < 0x8000_0000,
            ;
            acc = acc + c * s;
            j = j + 1;
        }
        proof {
            lemma_predict_bound(x@, q@, i as int, order as int);
        }
        let sh = acc >> shift;
        assert(-0x40_0000_0000_0000 <= sh <= 0x40_0000_0000_0000) by (bit_vector)
            requires
                -0x40_0000_0000_0000 <= acc <= 0x40_0000_0000_0000,
                sh == acc >> shift,
                shift < 64,
        ;
        let v = ((res[i - order] as i64) + sh) as i32;
        x.push(v);
        i = i + 1;
    }
    x
}

pub(crate) proof fn lemma_pow2k_small()
    ensures
        pow2k(3) == 8,
        pow2k(4) == 16,
        pow2k(5) == 32,
        pow2k(6) == 64,
        pow2k(14) == 16384,
{
    reveal_with_fuel(pow2k, 15);
}

/// The bit depth and signedness of channel `c`: 8 unsigned bits for one-byte
/// samples, else the sample width, one more for the side channel.
pub open spec fn depth_spec(width: u8, ms: bool, c: int) -> (u32, bool) {
    if width == 1 {
        (8, false)
    } else if ms && c == 1 {
        ((width * 8 + 1) as u32, true)
    } else {
        ((width * 8) as u32, true)
    }
}

pub fn depth_of(cfg: &Config, c: usize) -> (r: (u32, bool))
    requires
        1 <= cfg.width <= 3,
    ensures
        r == depth_spec(cfg.width, cfg.ms, c as int),
{
    if cfg.width == 1 {
        (8, false)
    } else {
        let base = cfg.width as u32 * 8;
        if cfg.ms && c == 1 { (base + 1, true) } else { (base, true) }
    }
}

/// `m` coefficients of 15 bits each read at `i`, and where the reader stops.
pub open spec fn coefs_read(bits: Seq<u8>, i: int, m: nat) -> (Seq<i64>, int)
    decreases m,
{
    if m == 0 {
        (Seq::empty(), i)
    } else {
        let v = signed_of(bits_value(bits, i, COEF_BITS as nat, 0), COEF_BITS as nat) as i64;
        let (rest, e) = coefs_read(bits, advance(bits, i, COEF_BITS as int), (m - 1) as nat);
        (seq![v] + rest, e)
    }
}

/// `m` warm-up samples of `depth` bits read at `i` (two's complement when
/// `signed`), and where the reader stops.
pub open spec fn warm_read(bits: Seq<u8>, i: int, m: nat, depth: nat, signed: bool) -> (Seq<i32>, int)
    decreases m,
{
    if m == 0 {
        (Seq::empty(), i)
    } else {
        let u = bits_value(bits, i, depth, 0);
        let v: i32 = if signed { signed_of(u, depth) as i32 } else { u as i32 };
        let (rest, e) = warm_read(bits, advance(bits, i, depth as int), (m - 1) as nat, depth, signed);
        (seq![v] + rest, e)
    }
}

/// The signed number that zigzag coding maps to `u`.
pub open spec fn unzig_spec(u: int) -> int {
    if u % 2 == 0 { u / 2 } else { -(u / 2) - 1 }
}

/// `m` residuals Rice coded with parameter `k` read at `i`, and where the
/// reader stops.
pub open spec fn rice_run(bits: Seq<u8>, i: int, m: nat, k: nat) -> (Seq<i32>, int)
    decreases m,
{
    if m == 0 {
        (Seq::empty(), i)
    } else {
        let (u, j) = rice_read(bits, i, k);
        let (rest, e) = rice_run(bits, j, (m - 1) as nat, k);
        (seq![unzig_spec(u) as i32] + rest, e)
    }
}

/// `remaining` residuals in partitions of `chunk` (the last one shorter),
/// each its 5-bit Rice parameter then its codes, read at `i`; and where the
/// reader stops.
pub open spec fn parts_read(bits: Seq<u8>, i: int, remaining: nat, chunk: nat) -> (Seq<i32>, int)
    decreases remaining,
{
    if remaining == 0 || chunk == 0 {
        (Seq::empty(), i)
    } else {
        let this: nat = if chunk < remaining { chunk } else { remaining };
        let k = bits_value(bits, i, 5, 0);
        let (vals, j) = rice_run(bits, advance(bits, i, 5), this, k as nat);
        let (rest, e) = parts_read(bits, j, (remaining - this) as nat, chunk);
        (vals + rest, e)
    }
}

/// The predictor read at `i`: whether it is LPC, its coefficients and
/// shift (the fixed one of the order read, shift 0, when it is not LPC),
/// and where the reader stops.
pub open spec fn head_read(bits: Seq<u8>, i: int) -> (Seq<i64>, u32, int) {
    let i1 = advance(bits, i, 1);
    if 0 <= i < bits.len() && bits[i] == 1 {
        let order = bits_value(bits, i1, 6, 0);
        let i2 = advance(bits, i1, 6);
        let shift = bits_value(bits, i2, 4, 0);
        let (q, e) = coefs_read(bits, advance(bits, i2, 4), order as nat);
        (q, shift as u32, e)
    } else {
        (fixed_spec(bits_value(bits, i1, 3, 0)), 0, advance(bits, i1, 3))
    }
}

/// A channel of `n` samples read at `i`: the predictor, the warm-up
/// samples, the partition order and the residuals, the samples rebuilt
/// from them; and where the reader stops. A predictor longer than the
/// channel gives its warm-up samples alone.
pub open spec fn channel_read(bits: Seq<u8>, i: int, n: nat, depth: nat, signed: bool) -> (Seq<i32>, int) {
    let (q, shift, i2) = head_read(bits, i);
    let (warm, i3) = warm_read(bits, i2, q.len(), depth, signed);
    if q.len() > n {
        (warm, i3)
    } else {
        let p = bits_value(bits, i3, 3, 0);
        let chunk = part_chunk((n - q.len()) as nat, p as nat);
        let (res, e) = parts_read(bits, advance(bits, i3, 3), (n - q.len()) as nat, chunk);
        (restored(warm, res, q, shift, n as int), e)
    }
}

pub(crate) proof fn lemma_parts_len(bits: Seq<u8>, i: int, remaining: nat, chunk: nat)
    requires
        chunk >= 1,
    ensures
        parts_read(bits, i, remaining, chunk).0.len() == remaining,
    decreases remaining,
{
    if remaining > 0 {
        let this: nat = if chunk < remaining { chunk } else { remaining };
        let k = bits_value(bits, i, 5, 0);
        lemma_rice_run_len(bits, advance(bits, i, 5), this, k as nat);
        let j = rice_run(bits, advance(bits, i, 5), this, k as nat).1;
        lemma_parts_len(bits, j, (remaining - this) as nat, chunk);
    }
}

pub(crate) proof fn lemma_rice_run_len(bits: Seq<u8>, i: int, m: nat, k: nat)
    ensures
        rice_run(bits, i, m, k).0.len() == m,
    decreases m,
{
    if m > 0 {
        let j = rice_read(bits, i, k).1;
        lemma_rice_run_len(bits, j, (m - 1) as nat, k);
    }
}

proof fn lemma_ceil_div(n: int, parts: int)
    requires
        n >= 0,
        parts >= 1,
    ensures
        (if n % parts != 0 { n / parts + 1 } else { n / parts }) == (n + parts - 1) / parts,
{
    let a = n / parts;
    let b = n % parts;
    vstd::arithmetic::div_mod::lemma_fundamental_div_mod(n, parts);
    assert((a + 1) * parts == a * parts + parts) by (nonlinear_arith);
    assert(a * parts == parts * a) by (nonlinear_arith);
    if b > 0 {
        vstd::arithmetic::div_mod::lemma_fundamental_div_mod_converse(n + parts - 1, parts, a + 1, b - 1);
    } else {
        vstd::arithmetic::div_mod::lemma_fundamental_div_mod_converse(n + parts - 1, parts, a, parts - 1);
    }
}

/// Decodes `n` samples of a channel of `depth` bits: the predictor, the
/// warm-up samples, then the residuals in `2^p` partitions, each with its
/// own Rice parameter.
pub fn decode_channel(r: &mut BitReader, n: usize, depth: u32, signed: bool) -> (x: Vec<i32>)
    requires
        old(r).wf(),
        1 <= depth <= 32,
    ensures
        final(r).wf(),
        final(r).data() == old(r).data(),
        (x@, final(r).index()) == channel_read(crate::bits::bits_of_bytes(old(r).data()), old(r).index(), n as nat, depth as nat, signed),
{
    let ghost bits = crate::bits::bits_of_bytes(r.data());
    let ghost i0 = r.index();
    proof {
        lemma_pow2k_small();
        r.lemma_index_bound();
    }
    let is_lpc = match r.read_bit() {
        Some(b) => b == 1,
        None => false,
    };
    let mut q: Vec<i64>;
    let shift: u32;
    if is_lpc {
        let order = get(r, 6) as usize;
        shift = get(r, 4) as u32;
        let ghost ic = r.index();
        q = Vec::new();
        let mut i: usize = 0;
        while i < order
            invariant
                r.wf(),
                r.data() == old(r).data(),
                bits == crate::bits::bits_of_bytes(r.data()),
                i <= order < 64,
                pow2k(14) == 16384,
                q@.len() == i,
                forall|j: int| 0 <= j < q@.len() ==> -16384 <= #[trigger] q@[j] <= 16384,
                coefs_read(bits, ic, order as nat)
                    == (q@ + coefs_read(bits, r.index(), (order - i) as nat).0, coefs_read(bits, r.index(), (order - i) as nat).1),
            decreases order - i,
        {
            let ghost before = q@;
            let ghost idx = r.index();
            let c = get_signed(r, COEF_BITS);
            q.push(c);
            i = i + 1;
            assert(before + coefs_read(bits, idx, (order - i + 1) as nat).0 =~= q@ + coefs_read(bits, r.index(), (order - i) as nat).0);
        }
        assert(coefs_read(bits, r.index(), 0).0 =~= Seq::<i64>::empty());
        assert(q@ + Seq::<i64>::empty() =~= q@);
    } else {
        let order = get(r, 3) as usize;
        q = fixed_coefs(order);
        shift = 0;
        assert(q@ == fixed_spec(order as int));
    }
    assert(coefs_ok(q@));
    assert((q@, shift, r.index()) == head_read(bits, i0));
    let order = q.len();
    let ghost iw = r.index();
    let mut warmup: Vec<i32> = Vec::new();
    let mut i: usize = 0;
    while i < order
        invariant
            r.wf(),
            r.data() == old(r).data(),
            bits == crate::bits::bits_of_bytes(r.data()),
            i <= order,
            1 <= depth <= 32,
            warmup@.len() == i,
            warm_read(bits, iw, order as nat, depth as nat, signed)
                == (warmup@ + warm_read(bits, r.index(), (order - i) as nat, depth as nat, signed).0,
                    warm_read(bits, r.index(), (order - i) as nat, depth as nat, signed).1),
        decreases order - i,
    {
        let ghost before = warmup@;
        let ghost idx = r.index();
        let w: i32 = if signed { get_signed(r, depth) as i32 } else { get(r, depth) as i32 };
        warmup.push(w);
        i = i + 1;
        assert(before + warm_read(bits, idx, (order - i + 1) as nat, depth as nat, signed).0
            =~= warmup@ + warm_read(bits, r.index(), (order - i) as nat, depth as nat, signed).0);
    }
    assert(warmup@ + warm_read(bits, r.index(), 0, depth as nat, signed).0 =~= warmup@);
    if order > n {
        return warmup;
    }
    let res_count = n - order;
    let p = get(r, 3) as u32;
    let ghost ip = r.index();
    let mut parts: usize = 1;
    let mut t: u32 = 0;
    while t < p
        invariant
            t <= p < 8,
            1 <= parts <= 128,
            parts == pow2k(t as nat),
        decreases p - t,
    {
        proof {
            lemma_pow2k_mono(t as nat + 1, 7);
            reveal_with_fuel(pow2k, 8);
        }
        parts = parts * 2;
        t = t + 1;
    }
    proof {
        lemma_pow2k_pow2(p as nat);
        lemma_ceil_div(res_count as int, parts as int);
    }
    let c0 = if res_count % parts != 0 {
        assert(res_count / parts < res_count) by (nonlinear_arith)
            requires
                parts >= 1,
                res_count % parts != 0,
        ;
        res_count / parts + 1
    } else {
        res_count / parts
    };
    let chunk = if c0 > 1 { c0 } else { 1 };
    assert(chunk == part_chunk(res_count as nat, p as nat));
    let mut res: Vec<i32> = Vec::new();
    let mut remaining = res_count;
    while remaining > 0
        invariant
            r.wf(),
            r.data() == old(r).data(),
            bits == crate::bits::bits_of_bytes(r.data()),
            chunk >= 1,
            pow2k(5) == 32,
            remaining <= res_count,
            res@.len() + remaining == res_count,
            parts_read(bits, ip, res_count as nat, chunk as nat)
                == (res@ + parts_read(bits, r.index(), remaining as nat, chunk as nat).0,
                    parts_read(bits, r.index(), remaining as nat, chunk as nat).1),
        decreases remaining,
    {
        let this = if chunk < remaining { chunk } else { remaining };
        let ghost io = r.index();
        let k = get(r, 5) as u32;
        let ghost ik = r.index();
        let ghost base = res@;
        let mut j: usize = 0;
        while j < this
            invariant
                r.wf(),
                r.data() == old(r).data(),
                bits == crate::bits::bits_of_bytes(r.data()),
                k < 32,
                j <= this <= remaining,
                res@.len() + remaining - j == res_count,
                res@.len() == base.len() + j,
                rice_run(bits, ik, this as nat, k as nat)
                    == (res@.skip(base.len() as int) + rice_run(bits, r.index(), (this - j) as nat, k as nat).0,
                        rice_run(bits, r.index(), (this - j) as nat, k as nat).1),
                res@.take(base.len() as int) == base,
            decreases this - j,
        {
            let ghost before = res@;
            let ghost idx = r.index();
            let v = rice_get(r, k);
            res.push(unzig(v) as i32);
            j = j + 1;
            assert(res@.skip(base.len() as int) =~= before.skip(base.len() as int).push(unzig_spec(v as int) as i32));
            assert(before.skip(base.len() as int) + rice_run(bits, idx, (this - j + 1) as nat, k as nat).0
                =~= res@.skip(base.len() as int) + rice_run(bits, r.index(), (this - j) as nat, k as nat).0);
            assert(res@.take(base.len() as int) =~= base);
        }
        assert(res@.skip(base.len() as int) + rice_run(bits, r.index(), 0, k as nat).0 =~= res@.skip(base.len() as int));
        assert(res@ =~= base + res@.skip(base.len() as int));
        assert(base + parts_read(bits, io, remaining as nat, chunk as nat).0
            =~= res@ + parts_read(bits, r.index(), (remaining - this) as nat, chunk as nat).0);
        remaining = remaining - this;
    }
    assert(res@ + parts_read(bits, r.index(), 0, chunk as nat).0 =~= res@);
    restore(&warmup, &res, &q, shift, n)
}

/// The bytes of sample `s`: its low `8 * width` bits, little- or
/// big-endian.
pub open spec fn sample_bytes(s: i32, width: u8, be: bool) -> Seq<u8> {
    let b0 = (s & 0xFF) as u8;
    let b1 = ((s >> 8i32) & 0xFF) as u8;
    let b2 = ((s >> 16i32) & 0xFF) as u8;
    if width == 1 {
        seq![b0]
    } else if width == 2 {
        if be { seq![b1, b0] } else { seq![b0, b1] }
    } else {
        if be { seq![b2, b1, b0] } else { seq![b0, b1, b2] }
    }
}

/// Appends sample `s` as `width` bytes.
pub fn write_sample(out: &mut Vec<u8>, s: i32, width: u8, be: bool)
    ensures
        final(out)@ == old(out)@ + sample_bytes(s, width, be),
{
    let b0 = (s & 0xFF) as u8;
    let b1 = ((s >> 8i32) & 0xFF) as u8;
    let b2 = ((s >> 16i32) & 0xFF) as u8;
    if width == 1 {
        out.push(b0);
    } else if width == 2 {
        if be {
            out.push(b1);
            out.push(b0);
        } else {
            out.push(b0);
            out.push(b1);
        }
    } else {
        if be {
            out.push(b2);
            out.push(b1);
            out.push(b0);
        } else {
            out.push(b0);
            out.push(b1);
            out.push(b2);
        }
    }
    assert(final(out)@ =~= old(out)@ + sample_bytes(s, width, be));
}

/// The sample at `off`: one unsigned byte, or two or three bytes as a
/// signed little- or big-endian number.
pub open spec fn sample_at(b: Seq<u8>, off: int, width: u8, be: bool) -> int {
    if width == 1 {
        b[off] as int
    } else if width == 2 {
        let u: int = if be { b[off] * 256 + b[off + 1] } else { b[off] + b[off + 1] * 256 };
        if u >= 0x8000 { u - 0x1_0000 } else { u }
    } else {
        let u: int = if be { b[off] * 65536 + b[off + 1] * 256 + b[off + 2] } else { b[off] + b[off + 1] * 256 + b[off + 2] * 65536 };
        if u >= 0x80_0000 { u - 0x100_0000 } else { u }
    }
}

/// Reads the sample at `off`.
pub fn read_sample(bytes: &[u8], off: usize, width: u8, be: bool) -> (s: i32)
    requires
        1 <= width <= 3,
        off + width <= bytes.len(),
    ensures
        s == sample_at(bytes@, off as int, width, be),
{
    if width == 1 {
        bytes[off] as i32
    } else if width == 2 {
        let a = bytes[off] as i32;
        let b = bytes[off + 1] as i32;
        let u = if be { a * 256 + b } else { a + b * 256 };
        if u >= 0x8000 { u - 0x1_0000 } else { u }
    } else {
        let a = bytes[off] as i32;
        let b = bytes[off + 1] as i32;
        let c = bytes[off + 2] as i32;
        let u = if be { a * 65536 + b * 256 + c } else { a + b * 256 + c * 65536 };
        if u >= 0x80_0000 { u - 0x100_0000 } else { u }
    }
}

/// The left and right samples from a mid sample (the floor of their mean)
/// and a side sample (their difference): the low bit of the side restores
/// the bit the mean dropped.
pub open spec fn unmix(mid: i32, side: i32) -> (i32, i32) {
    let sum = mid.wrapping_shl(1) | (side & 1);
    (sum.wrapping_add(side) >> 1i32, sum.wrapping_sub(side) >> 1i32)
}

/// The bytes of the first `f` frames: sample `f` of `a`, then of `b` when
/// the layout has two channels.
pub open spec fn frames_bytes(a: Seq<i32>, b: Seq<i32>, c: (u8, u8, bool, bool), f: int) -> Seq<u8>
    decreases f,
{
    if f <= 0 {
        Seq::empty()
    } else {
        let second = if c.1 == 2 { sample_bytes(b[f - 1], c.0, c.3) } else { Seq::empty() };
        frames_bytes(a, b, c, f - 1) + sample_bytes(a[f - 1], c.0, c.3) + second
    }
}

/// What `decode` gives for `data` and `orig_len` bytes wanted: nothing
/// for no data; after the marker 0xFE the bytes themselves; nothing for an
/// unknown layout or a payload too short for the bytes past the last whole
/// frame; else the channels read from the bits after those bytes, mid/side
/// undone, written back frame by frame, then those bytes.
pub open spec fn decode_spec(data: Seq<u8>, orig_len: nat) -> Seq<u8> {
    if data.len() == 0 {
        Seq::empty()
    } else if data[0] == 0xFE {
        data.skip(1)
    } else if data[0] >= N_CONFIGS {
        Seq::empty()
    } else {
        let c = config(data[0] as int);
        let frame = frame_len(c);
        let n = orig_len as int / frame;
        let tail_len = orig_len as int % frame;
        if data.len() - 1 < tail_len {
            Seq::empty()
        } else {
            let bits = crate::bits::bits_of_bytes(data.skip(1 + tail_len));
            let (d0, s0) = depth_spec(c.0, c.2, 0);
            let (d1, s1) = depth_spec(c.0, c.2, 1);
            let (ch0, i1) = channel_read(bits, 0, n as nat, d0 as nat, s0);
            let ch1 = if c.1 == 2 { channel_read(bits, i1, n as nat, d1 as nat, s1).0 } else { Seq::empty() };
            let a = Seq::new(n as nat, |f: int| if c.1 == 2 && c.2 { unmix(ch0[f], ch1[f]).0 } else { ch0[f] });
            let b = Seq::new(n as nat, |f: int| if c.1 == 2 && c.2 { unmix(ch0[f], ch1[f]).1 } else { ch1[f] });
            frames_bytes(a, b, c, n) + data.subrange(1, 1 + tail_len)
        }
    }
}

pub(crate) proof fn lemma_channel_read_len(bits: Seq<u8>, i: int, n: nat, depth: nat, signed: bool)
    ensures
        channel_read(bits, i, n, depth, signed).0.len() >= n,
{
    let (q, shift, i2) = head_read(bits, i);
    let (warm, i3) = warm_read(bits, i2, q.len(), depth, signed);
    lemma_warm_len(bits, i2, q.len(), depth, signed);
    if q.len() <= n {
        let p = bits_value(bits, i3, 3, 0);
        let chunk = part_chunk((n - q.len()) as nat, p as nat);
        let (res, e) = parts_read(bits, advance(bits, i3, 3), (n - q.len()) as nat, chunk);
        lemma_parts_len(bits, advance(bits, i3, 3), (n - q.len()) as nat, chunk);
        lemma_restored_len(warm, res, q, shift, n as int);
    }
}

pub(crate) proof fn lemma_warm_len(bits: Seq<u8>, i: int, m: nat, depth: nat, signed: bool)
    ensures
        warm_read(bits, i, m, depth, signed).0.len() == m,
    decreases m,
{
    if m > 0 {
        lemma_warm_len(bits, advance(bits, i, depth as int), (m - 1) as nat, depth, signed);
    }
}

pub(crate) proof fn lemma_restored_len(warm: Seq<i32>, res: Seq<i32>, q: Seq<i64>, shift: u32, n: int)
    requires
        warm.len() <= n,
    ensures
        restored(warm, res, q, shift, n).len() == n,
    decreases n,
{
    if n > warm.len() {
        lemma_restored_len(warm, res, q, shift, n - 1);
    }
}

/// Decodes `orig_len` bytes: a marker 0xFE and the bytes themselves, or a
/// layout index, the bytes after the last whole frame, and the channels.
/// An unknown layout, or a payload too short for those bytes, gives
/// nothing.
pub fn decode(data: &[u8], orig_len: usize) -> (out: Vec<u8>)
    ensures
        out@ == decode_spec(data@, orig_len as nat),
{
    if data.len() == 0 {
        return Vec::new();
    }
    if data[0] == 0xFE {
        let rest = slices::copy(&data[1..data.len()]);
        assert(rest@ =~= data@.skip(1));
        return rest;
    }
    if data[0] >= N_CONFIGS {
        return Vec::new();
    }
    let cfg = config_at(data[0]);
    let ghost c = config(data@[0] as int);
    proof {
        lemma_config_bounds(data@[0] as int);
    }
    assert(1 <= cfg.width <= 3 && 1 <= cfg.channels <= 2);
    let frame: usize = if cfg.channels == 2 { 2 * cfg.width as usize } else { cfg.width as usize };
    assert(frame == frame_len(c));
    let n = orig_len / frame;
    assert(n * frame <= orig_len) by (nonlinear_arith)
        requires
            frame > 0,
            n == orig_len / frame,
    ;
    let tail_len = orig_len - n * frame;
    assert(tail_len == orig_len % frame) by (nonlinear_arith)
        requires
            frame > 0,
            n == orig_len / frame,
            tail_len == orig_len - n * frame,
    ;
    if data.len() - 1 < tail_len {
        return Vec::new();
    }
    let tail = &data[1..1 + tail_len];
    let rest = &data[1 + tail_len..data.len()];
    assert(rest@ =~= data@.skip(1 + tail_len));
    let ghost bits = crate::bits::bits_of_bytes(rest@);
    let mut r = BitReader::new(rest);
    let (d0, s0) = depth_of(&cfg, 0);
    let ch0_orig = decode_channel(&mut r, n, d0, s0);
    let ghost i1 = r.index();
    let mut ch0 = ch0_orig;
    let mut ch1: Vec<i32> = Vec::new();
    proof {
        lemma_channel_read_len(bits, 0, n as nat, d0 as nat, s0);
    }
    let ghost c0 = ch0@;
    let ghost mut c1 = Seq::<i32>::empty();
    if cfg.channels == 2 {
        let (d1, s1) = depth_of(&cfg, 1);
        ch1 = decode_channel(&mut r, n, d1, s1);
        proof {
            lemma_channel_read_len(bits, i1, n as nat, d1 as nat, s1);
            c1 = ch1@;
        }
        if cfg.ms {
            let mut f: usize = 0;
            while f < n
                invariant
                    f <= n,
                    ch0@.len() == c0.len() >= n,
                    ch1@.len() == c1.len() >= n,
                    forall|g: int| 0 <= g < f ==> #[trigger] ch0@[g] == unmix(c0[g], c1[g]).0 && ch1@[g] == unmix(c0[g], c1[g]).1,
                    forall|g: int| f <= g < n ==> #[trigger] ch0@[g] == c0[g] && ch1@[g] == c1[g],
                decreases n - f,
            {
                let mid = ch0[f];
                let side = ch1[f];
                assert(mid == c0[f as int] && side == c1[f as int]);
                let sum = mid.wrapping_shl(1) | (side & 1);
                let left = sum.wrapping_add(side) >> 1i32;
                let right = sum.wrapping_sub(side) >> 1i32;
                assert((left, right) == unmix(c0[f as int], c1[f as int]));
                let ghost p0 = ch0@;
                let ghost p1 = ch1@;
                ch0.set(f, left);
                ch1.set(f, right);
                assert forall|g: int| f < g < n implies #[trigger] ch0@[g] == c0[g] && ch1@[g] == c1[g] by {
                    assert(ch0@[g] == p0[g] && p0[g] == c0[g]);
                    assert(ch1@[g] == p1[g] && p1[g] == c1[g]);
                }
                assert forall|g: int| 0 <= g <= f implies #[trigger] ch0@[g] == unmix(c0[g], c1[g]).0 && ch1@[g] == unmix(c0[g], c1[g]).1 by {
                    if g < f {
                        assert(ch0@[g] == p0[g]);
                        assert(ch1@[g] == p1[g]);
                    }
                }
                f = f + 1;
            }
        }
    }
    let ghost a = Seq::new(n as nat, |f: int| if c.1 == 2 && c.2 { unmix(c0[f], c1[f]).0 } else { c0[f] });
    let ghost b = Seq::new(n as nat, |f: int| if c.1 == 2 && c.2 { unmix(c0[f], c1[f]).1 } else { c1[f] });
    assert forall|g: int| 0 <= g < n implies #[trigger] ch0@[g] == a[g] && (cfg.channels == 2 ==> ch1@[g] == b[g]) by {
    }
    let mut out: Vec<u8> = Vec::new();
    let mut f: usize = 0;
    while f < n
        invariant
            f <= n,
            ch0@.len() >= n,
            cfg.channels == 2 ==> ch1@.len() >= n,
            (cfg.width, cfg.channels, cfg.ms, cfg.be) == c,
            forall|g: int| 0 <= g < n ==> #[trigger] ch0@[g] == a[g] && (cfg.channels == 2 ==> ch1@[g] == b[g]),
            out@ == frames_bytes(a, b, c, f as int),
        decreases n - f,
    {
        write_sample(&mut out, ch0[f], cfg.width, cfg.be);
        if cfg.channels == 2 {
            write_sample(&mut out, ch1[f], cfg.width, cfg.be);
        }
        f = f + 1;
        assert(out@ =~= frames_bytes(a, b, c, f as int));
    }
    slices::append(&mut out, tail);
    assert(out@ =~= decode_spec(data@, orig_len as nat));
    out
}

/// A layout the coder handles: one to three bytes per sample, one or two
/// channels, mid/side only with two channels of signed samples.
pub open spec fn layout_ok(c: (u8, u8, bool, bool)) -> bool {
    1 <= c.0 <= 3 && 1 <= c.1 <= 2 && (c.2 ==> c.1 == 2 && c.0 >= 2)
}

/// The fields of a layout as a tuple.
pub open spec fn layout(cfg: &Config) -> (u8, u8, bool, bool) {
    (cfg.width, cfg.channels, cfg.ms, cfg.be)
}

/// Bytes per frame: one sample of each channel.
pub open spec fn frame_len(c: (u8, u8, bool, bool)) -> int {
    if c.1 == 2 { 2 * c.0 } else { c.0 as int }
}

/// Sample `f` of channel `c` as stored.
pub open spec fn raw_sample(b: Seq<u8>, c: (u8, u8, bool, bool), f: int, ch: int) -> int {
    sample_at(b, f * frame_len(c) + ch * c.0, c.0, c.3)
}

/// Channel `ch` of the whole frames of `b`: the samples as stored, or with
/// mid/side the floor of the mean of the two (channel 0) and their
/// difference (channel 1).
pub open spec fn channel_spec(b: Seq<u8>, c: (u8, u8, bool, bool), ch: int) -> Seq<i32> {
    Seq::new((b.len() as int / frame_len(c)) as nat, |f: int|
        if c.2 && ch == 0 {
            ((raw_sample(b, c, f, 0) + raw_sample(b, c, f, 1)) / 2) as i32
        } else if c.2 {
            (raw_sample(b, c, f, 0) - raw_sample(b, c, f, 1)) as i32
        } else {
            raw_sample(b, c, f, ch) as i32
        })
}

proof fn lemma_sample_range(b: Seq<u8>, off: int, width: u8, be: bool)
    requires
        1 <= width <= 3,
        0 <= off,
        off + width <= b.len(),
    ensures
        -0x80_0000 <= sample_at(b, off, width, be) < 0x100_0000,
{
}

/// The channels of the whole frames of `bytes` in layout `cfg`.
pub fn channels(bytes: &[u8], cfg: &Config) -> (ch: Vec<Vec<i32>>)
    requires
        layout_ok(layout(cfg)),
    ensures
        ch@.len() == cfg.channels,
        forall|c: int| 0 <= c < cfg.channels ==> (#[trigger] ch@[c])@ == channel_spec(bytes@, layout(cfg), c),
{
    let ghost lc = layout(cfg);
    let width = cfg.width as usize;
    let frame: usize = if cfg.channels == 2 { 2 * width } else { width };
    let n = bytes.len() / frame;
    assert(n * frame <= bytes@.len()) by (nonlinear_arith)
        requires
            frame > 0,
            n == bytes@.len() as int / frame as int,
    ;
    let mut c0: Vec<i32> = Vec::new();
    let mut c1: Vec<i32> = Vec::new();
    let mut f: usize = 0;
    while f < n
        invariant
            f <= n == bytes@.len() as int / frame_len(lc),
            lc == layout(cfg),
            layout_ok(lc),
            width == cfg.width,
            frame == frame_len(lc),
            n * frame <= bytes@.len() <= usize::MAX,
            c0@ == channel_spec(bytes@, lc, 0).take(f as int),
            cfg.channels == 2 ==> c1@ == channel_spec(bytes@, lc, 1).take(f as int),
        decreases n - f,
    {
        assert(f * frame + frame <= n * frame) by (nonlinear_arith)
            requires
                f < n,
                frame > 0,
        ;
        let off = f * frame;
        assert(off == f * frame_len(lc));
        proof {
            lemma_sample_range(bytes@, off as int, cfg.width, cfg.be);
        }
        let l = read_sample(bytes, off, cfg.width, cfg.be);
        if cfg.channels == 2 {
            proof {
                lemma_sample_range(bytes@, off + width, cfg.width, cfg.be);
            }
            let r = read_sample(bytes, off + width, cfg.width, cfg.be);
            if cfg.ms {
                let t = (l + r + 0x200_0000) as u32;
                c0.push((t / 2) as i32 - 0x100_0000);
                c1.push(l - r);
            } else {
                c0.push(l);
                c1.push(r);
            }
        } else {
            c0.push(l);
        }
        f = f + 1;
        assert(c0@ =~= channel_spec(bytes@, lc, 0).take(f as int));
        assert(cfg.channels == 2 ==> c1@ =~= channel_spec(bytes@, lc, 1).take(f as int));
    }
    assert(c0@ =~= channel_spec(bytes@, lc, 0));
    assert(cfg.channels == 2 ==> c1@ =~= channel_spec(bytes@, lc, 1));
    let mut ch: Vec<Vec<i32>> = Vec::new();
    ch.push(c0);
    if cfg.channels == 2 {
        ch.push(c1);
    }
    ch
}


/// Lists of LPC predictors as plain values, one list per channel.
pub open spec fn lpc_lists_view(l: Seq<Vec<(u32, Vec<i64>)>>) -> Seq<Seq<(u32, Seq<i64>)>> {
    l.map_values(|v: Vec<(u32, Vec<i64>)>| lpc_view(v@))
}

/// The LPC predictors a channel can be tried with: coefficients that fit
/// and shifts below 64.
pub open spec fn lpc_ok(l: Seq<(u32, Seq<i64>)>) -> bool {
    l.len() + 5 <= usize::MAX && forall|i: int| 0 <= i < l.len() ==> coefs_ok(#[trigger] l[i].1) && l[i].0 < 64
}

/// The bits of layout `c`: each channel coded with the cheapest of the
/// fixed predictors and its LPC predictors `lv`.
pub open spec fn stream_spec(b: Seq<u8>, c: (u8, u8, bool, bool), lv: Seq<Seq<(u32, Seq<i64>)>>) -> Seq<u8> {
    let s0 = channel_code(channel_spec(b, c, 0), depth_spec(c.0, c.2, 0).0, lv[0]);
    if c.1 == 2 {
        s0 + channel_code(channel_spec(b, c, 1), depth_spec(c.0, c.2, 1).0, lv[1])
    } else {
        s0
    }
}

/// The body in layout `c`: the bytes after the last whole frame, then the
/// channels' bits packed into bytes.
pub open spec fn body_spec(b: Seq<u8>, c: (u8, u8, bool, bool), lv: Seq<Seq<(u32, Seq<i64>)>>) -> Seq<u8> {
    let n = b.len() as int / frame_len(c);
    b.skip(n * frame_len(c)) + packed(stream_spec(b, c, lv))
}

pub(crate) proof fn lemma_lpc_ok(lpc: Seq<(u32, Vec<i64>)>)
    requires
        lpc_ok(lpc_view(lpc)),
    ensures
        lpc.len() + 5 <= usize::MAX,
        forall|i: int| 0 <= i < lpc.len() ==> coefs_ok((#[trigger] lpc[i]).1@) && lpc[i].0 < 64,
{
    assert forall|i: int| 0 <= i < lpc.len() implies coefs_ok((#[trigger] lpc[i]).1@) && lpc[i].0 < 64 by {
        assert(lpc_view(lpc)[i] == (lpc[i].0, lpc[i].1@));
        assert(coefs_ok(lpc_view(lpc)[i].1));
    }
}

/// Codes the whole frames of `bytes` in layout `cfg`, each channel with the
/// LPC predictors `lpcs` offers it, after the bytes past the last whole
/// frame.
pub fn encode_with(bytes: &[u8], cfg: &Config, lpcs: &Vec<Vec<(u32, Vec<i64>)>>) -> (out: Vec<u8>)
    requires
        layout_ok(layout(cfg)),
        frame_len(layout(cfg)) <= bytes@.len() < 0x8000_0000,
        lpcs@.len() == cfg.channels,
        forall|c: int| 0 <= c < cfg.channels ==> lpc_ok(#[trigger] lpc_lists_view(lpcs@)[c]),
    ensures
        out@ == body_spec(bytes@, layout(cfg), lpc_lists_view(lpcs@)),
{
    let ghost lc = layout(cfg);
    let ghost lv = lpc_lists_view(lpcs@);
    let width = cfg.width as usize;
    let frame: usize = if cfg.channels == 2 { 2 * width } else { width };
    let n = bytes.len() / frame;
    assert(n * frame <= bytes@.len() && n >= 1) by (nonlinear_arith)
        requires
            frame > 0,
            frame <= bytes@.len(),
            n == bytes@.len() as int / frame as int,
    ;
    let ch = channels(bytes, cfg);
    let mut w = BitWriter::new();
    let (d0, s0) = depth_of(cfg, 0);
    assert(lv[0] == lpc_view(lpcs@[0]@));
    proof {
        lemma_lpc_ok(lpcs@[0]@);
    }
    encode_channel(ch[0].as_slice(), d0, s0, lpcs[0].as_slice(), &mut w);
    if cfg.channels == 2 {
        let (d1, s1) = depth_of(cfg, 1);
        assert(lv[1] == lpc_view(lpcs@[1]@));
        proof {
            lemma_lpc_ok(lpcs@[1]@);
        }
        encode_channel(ch[1].as_slice(), d1, s1, lpcs[1].as_slice(), &mut w);
    }
    assert(w.bits() == stream_spec(bytes@, lc, lv));
    let stream = w.finish();
    proof {
        crate::bits::lemma_bytes_of_bits(stream@);
    }
    let mut out = slices::copy(&bytes[n * frame..bytes.len()]);
    slices::append(&mut out, stream.as_slice());
    assert(out@ =~= body_spec(bytes@, lc, lv));
    out
}


/// Whether the predictors `lpc` fit: each with at most 63 coefficients
/// within 15 bits and a shift below 64.
proof fn lemma_lpc_ok_at(l: Seq<(u32, Seq<i64>)>, i: int)
    requires
        lpc_ok(l),
        0 <= i < l.len(),
    ensures
        coefs_ok(l[i].1),
        l[i].0 < 64,
{
    assert(coefs_ok(l[i].1));
}

pub fn lpc_list_fits(lpc: &Vec<(u32, Vec<i64>)>) -> (r: bool)
    ensures
        r == lpc_ok(lpc_view(lpc@)),
{
    let ghost v = lpc_view(lpc@);
    assert(v.len() == lpc@.len());
    assert forall|k: int| 0 <= k < lpc@.len() implies #[trigger] v[k] == (lpc@[k].0, lpc@[k].1@) by {}
    if lpc.len() > usize::MAX - 5 {
        return false;
    }
    let mut i: usize = 0;
    while i < lpc.len()
        invariant
            i <= lpc@.len(),
            v == lpc_view(lpc@),
            v.len() == lpc@.len(),
            forall|k: int| 0 <= k < lpc@.len() ==> #[trigger] v[k] == (lpc@[k].0, lpc@[k].1@),
            forall|k: int| 0 <= k < i ==> coefs_ok((#[trigger] lpc@[k]).1@) && lpc@[k].0 < 64,
        decreases lpc.len() - i,
    {
        let c = &lpc[i];
        assert(v[i as int] == (c.0, c.1@));
        if c.0 >= 64 || c.1.len() >= 64 {
            assert(!(coefs_ok(v[i as int].1) && v[i as int].0 < 64));
            proof {
                if lpc_ok(v) {
                    lemma_lpc_ok_at(v, i as int);
                }
            }
            return false;
        }
        let mut j: usize = 0;
        while j < c.1.len()
            invariant
                i < lpc@.len(),
                v == lpc_view(lpc@),
                v.len() == lpc@.len(),
                c == lpc@[i as int],
                v[i as int] == (c.0, c.1@),
                c.1@.len() < 64,
                j <= c.1@.len(),
                forall|t: int| 0 <= t < j ==> -16384 <= #[trigger] c.1@[t] <= 16384,
            decreases c.1.len() - j,
        {
            if c.1[j] < -16384 || c.1[j] > 16384 {
                assert(!coefs_ok(v[i as int].1));
                proof {
                    if lpc_ok(v) {
                        lemma_lpc_ok_at(v, i as int);
                    }
                }
                return false;
            }
            j = j + 1;
        }
        assert(coefs_ok(c.1@));
        i = i + 1;
    }
    assert forall|k: int| 0 <= k < v.len() implies coefs_ok(#[trigger] v[k].1) && v[k].0 < 64 by {
        assert(coefs_ok(lpc@[k].1@) && lpc@[k].0 < 64);
    }
    true
}

/// Whether `lpcs` offers predictors for every layout and channel, and all
/// of them fit.
pub fn lpc_sets_fit(lpcs: &Vec<Vec<Vec<(u32, Vec<i64>)>>>) -> (r: bool)
    ensures
        r == (lpcs@.len() == N_CONFIGS
            && (forall|ci: int| 0 <= ci < N_CONFIGS ==> (#[trigger] lpcs@[ci])@.len() == config(ci).1)
            && (forall|ci: int, c: int|
                0 <= ci < N_CONFIGS && 0 <= c < config(ci).1 ==> lpc_ok(#[trigger] lpc_sets_view(lpcs@)[ci][c]))),
{
    if lpcs.len() != N_CONFIGS as usize {
        return false;
    }
    let mut ci: usize = 0;
    while ci < lpcs.len()
        invariant
            ci <= lpcs@.len() == N_CONFIGS,
            forall|k: int| 0 <= k < ci ==> (#[trigger] lpcs@[k])@.len() == config(k).1,
            forall|k: int, c: int| 0 <= k < ci && 0 <= c < config(k).1 ==> lpc_ok(#[trigger] lpc_sets_view(lpcs@)[k][c]),
        decreases lpcs.len() - ci,
    {
        let cfg = config_at(ci as u8);
        let l = &lpcs[ci];
        assert(lpc_sets_view(lpcs@)[ci as int] == lpc_lists_view(l@));
        if l.len() != cfg.channels as usize {
            return false;
        }
        let mut c: usize = 0;
        while c < l.len()
            invariant
                ci < lpcs@.len() == N_CONFIGS,
                l == lpcs@[ci as int],
                lpc_sets_view(lpcs@)[ci as int] == lpc_lists_view(l@),
                c <= l@.len() == config(ci as int).1,
                forall|t: int| 0 <= t < c ==> lpc_ok(#[trigger] lpc_sets_view(lpcs@)[ci as int][t]),
            decreases l.len() - c,
        {
            assert(lpc_lists_view(l@)[c as int] == lpc_view(l@[c as int]@));
            if !lpc_list_fits(&l[c]) {
                return false;
            }
            c = c + 1;
        }
        ci = ci + 1;
    }
    true
}

/// Whether `b` holds at least two frames of layout `ci`.
pub open spec fn fits(b: Seq<u8>, ci: int) -> bool {
    b.len() >= 2 * frame_len(config(ci))
}

/// The LPC predictors for every layout and channel, as plain values.
pub open spec fn lpc_sets_view(l: Seq<Vec<Vec<(u32, Vec<i64>)>>>) -> Seq<Seq<Seq<(u32, Seq<i64>)>>> {
    l.map_values(|v: Vec<Vec<(u32, Vec<i64>)>>| lpc_lists_view(v@))
}

/// The first layout from `ci` on that fits `b` and gives the shortest body,
/// against the best so far (index and length).
pub open spec fn pick_layout(b: Seq<u8>, lv: Seq<Seq<Seq<(u32, Seq<i64>)>>>, ci: int, best: Option<(int, nat)>) -> Option<(int, nat)>
    decreases 13 - ci,
{
    if ci < 0 || ci >= 13 {
        best
    } else if !fits(b, ci) {
        pick_layout(b, lv, ci + 1, best)
    } else {
        let l = body_spec(b, config(ci), lv[ci]).len();
        let b2 = match best {
            None => Some((ci, l)),
            Some((bi, bl)) => if l < bl { Some((ci, l)) } else { best },
        };
        pick_layout(b, lv, ci + 1, b2)
    }
}

/// `b` coded: the index of the layout picked and its body, or the marker
/// 0xFE and `b` itself where no layout fits.
pub open spec fn encode_spec(b: Seq<u8>, lv: Seq<Seq<Seq<(u32, Seq<i64>)>>>) -> Seq<u8> {
    match pick_layout(b, lv, 0, None) {
        None => seq![0xFEu8] + b,
        Some((ci, _)) => seq![ci as u8] + body_spec(b, config(ci), lv[ci]),
    }
}

/// Codes `bytes` in every layout it holds two frames of, channels tried
/// with the LPC predictors `lpcs` gives for that layout, and keeps the
/// first shortest, after its index; stores `bytes` after 0xFE where no
/// layout fits.
pub fn encode(bytes: &[u8], lpcs: &Vec<Vec<Vec<(u32, Vec<i64>)>>>) -> (out: Vec<u8>)
    requires
        bytes@.len() < 0x8000_0000,
        lpcs@.len() == N_CONFIGS,
        forall|ci: int| 0 <= ci < N_CONFIGS ==> (#[trigger] lpcs@[ci])@.len() == config(ci).1,
        forall|ci: int, c: int|
            0 <= ci < N_CONFIGS && 0 <= c < config(ci).1 ==> lpc_ok(#[trigger] lpc_sets_view(lpcs@)[ci][c]),
    ensures
        out@ == encode_spec(bytes@, lpc_sets_view(lpcs@)),
{
    let ghost lv = lpc_sets_view(lpcs@);
    let mut best: Option<Vec<u8>> = None;
    let mut best_cfg: u8 = 0;
    let mut ci: u8 = 0;
    while ci < N_CONFIGS
        invariant
            ci <= N_CONFIGS,
            bytes@.len() < 0x8000_0000,
            lpcs@.len() == N_CONFIGS,
            lv == lpc_sets_view(lpcs@),
            forall|ci: int| 0 <= ci < N_CONFIGS ==> (#[trigger] lpcs@[ci])@.len() == config(ci).1,
            forall|ci: int, c: int|
                0 <= ci < N_CONFIGS && 0 <= c < config(ci).1 ==> lpc_ok(#[trigger] lpc_sets_view(lpcs@)[ci][c]),
            best is Some ==> best_cfg < ci,
            best is Some ==> best->0@ == body_spec(bytes@, config(best_cfg as int), lv[best_cfg as int]),
            pick_layout(bytes@, lv, 0, None) == pick_layout(bytes@, lv, ci as int, match best {
                None => None,
                Some(v) => Some((best_cfg as int, v@.len())),
            }),
        decreases N_CONFIGS - ci,
    {
        let cfg = config_at(ci);
        proof {
            lemma_config_bounds(ci as int);
        }
        let width = cfg.width as usize;
        let frame: usize = if cfg.channels == 2 { 2 * width } else { width };
        if bytes.len() >= frame * 2 {
            let l = &lpcs[ci as usize];
            assert(lv[ci as int] == lpc_lists_view(l@));
            assert forall|c: int| 0 <= c < cfg.channels implies lpc_ok(#[trigger] lpc_lists_view(l@)[c]) by {
                assert(lpc_ok(lpc_sets_view(lpcs@)[ci as int][c]));
            }
            let body = encode_with(bytes, &cfg, l);
            let better = match &best {
                None => true,
                Some(b) => body.len() < b.len(),
            };
            if better {
                best = Some(body);
                best_cfg = ci;
            }
        }
        ci = ci + 1;
    }
    match best {
        None => {
            let mut out: Vec<u8> = Vec::new();
            out.push(0xFE);
            slices::append(&mut out, bytes);
            assert(out@ =~= encode_spec(bytes@, lv));
            out
        },
        Some(body) => {
            let mut out: Vec<u8> = Vec::new();
            out.push(best_cfg);
            slices::append(&mut out, body.as_slice());
            assert(out@ =~= encode_spec(bytes@, lv));
            out
        },
    }
}


// The encoder's integer side: bit packing, zigzag and Rice codes, the
// choice of Rice parameters and partitions, and the residuals of a
// predictor.

/// The `n` low bits of `v`, most significant first.
pub open spec fn msb_bits(v: nat, n: nat) -> Seq<u8>
    decreases n,
{
    if n == 0 { Seq::empty() } else { msb_bits(v / 2, (n - 1) as nat) + seq![(v % 2) as u8] }
}

pub(crate) proof fn lemma_msb_bits_len(v: nat, n: nat)
    ensures
        msb_bits(v, n).len() == n,
    decreases n,
{
    if n > 0 {
        lemma_msb_bits_len(v / 2, (n - 1) as nat);
    }
}

proof fn lemma_msb_bits_step(v: nat, k: nat, n: nat)
    requires
        1 <= k <= n,
    ensures
        msb_bits(v / pow2(k) as nat, (n - k) as nat) + seq![((v / pow2((k - 1) as nat) as nat) % 2) as u8]
            == msb_bits(v / pow2((k - 1) as nat) as nat, (n - k + 1) as nat),
{
    vstd::arithmetic::power2::lemma_pow2_unfold(k);
    vstd::arithmetic::power2::lemma_pow2_pos((k - 1) as nat);
    vstd::arithmetic::div_mod::lemma_div_denominator(v as int, pow2((k - 1) as nat) as int, 2);
    vstd::arithmetic::mul::lemma_mul_is_commutative(2, pow2((k - 1) as nat) as int);
}

proof fn lemma_bit_and_one(b: u8)
    by (bit_vector)
    requires
        b < 2,
    ensures
        b & 1 == b,
{
}

/// Writes the `n` low bits of `val`, most significant first.
pub fn put(w: &mut BitWriter, val: u64, n: u32)
    requires
        old(w).wf(),
        n <= 64,
    ensures
        final(w).wf(),
        final(w).bits() == old(w).bits() + msb_bits(val as nat, n as nat),
{
    let ghost b0 = w.bits();
    let mut i: u32 = n;
    proof {
        vstd::arithmetic::power2::lemma2_to64();
        vstd::arithmetic::power2::lemma2_to64_rest();
        assert(msb_bits(val as nat / pow2(n as nat) as nat, 0) =~= Seq::<u8>::empty());
    }
    while i > 0
        invariant
            i <= n <= 64,
            w.wf(),
            w.bits() == b0 + msb_bits(val as nat / pow2(i as nat) as nat, (n - i) as nat),
        decreases i,
    {
        i = i - 1;
        let ghost before = w.bits();
        let bit = (val >> i) & 1;
        proof {
            vstd::bits::lemma_u64_shr_is_div(val, i as u64);
            vstd::bits::lemma_u64_low_bits_mask_is_mod(val >> i, 1);
            vstd::arithmetic::power2::lemma2_to64();
            assert(vstd::bits::low_bits_mask(1) == 1) by {
                vstd::bits::lemma_low_bits_mask_values();
            }
            lemma_msb_bits_step(val as nat, (i + 1) as nat, n as nat);
        }
        w.write_bit(bit as u8);
        proof {
            lemma_bit_and_one(bit as u8);
            assert(w.bits() =~= b0 + msb_bits(val as nat / pow2(i as nat) as nat, (n - i) as nat));
        }
    }
    proof {
        vstd::arithmetic::power2::lemma2_to64();
        assert(val as nat / 1 == val as nat);
    }
}

/// The zigzag form of `x`: 0, -1, 1, -2, ... as 0, 1, 2, 3, ...
pub open spec fn zig(x: i64) -> nat {
    if x >= 0 { (2 * x) as nat } else { (-2 * x - 1) as nat }
}

/// Maps a signed value to an unsigned one, small magnitudes to small
/// numbers.
pub fn zigzag(x: i64) -> (u: u64)
    ensures
        u == zig(x),
        // the same as `((x << 1) ^ (x >> 63)) as u64`
{
    if x >= 0 {
        (x as u64) * 2
    } else {
        ((-(x + 1)) as u64) * 2 + 1
    }
}

/// Zigzag decoding undoes zigzag encoding.
pub proof fn lemma_unzig_zig(x: i64)
    ensures
        zig(x) <= u64::MAX,
        (if zig(x) % 2 == 0 { (zig(x) / 2) as int } else { -((zig(x) / 2) as int) - 1 }) == x,
{
}

/// The Rice code of `u` with parameter `k`: the quotient by `2^k` in unary
/// (ones then a zero), then the `k` low bits.
pub open spec fn rice_bits(u: nat, k: nat) -> Seq<u8> {
    Seq::new(u / pow2(k), |i: int| 1u8) + seq![0u8] + msb_bits(u, k)
}

proof fn lemma_msb_bits_mod(v: nat, n: nat)
    ensures
        msb_bits(v % pow2(n), n) == msb_bits(v, n),
    decreases n,
{
    vstd::arithmetic::power2::lemma_pow2_pos(n);
    if n > 0 {
        vstd::arithmetic::power2::lemma_pow2_unfold(n);
        vstd::arithmetic::power2::lemma_pow2_pos((n - 1) as nat);
        let p = pow2((n - 1) as nat) as int;
        assert(pow2(n) == 2 * p);
        let a = (v / 2) as int % p;
        vstd::arithmetic::div_mod::lemma_mod_breakdown(v as int, 2, p);
        assert(v % pow2(n) == 2 * a + v % 2);
        vstd::arithmetic::div_mod::lemma_mod_bound((v / 2) as int, p);
        let m = (v % pow2(n)) as nat;
        assert(m / 2 == a);
        assert(m % 2 == v % 2);
        vstd::arithmetic::div_mod::lemma_small_mod(a as nat, p as nat);
        lemma_msb_bits_mod(v / 2, (n - 1) as nat);
        lemma_msb_bits_mod(m / 2, (n - 1) as nat);
        assert((m / 2) % (p as nat) == (v / 2) % (p as nat));
    }
}


proof fn lemma_low_mask(x: u64, k: u32)
    requires
        k < 64,
    ensures
        (1u64 << (k as u64)) as int == pow2(k as nat),
        1 <= (1u64 << (k as u64)),
        x & (((1u64 << (k as u64)) - 1) as u64) == x % (pow2(k as nat) as u64),
        pow2(k as nat) <= u64::MAX,
{
    vstd::arithmetic::power2::lemma_pow2_strictly_increases(k as nat, 64);
    vstd::arithmetic::power2::lemma2_to64_rest();
    vstd::bits::lemma_u64_shl_is_mul(1, k as u64);
    vstd::bits::lemma_u64_low_bits_mask_is_mod(x, k as nat);
    vstd::arithmetic::power2::lemma_pow2_pos(k as nat);
    assert(vstd::bits::low_bits_mask(k as nat) == pow2(k as nat) - 1);
}

/// Writes the `bits` low bits of `v` in two's complement.
pub fn put_signed(w: &mut BitWriter, v: i64, bits: u32)
    requires
        old(w).wf(),
        bits < 64,
    ensures
        final(w).wf(),
        final(w).bits() == old(w).bits() + msb_bits((v as u64) as nat, bits as nat),
{
    let x = #[verifier::truncate] (v as u64);
    proof {
        lemma_low_mask(x, bits);
        lemma_msb_bits_mod(x as nat, bits as nat);
    }
    put(w, x & ((1u64 << (bits as u64)) - 1), bits);
}

/// Writes the Rice code of `u` with parameter `k`.
pub fn rice_put(w: &mut BitWriter, u: u64, k: u32)
    requires
        old(w).wf(),
        k < 64,
    ensures
        final(w).wf(),
        final(w).bits() == old(w).bits() + rice_bits(u as nat, k as nat),
{
    let ghost b0 = w.bits();
    let q = u >> k;
    proof {
        vstd::bits::lemma_u64_shr_is_div(u, k as u64);
    }
    let mut i: u64 = 0;
    while i < q
        invariant
            i <= q,
            w.wf(),
            w.bits() == b0 + Seq::new(i as nat, |j: int| 1u8),
        decreases q - i,
    {
        proof {
            lemma_bit_and_one(1);
        }
        w.write_bit(1);
        i = i + 1;
        assert(w.bits() =~= b0 + Seq::new(i as nat, |j: int| 1u8));
    }
    proof {
        lemma_bit_and_one(0);
    }
    w.write_bit(0);
    let ghost b1 = w.bits();
    if k > 0 {
        proof {
            lemma_low_mask(u, k);
            lemma_msb_bits_mod(u as nat, k as nat);
        }
        put(w, u & ((1u64 << (k as u64)) - 1), k);
    } else {
        assert(msb_bits(u as nat, 0) =~= Seq::<u8>::empty());
    }
    assert(w.bits() =~= b0 + rice_bits(u as nat, k as nat));
}


/// The zigzag forms of `res[..i]`, added up.
pub open spec fn zig_sum(res: Seq<i32>, i: int) -> nat
    decreases i,
{
    if i <= 0 { 0 } else { zig_sum(res, i - 1) + zig(res[i - 1] as i64) }
}

/// The bits the Rice codes of `res[..i]` take with parameter `k`.
pub open spec fn rice_cost(res: Seq<i32>, k: nat, i: int) -> nat
    decreases i,
{
    if i <= 0 { 0 } else { rice_cost(res, k, i - 1) + zig(res[i - 1] as i64) / pow2(k) + 1 + k }
}

/// The Rice parameter the search centres on: one less than the bit length
/// of the mean zigzag value (0 at least).
pub open spec fn k_centre(res: Seq<i32>) -> nat {
    let n: nat = if res.len() == 0 { 1 } else { res.len() };
    let mean = zig_sum(res, res.len() as int) / n;
    let bl = 64 - vstd::std_specs::bits::u64_leading_zeros(mean as u64);
    if bl >= 1 { (bl - 1) as nat } else { 0 }
}

/// The first parameter from `k` to `hi` whose codes take the fewest bits,
/// against the best so far.
pub open spec fn best_k_from(res: Seq<i32>, k: nat, hi: nat, best: (nat, nat)) -> (nat, nat)
    decreases hi + 1 - k,
{
    if k > hi {
        best
    } else {
        let c = rice_cost(res, k, res.len() as int);
        best_k_from(res, k + 1, hi, if c < best.1 { (k, c) } else { best })
    }
}

/// The Rice parameter for `res` and the bits its codes take: the first best
/// of the parameters within two of the centre, at most 30.
pub open spec fn best_k_spec(res: Seq<i32>) -> (nat, nat) {
    let c = k_centre(res);
    let lo: nat = if c >= 2 { (c - 2) as nat } else { 0 };
    let hi: nat = if c + 2 < 30 { c + 2 } else { 30 };
    best_k_from(res, lo, hi, (0, u64::MAX as nat))
}

pub(crate) proof fn lemma_zig_i32(r: i32)
    ensures
        zig(r as i64) < 0x1_0000_0000,
{
}

proof fn lemma_zig_sum_bound(res: Seq<i32>, i: int)
    requires
        0 <= i <= res.len(),
    ensures
        zig_sum(res, i) <= i * 0xFFFF_FFFF,
    decreases i,
{
    if i > 0 {
        lemma_zig_sum_bound(res, i - 1);
        lemma_zig_i32(res[i - 1]);
    }
}

proof fn lemma_rice_cost_bound(res: Seq<i32>, k: nat, i: int)
    requires
        0 <= i <= res.len(),
        k <= 30,
    ensures
        rice_cost(res, k, i) <= i * 0x1_0000_001F,
    decreases i,
{
    if i > 0 {
        lemma_rice_cost_bound(res, k, i - 1);
        lemma_zig_i32(res[i - 1]);
        vstd::arithmetic::power2::lemma_pow2_pos(k);
        vstd::arithmetic::div_mod::lemma_div_is_ordered_by_denominator(zig(res[i - 1] as i64) as int, 1, pow2(k) as int);
    }
}

/// The Rice parameter for `res` (and the bits its codes take).
pub fn best_k(res: &[i32]) -> (r: (u32, u64))
    requires
        res@.len() < 0x8000_0000,
    ensures
        (r.0 as nat, r.1 as nat) == best_k_spec(res@),
        r.0 <= 30,
        r.1 <= res@.len() * 0x1_0000_001F,
{
    let mut sum: u64 = 0;
    let mut i: usize = 0;
    while i < res.len()
        invariant
            i <= res@.len() < 0x8000_0000,
            sum == zig_sum(res@, i as int),
        decreases res@.len() - i,
    {
        proof {
            lemma_zig_sum_bound(res@, i as int + 1);
        }
        sum = sum + zigzag(res[i] as i64);
        i = i + 1;
    }
    let n: u64 = if res.len() == 0 { 1 } else { res.len() as u64 };
    let mean = sum / n;
    let lz = mean.leading_zeros();
    proof {
        vstd::std_specs::bits::axiom_u64_leading_zeros(mean);
        lemma_zig_sum_bound(res@, res@.len() as int);
        lemma_mean_small(sum, n);
        if lz < 32 {
            lemma_high_bit(mean, (63 - lz) as u64);
        }
    }
    let start: u32 = if 64 - lz >= 1 { 64 - lz - 1 } else { 0 };
    let lo: u32 = if start >= 2 { start - 2 } else { 0 };
    let hi: u32 = if start + 2 < 30 { start + 2 } else { 30 };
    let mut best: (u32, u64) = (0, u64::MAX);
    let mut k: u32 = lo;
    while k <= hi
        invariant
            lo <= k,
            k <= hi + 1 || k == lo,
            hi <= 30,
            res@.len() < 0x8000_0000,
            best_k_spec(res@) == best_k_from(res@, k as nat, hi as nat, (best.0 as nat, best.1 as nat)),
        decreases hi + 1 - k,
    {
        let mut bits: u64 = 0;
        let mut j: usize = 0;
        while j < res.len()
            invariant
                j <= res@.len() < 0x8000_0000,
                k <= 30,
                bits == rice_cost(res@, k as nat, j as int),
            decreases res@.len() - j,
        {
            let z = zigzag(res[j] as i64);
            proof {
                lemma_rice_cost_bound(res@, k as nat, j as int + 1);
                vstd::bits::lemma_u64_shr_is_div(z, k as u64);
            }
            bits = bits + (z >> (k as u64)) + 1 + k as u64;
            j = j + 1;
        }
        if bits < best.1 {
            best = (k, bits);
        }
        k = k + 1;
    }
    proof {
        lemma_best_k_from_nonempty(res@, lo as nat, hi as nat, (0, u64::MAX as nat));
    }
    best
}

proof fn lemma_mean_small(sum: u64, n: u64)
    requires
        n >= 1,
        sum <= n * 0xFFFF_FFFF,
    ensures
        sum / n <= 0xFFFF_FFFF,
{
    vstd::arithmetic::div_mod::lemma_div_is_ordered(sum as int, n * 0xFFFF_FFFF, n as int);
    vstd::arithmetic::mul::lemma_mul_is_commutative(n as int, 0xFFFF_FFFF);
    vstd::arithmetic::div_mod::lemma_div_multiples_vanish(0xFFFF_FFFF, n as int);
}

proof fn lemma_k_centre_small(res: Seq<i32>)
    requires
        res.len() < 0x8000_0000,
    ensures
        k_centre(res) <= 31,
{
    lemma_zig_sum_bound(res, res.len() as int);
    let n: nat = if res.len() == 0 { 1 } else { res.len() };
    let sum = zig_sum(res, res.len() as int);
    lemma_mean_small(sum as u64, n as u64);
    let mean = (sum / n) as u64;
    vstd::std_specs::bits::axiom_u64_leading_zeros(mean);
    let lz = vstd::std_specs::bits::u64_leading_zeros(mean);
    if lz < 32 {
        lemma_high_bit(mean, (63 - lz) as u64);
    }
}

proof fn lemma_high_bit(i: u64, j: u64)
    by (bit_vector)
    requires
        32 <= j < 64,
        (i >> j) & 1u64 != 0u64,
    ensures
        i > 0xFFFF_FFFF,
{
}

proof fn lemma_best_k_from_le(res: Seq<i32>, k: nat, hi: nat, best: (nat, nat), b: nat)
    requires
        hi <= 30,
        best.1 <= b,
        res.len() * 0x1_0000_001F <= b,
    ensures
        best_k_from(res, k, hi, best).1 <= b,
        best.0 <= 30 ==> best_k_from(res, k, hi, best).0 <= 30,
    decreases hi + 1 - k,
{
    if k <= hi {
        lemma_rice_cost_bound(res, k, res.len() as int);
        let c = rice_cost(res, k, res.len() as int);
        lemma_best_k_from_le(res, k + 1, hi, if c < best.1 { (k, c) } else { best }, b);
    }
}

pub(crate) proof fn lemma_best_k_from_nonempty(res: Seq<i32>, k: nat, hi: nat, best: (nat, nat))
    requires
        k <= hi <= 30,
        best.0 <= 30,
    ensures
        best_k_from(res, k, hi, best).1 <= res.len() * 0x1_0000_001F,
        best_k_from(res, k, hi, best).0 <= 30,
{
    lemma_rice_cost_bound(res, k, res.len() as int);
    let c = rice_cost(res, k, res.len() as int);
    let b2 = if c < best.1 { (k, c) } else { best };
    lemma_best_k_from_le(res, k + 1, hi, b2, res.len() * 0x1_0000_001F);
}


/// The bits the partitions of `res` take from `start` on, cut every
/// `chunk` values: per partition a 5-bit parameter and its Rice codes.
pub open spec fn chunks_cost(res: Seq<i32>, chunk: nat, start: int) -> nat
    decreases res.len() - start,
{
    if chunk == 0 || start < 0 || start >= res.len() {
        0
    } else {
        let end = if start + chunk < res.len() { start + chunk } else { res.len() as int };
        5 + best_k_spec(res.subrange(start, end)).1 + chunks_cost(res, chunk, end)
    }
}

/// How many values each of the `2^p` partitions of `n` values holds: `n`
/// over `2^p` rounded up, at least one.
pub open spec fn part_chunk(n: nat, p: nat) -> nat {
    let c = (n + pow2(p) - 1) / (pow2(p) as int);
    if c >= 1 { c as nat } else { 1 }
}

/// The first partition order from `p` to 6 whose codes take the fewest
/// bits (orders with more partitions than values are not tried), against
/// the best so far.
pub open spec fn best_p_from(res: Seq<i32>, p: nat, best: (nat, nat)) -> (nat, nat)
    decreases 7 - p,
{
    if p > 6 || pow2(p) > res.len() {
        best
    } else {
        let bits = 3 + chunks_cost(res, part_chunk(res.len(), p), 0);
        best_p_from(res, p + 1, if bits < best.1 { (p, bits) } else { best })
    }
}

proof fn lemma_chunks_cost_bound(res: Seq<i32>, chunk: nat, start: int)
    requires
        chunk >= 1,
        res.len() < 0x8000_0000,
        0 <= start <= res.len(),
    ensures
        chunks_cost(res, chunk, start) <= (res.len() - start) * 0x1_0000_0024,
    decreases res.len() - start,
{
    if start < res.len() {
        let end = if start + chunk < res.len() { start + chunk } else { res.len() as int };
        let c = res.subrange(start, end);
        lemma_chunks_cost_bound(res, chunk, end);
        let kc = k_centre(c);
        let lo: nat = if kc >= 2 { (kc - 2) as nat } else { 0 };
        let hi: nat = if kc + 2 < 30 { kc + 2 } else { 30 };
        lemma_k_centre_small(c);
        lemma_best_k_from_nonempty(c, lo, hi, (0, u64::MAX as nat));
    }
}

/// The partition order for the residuals `res`: the first of 0 to 6 whose
/// partitions' codes take the fewest bits.
pub fn partition_p(res: &[i32]) -> (p: u32)
    requires
        res@.len() < 0x8000_0000,
    ensures
        p as nat == best_p_from(res@, 0, (0, u64::MAX as nat)).0,
        p <= 6,
{
    let n = res.len();
    let mut best: (u32, u64) = (0, u64::MAX);
    let mut p: u32 = 0;
    let mut done = false;
    while p <= 6 && !done
        invariant
            p <= 7,
            n == res@.len() < 0x8000_0000,
            best.0 <= 6,
            done ==> p <= 6 && pow2(p as nat) > n,
            best_p_from(res@, 0, (0, u64::MAX as nat)) == best_p_from(res@, p as nat, (best.0 as nat, best.1 as nat)),
        decreases 7 - p, (if done { 0int } else { 1int }),
    {
        proof {
            vstd::arithmetic::power2::lemma2_to64();
            vstd::bits::lemma_usize_shl_is_mul(1, p as usize);
        }
        let parts = 1usize << (p as usize);
        if parts > n {
            done = true;
        } else {
            let q = (n + parts - 1) / parts;
            let chunk = if q >= 1 { q } else { 1 };
            let mut bits: u64 = 3;
            let mut start: usize = 0;
            while start < n
                invariant
                    start <= n == res@.len() < 0x8000_0000,
                    chunk >= 1,
                    chunk == part_chunk(n as nat, p as nat),
                    3 + chunks_cost(res@, chunk as nat, 0) == bits + chunks_cost(res@, chunk as nat, start as int),
                    bits <= 3 + start * 0x1_0000_0024,
                decreases n - start,
            {
                let end = if chunk < n - start { start + chunk } else { n };
                let c = &res[start..end];
                let (_, cost) = best_k(c);
                proof {
                    lemma_chunks_cost_bound(res@, chunk as nat, start as int);
                    assert(c@ == res@.subrange(start as int, end as int));
                }
                bits = bits + 5 + cost;
                start = end;
            }
            if bits < best.1 {
                best = (p, bits);
            }
            p = p + 1;
        }
    }
    best.0
}


/// The residuals of `x` under the predictor `q`, `shift`: each sample from
/// `q.len()` on less its prediction shifted right, cut to 32 bits.
pub open spec fn residual_spec(x: Seq<i32>, q: Seq<i64>, shift: u32) -> Seq<i32> {
    Seq::new((x.len() - q.len()) as nat, |t: int| {
        let i = t + q.len();
        (x[i] as int - ((predict(x, q, i, q.len() as int) as i64) >> shift)) as i32
    })
}

/// The residuals of `x` under the predictor `q`, `shift`.
pub fn residual(x: &[i32], q: &[i64], shift: u32) -> (res: Vec<i32>)
    requires
        coefs_ok(q@),
        q@.len() <= x@.len(),
        shift < 64,
    ensures
        res@ == residual_spec(x@, q@, shift),
{
    let order = q.len();
    let mut res: Vec<i32> = Vec::new();
    let mut i: usize = order;
    while i < x.len()
        invariant
            order == q@.len() <= i <= x@.len(),
            coefs_ok(q@),
            shift < 64,
            res@ == residual_spec(x@, q@, shift).take(i - order),
        decreases x@.len() - i,
    {
        let mut acc: i64 = 0;
        let mut j: usize = 0;
        while j < order
            invariant
                j <= order,
                order == q@.len() <= i < x@.len(),
                coefs_ok(q@),
                acc == predict(x@, q@, i as int, j as int),
            decreases order - j,
        {
            proof {
                lemma_predict_bound(x@, q@, i as int, j as int + 1);
            }
            let c = q[j];
            let s = x[i - 1 - j] as i64;
            assert(-0x4000_0000_0000 <= c * s <= 0x4000_0000_0000) by (nonlinear_arith)
                requires
                    -16384 <= c <= 16384,
                    -0x8000_0000 <= s < 0x8000_0000,
            ;
            acc = acc + c * s;
            j = j + 1;
        }
        proof {
            lemma_predict_bound(x@, q@, i as int, order as int);
        }
        let sh = acc >> shift;
        proof {
            lemma_shift_bound(acc, shift);
        }
        let v = #[verifier::truncate] ((x[i] as i64 - sh) as i32);
        res.push(v);
        i = i + 1;
        assert(res@ =~= residual_spec(x@, q@, shift).take(i - order));
    }
    assert(residual_spec(x@, q@, shift).take(x@.len() - order) =~= residual_spec(x@, q@, shift));
    res
}

proof fn lemma_shift_bound(acc: i64, shift: u32)
    by (bit_vector)
    requires
        -0x40_0000_0000_0000 <= acc <= 0x40_0000_0000_0000,
        shift < 64,
    ensures
        -0x40_0000_0000_0000 <= acc >> shift <= 0x40_0000_0000_0000,
{
}

proof fn lemma_wrap_back(xi: i32, p: i64)
    by (bit_vector)
    requires
        -0x40_0000_0000_0000 <= p <= 0x40_0000_0000_0000,
    ensures
        ((((xi as i64 - p) as i32) as i64 + p) as i32) == xi,
{
}

/// The predictor is reversible: restoring the residuals of `x` from its
/// first `q.len()` samples gives `x` back.
pub proof fn lemma_restore_residual(x: Seq<i32>, q: Seq<i64>, shift: u32)
    requires
        coefs_ok(q),
        q.len() <= x.len(),
        shift < 64,
    ensures
        restored(x.take(q.len() as int), residual_spec(x, q, shift), q, shift, x.len() as int) == x,
{
    lemma_restore_prefix(x, q, shift, x.len() as int);
    assert(x.take(x.len() as int) =~= x);
}

proof fn lemma_predict_prefix(x: Seq<i32>, y: Seq<i32>, q: Seq<i64>, i: int, j: int)
    requires
        0 <= j <= i <= x.len(),
        i <= y.len(),
        forall|k: int| 0 <= k < i ==> #[trigger] x[k] == y[k],
    ensures
        predict(x, q, i, j) == predict(y, q, i, j),
    decreases j,
{
    if j > 0 {
        lemma_predict_prefix(x, y, q, i, j - 1);
    }
}

proof fn lemma_restore_prefix(x: Seq<i32>, q: Seq<i64>, shift: u32, n: int)
    requires
        coefs_ok(q),
        q.len() <= n <= x.len(),
        shift < 64,
    ensures
        restored(x.take(q.len() as int), residual_spec(x, q, shift), q, shift, n) == x.take(n),
    decreases n,
{
    if n > q.len() {
        lemma_restore_prefix(x, q, shift, n - 1);
        let prev = x.take(n - 1);
        let i = n - 1;
        lemma_predict_prefix(prev, x, q, i, q.len() as int);
        lemma_predict_bound(x, q, i, q.len() as int);
        let p = predict(x, q, i, q.len() as int) as i64;
        lemma_shift_bound(p, shift);
        lemma_wrap_back(x[i], p >> shift);
        assert(prev.push(x[i]) =~= x.take(n));
    } else {
        assert(x.take(q.len() as int) =~= x.take(n));
    }
}


/// The fixed predictors' coefficients by order (none past order 4).
pub open spec fn fixed_spec(order: int) -> Seq<i64> {
    if order == 1 {
        seq![1i64]
    } else if order == 2 {
        seq![2i64, -1i64]
    } else if order == 3 {
        seq![3i64, -3i64, 1i64]
    } else if order == 4 {
        seq![4i64, -6i64, 4i64, -1i64]
    } else {
        Seq::empty()
    }
}

/// LPC predictors as plain values: shift and coefficients.
pub open spec fn lpc_view(lpc: Seq<(u32, Vec<i64>)>) -> Seq<(u32, Seq<i64>)> {
    lpc.map_values(|c: (u32, Vec<i64>)| (c.0, c.1@))
}

/// The predictors a channel tries, in order: the fixed ones of order 0 to
/// 4, then the LPC ones given (each: LPC or not, coefficients, shift).
pub open spec fn channel_cands(lpc: Seq<(u32, Seq<i64>)>) -> Seq<(bool, Seq<i64>, u32)> {
    Seq::new(5, |o: int| (false, fixed_spec(o), 0u32)) + lpc.map_values(|c: (u32, Seq<i64>)| (true, c.1, c.0))
}

/// The bits a predictor costs on `x`: its header, the warm-up samples, the
/// partition order and the best Rice codes of its residuals.
pub open spec fn cand_total(x: Seq<i32>, depth: u32, c: (bool, Seq<i64>, u32)) -> nat {
    let header: nat = if c.0 { 11 + c.1.len() * 15 } else { 4 };
    header + c.1.len() * (depth as nat) + 5 + best_k_spec(residual_spec(x, c.1, c.2)).1
}

/// The first predictor from `i` on with fewer coefficients than `x` has
/// samples and the fewest bits, against the best so far.
pub open spec fn pick_cand(x: Seq<i32>, depth: u32, cs: Seq<(bool, Seq<i64>, u32)>, i: int, best: Option<(int, nat)>) -> Option<(int, nat)>
    decreases cs.len() - i,
{
    if i < 0 || i >= cs.len() {
        best
    } else if cs[i].1.len() >= x.len() {
        pick_cand(x, depth, cs, i + 1, best)
    } else {
        let t = cand_total(x, depth, cs[i]);
        let b2 = match best {
            None => Some((i, t)),
            Some((bi, bt)) => if t < bt { Some((i, t)) } else { best },
        };
        pick_cand(x, depth, cs, i + 1, b2)
    }
}

/// The coefficients `q[..j]`, 15 bits each.
pub open spec fn coef_bits(q: Seq<i64>, j: int) -> Seq<u8>
    decreases j,
{
    if j <= 0 { Seq::empty() } else { coef_bits(q, j - 1) + msb_bits((q[j - 1] as u64) as nat, COEF_BITS as nat) }
}

/// The warm-up samples `x[..j]`, `depth` bits each.
pub open spec fn warm_bits(x: Seq<i32>, j: int, depth: u32) -> Seq<u8>
    decreases j,
{
    if j <= 0 { Seq::empty() } else { warm_bits(x, j - 1, depth) + msb_bits((x[j - 1] as u64) as nat, depth as nat) }
}

/// The Rice codes of `c[..j]` with parameter `k`.
pub open spec fn rice_all(c: Seq<i32>, k: nat, j: int) -> Seq<u8>
    decreases j,
{
    if j <= 0 { Seq::empty() } else { rice_all(c, k, j - 1) + rice_bits(zig(c[j - 1] as i64), k) }
}

/// The partitions of `res` from `start` on, `chunk` values each: the
/// parameter in 5 bits, then the Rice codes.
pub open spec fn part_bits(res: Seq<i32>, chunk: nat, start: int) -> Seq<u8>
    decreases res.len() - start,
{
    if chunk == 0 || start < 0 || start >= res.len() {
        Seq::empty()
    } else {
        let end = if start + chunk < res.len() { start + chunk } else { res.len() as int };
        let c = res.subrange(start, end);
        let k = best_k_spec(c).0;
        msb_bits(k, 5) + rice_all(c, k, c.len() as int) + part_bits(res, chunk, end)
    }
}

/// The head of a channel coded with the predictor `c`: whether it is LPC,
/// then its order (and, for LPC, its shift and coefficients).
pub open spec fn head_bits(c: (bool, Seq<i64>, u32)) -> Seq<u8> {
    let order = c.1.len();
    if c.0 {
        seq![1u8] + msb_bits(order, 6) + msb_bits(c.2 as nat, 4) + coef_bits(c.1, order as int)
    } else {
        seq![0u8] + msb_bits(order, 3)
    }
}

/// The residuals `res` coded: the partition order, then the partitions.
pub open spec fn residual_bits(res: Seq<i32>) -> Seq<u8> {
    let p = best_p_from(res, 0, (0, u64::MAX as nat)).0;
    msb_bits(p, 3) + part_bits(res, part_chunk(res.len(), p), 0)
}

/// A channel coded with the predictor `c`: its head, the warm-up samples
/// and its residuals.
pub open spec fn channel_bits(x: Seq<i32>, depth: u32, c: (bool, Seq<i64>, u32)) -> Seq<u8> {
    head_bits(c) + warm_bits(x, c.1.len() as int, depth) + residual_bits(residual_spec(x, c.1, c.2))
}

/// A channel coded with the predictor the encoder picks among `lpc` and the
/// fixed ones.
pub open spec fn channel_code(x: Seq<i32>, depth: u32, lpc: Seq<(u32, Seq<i64>)>) -> Seq<u8> {
    let cs = channel_cands(lpc);
    channel_bits(x, depth, cs[pick_cand(x, depth, cs, 0, None).unwrap().0])
}


fn write_rice_chunk(w: &mut BitWriter, c: &[i32], k: u32)
    requires
        old(w).wf(),
        k <= 30,
    ensures
        final(w).wf(),
        final(w).bits() == old(w).bits() + rice_all(c@, k as nat, c@.len() as int),
{
    let ghost b0 = w.bits();
    let mut t: usize = 0;
    while t < c.len()
        invariant
            t <= c@.len(),
            k <= 30,
            w.wf(),
            w.bits() == b0 + rice_all(c@, k as nat, t as int),
        decreases c@.len() - t,
    {
        let z = zigzag(c[t] as i64);
        rice_put(w, z, k);
        t = t + 1;
        assert(w.bits() =~= b0 + rice_all(c@, k as nat, t as int));
    }
}

fn write_parts(w: &mut BitWriter, res: &[i32], chunk: usize)
    requires
        old(w).wf(),
        chunk >= 1,
        res@.len() < 0x8000_0000,
    ensures
        final(w).wf(),
        final(w).bits() == old(w).bits() + part_bits(res@, chunk as nat, 0),
{
    let ghost b0 = w.bits();
    let n = res.len();
    let mut start: usize = 0;
    while start < n
        invariant
            start <= n == res@.len() < 0x8000_0000,
            chunk >= 1,
            w.wf(),
            b0 + part_bits(res@, chunk as nat, 0) == w.bits() + part_bits(res@, chunk as nat, start as int),
        decreases n - start,
    {
        let end = if chunk < n - start { start + chunk } else { n };
        let c = &res[start..end];
        assert(c@ == res@.subrange(start as int, end as int));
        let (k, _) = best_k(c);
        let ghost before = w.bits();
        put(w, k as u64, 5);
        write_rice_chunk(w, c, k);
        assert(before + part_bits(res@, chunk as nat, start as int) =~= w.bits() + part_bits(res@, chunk as nat, end as int));
        start = end;
    }
    assert(part_bits(res@, chunk as nat, n as int) =~= Seq::<u8>::empty());
}

pub(crate) proof fn lemma_fixed_ok(o: int)
    ensures
        coefs_ok(fixed_spec(o)),
        fixed_spec(o).len() <= 4,
{
}

/// What a predictor costs on `x`, if it has fewer coefficients than `x` has
/// samples.
fn cand_cost(x: &[i32], depth: u32, is_lpc: bool, q: &[i64], shift: u32) -> (r: Option<u64>)
    requires
        1 <= x@.len() < 0x8000_0000,
        depth < 64,
        coefs_ok(q@),
        shift < 64,
    ensures
        q@.len() >= x@.len() ==> r is None,
        q@.len() < x@.len() ==> r == Some(cand_total(x@, depth, (is_lpc, q@, shift)) as u64)
            && cand_total(x@, depth, (is_lpc, q@, shift)) < 0x8000_0100_0000_0000,
{
    if q.len() >= x.len() {
        return None;
    }
    let res = residual(x, q, shift);
    let (_, res_bits) = best_k(res.as_slice());
    let order = q.len() as u64;
    let header: u64 = if is_lpc { 11 + order * 15 } else { 4 };
    assert(order * (depth as u64) <= 64 * 64) by (nonlinear_arith)
        requires
            order < 64,
            depth < 64,
    ;
    assert(res_bits <= 0x8000_0000 * 0x1_0000_001F);
    Some(header + order * (depth as u64) + 5 + res_bits)
}


proof fn lemma_cands_at(lpc: Seq<(u32, Seq<i64>)>, i: int)
    requires
        0 <= i < 5 + lpc.len(),
    ensures
        channel_cands(lpc).len() == 5 + lpc.len(),
        i < 5 ==> channel_cands(lpc)[i] == (false, fixed_spec(i), 0u32),
        i >= 5 ==> channel_cands(lpc)[i] == (true, lpc[i - 5].1, lpc[i - 5].0),
{
}

/// Codes the channel `x` (samples of `depth` bits, two's complement when
/// `signed`) with the cheapest of the fixed predictors and the LPC
/// predictors `lpc` (shift and coefficients each).
pub fn encode_channel(x: &[i32], depth: u32, signed: bool, lpc: &[(u32, Vec<i64>)], w: &mut BitWriter)
    requires
        old(w).wf(),
        1 <= x@.len() < 0x8000_0000,
        depth < 64,
        lpc@.len() + 5 <= usize::MAX,
        forall|i: int| 0 <= i < lpc@.len() ==> coefs_ok((#[trigger] lpc@[i]).1@) && lpc@[i].0 < 64,
    ensures
        final(w).wf(),
        final(w).bits() == old(w).bits() + channel_code(x@, depth, lpc_view(lpc@)),
{
    let ghost lv = lpc_view(lpc@);
    let ghost cs = channel_cands(lv);
    let total = 5 + lpc.len();
    let mut have = false;
    let mut best_i: usize = 0;
    let mut best_t: u64 = 0;
    let mut i: usize = 0;
    assert(pick_cand(x@, depth, cs, 0, None) == pick_cand(x@, depth, cs, 0, None));
    while i < total
        invariant
            i <= total == 5 + lpc@.len(),
            1 <= x@.len() < 0x8000_0000,
            depth < 64,
            forall|i: int| 0 <= i < lpc@.len() ==> coefs_ok((#[trigger] lpc@[i]).1@) && lpc@[i].0 < 64,
            lv == lpc_view(lpc@),
            cs == channel_cands(lv),
            have ==> best_i < i,
            have ==> cs[best_i as int].1.len() < x@.len(),
            i > 0 ==> have,
            pick_cand(x@, depth, cs, 0, None)
                == pick_cand(x@, depth, cs, i as int, if have { Some((best_i as int, best_t as nat)) } else { None }),
        decreases total - i,
    {
        proof {
            lemma_cands_at(lv, i as int);
        }
        let cost = if i < 5 {
            let qv = fixed_coefs(i);
            proof {
                lemma_fixed_ok(i as int);
                assert(qv@ == fixed_spec(i as int));
            }
            cand_cost(x, depth, false, qv.as_slice(), 0)
        } else {
            let c = &lpc[i - 5];
            cand_cost(x, depth, true, c.1.as_slice(), c.0)
        };
        match cost {
            Some(t) => {
                if !have || t < best_t {
                    best_i = i;
                    best_t = t;
                }
                have = true;
            },
            None => {},
        }
        i = i + 1;
    }
    assert(pick_cand(x@, depth, cs, total as int, Some((best_i as int, best_t as nat))) == Some((best_i as int, best_t as nat)));
    proof {
        lemma_cands_at(lv, best_i as int);
    }
    if best_i < 5 {
        let qv = fixed_coefs(best_i);
        proof {
            lemma_fixed_ok(best_i as int);
            assert(qv@ == fixed_spec(best_i as int));
        }
        write_channel(x, depth, signed, false, qv.as_slice(), 0, w);
    } else {
        let c = &lpc[best_i - 5];
        write_channel(x, depth, signed, true, c.1.as_slice(), c.0, w);
    }
}

fn write_head(w: &mut BitWriter, is_lpc: bool, q: &[i64], shift: u32)
    requires
        old(w).wf(),
        coefs_ok(q@),
    ensures
        final(w).wf(),
        final(w).bits() == old(w).bits() + head_bits((is_lpc, q@, shift)),
{
    let ghost b0 = w.bits();
    let order = q.len();
    proof {
        lemma_bit_and_one(if is_lpc { 1u8 } else { 0u8 });
    }
    w.write_bit(if is_lpc { 1 } else { 0 });
    if is_lpc {
        put(w, order as u64, 6);
        put(w, shift as u64, 4);
        let ghost b1 = w.bits();
        let mut j: usize = 0;
        while j < order
            invariant
                j <= order == q@.len(),
                w.wf(),
                w.bits() == b1 + coef_bits(q@, j as int),
            decreases order - j,
        {
            put_signed(w, q[j], COEF_BITS);
            j = j + 1;
            assert(w.bits() =~= b1 + coef_bits(q@, j as int));
        }
    } else {
        put(w, order as u64, 3);
    }
    assert(w.bits() =~= b0 + head_bits((is_lpc, q@, shift)));
}

fn write_warm(w: &mut BitWriter, x: &[i32], order: usize, depth: u32, signed: bool)
    requires
        old(w).wf(),
        order <= x@.len(),
        depth < 64,
    ensures
        final(w).wf(),
        final(w).bits() == old(w).bits() + warm_bits(x@, order as int, depth),
{
    let ghost b0 = w.bits();
    let mut j: usize = 0;
    while j < order
        invariant
            j <= order <= x@.len(),
            depth < 64,
            w.wf(),
            w.bits() == b0 + warm_bits(x@, j as int, depth),
        decreases order - j,
    {
        if signed {
            put_signed(w, x[j] as i64, depth);
        } else {
            put(w, #[verifier::truncate] (x[j] as u64), depth);
        }
        j = j + 1;
        assert(w.bits() =~= b0 + warm_bits(x@, j as int, depth));
    }
}

fn write_residuals(w: &mut BitWriter, res: &[i32])
    requires
        old(w).wf(),
        res@.len() < 0x8000_0000,
    ensures
        final(w).wf(),
        final(w).bits() == old(w).bits() + residual_bits(res@),
{
    let ghost b0 = w.bits();
    let p = partition_p(res);
    put(w, p as u64, 3);
    proof {
        vstd::arithmetic::power2::lemma2_to64();
        vstd::bits::lemma_usize_shl_is_mul(1, p as usize);
    }
    let parts = 1usize << (p as usize);
    let qc = (res.len() + parts - 1) / parts;
    let chunk = if qc >= 1 { qc } else { 1 };
    assert(chunk == part_chunk(res@.len(), p as nat));
    write_parts(w, res, chunk);
    assert(w.bits() =~= b0 + residual_bits(res@));
}

/// Writes the channel `x` coded with the predictor `q`, `shift`.
fn write_channel(x: &[i32], depth: u32, signed: bool, is_lpc: bool, q: &[i64], shift: u32, w: &mut BitWriter)
    requires
        old(w).wf(),
        q@.len() < x@.len() < 0x8000_0000,
        depth < 64,
        coefs_ok(q@),
        shift < 64,
    ensures
        final(w).wf(),
        final(w).bits() == old(w).bits() + channel_bits(x@, depth, (is_lpc, q@, shift)),
{
    let ghost b0 = w.bits();
    write_head(w, is_lpc, q, shift);
    write_warm(w, x, q.len(), depth, signed);
    let res = residual(x, q, shift);
    write_residuals(w, res.as_slice());
    assert(w.bits() =~= b0 + channel_bits(x@, depth, (is_lpc, q@, shift)));
}

} // verus!
