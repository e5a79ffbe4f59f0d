//! Adaptive range coding (a carry-less range coder over 32-bit state with a
//! byte-wise renormalisation), and the adaptive order-0 frequency model.
use vstd::prelude::*;

verus! {

pub const TOP: u32 = 0x100_0000;
pub const BOT: u32 = 0x1_0000;
pub const MAX_TOTAL: u32 = 0xFFFF;
pub const INCREMENT: u32 = 24;

/// `low + range`, as a mathematical integer.
pub open spec fn sum_of(low: u32, range: u32) -> int {
    low as int + range as int
}

/// What the coder keeps between steps: the interval ends at or below 2^32
/// and is not empty.
pub open spec fn coder_ok(low: u32, range: u32) -> bool {
    sum_of(low, range) <= 0x1_0000_0000 && range >= 1
}

/// `low + range`, wrapped to 32 bits.
pub open spec fn wrapped_sum(low: u32, range: u32) -> u32 {
    if sum_of(low, range) > u32::MAX {
        (sum_of(low, range) - 0x1_0000_0000) as u32
    } else {
        sum_of(low, range) as u32
    }
}

/// The distance from `low` up to the next multiple of 2^16.
pub open spec fn neg_low_16(low: u32) -> u32 {
    (if low == 0 { 0u32 } else { (0x1_0000_0000 - low) as u32 }) & 0xFFFF
}

/// The renormalisation measure.
pub open spec fn nm1(low: u32, range: u32) -> int {
    if sum_of(low, range) == 0x1_0000_0000 { 0 } else { 1 }
}

pub open spec fn nm2(low: u32, range: u32) -> int {
    if sum_of(low, range) == 0x1_0000_0000 {
        if low < TOP { 1 } else { 0 }
    } else {
        if sum_of(low, range) % 0x100_0000 == 0 { 0 } else { 1 }
    }
}

pub open spec fn nm3(low: u32, range: u32) -> int {
    if sum_of(low, range) == 0x1_0000_0000 && low < TOP {
        0x1_0000_0000 - low
    } else {
        0x1_0000_0000 - range
    }
}

/// One renormalisation step applies: the top bytes of `low` and `low + range`
/// agree, or the interval is narrower than 2^16.
pub open spec fn needs_shift(low: u32, range: u32) -> bool {
    (low ^ wrapped_sum(low, range)) < TOP || range < BOT
}

/// The interval after one renormalisation step (before the shift, a narrow
/// interval that straddles a top-byte boundary is cut at the next multiple
/// of 2^16).
pub open spec fn shifted(low: u32, range: u32) -> (u32, u32) {
    if (low ^ wrapped_sum(low, range)) < TOP {
        (low << 8, range << 8)
    } else {
        (low << 8, neg_low_16(low) << 8)
    }
}

proof fn lemma_l1(low: u32, range: u32, w: u32, lo2: u32, ra2: u32)
    by (bit_vector)
    requires
        (low as u64) + (range as u64) < 0x1_0000_0000u64,
        range >= 1,
        w == ((low as u64) + (range as u64)) as u32,
        (low ^ w) < 0x100_0000u32,
        lo2 == low << 8,
        ra2 == range << 8,
    ensures
        range < 0x100_0000u32,
        (((low as u64) + (range as u64)) as u64) % 0x100_0000u64 != 0,
        (lo2 as u64) + (ra2 as u64) <= 0x1_0000_0000u64,
        ra2 > range,
{
}

proof fn lemma_l2(low: u32, range: u32, lo2: u32, ra2: u32)
    by (bit_vector)
    requires
        (low as u64) + (range as u64) == 0x1_0000_0000u64,
        low < 0x100_0000u32,
        lo2 == low << 8,
        ra2 == range << 8,
    ensures
        lo2 > low,
        (lo2 as u64) + (ra2 as u64) == 0x1_0000_0000u64,
        ra2 >= 1,
{
}

proof fn lemma_l3(low: u32, range: u32, w: u32, r: u32, lo2: u32, ra2: u32)
    by (bit_vector)
    requires
        (low as u64) + (range as u64) < 0x1_0000_0000u64,
        range >= 1,
        range < 0x1_0000u32,
        w == ((low as u64) + (range as u64)) as u32,
        (low ^ w) >= 0x100_0000u32,
        r == (if low == 0 { 0u32 } else { (0x1_0000_0000u64 - (low as u64)) as u32 }) & 0xFFFFu32,
        lo2 == low << 8,
        ra2 == r << 8,
    ensures
        1 <= r <= range,
        (lo2 as u64) + (ra2 as u64) <= 0x1_0000_0000u64,
        (((lo2 as u64) + (ra2 as u64)) as u64) % 0x100_0000u64 == 0,
        ra2 >= 1,
        (((low as u64) + (range as u64)) as u64) % 0x100_0000u64 == 0 ==> ra2 > range,
{
}

proof fn lemma_l4(low: u32, range: u32, r: u32, lo2: u32, ra2: u32)
    by (bit_vector)
    requires
        (low as u64) + (range as u64) == 0x1_0000_0000u64,
        low >= 0x100_0000u32,
        range < 0x1_0000u32,
        r == (if low == 0 { 0u32 } else { (0x1_0000_0000u64 - (low as u64)) as u32 }) & 0xFFFFu32,
        lo2 == low << 8,
        ra2 == r << 8,
    ensures
        ra2 > range,
        ra2 < 0x100_0000u32,
        (lo2 as u64) + (ra2 as u64) == 0x1_0000_0000u64,
{
}

/// One renormalisation step keeps the coder invariant and lowers the measure.
pub proof fn lemma_shift_step(low: u32, range: u32)
    requires
        coder_ok(low, range),
        needs_shift(low, range),
    ensures
        coder_ok(shifted(low, range).0, shifted(low, range).1),
        ({
            let (l2, r2) = shifted(low, range);
            nm1(l2, r2) < nm1(low, range) || (nm1(l2, r2) == nm1(low, range) && (nm2(l2, r2) < nm2(low, range)
                || (nm2(l2, r2) == nm2(low, range) && nm3(l2, r2) < nm3(low, range))))
        }),
        nm1(low, range) >= 0,
        nm2(low, range) >= 0,
        nm3(low, range) >= 0,
{
    let w = wrapped_sum(low, range);
    let (l2, r2) = shifted(low, range);
    let s = sum_of(low, range);
    assert(((low as u64) + (range as u64)) as int == s);
    if s < 0x1_0000_0000 {
        assert(w == ((low as u64) + (range as u64)) as u32);
        if (low ^ w) < TOP {
            lemma_l1(low, range, w, l2, r2);
        } else {
            lemma_l3(low, range, w, neg_low_16(low), l2, r2);
        }
    } else {
        assert(w == 0);
        assert(low ^ 0u32 == low) by (bit_vector);
        if low < TOP {
            lemma_l2(low, range, l2, r2);
        } else {
            lemma_l4(low, range, neg_low_16(low), l2, r2);
        }
    }
}

/// The encoder's renormalisation: the final interval and the bytes emitted.
pub open spec fn enc_norm(low: u32, range: u32) -> (u32, u32, Seq<u8>)
    decreases nm1(low, range), nm2(low, range), nm3(low, range) when coder_ok(low, range)
{
    if needs_shift(low, range) {
        proof {
            lemma_shift_step(low, range);
        }
        let (l2, r2) = shifted(low, range);
        let rest = enc_norm(l2, r2);
        (rest.0, rest.1, seq![(low >> 24) as u8] + rest.2)
    } else {
        (low, range, Seq::empty())
    }
}

/// The byte the decoder reads at `pos` (zero past the end).
pub open spec fn byte_at(data: Seq<u8>, pos: int) -> u8 {
    if 0 <= pos < data.len() { data[pos] } else { 0 }
}

/// The position after reading at `pos` (reading stops moving at the end).
pub open spec fn next_pos(data: Seq<u8>, pos: int) -> int {
    if pos < data.len() { pos + 1 } else { pos }
}

/// The decoder's renormalisation: (low, range, code, pos) after it.
pub open spec fn dec_norm(low: u32, range: u32, code: u32, data: Seq<u8>, pos: int) -> (u32, u32, u32, int)
    decreases nm1(low, range), nm2(low, range), nm3(low, range) when coder_ok(low, range)
{
    if needs_shift(low, range) {
        proof {
            lemma_shift_step(low, range);
        }
        let (l2, r2) = shifted(low, range);
        dec_norm(l2, r2, (code << 8) | (byte_at(data, pos) as u32), data, next_pos(data, pos))
    } else {
        (low, range, code, pos)
    }
}

pub proof fn lemma_enc_norm_ok(low: u32, range: u32)
    requires
        coder_ok(low, range),
    ensures
        coder_ok(enc_norm(low, range).0, enc_norm(low, range).1),
        enc_norm(low, range).1 >= BOT,
    decreases nm1(low, range), nm2(low, range), nm3(low, range),
{
    if needs_shift(low, range) {
        lemma_shift_step(low, range);
        let (l2, r2) = shifted(low, range);
        lemma_enc_norm_ok(l2, r2);
    }
}

pub proof fn lemma_dec_norm_ok(low: u32, range: u32, code: u32, data: Seq<u8>, pos: int)
    requires
        coder_ok(low, range),
        0 <= pos <= data.len(),
    ensures
        coder_ok(dec_norm(low, range, code, data, pos).0, dec_norm(low, range, code, data, pos).1),
        dec_norm(low, range, code, data, pos).1 >= BOT,
        pos <= dec_norm(low, range, code, data, pos).3 <= data.len(),
        dec_norm(low, range, code, data, pos).0 == enc_norm(low, range).0,
        dec_norm(low, range, code, data, pos).1 == enc_norm(low, range).1,
    decreases nm1(low, range), nm2(low, range), nm3(low, range),
{
    if needs_shift(low, range) {
        lemma_shift_step(low, range);
        let (l2, r2) = shifted(low, range);
        lemma_dec_norm_ok(l2, r2, (code << 8) | (byte_at(data, pos) as u32), data, next_pos(data, pos));
    }
}

/// The interval after coding a symbol with cumulative frequency `cum` and
/// frequency `freq` out of `total`, before renormalisation.
pub open spec fn narrow(low: u32, range: u32, cum: u32, freq: u32, total: u32) -> (u32, u32) {
    let r = range / total;
    ((low + cum * r) as u32, (freq * r) as u32)
}

pub proof fn lemma_narrow(low: u32, range: u32, cum: u32, freq: u32, total: u32)
    requires
        coder_ok(low, range),
        range >= BOT,
        0 < total <= BOT,
        0 < freq,
        cum + freq <= total,
    ensures
        range / total >= 1,
        cum * (range / total) + freq * (range / total) <= range,
        coder_ok(narrow(low, range, cum, freq, total).0, narrow(low, range, cum, freq, total).1),
        narrow(low, range, cum, freq, total).0 == low + cum * (range / total),
        narrow(low, range, cum, freq, total).1 == freq * (range / total),
{
    let r = range / total;
    assert(r >= 1) by (nonlinear_arith)
        requires
            range >= BOT,
            0 < total <= BOT,
            r == range / total,
    ;
    assert(cum * r + freq * r <= range) by (nonlinear_arith)
        requires
            cum + freq <= total,
            r == range / total,
            total > 0,
    ;
    assert(freq * r >= 1) by (nonlinear_arith)
        requires
            freq >= 1,
            r >= 1,
    ;
    assert(cum * r >= 0) by (nonlinear_arith)
        requires
            r >= 1,
    ;
}

/// Encodes symbols into bytes.
pub struct Encoder {
    low: u32,
    range: u32,
    pub out: Vec<u8>,
}

impl Encoder {
    pub closed spec fn low(&self) -> u32 {
        self.low
    }

    pub closed spec fn range(&self) -> u32 {
        self.range
    }

    /// The bytes emitted so far.
    pub closed spec fn bytes(&self) -> Seq<u8> {
        self.out@
    }

    /// Between symbols the interval is at least 2^16 wide and ends at or
    /// below 2^32.
    pub open spec fn wf(&self) -> bool {
        coder_ok(self.low(), self.range()) && self.range() >= BOT
    }

    pub fn new() -> (e: Self)
        ensures
            e.wf(),
            e.low() == 0,
            e.range() == u32::MAX,
            e.bytes() == Seq::<u8>::empty(),
    {
        Encoder { low: 0, range: 0xFFFF_FFFF, out: Vec::new() }
    }

    /// Codes a symbol with cumulative frequency `cum` and frequency `freq`
    /// out of `total`, and renormalises.
    pub fn encode(&mut self, cum: u32, freq: u32, total: u32)
        requires
            old(self).wf(),
            0 < total <= BOT,
            0 < freq,
            cum + freq <= total,
        ensures
            final(self).wf(),
            ({
                let (l1, r1) = narrow(old(self).low(), old(self).range(), cum, freq, total);
                let n = enc_norm(l1, r1);
                &&& final(self).low() == n.0
                &&& final(self).range() == n.1
                &&& final(self).bytes() == old(self).bytes() + n.2
            }),
    {
        proof {
            lemma_narrow(self.low, self.range, cum, freq, total);
        }
        self.range = self.range / total;
        self.low = self.low + cum * self.range;
        self.range = freq * self.range;
        let ghost l1 = self.low;
        let ghost r1 = self.range;
        let ghost out1 = self.out@;
        loop
            invariant_except_break
                coder_ok(self.low, self.range),
                coder_ok(l1, r1),
                enc_norm(l1, r1).0 == enc_norm(self.low, self.range).0,
                enc_norm(l1, r1).1 == enc_norm(self.low, self.range).1,
                out1 + enc_norm(l1, r1).2 == self.out@ + enc_norm(self.low, self.range).2,
            ensures
                coder_ok(self.low, self.range),
                !needs_shift(self.low, self.range),
                enc_norm(l1, r1).0 == self.low,
                enc_norm(l1, r1).1 == self.range,
                out1 + enc_norm(l1, r1).2 == self.out@,
            decreases nm1(self.low, self.range), nm2(self.low, self.range), nm3(self.low, self.range),
        {
            let w = self.low.wrapping_add(self.range);
            assert(w == wrapped_sum(self.low, self.range));
            if (self.low ^ w) < TOP {
            } else if self.range < BOT {
                let neg = (0u32).wrapping_sub(self.low);
                assert(neg == (if self.low == 0 { 0u32 } else { (0x1_0000_0000 - self.low) as u32 }));
                proof {
                    lemma_shift_step(self.low, self.range);
                }
                let ghost before = self.out@;
                let ghost lo = self.low;
                let ghost ra = self.range;
                self.out.push((self.low >> 24) as u8);
                self.range = neg & (BOT - 1);
                self.low = self.low << 8;
                self.range = self.range << 8;
                assert(before + enc_norm(lo, ra).2 =~= self.out@ + enc_norm(self.low, self.range).2);
                continue;
            } else {
                assert(!needs_shift(self.low, self.range));
                assert(enc_norm(self.low, self.range).2 =~= Seq::<u8>::empty());
                break;
            }
            proof {
                lemma_shift_step(self.low, self.range);
            }
            let ghost before = self.out@;
            let ghost lo = self.low;
            let ghost ra = self.range;
            self.out.push((self.low >> 24) as u8);
            self.low = self.low << 8;
            self.range = self.range << 8;
            assert(before + enc_norm(lo, ra).2 =~= self.out@ + enc_norm(self.low, self.range).2);
        }
        proof {
            lemma_enc_norm_ok(l1, r1);
        }
    }

    /// Flushes the four bytes of `low`, most significant first.
    pub fn finish(self) -> (out: Vec<u8>)
        ensures
            out@ == self.bytes() + flush_bytes(self.low()),
    {
        let mut me = self;
        let l0 = me.low;
        let l1 = l0 << 8;
        let l2 = l1 << 8;
        let l3 = l2 << 8;
        me.out.push((l0 >> 24) as u8);
        me.out.push((l1 >> 24) as u8);
        me.out.push((l2 >> 24) as u8);
        me.out.push((l3 >> 24) as u8);
        assert(me.out@ =~= self.bytes() + flush_bytes(l0));
        me.out
    }
}

/// The four bytes of `low`, most significant first.
pub open spec fn flush_bytes(low: u32) -> Seq<u8> {
    seq![(low >> 24) as u8, ((low << 8) >> 24) as u8, (((low << 8) << 8) >> 24) as u8, ((((low << 8) << 8) << 8) >> 24) as u8]
}

/// The sum of `s`.
pub open spec fn seq_sum(s: Seq<u32>) -> int
    decreases s.len(),
{
    if s.len() == 0 {
        0
    } else {
        seq_sum(s.drop_last()) + s.last()
    }
}

/// The counts a new model starts with: one for every byte.
pub open spec fn initial_counts() -> Seq<u32> {
    Seq::new(256, |i: int| 1u32)
}

/// Each count halved, rounded down, and at least one.
pub open spec fn halve(c: Seq<u32>) -> Seq<u32> {
    c.map_values(|f: u32| (f >> 1) | 1)
}

/// The counts after `sym` was seen: its count grows by the increment, and
/// once the total reaches the limit every count is halved.
pub open spec fn counts_after(c: Seq<u32>, sym: int) -> Seq<u32> {
    let c1 = c.update(sym, (c[sym] + INCREMENT) as u32);
    if seq_sum(c1) >= MAX_TOTAL {
        halve(c1)
    } else {
        c1
    }
}

/// The cumulative count below `sym`.
pub open spec fn cum_of(c: Seq<u32>, sym: int) -> int {
    seq_sum(c.take(sym))
}

/// The symbol whose slot holds `value`, scanning from `sym` (255 if none).
pub open spec fn find_from(c: Seq<u32>, value: int, sym: int) -> int
    decreases 256 - sym,
{
    if sym >= 256 {
        255
    } else if cum_of(c, sym + 1) > value {
        sym
    } else {
        find_from(c, value, sym + 1)
    }
}

/// A well-formed table of counts: 256 counts, each at least one, summing
/// below the limit.
pub open spec fn counts_ok(c: Seq<u32>) -> bool {
    &&& c.len() == 256
    &&& forall|i: int| 0 <= i < 256 ==> #[trigger] c[i] >= 1
    &&& seq_sum(c) < MAX_TOTAL
}

pub proof fn lemma_sum_take_mono(c: Seq<u32>, i: int)
    requires
        0 <= i <= c.len(),
    ensures
        0 <= seq_sum(c.take(i)) <= seq_sum(c),
        i < c.len() ==> seq_sum(c.take(i + 1)) == seq_sum(c.take(i)) + c[i],
    decreases c.len() - i,
{
    if i < c.len() {
        assert(c.take(i + 1).drop_last() =~= c.take(i));
        lemma_sum_take_mono(c, i + 1);
    } else {
        assert(c.take(i) =~= c);
    }
    lemma_sum_nonneg(c.take(i));
}

proof fn lemma_sum_nonneg(c: Seq<u32>)
    ensures
        seq_sum(c) >= 0,
    decreases c.len(),
{
    if c.len() > 0 {
        lemma_sum_nonneg(c.drop_last());
    }
}

proof fn lemma_sum_update(c: Seq<u32>, i: int, v: u32)
    requires
        0 <= i < c.len(),
    ensures
        seq_sum(c.update(i, v)) == seq_sum(c) - c[i] + v,
    decreases c.len(),
{
    if i < c.len() - 1 {
        assert(c.update(i, v).drop_last() =~= c.drop_last().update(i, v));
        lemma_sum_update(c.drop_last(), i, v);
    } else {
        assert(c.update(i, v).drop_last() =~= c.drop_last());
    }
}

proof fn lemma_halve_bound(c: Seq<u32>)
    ensures
        2 * seq_sum(halve(c)) <= seq_sum(c) + 2 * c.len(),
        forall|i: int| 0 <= i < c.len() ==> #[trigger] halve(c)[i] >= 1,
    decreases c.len(),
{
    if c.len() > 0 {
        assert(halve(c).drop_last() =~= halve(c.drop_last()));
        lemma_halve_bound(c.drop_last());
        let f = c.last();
        assert(2 * ((f >> 1) | 1) <= f + 2 && ((f >> 1) | 1) >= 1) by (bit_vector);
    }
    assert forall|i: int| 0 <= i < c.len() implies #[trigger] halve(c)[i] >= 1 by {
        let f = c[i];
        assert(((f >> 1) | 1) >= 1) by (bit_vector);
    }
}

pub proof fn lemma_sum_bounds_each(c: Seq<u32>, i: int)
    requires
        0 <= i < c.len(),
    ensures
        c[i] <= seq_sum(c),
    decreases c.len(),
{
    lemma_sum_nonneg(c.drop_last());
    if i < c.len() - 1 {
        lemma_sum_bounds_each(c.drop_last(), i);
    }
}

/// Updating a well-formed table keeps it well formed.
pub proof fn lemma_counts_after_ok(c: Seq<u32>, sym: int)
    requires
        counts_ok(c),
        0 <= sym < 256,
    ensures
        counts_ok(counts_after(c, sym)),
{
    lemma_sum_bounds_each(c, sym);
    let c1 = c.update(sym, (c[sym] + INCREMENT) as u32);
    lemma_sum_update(c, sym, (c[sym] + INCREMENT) as u32);
    if seq_sum(c1) >= MAX_TOTAL {
        lemma_halve_bound(c1);
    }
}

/// The adaptive order-0 model: a count per byte value.
pub struct Model {
    freq: Vec<u32>,
    total: u32,
}

impl Model {
    /// The count of each byte value.
    pub closed spec fn counts(&self) -> Seq<u32> {
        self.freq@
    }

    pub closed spec fn wf(&self) -> bool {
        &&& counts_ok(self.freq@)
        &&& self.total == seq_sum(self.freq@)
    }

    /// A well-formed model has 256 counts, each at least one, summing
    /// below the limit.
    pub proof fn lemma_wf_counts(&self)
        requires
            self.wf(),
        ensures
            counts_ok(self.counts()),
    {
    }

    pub fn new() -> (m: Self)
        ensures
            m.wf(),
            m.counts() == initial_counts(),
            counts_ok(m.counts()),
    {
        let mut freq: Vec<u32> = Vec::new();
        let mut i: u32 = 0;
        while i < 256
            invariant
                i <= 256,
                freq@ == Seq::new(i as nat, |k: int| 1u32),
                seq_sum(freq@) == i,
            decreases 256 - i,
        {
            let ghost f0 = freq@;
            freq.push(1);
            assert(freq@.drop_last() =~= f0);
            i = i + 1;
            assert(freq@ =~= Seq::new(i as nat, |k: int| 1u32));
        }
        Model { freq, total: 256 }
    }

    /// The sum of the counts below `sym`.
    pub fn cum_freq(&self, sym: usize) -> (c: u32)
        requires
            self.wf(),
            sym <= 256,
        ensures
            c == cum_of(self.counts(), sym as int),
    {
        let mut c: u32 = 0;
        let mut k: usize = 0;
        while k < sym
            invariant
                self.wf(),
                k <= sym <= 256,
                c == seq_sum(self.freq@.take(k as int)),
            decreases sym - k,
        {
            proof {
                lemma_sum_take_mono(self.freq@, k as int);
                lemma_sum_take_mono(self.freq@, k as int + 1);
            }
            c = c + self.freq[k];
            k = k + 1;
        }
        c
    }

    /// The symbol whose slot holds `value`: the first whose cumulative count
    /// passes `value`, or 255.
    pub fn find(&self, value: u32) -> (sym: usize)
        requires
            self.wf(),
        ensures
            sym == find_from(self.counts(), value as int, 0),
            sym < 256,
            value < seq_sum(self.counts()) ==> cum_of(self.counts(), sym as int) <= value < cum_of(self.counts(), sym as int) + self.counts()[sym as int],
    {
        proof {
            if value < seq_sum(self.freq@) {
                assert(self.freq@.take(0) =~= Seq::<u32>::empty());
                lemma_find_interval(self.freq@, value as int, 0);
            }
        }
        let mut c: u32 = 0;
        let mut sym: usize = 0;
        while sym < 256
            invariant
                self.wf(),
                sym <= 256,
                c == cum_of(self.freq@, sym as int),
                find_from(self.freq@, value as int, 0) == find_from(self.freq@, value as int, sym as int),
                value < seq_sum(self.freq@) ==> cum_of(self.freq@, find_from(self.freq@, value as int, 0)) <= value
                    < cum_of(self.freq@, find_from(self.freq@, value as int, 0)) + self.freq@[find_from(self.freq@, value as int, 0)],
            decreases 256 - sym,
        {
            proof {
                lemma_sum_take_mono(self.freq@, sym as int);
                lemma_sum_take_mono(self.freq@, sym as int + 1);
            }
            if c as u64 + self.freq[sym] as u64 > value as u64 {
                return sym;
            }
            c = c + self.freq[sym];
            sym = sym + 1;
        }
        255
    }

    /// The sum of all counts.
    pub fn total(&self) -> (t: u32)
        requires
            self.wf(),
        ensures
            t == seq_sum(self.counts()),
            0 < t < MAX_TOTAL,
    {
        proof {
            lemma_sum_bounds_each(self.freq@, 0);
        }
        self.total
    }

    /// The count of `sym`.
    pub fn freq(&self, sym: usize) -> (f: u32)
        requires
            self.wf(),
            sym < 256,
        ensures
            f == self.counts()[sym as int],
            f >= 1,
            cum_of(self.counts(), sym as int) + f <= seq_sum(self.counts()),
    {
        proof {
            lemma_sum_take_mono(self.freq@, sym as int);
            lemma_sum_take_mono(self.freq@, sym as int + 1);
            lemma_sum_take_mono(self.freq@, 256);
            lemma_sum_take_mono2(self.freq@, sym as int + 1);
        }
        self.freq[sym]
    }

    /// Counts one more `sym`.
    pub fn update(&mut self, sym: usize)
        requires
            old(self).wf(),
            sym < 256,
        ensures
            final(self).wf(),
            final(self).counts() == counts_after(old(self).counts(), sym as int),
            counts_ok(final(self).counts()),
            seq_sum(old(self).counts()) + INCREMENT < MAX_TOTAL ==> final(self).counts()
                == old(self).counts().update(sym as int, (old(self).counts()[sym as int] + INCREMENT) as u32),
            seq_sum(old(self).counts()) + INCREMENT >= MAX_TOTAL ==> final(self).counts()
                == halve(old(self).counts().update(sym as int, (old(self).counts()[sym as int] + INCREMENT) as u32)),
    {
        proof {
            lemma_counts_after_ok(self.freq@, sym as int);
            lemma_sum_bounds_each(self.freq@, sym as int);
            lemma_sum_update(self.freq@, sym as int, (self.freq@[sym as int] + INCREMENT) as u32);
        }
        let f = self.freq[sym];
        self.freq[sym] = f + INCREMENT;
        self.total = self.total + INCREMENT;
        if self.total >= MAX_TOTAL {
            let ghost c1 = self.freq@;
            proof {
                lemma_halve_bound(c1);
            }
            self.total = 0;
            let mut i: usize = 0;
            while i < 256
                invariant
                    c1.len() == 256,
                    i <= 256,
                    self.freq@.len() == 256,
                    2 * seq_sum(halve(c1)) <= seq_sum(c1) + 512,
                    seq_sum(c1) < MAX_TOTAL + INCREMENT,
                    forall|k: int| 0 <= k < i ==> self.freq@[k] == halve(c1)[k],
                    forall|k: int| i <= k < 256 ==> self.freq@[k] == c1[k],
                    self.total == seq_sum(halve(c1).take(i as int)),
                decreases 256 - i,
            {
                proof {
                    lemma_sum_take_mono(halve(c1), i as int);
                    lemma_sum_take_mono(halve(c1), i as int + 1);
                    lemma_sum_take_mono(halve(c1), 256);
                }
                let f = self.freq[i];
                let h = (f >> 1) | 1;
                self.freq[i] = h;
                self.total = self.total + h;
                i = i + 1;
            }
            assert(self.freq@ =~= halve(c1));
            assert(halve(c1).take(256) =~= halve(c1));
        }
    }
}

proof fn lemma_find_interval(c: Seq<u32>, v: int, k: int)
    requires
        counts_ok(c),
        0 <= k < 256,
        cum_of(c, k) <= v < seq_sum(c),
    ensures
        0 <= find_from(c, v, k) < 256,
        cum_of(c, find_from(c, v, k)) <= v < cum_of(c, find_from(c, v, k)) + c[find_from(c, v, k)],
    decreases 256 - k,
{
    lemma_sum_take_mono(c, k);
    lemma_sum_take_mono(c, k + 1);
    if cum_of(c, k + 1) <= v {
        if k + 1 == 256 {
            assert(c.take(256) =~= c);
        } else {
            lemma_find_interval(c, v, k + 1);
        }
    }
}

proof fn lemma_sum_take_mono2(c: Seq<u32>, i: int)
    requires
        0 <= i <= c.len(),
    ensures
        seq_sum(c.take(i)) <= seq_sum(c),
{
    lemma_sum_take_mono(c, i);
}

/// The code register a decoder starts with: the first four bytes of `data`.
pub open spec fn initial_code(data: Seq<u8>) -> u32 {
    let c0 = (0u32 << 8) | (byte_at(data, 0) as u32);
    let c1 = (c0 << 8) | (byte_at(data, 1) as u32);
    let c2 = (c1 << 8) | (byte_at(data, 2) as u32);
    (c2 << 8) | (byte_at(data, 3) as u32)
}

/// The slot value a decoder reads for a symbol out of `total`.
pub open spec fn slot_value(low: u32, range: u32, code: u32, total: u32) -> u32 {
    let r = range / total;
    let d: u32 = if code >= low { (code - low) as u32 } else { (code - low + 0x1_0000_0000) as u32 };
    let q = d / r;
    if q < total - 1 { q } else { (total - 1) as u32 }
}

/// Decodes symbols from bytes.
pub struct Decoder<'a> {
    low: u32,
    range: u32,
    code: u32,
    data: &'a [u8],
    pos: usize,
    pending: Ghost<u32>,
}

impl<'a> Decoder<'a> {
    pub closed spec fn low(&self) -> u32 {
        self.low
    }

    pub closed spec fn range(&self) -> u32 {
        self.range
    }

    pub closed spec fn code(&self) -> u32 {
        self.code
    }

    pub closed spec fn pos(&self) -> int {
        self.pos as int
    }

    pub closed spec fn data(&self) -> Seq<u8> {
        self.data@
    }

    /// The total of the symbol being decoded, between `decode_freq` and
    /// `update`.
    pub closed spec fn pending(&self) -> u32 {
        self.pending@
    }

    /// Between symbols: the interval is at least 2^16 wide.
    pub open spec fn ready(&self) -> bool {
        &&& coder_ok(self.low(), self.range())
        &&& self.range() >= BOT
        &&& 0 <= self.pos() <= self.data().len()
    }

    /// After `decode_freq`: the interval, scaled back by the pending total,
    /// still ends at or below 2^32.
    pub open spec fn divided(&self) -> bool {
        &&& self.range() >= 1
        &&& self.pending() > 0
        &&& self.low() + self.range() * self.pending() <= 0x1_0000_0000
        &&& self.range() * self.pending() <= u32::MAX
        &&& 0 <= self.pos() <= self.data().len()
    }

    fn next(&mut self) -> (b: u32)
        requires
            old(self).pos <= old(self).data.len(),
        ensures
            b == byte_at(old(self).data@, old(self).pos as int) as u32,
            final(self).pos as int == next_pos(old(self).data@, old(self).pos as int),
            final(self).low == old(self).low,
            final(self).range == old(self).range,
            final(self).code == old(self).code,
            final(self).data == old(self).data,
            final(self).pending == old(self).pending,
    {
        if self.pos < self.data.len() {
            let b = self.data[self.pos] as u32;
            self.pos = self.pos + 1;
            b
        } else {
            0
        }
    }

    pub fn new(data: &'a [u8]) -> (d: Self)
        ensures
            d.ready(),
            d.low() == 0,
            d.range() == u32::MAX,
            d.data() == data@,
            d.code() == initial_code(data@),
            d.pos() == next_pos(data@, next_pos(data@, next_pos(data@, next_pos(data@, 0)))),
    {
        let mut d = Decoder { low: 0, range: 0xFFFF_FFFF, code: 0, data, pos: 0, pending: Ghost(1) };
        let b = d.next();
        d.code = (d.code << 8) | b;
        let b = d.next();
        d.code = (d.code << 8) | b;
        let b = d.next();
        d.code = (d.code << 8) | b;
        let b = d.next();
        d.code = (d.code << 8) | b;
        d
    }

    /// The slot value of the next symbol out of `total`.
    pub fn decode_freq(&mut self, total: u32) -> (v: u32)
        requires
            old(self).ready(),
            0 < total <= BOT,
        ensures
            final(self).divided(),
            v == slot_value(old(self).low(), old(self).range(), old(self).code(), total),
            v < total,
            final(self).range() == old(self).range() / total,
            final(self).pending() == total,
            final(self).low() == old(self).low(),
            final(self).code() == old(self).code(),
            final(self).pos() == old(self).pos(),
            final(self).data() == old(self).data(),
    {
        proof {
            lemma_narrow(self.low, self.range, 0, 1, total);
            let r = self.range / total;
            assert(r * total <= self.range) by (nonlinear_arith)
                requires
                    r == self.range / total,
                    total > 0,
            ;
        }
        self.range = self.range / total;
        self.pending = Ghost(total);
        let d = self.code.wrapping_sub(self.low);
        let q = d / self.range;
        if q < total - 1 {
            q
        } else {
            total - 1
        }
    }

    /// Takes the symbol with cumulative frequency `cum` and frequency `freq`
    /// out of the pending total, and renormalises.
    pub fn update(&mut self, cum: u32, freq: u32)
        requires
            old(self).divided(),
            0 < freq,
            cum + freq <= old(self).pending(),
        ensures
            final(self).ready(),
            final(self).data() == old(self).data(),
            ({
                let l1 = (old(self).low() + cum * old(self).range()) as u32;
                let r1 = (freq * old(self).range()) as u32;
                let n = dec_norm(l1, r1, old(self).code(), old(self).data(), old(self).pos());
                &&& final(self).low() == n.0
                &&& final(self).range() == n.1
                &&& final(self).code() == n.2
                &&& final(self).pos() == n.3
            }),
    {
        let ghost t = self.pending@;
        let ghost r = self.range;
        proof {
            assert(cum * r + freq * r <= r * t) by (nonlinear_arith)
                requires
                    cum + freq <= t,
                    r >= 1,
            ;
            assert(freq * r >= 1) by (nonlinear_arith)
                requires
                    freq >= 1,
                    r >= 1,
            ;
            assert(cum * r >= 0) by (nonlinear_arith)
                requires
                    r >= 1,
            ;
        }
        self.low = self.low + cum * self.range;
        self.range = freq * self.range;
        let ghost l1 = self.low;
        let ghost r1 = self.range;
        let ghost c1 = self.code;
        let ghost p1 = self.pos as int;
        let ghost d = self.data@;
        loop
            invariant_except_break
                d == self.data@,
                0 <= self.pos <= d.len(),
                coder_ok(self.low, self.range),
                coder_ok(l1, r1),
                0 <= p1 <= d.len(),
                dec_norm(l1, r1, c1, d, p1) == dec_norm(self.low, self.range, self.code, d, self.pos as int),
            ensures
                d == self.data@,
                coder_ok(self.low, self.range),
                !needs_shift(self.low, self.range),
                0 <= self.pos <= d.len(),
                dec_norm(l1, r1, c1, d, p1) == (self.low, self.range, self.code, self.pos as int),
            decreases nm1(self.low, self.range), nm2(self.low, self.range), nm3(self.low, self.range),
        {
            let w = self.low.wrapping_add(self.range);
            assert(w == wrapped_sum(self.low, self.range));
            if (self.low ^ w) < TOP {
            } else if self.range < BOT {
                let neg = (0u32).wrapping_sub(self.low);
                assert(neg == (if self.low == 0 { 0u32 } else { (0x1_0000_0000 - self.low) as u32 }));
                proof {
                    lemma_shift_step(self.low, self.range);
                }
                let b = self.next();
                self.code = (self.code << 8) | b;
                self.range = neg & (BOT - 1);
                self.low = self.low << 8;
                self.range = self.range << 8;
                continue;
            } else {
                break;
            }
            proof {
                lemma_shift_step(self.low, self.range);
            }
            let b = self.next();
            self.code = (self.code << 8) | b;
            self.low = self.low << 8;
            self.range = self.range << 8;
        }
        proof {
            lemma_dec_norm_ok(l1, r1, c1, d, p1);
        }
    }
}

/// The encoder state after coding `s` with one adaptive model: the counts,
/// the interval, and the bytes emitted.
pub open spec fn enc_state(s: Seq<u8>) -> (Seq<u32>, u32, u32, Seq<u8>)
    decreases s.len(),
{
    if s.len() == 0 {
        (initial_counts(), 0, u32::MAX, Seq::empty())
    } else {
        let (c, low, range, out) = enc_state(s.drop_last());
        let sym = s.last() as int;
        let (l1, r1) = narrow(low, range, cum_of(c, sym) as u32, c[sym], seq_sum(c) as u32);
        let n = enc_norm(l1, r1);
        (counts_after(c, sym), n.0, n.1, out + n.2)
    }
}

/// The bytes `encode` produces for `s`.
pub open spec fn spec_encode(s: Seq<u8>) -> Seq<u8> {
    let st = enc_state(s);
    st.3 + flush_bytes(st.1)
}

/// The decoder state after `k` symbols of `data`: the counts, the interval,
/// the code register, the read position, and the symbols so far.
pub open spec fn dec_state(data: Seq<u8>, k: nat) -> (Seq<u32>, u32, u32, u32, int, Seq<u8>)
    decreases k,
{
    if k == 0 {
        (initial_counts(), 0, u32::MAX, initial_code(data), next_pos(data, next_pos(data, next_pos(data, next_pos(data, 0)))), Seq::empty())
    } else {
        let (c, low, range, code, pos, out) = dec_state(data, (k - 1) as nat);
        let total = seq_sum(c) as u32;
        let sym = find_from(c, slot_value(low, range, code, total) as int, 0);
        let (l1, r1) = narrow(low, range, cum_of(c, sym) as u32, c[sym], total);
        let n = dec_norm(l1, r1, code, data, pos);
        (counts_after(c, sym), n.0, n.1, n.2, n.3, out.push(sym as u8))
    }
}

/// The bytes `decode` produces from `data` for `count` symbols.
pub open spec fn spec_decode(data: Seq<u8>, count: nat) -> Seq<u8> {
    dec_state(data, count).5
}

/// Codes `bytes` with one adaptive order-0 model.
pub fn encode(bytes: &[u8]) -> (out: Vec<u8>)
    ensures
        out@ == spec_encode(bytes@),
{
    let mut model = Model::new();
    let mut enc = Encoder::new();
    let mut i: usize = 0;
    while i < bytes.len()
        invariant
            i <= bytes.len(),
            model.wf(),
            enc.wf(),
            enc_state(bytes@.take(i as int)) == (model.counts(), enc.low(), enc.range(), enc.bytes()),
        decreases bytes.len() - i,
    {
        let sym = bytes[i] as usize;
        assert(bytes@.take(i as int + 1).drop_last() =~= bytes@.take(i as int));
        let cum = model.cum_freq(sym);
        let f = model.freq(sym);
        let t = model.total();
        enc.encode(cum, f, t);
        model.update(sym);
        i = i + 1;
    }
    assert(bytes@.take(i as int) =~= bytes@);
    enc.finish()
}

/// A decoder's state: the interval's low end and width, the code register,
/// and the read position.
pub open spec fn dec_start(data: Seq<u8>) -> (u32, u32, u32, int) {
    (0, u32::MAX, initial_code(data), next_pos(data, next_pos(data, next_pos(data, next_pos(data, 0)))))
}

/// One symbol decoded from `data` with the counts `c`, the decoder in state
/// `st`: the symbol, the decoder's state after it, and the counts after it.
pub open spec fn dec_symbol(data: Seq<u8>, st: (u32, u32, u32, int), c: Seq<u32>) -> (int, (u32, u32, u32, int), Seq<u32>) {
    let total = seq_sum(c) as u32;
    let sym = find_from(c, slot_value(st.0, st.1, st.2, total) as int, 0);
    let (l1, r1) = narrow(st.0, st.1, cum_of(c, sym) as u32, c[sym], total);
    let n = dec_norm(l1, r1, st.2, data, st.3);
    (sym, (n.0, n.1, n.2, n.3), counts_after(c, sym))
}

/// Decodes one symbol with `model` and adapts it.
pub fn decode_symbol(dec: &mut Decoder, model: &mut Model) -> (sym: usize)
    requires
        old(dec).ready(),
        old(model).wf(),
    ensures
        final(dec).ready(),
        final(model).wf(),
        final(dec).data() == old(dec).data(),
        sym < 256,
        (sym as int, (final(dec).low(), final(dec).range(), final(dec).code(), final(dec).pos()), final(model).counts())
            == dec_symbol(old(dec).data(), (old(dec).low(), old(dec).range(), old(dec).code(), old(dec).pos()), old(model).counts()),
{
    let t = model.total();
    let value = dec.decode_freq(t);
    let sym = model.find(value);
    let cum = model.cum_freq(sym);
    let f = model.freq(sym);
    dec.update(cum, f);
    model.update(sym);
    sym
}


/// Decodes `count` symbols coded by `encode`.
pub fn decode(data: &[u8], count: usize) -> (out: Vec<u8>)
    ensures
        out@ == spec_decode(data@, count as nat),
{
    let mut model = Model::new();
    let mut dec = Decoder::new(data);
    let mut out: Vec<u8> = Vec::new();
    let mut k: usize = 0;
    while k < count
        invariant
            k <= count,
            model.wf(),
            dec.ready(),
            dec.data() == data@,
            dec_state(data@, k as nat) == (model.counts(), dec.low(), dec.range(), dec.code(), dec.pos(), out@),
        decreases count - k,
    {
        let t = model.total();
        let value = dec.decode_freq(t);
        let sym = model.find(value);
        let cum = model.cum_freq(sym);
        let f = model.freq(sym);
        dec.update(cum, f);
        out.push(sym as u8);
        model.update(sym);
        k = k + 1;
    }
    out
}

/// The encoder's interval and output after coding one symbol `e` (its
/// cumulative frequency, frequency and total) from state `st`.
pub open spec fn step_state(st: (u32, u32, Seq<u8>), e: (u32, u32, u32)) -> (u32, u32, Seq<u8>) {
    let (l1, r1) = narrow(st.0, st.1, e.0, e.1, e.2);
    let n = enc_norm(l1, r1);
    (n.0, n.1, st.2 + n.2)
}

/// The encoder state after coding the symbols `ev` from `st`.
pub open spec fn run_from(st: (u32, u32, Seq<u8>), ev: Seq<(u32, u32, u32)>) -> (u32, u32, Seq<u8>)
    decreases ev.len(),
{
    if ev.len() == 0 {
        st
    } else {
        step_state(run_from(st, ev.drop_last()), ev.last())
    }
}

/// Coding `a` then `b` is coding `a + b`.
pub proof fn lemma_run_concat(st: (u32, u32, Seq<u8>), a: Seq<(u32, u32, u32)>, b: Seq<(u32, u32, u32)>)
    ensures
        run_from(run_from(st, a), b) == run_from(st, a + b),
    decreases b.len(),
{
    if b.len() > 0 {
        lemma_run_concat(st, a, b.drop_last());
        assert((a + b).drop_last() =~= a + b.drop_last());
    } else {
        assert(a + b =~= a);
    }
}

/// A fresh encoder.
pub open spec fn initial_state() -> (u32, u32, Seq<u8>) {
    (0, u32::MAX, Seq::empty())
}

/// The bytes an encoder gives for the symbols `ev`, flush included.
pub open spec fn events_bytes(ev: Seq<(u32, u32, u32)>) -> Seq<u8> {
    let r = run_from(initial_state(), ev);
    r.2 + flush_bytes(r.0)
}

/// Coding `sym` with the counts `c`.
pub open spec fn model_event(c: Seq<u32>, sym: int) -> (u32, u32, u32) {
    (cum_of(c, sym) as u32, c[sym], seq_sum(c) as u32)
}

/// The seven-bit group of `v` that is coded next, with the high bit set
/// when more follow.
pub open spec fn group_byte(v: usize) -> int {
    if v >= 0x80 { ((v & 0x7f) | 0x80) as int } else { (v & 0x7f) as int }
}

/// Coding `v` as seven-bit groups, low first, each with the model `c`
/// (updated after each): the symbols, and the counts after.
pub open spec fn value_events(c: Seq<u32>, v: usize) -> (Seq<(u32, u32, u32)>, Seq<u32>)
    decreases v,
{
    let byte = group_byte(v);
    let e = model_event(c, byte);
    let c2 = counts_after(c, byte);
    if v < 0x80 {
        (seq![e], c2)
    } else {
        proof {
            assert(v >> 7 < v) by (bit_vector)
                requires
                    v >= 0x80,
            ;
        }
        let r = value_events(c2, v >> 7);
        (seq![e] + r.0, r.1)
    }
}

pub proof fn lemma_group_byte(v: usize)
    ensures
        0 <= group_byte(v) < 256,
        v >= 0x80 ==> v >> 7 < v,
{
    assert((v & 0x7f) | 0x80 < 256 && v & 0x7f < 256 && (v >= 0x80 ==> v >> 7 < v)) by (bit_vector);
}

impl Encoder {
    /// The interval and the bytes emitted.
    pub open spec fn state(&self) -> (u32, u32, Seq<u8>) {
        (self.low(), self.range(), self.bytes())
    }
}

} // verus!
