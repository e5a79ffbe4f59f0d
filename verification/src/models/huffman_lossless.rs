//! Huffman decoding gives back what Huffman coding coded, wherever every
//! coded byte has a code and the code lengths fill no more than the code
//! space: the table reads back, and each code is read bit by bit without a
//! shorter code matching on the way.
use vstd::prelude::*;
use vstd::arithmetic::power2::{lemma_pow2_pos, lemma_pow2_unfold, pow2};
use crate::bits::{bits_of_bytes, packed, zero_bits, lemma_packed_bits};
use crate::varint;
use super::huffman::{
    code_bits, coded_below, dec_state, first_code_exact, lemma_code_value, lemma_coded_below, lemma_dec_state_done, lemma_max_below,
    lemma_prefix_free, lengths_fit, lookup, max_below, nibble_table, pairs, read_pairs, read_table_spec, spec_code,
    spec_code_lengths, spec_decode, spec_encode, sparse_table, stream_bits, table_bytes,
};

verus! {

/// Every byte of `b` has a code, and the code lengths of `b` fill no more
/// than the code space.
pub open spec fn codes_fit(b: Seq<u8>) -> bool {
    let l = spec_code_lengths(b);
    &&& l.len() == 256
    &&& lengths_fit(l)
    &&& forall|i: int| 0 <= i < b.len() ==> #[trigger] l[b[i] as int] >= 1
}

/// Bit facts of the table and the code register: two nibbles packed into a
/// byte come apart again, and a bit shifted into a register below 2^31
/// adds to its double.
proof fn lemma_nibble_bit_bv(a: u8, b: u8, c: u32, bit: u32)
    by (bit_vector)
    ensures
        a < 16u8 && b < 16u8 ==> ((a | ((b << 4u8) as u8)) as u8) & 0x0fu8 == a,
        a < 16u8 && b < 16u8 ==> ((a | ((b << 4u8) as u8)) as u8) >> 4u8 == b,
        c < 0x8000_0000u32 && bit <= 1u32 ==> ((c << 1u32) | bit) as u64 == 2u64 * (c as u64) + (bit as u64),
{
}

proof fn lemma_pairs(l: Seq<u8>, p: Seq<u8>)
    ensures
        pairs(l, p).len() == 2 * p.len(),
        forall|j: int| 0 <= j < p.len() ==> pairs(l, p)[2 * j] == #[trigger] p[j] && pairs(l, p)[2 * j + 1] == l[p[j] as int],
    decreases p.len(),
{
    if p.len() > 0 {
        lemma_pairs(l, p.drop_last());
        assert forall|j: int| 0 <= j < p.len() implies pairs(l, p)[2 * j] == #[trigger] p[j] && pairs(l, p)[2 * j + 1] == l[p[j] as int] by {
            if j < p.len() - 1 {
                assert(p.drop_last()[j] == p[j]);
            }
        }
    }
}

/// The lengths of the symbols among the first `j` of `p`, zero elsewhere.
pub open spec fn partial_lengths(l: Seq<u8>, p: Seq<u8>, j: int) -> Seq<u8> {
    Seq::new(256, |s: int| if p.take(j).contains(s as u8) { l[s] } else { 0u8 })
}

proof fn lemma_read_pairs(d: Seq<u8>, q: int, l: Seq<u8>, p: Seq<u8>, j: int)
    requires
        l.len() == 256,
        0 <= j <= p.len(),
        0 <= q,
        q + 2 * p.len() <= d.len(),
        forall|i: int| 0 <= i < 2 * p.len() ==> d[q + i] == #[trigger] pairs(l, p)[i],
    ensures
        read_pairs(d, q + 2 * j, (p.len() - j) as nat, partial_lengths(l, p, j))
            == (partial_lengths(l, p, p.len() as int), q + 2 * p.len()),
    decreases p.len() - j,
{
    if j < p.len() {
        lemma_pairs(l, p);
        assert(d[q + 2 * j] == p[j]);
        assert(d[q + 2 * j + 1] == l[p[j] as int]);
        assert(partial_lengths(l, p, j).update(p[j] as int, l[p[j] as int]) =~= partial_lengths(l, p, j + 1)) by {
            assert(p.take(j + 1) =~= p.take(j).push(p[j]));
            assert forall|x: int| 0 <= x < 256 implies partial_lengths(l, p, j).update(p[j] as int, l[p[j] as int])[x]
                == partial_lengths(l, p, j + 1)[x] by {
                if x != p[j] as int {
                    assert(p.take(j + 1).contains(x as u8) <==> p.take(j).contains(x as u8)) by {
                        if p.take(j + 1).contains(x as u8) {
                            let k = choose|k: int| 0 <= k < j + 1 && #[trigger] p.take(j + 1)[k] == x as u8;
                            if k == j {
                                assert(x as u8 == p[j]);
                            } else {
                                assert(p.take(j)[k] == x as u8);
                            }
                        }
                        if p.take(j).contains(x as u8) {
                            let k = choose|k: int| 0 <= k < j && #[trigger] p.take(j)[k] == x as u8;
                            assert(p.take(j + 1)[k] == x as u8);
                        }
                    }
                } else {
                    assert(p.take(j + 1)[j] == p[j]);
                }
            }
        }
        lemma_read_pairs(d, q, l, p, j + 1);
    }
}

proof fn lemma_table_nonempty(l: Seq<u8>)
    ensures
        table_bytes(l).len() >= 1,
{
}

/// The code-length table reads back.
proof fn lemma_table(l: Seq<u8>, rest: Seq<u8>)
    requires
        l.len() == 256,
    ensures
        read_table_spec(table_bytes(l) + rest, 0) == (l, table_bytes(l).len() as int),
{
    let t = table_bytes(l);
    let d = t + rest;
    if max_below(l, 256) <= 15 && sparse_table(l).len() >= 130 {
        lemma_max_below(l, 256);
        let n = nibble_table(l);
        assert(d[0] == 2u8);
        assert forall|i: int| 0 <= i < 256 implies (if i % 2 == 0 { d[1 + i / 2] & 0x0f } else { d[1 + i / 2] >> 4u8 }) == l[i] by {
            let k = i / 2;
            assert(d[1 + k] == n[1 + k]);
            lemma_nibble_bit_bv(l[2 * k], l[2 * k + 1], 0, 0);
        }
        assert(read_table_spec(d, 0).0 =~= l);
    } else if sparse_table(l).len() < 257 {
        let p = coded_below(l, 256);
        let e = varint::encode(p.len() as usize);
        lemma_coded_below(l, 256);
        lemma_pairs(l, p);
        assert(d[0] == 1u8);
        varint::lemma_read_write(p.len() as usize, seq![1u8], pairs(l, p) + rest);
        assert(d =~= seq![1u8] + e + (pairs(l, p) + rest));
        let q: int = 1 + e.len() as int;
        assert forall|i: int| 0 <= i < 2 * p.len() implies d[q + i] == #[trigger] pairs(l, p)[i] by {
        }
        assert(partial_lengths(l, p, 0) =~= Seq::new(256, |i: int| 0u8)) by {
            assert(p.take(0) =~= Seq::<u8>::empty());
        }
        lemma_read_pairs(d, q, l, p, 0);
        assert(partial_lengths(l, p, p.len() as int) =~= l) by {
            assert(p.take(p.len() as int) =~= p);
            assert forall|s: int| 0 <= s < 256 implies partial_lengths(l, p, p.len() as int)[s] == l[s] by {
                if p.contains(s as u8) {
                    let k = choose|k: int| 0 <= k < p.len() && p[k] == s as u8;
                    assert(l[p[k] as int] > 0);
                } else if l[s] > 0 {
                    assert(p.contains(s as u8));
                }
            }
        }
    } else {
        assert(d[0] == 0u8);
        assert(read_table_spec(d, 0).0 =~= l);
    }
}

proof fn lemma_low_bit(x: u32)
    ensures
        x & 1u32 == x % 2,
{
    vstd::bits::lemma_low_bits_mask_values();
    vstd::bits::lemma_u32_low_bits_mask_is_mod(x, 1);
    vstd::arithmetic::power2::lemma2_to64();
}

/// The bits of a code are 0 or 1.
proof fn lemma_code_bits01(code: u32, len: u8)
    ensures
        forall|k: int| 0 <= k < len ==> #[trigger] code_bits(code, len)[k] <= 1,
{
    assert forall|k: int| 0 <= k < len implies #[trigger] code_bits(code, len)[k] <= 1 by {
        lemma_low_bit(code >> ((((len - 1 - k) as u32) % 32u32)));
    }
}

/// Reading the code bits one by one: after `j` bits the register holds
/// the code's top `j` bits.
proof fn lemma_next_prefix(code: u32, len: nat, j: nat)
    requires
        1 <= j <= len <= 32,
        code < pow2(len),
    ensures
        ({
            let c = (code as int / pow2((len - j + 1) as nat) as int) as u32;
            let bit = code_bits(code, len as u8)[j - 1];
            &&& c as int == code as int / pow2((len - j + 1) as nat) as int
            &&& (((c << 1u32) | (bit as u32)) as u32) as int == code as int / pow2((len - j) as nat) as int
            &&& code as int / (pow2((len - j) as nat) as int) < pow2(j)
        }),
{
    let m = (len - j) as nat;
    lemma_pow2_pos(m);
    lemma_pow2_pos(m + 1);
    lemma_pow2_unfold(m + 1);
    vstd::arithmetic::power2::lemma_pow2_adds(m, j);
    vstd::arithmetic::power2::lemma_pow2_adds(m + 1, (j - 1) as nat);
    vstd::arithmetic::power2::lemma2_to64();
    let pm = pow2(m) as int;
    let y = code as int / pm;
    vstd::arithmetic::div_mod::lemma_div_denominator(code as int, pm, 2);
    assert(pow2(m + 1) as int == pm * 2);
    let c = y / 2;
    assert(code as int / pow2(m + 1) as int == c);
    vstd::arithmetic::div_mod::lemma_multiply_divide_lt(code as int, pow2(m + 1) as int, pow2((j - 1) as nat) as int);
    vstd::arithmetic::div_mod::lemma_multiply_divide_lt(code as int, pm, pow2(j) as int);
    if j < 32 {
        vstd::arithmetic::power2::lemma_pow2_strictly_increases((j - 1) as nat, 31);
    } else {
        assert(j - 1 == 31);
    }
    assert(c < 0x8000_0000);
    vstd::bits::lemma_u32_shr_is_div(code, m as u32);
    assert(((len - 1 - (j - 1)) as u32) % 32u32 == m as u32);
    let x = code >> (m as u32);
    assert(x as int == y);
    lemma_low_bit(x);
    let bit = code_bits(code, len as u8)[j - 1];
    assert(bit as int == y % 2);
    lemma_nibble_bit_bv(0, 0, c as u32, bit as u32);
    vstd::arithmetic::div_mod::lemma_fundamental_div_mod(y, 2);
}

proof fn lemma_lookup_some(l: Seq<u8>, len: u8, code: u32, k: int)
    requires
        0 <= k <= l.len(),
        k <= 256,
    ensures
        lookup(l, len, code, k) matches Some(t) ==> 0 <= t < k && l[t as int] != 0 && l[t as int] == len && spec_code(l, t as int) == code,
    decreases k,
{
    if k > 0 {
        lemma_lookup_some(l, len, code, k - 1);
    }
}

proof fn lemma_lookup_finds(l: Seq<u8>, sym: int, k: int)
    requires
        l.len() == 256,
        lengths_fit(l),
        0 <= sym < k <= 256,
        l[sym] >= 1,
    ensures
        lookup(l, l[sym], spec_code(l, sym), k) == Some(sym as u8),
    decreases k,
{
    if k - 1 != sym {
        let t = k - 1;
        if l[t] != 0 && l[t] == l[sym] && spec_code(l, t) == spec_code(l, sym) {
            lemma_prefix_free(l, t, sym);
            vstd::arithmetic::power2::lemma2_to64();
            assert(spec_code(l, sym) as int / 1 == spec_code(l, sym) as int);
        }
        lemma_lookup_finds(l, sym, k - 1);
    }
}

/// Reading the code of `sym` from a decoder between symbols: the register
/// holds the code's top bits until the whole code is read, then `sym` is
/// out.
proof fn lemma_read_code(bits: Seq<u8>, l: Seq<u8>, count: nat, o: Seq<u8>, pos: int, sym: int, j: int)
    requires
        l.len() == 256,
        lengths_fit(l),
        0 <= sym < 256,
        l[sym] >= 1,
        o.len() < count,
        0 <= pos,
        pos + l[sym] <= bits.len(),
        forall|i: int| 0 <= i < l[sym] ==> bits[pos + i] == #[trigger] code_bits(spec_code(l, sym), l[sym])[i],
        dec_state(bits, pos, l, count) == (o, 0u32, 0u8),
        0 <= j < l[sym],
    ensures
        dec_state(bits, pos + j, l, count) == (o, (spec_code(l, sym) as int / pow2((l[sym] - j) as nat) as int) as u32, j as u8),
    decreases j,
{
    let len = l[sym] as nat;
    let code = spec_code(l, sym);
    lemma_code_value(l, sym);
    if j == 0 {
        vstd::arithmetic::div_mod::lemma_basic_div(code as int, pow2(len) as int);
    } else {
        lemma_read_code(bits, l, count, o, pos, sym, j - 1);
        lemma_next_prefix(code, len, j as nat);
        let c2 = code as int / pow2((len - j) as nat) as int;
        let st = dec_state(bits, pos + j, l, count);
        assert(bits[pos + j - 1] == code_bits(code, len as u8)[j - 1]);
        lemma_lookup_some(l, j as u8, c2 as u32, 256);
        if let Some(t) = lookup(l, j as u8, c2 as u32, 256) {
            lemma_prefix_free(l, t as int, sym);
            assert(false);
        }
    }
}

proof fn lemma_read_symbol(bits: Seq<u8>, l: Seq<u8>, count: nat, o: Seq<u8>, pos: int, sym: int)
    requires
        l.len() == 256,
        lengths_fit(l),
        0 <= sym < 256,
        l[sym] >= 1,
        o.len() < count,
        0 <= pos,
        pos + l[sym] <= bits.len(),
        forall|i: int| 0 <= i < l[sym] ==> bits[pos + i] == #[trigger] code_bits(spec_code(l, sym), l[sym])[i],
        dec_state(bits, pos, l, count) == (o, 0u32, 0u8),
    ensures
        dec_state(bits, pos + l[sym], l, count) == (o.push(sym as u8), 0u32, 0u8),
{
    let len = l[sym] as nat;
    let code = spec_code(l, sym);
    lemma_code_value(l, sym);
    lemma_read_code(bits, l, count, o, pos, sym, len - 1);
    lemma_next_prefix(code, len, len);
    vstd::arithmetic::power2::lemma2_to64();
    assert(code as int / 1 == code as int);
    assert(bits[pos + len - 1] == code_bits(code, len as u8)[len - 1]);
    lemma_lookup_finds(l, sym, 256);
}

proof fn lemma_stream_prefix(b: Seq<u8>, l: Seq<u8>, i: int, j: int)
    requires
        0 <= i <= j <= b.len(),
    ensures
        stream_bits(b.take(i), l).len() <= stream_bits(b.take(j), l).len(),
        stream_bits(b.take(j), l).subrange(0, stream_bits(b.take(i), l).len() as int) == stream_bits(b.take(i), l),
    decreases j,
{
    if i < j {
        lemma_stream_prefix(b, l, i, j - 1);
        assert(b.take(j).drop_last() =~= b.take(j - 1));
        let a = stream_bits(b.take(j - 1), l);
        let c = stream_bits(b.take(j), l);
        assert(c.subrange(0, a.len() as int) =~= a);
        assert(c.subrange(0, stream_bits(b.take(i), l).len() as int) =~= a.subrange(0, stream_bits(b.take(i), l).len() as int));
    } else {
        assert(stream_bits(b.take(j), l).subrange(0, stream_bits(b.take(j), l).len() as int) =~= stream_bits(b.take(j), l));
    }
}

proof fn lemma_stream_bits01(s: Seq<u8>, l: Seq<u8>)
    ensures
        forall|i: int| 0 <= i < stream_bits(s, l).len() ==> #[trigger] stream_bits(s, l)[i] <= 1,
    decreases s.len(),
{
    if s.len() > 0 {
        let a = stream_bits(s.drop_last(), l);
        let c = code_bits(spec_code(l, s.last() as int), l[s.last() as int]);
        lemma_stream_bits01(s.drop_last(), l);
        lemma_code_bits01(spec_code(l, s.last() as int), l[s.last() as int]);
        assert(stream_bits(s, l) == a + c);
        assert forall|i: int| 0 <= i < stream_bits(s, l).len() implies #[trigger] stream_bits(s, l)[i] <= 1 by {
            if i < a.len() {
                assert(stream_bits(s, l)[i] == a[i]);
            } else {
                assert(stream_bits(s, l)[i] == c[i - a.len()]);
            }
        }
    }
}

/// After the codes of the first `k` bytes of `b`, the decoder has those
/// bytes out and an empty register.
proof fn lemma_follow(b: Seq<u8>, bits: Seq<u8>, k: int)
    requires
        codes_fit(b),
        0 <= k <= b.len(),
        stream_bits(b, spec_code_lengths(b)).len() <= bits.len(),
        bits.subrange(0, stream_bits(b, spec_code_lengths(b)).len() as int) == stream_bits(b, spec_code_lengths(b)),
    ensures
        dec_state(bits, stream_bits(b.take(k), spec_code_lengths(b)).len() as int, spec_code_lengths(b), b.len())
            == (b.take(k), 0u32, 0u8),
    decreases k,
{
    let l = spec_code_lengths(b);
    if k == 0 {
        assert(b.take(0) =~= Seq::<u8>::empty());
    } else {
        lemma_follow(b, bits, k - 1);
        let sym = b[k - 1] as int;
        let p = b.take(k - 1);
        assert(b.take(k).drop_last() =~= p);
        let s0 = stream_bits(p, l);
        let s1 = stream_bits(b.take(k), l);
        let cb = code_bits(spec_code(l, sym), l[sym]);
        assert(s1 == s0 + cb);
        lemma_stream_prefix(b, l, k, b.len() as int);
        assert(b.take(b.len() as int) =~= b);
        assert forall|i: int| 0 <= i < l[sym] implies bits[s0.len() + i] == #[trigger] cb[i] by {
            assert(s1[s0.len() + i] == cb[i]);
            assert(stream_bits(b, l).subrange(0, s1.len() as int)[s0.len() + i] == s1[s0.len() + i]);
        }
        lemma_read_symbol(bits, l, b.len(), p, s0.len() as int, sym);
        assert(p.push(sym as u8) =~= b.take(k));
    }
}

/// Huffman decoding the coding of `b`, for as many bytes as `b` has, gives
/// `b` back, where every byte of `b` has a code and the code lengths fill
/// no more than the code space.
#[verifier::rlimit(40)]
pub proof fn lemma_decode_encode(b: Seq<u8>)
    requires
        codes_fit(b),
    ensures
        spec_decode(spec_encode(b), b.len()) == b,
{
    let l = spec_code_lengths(b);
    let s = stream_bits(b, l);
    let t = table_bytes(l);
    let d = spec_encode(b);
    assert(d == t + packed(s));
    if b.len() > 0 {
        lemma_table(l, packed(s));
        lemma_table_nonempty(l);
        assert(d.skip(t.len() as int) =~= packed(s));
        lemma_stream_bits01(b, l);
        lemma_packed_bits(s);
        let bits = bits_of_bytes(packed(s));
        assert(bits.subrange(0, s.len() as int) =~= s);
        lemma_follow(b, bits, b.len() as int);
        assert(b.take(b.len() as int) =~= b);
        lemma_dec_state_done(bits, s.len() as int, bits.len() as int, l, b.len());
    }
}

/// How many of the lengths are `b`.
fn count_len(lengths: &[u8; 256], b: u8) -> (c: u64)
    ensures
        c == crate::entropy::count(lengths@, b),
        c <= 256,
{
    let ghost l = lengths@;
    let mut c: u64 = 0;
    let mut i: usize = 0;
    while i < 256
        invariant
            i <= 256,
            l == lengths@,
            l.len() == 256,
            c == crate::entropy::count(l.take(i as int), b),
            c <= i,
        decreases 256 - i,
    {
        assert(l.take(i as int + 1).drop_last() =~= l.take(i as int));
        if lengths[i] == b {
            c = c + 1;
        }
        i = i + 1;
    }
    assert(l.take(256) =~= l);
    c
}

/// Whether every byte of `bytes` has a code and its code lengths fill no
/// more than the code space.
pub fn fits(bytes: &[u8]) -> (r: bool)
    ensures
        r == codes_fit(bytes@),
{
    let lengths = super::huffman::code_lengths(bytes);
    let ghost l = lengths@;
    assert(l.len() == 256);
    let mut i: usize = 0;
    while i < 256
        invariant
            i <= 256,
            l == lengths@,
            l == spec_code_lengths(bytes@),
            forall|k: int| 0 <= k < i ==> #[trigger] l[k] <= 32,
        decreases 256 - i,
    {
        if lengths[i] > 32 {
            assert(!(l[i as int] <= 32));
            return false;
        }
        i = i + 1;
    }
    proof {
        vstd::arithmetic::power2::lemma2_to64();
    }
    let mut fc: u64 = 0;
    let mut prev: u64 = 0;
    let mut pw: u64 = 1;
    let mut bits: u64 = 1;
    while bits <= 32
        invariant
            1 <= bits <= 33,
            l == lengths@,
            l == spec_code_lengths(bytes@),
            l.len() == 256,
            forall|k: int| 0 <= k < 256 ==> #[trigger] l[k] <= 32,
            fc as int == first_code_exact(l, (bits - 1) as nat),
            prev as int == (if bits - 1 == 0 { 0 } else { crate::entropy::count(l, (bits - 1) as u8) as int }),
            pw as int == pow2((bits - 1) as nat),
            fc + prev <= pw,
            pw <= 0x1_0000_0000,
            forall|b: nat| 1 <= b < bits ==> #[trigger] first_code_exact(l, b) + crate::entropy::count(l, b as u8) <= pow2(b),
        decreases 33 - bits,
    {
        proof {
            vstd::arithmetic::power2::lemma2_to64();
            if bits - 1 < 31 {
                vstd::arithmetic::power2::lemma_pow2_strictly_increases((bits - 1) as nat, 31);
            }
        }
        assert(pw <= 0x8000_0000);
        let next = 2 * (fc + prev);
        let c = count_len(&lengths, bits as u8);
        proof {
            lemma_pow2_unfold(bits as nat);
        }
        assert(next as int == first_code_exact(l, bits as nat));
        assert(2 * pw == pow2(bits as nat));
        if next + c > 2 * pw {
            assert(!(first_code_exact(l, bits as nat) + crate::entropy::count(l, bits as u8) <= pow2(bits as nat)));
            return false;
        }
        fc = next;
        prev = c;
        pw = 2 * pw;
        bits = bits + 1;
    }
    assert(lengths_fit(l));
    let mut j: usize = 0;
    while j < bytes.len()
        invariant
            j <= bytes.len(),
            l == lengths@,
            l == spec_code_lengths(bytes@),
            forall|k: int| 0 <= k < j ==> #[trigger] l[bytes@[k] as int] >= 1,
        decreases bytes.len() - j,
    {
        if lengths[bytes[j] as usize] == 0 {
            return false;
        }
        j = j + 1;
    }
    true
}

} // verus!
