//! Unsigned LEB128 integers: seven bits per byte, low group first, the high
//! bit of a byte set when another byte follows.
use vstd::prelude::*;

verus! {

/// The encoding of `v`.
pub open spec fn encode(v: usize) -> Seq<u8>
    decreases v,
{
    if v < 0x80 {
        seq![v as u8]
    } else {
        proof {
            lemma_shift_decreases(v);
        }
        seq![((v & 0x7f) | 0x80) as u8] + encode(v >> 7)
    }
}

/// The shift that the decoder uses for the group after one at `shift`; it
/// stops growing once it is past the width of `usize`.
pub open spec fn next_shift(shift: nat) -> nat {
    if shift < usize::BITS {
        shift + 7
    } else {
        shift
    }
}

/// What group `b` contributes at `shift`: its low seven bits, shifted, and
/// nothing once the shift is past the width of `usize`.
pub open spec fn group_value(b: u8, shift: nat) -> usize {
    if shift < usize::BITS {
        (((b & 0x7f) as usize) << (shift as usize)) as usize
    } else {
        0
    }
}

/// Decodes the integer that starts at `pos` in `s`, where the groups read so
/// far are at `shift`: the value, and the position after its last byte. A
/// varint that runs off the end of `s` ends there.
pub open spec fn read_from(s: Seq<u8>, pos: int, shift: nat) -> (usize, int)
    decreases s.len() - pos,
{
    if pos < 0 || pos >= s.len() {
        (0, pos)
    } else {
        let b = s[pos];
        if b & 0x80 == 0 {
            (group_value(b, shift), pos + 1)
        } else {
            let rest = read_from(s, pos + 1, next_shift(shift));
            ((group_value(b, shift) | rest.0) as usize, rest.1)
        }
    }
}

/// The value of the varint at `pos`.
pub open spec fn value_at(s: Seq<u8>, pos: int) -> usize {
    read_from(s, pos, 0).0
}

/// The position after the varint at `pos`.
pub open spec fn end_at(s: Seq<u8>, pos: int) -> int {
    read_from(s, pos, 0).1
}

pub proof fn lemma_shift_decreases(v: usize)
    requires
        v >= 0x80,
    ensures
        v >> 7 < v,
{
    assert(v >= 0x80 ==> v >> 7 < v) by (bit_vector);
}

proof fn lemma_group_facts(v: usize, s: usize)
    by (bit_vector)
    requires
        s < usize::BITS,
    ensures
        v < 0x80 ==> (((v as u8) & 0x7f) as usize) << s == v << s,
        v < 0x80 ==> (v as u8) & 0x80 == 0,
        v >= 0x80 ==> (((v & 0x7f) | 0x80) as u8) & 0x80 != 0,
        ((((((v & 0x7f) | 0x80) as u8) & 0x7f) as usize) << s) == ((v & 0x7f) << s),
        s + 7 < usize::BITS ==> ((v & 0x7f) << s) | ((v >> 7) << ((s + 7) as usize)) == v << s,
        s + 7 >= usize::BITS ==> ((v & 0x7f) << s) == v << s,
        ((v & 0x7f) << s) | 0 == (v & 0x7f) << s,
        0usize | 0usize == 0usize,
{
}

proof fn lemma_read_past_width(s: Seq<u8>, pos: int, shift: nat)
    requires
        shift >= usize::BITS,
    ensures
        read_from(s, pos, shift).0 == 0,
    decreases s.len() - pos,
{
    if 0 <= pos < s.len() && s[pos] & 0x80 != 0 {
        lemma_read_past_width(s, pos + 1, shift);
        lemma_group_facts(0, 0);
    }
}

/// Reading back what `encode` wrote, at a given shift.
proof fn lemma_read_encode_at(v: usize, rest: Seq<u8>, shift: nat)
    requires
        shift < usize::BITS,
    ensures
        read_from(encode(v) + rest, 0, shift) == ((v << (shift as usize)) as usize, encode(v).len() as int),
    decreases v,
{
    let e = encode(v);
    let s = e + rest;
    lemma_group_facts(v, shift as usize);
    if v < 0x80 {
        assert(s[0] == v as u8);
    } else {
        lemma_shift_decreases(v);
        let tail = encode(v >> 7);
        assert(s[0] == ((v & 0x7f) | 0x80) as u8);
        assert(s.subrange(1, s.len() as int) =~= tail + rest);
        lemma_read_shift_window(s, tail + rest, 1, next_shift(shift));
        if shift + 7 < usize::BITS {
            lemma_read_encode_at(v >> 7, rest, shift + 7);
        } else {
            lemma_read_past_width(tail + rest, 0, next_shift(shift));
            lemma_read_end_past_width(v >> 7, rest, next_shift(shift));
        }
    }
}

/// Where the varint ends does not depend on the shift.
proof fn lemma_read_end_past_width(v: usize, rest: Seq<u8>, shift: nat)
    ensures
        read_from(encode(v) + rest, 0, shift).1 == encode(v).len() as int,
    decreases v,
{
    let s = encode(v) + rest;
    lemma_group_facts(v, 0);
    if v >= 0x80 {
        lemma_shift_decreases(v);
        let tail = encode(v >> 7);
        assert(s.subrange(1, s.len() as int) =~= tail + rest);
        lemma_read_shift_window(s, tail + rest, 1, next_shift(shift));
        lemma_read_end_past_width(v >> 7, rest, next_shift(shift));
    }
}

/// Reading at `off` in `s` is reading at 0 in what follows `off`.
proof fn lemma_read_shift_window(s: Seq<u8>, t: Seq<u8>, off: int, shift: nat)
    requires
        0 <= off <= s.len(),
        t == s.subrange(off, s.len() as int),
    ensures
        read_from(s, off, shift).0 == read_from(t, 0, shift).0,
        read_from(s, off, shift).1 == read_from(t, 0, shift).1 + off,
    decreases s.len() - off,
{
    if off < s.len() && s[off] & 0x80 != 0 {
        assert(t.subrange(1, t.len() as int) =~= s.subrange(off + 1, s.len() as int));
        lemma_read_shift_window(s, s.subrange(off + 1, s.len() as int), off + 1, next_shift(shift));
        lemma_read_shift_window(t, t.subrange(1, t.len() as int), 1, next_shift(shift));
    }
}

/// Every encoding has at least one byte.
pub proof fn lemma_encode_nonempty(v: usize)
    ensures
        encode(v).len() >= 1,
{
}

/// A varint at a position inside `s` takes at least one byte and ends
/// inside `s`; at or past the end of `s` it takes none.
pub proof fn lemma_end_bounds(s: Seq<u8>, pos: int, shift: nat)
    requires
        0 <= pos,
    ensures
        pos < s.len() ==> pos < read_from(s, pos, shift).1 <= s.len(),
        pos >= s.len() ==> read_from(s, pos, shift).1 == pos,
    decreases s.len() - pos,
{
    if pos < s.len() && s[pos] & 0x80 != 0 {
        lemma_end_bounds(s, pos + 1, next_shift(shift));
    }
}

/// Decoding the encoding of `v`, followed by anything, gives back `v` and
/// stops at the end of the encoding.
pub proof fn lemma_read_write(v: usize, prefix: Seq<u8>, rest: Seq<u8>)
    ensures
        value_at(prefix + encode(v) + rest, prefix.len() as int) == v,
        end_at(prefix + encode(v) + rest, prefix.len() as int) == prefix.len() + encode(v).len(),
{
    let s = prefix + encode(v) + rest;
    assert(s.subrange(prefix.len() as int, s.len() as int) =~= encode(v) + rest);
    lemma_read_shift_window(s, encode(v) + rest, prefix.len() as int, 0);
    lemma_read_encode_at(v, rest, 0);
    vstd::arithmetic::power2::lemma2_to64();
    vstd::bits::lemma_usize_shl_is_mul(v, 0);
}

/// Appends the encoding of `v` to `out`.
pub fn write(out: &mut Vec<u8>, v: usize)
    ensures
        final(out)@ == old(out)@ + encode(v),
{
    let ghost v0 = v;
    let mut v = v;
    while v >= 0x80
        invariant
            old(out)@ + encode(v0) == out@ + encode(v),
        decreases v,
    {
        proof {
            lemma_shift_decreases(v);
        }
        let ghost before = out@;
        out.push(((v & 0x7f) | 0x80) as u8);
        assert(before + encode(v) =~= out@ + encode(v >> 7));
        v = v >> 7;
    }
    out.push(v as u8);
}

proof fn lemma_or_facts(a: usize, b: usize, c: usize)
    by (bit_vector)
    ensures
        a | (b | c) == (a | b) | c,
        a | 0 == a,
        0 | b == b,
{
}

/// Reads the varint at `*pos` and moves `*pos` past it. A varint cut short
/// by the end of `bytes` yields what its bytes hold, and groups beyond the
/// width of `usize` are dropped.
pub fn read(bytes: &[u8], pos: &mut usize) -> (v: usize)
    ensures
        v == value_at(bytes@, *old(pos) as int),
        *final(pos) as int == end_at(bytes@, *old(pos) as int),
{
    let ghost s = bytes@;
    let ghost p0 = *pos as int;
    let mut result: usize = 0;
    let mut shift: u32 = 0;
    proof {
        lemma_or_facts(0, read_from(s, p0, 0).0, 0);
    }
    loop
        invariant_except_break
            s == bytes@,
            shift <= usize::BITS + 7,
            read_from(s, p0, 0).0 == result | read_from(s, *pos as int, shift as nat).0,
            read_from(s, p0, 0).1 == read_from(s, *pos as int, shift as nat).1,
        ensures
            read_from(s, p0, 0).0 == result,
            read_from(s, p0, 0).1 == *pos as int,
        decreases bytes.len() - *pos,
    {
        if *pos >= bytes.len() {
            proof {
                lemma_or_facts(result, 0, 0);
            }
            break;
        }
        let b = bytes[*pos];
        let ghost rest = read_from(s, *pos as int + 1, next_shift(shift as nat));
        let g: usize = if shift < usize::BITS {
            ((b & 0x7f) as usize) << shift
        } else {
            0
        };
        assert(g == group_value(b, shift as nat));
        *pos = *pos + 1;
        proof {
            lemma_or_facts(result, g, rest.0);
        }
        result = result | g;
        if b & 0x80 == 0 {
            break;
        }
        if shift < usize::BITS {
            shift = shift + 7;
        }
    }
    result
}

} // verus!
