//! Bit-level writing and reading, most significant bit of each byte first.
use vstd::prelude::*;

verus! {

/// Bit `k` (0 = most significant) of `b`, as 0 or 1.
pub open spec fn bit_of(b: u8, k: int) -> u8 {
    ((b >> ((7 - k) as u8)) & 1) as u8
}

/// The bits of `s`, eight per byte, most significant first.
pub open spec fn bits_of_bytes(s: Seq<u8>) -> Seq<u8> {
    Seq::new(8 * s.len(), |i: int| bit_of(s[i / 8], i % 8))
}

/// The low `n` bits of `cur`, most significant first.
pub open spec fn partial_bits(cur: u8, n: nat) -> Seq<u8> {
    Seq::new(n, |k: int| ((cur >> ((n - 1 - k) as u8)) & 1) as u8)
}

/// `n` zero bits.
pub open spec fn zero_bits(n: nat) -> Seq<u8> {
    Seq::new(n, |k: int| 0u8)
}

proof fn lemma_bits_push(s: Seq<u8>, b: u8)
    ensures
        bits_of_bytes(s.push(b)) =~= bits_of_bytes(s) + partial_bits(b, 8),
{
    let l = bits_of_bytes(s.push(b));
    let r = bits_of_bytes(s) + partial_bits(b, 8);
    assert forall|i: int| 0 <= i < l.len() implies l[i] == r[i] by {
        if i >= 8 * s.len() {
            assert(i / 8 == s.len());
            assert(i % 8 == i - 8 * s.len());
        }
    }
}

/// Shifting zero by zero gives zero.
pub proof fn lemma_zero_shift()
    ensures
        0u8 >> 0u8 == 0,
{
    vstd::bits::lemma_u8_shr_is_div(0u8, 0u8);
    vstd::arithmetic::power2::lemma_pow2_pos(0);
}

proof fn lemma_shift_in(cur: u8, b: u8, n: u8, k: u8)
    by (bit_vector)
    requires
        n < 8,
        b <= 1,
        cur >> n == 0,
    ensures
        k < n ==> ((((cur << 1) | b) >> ((n - k) as u8)) & 1) == ((cur >> ((n - 1 - k) as u8)) & 1),
        (((cur << 1) | b) >> 0u8) & 1 == b,
        ((cur << 1) | b) >> ((n + 1) as u8) == 0,
{
}

proof fn lemma_pad(cur: u8, n: u8, k: u8)
    by (bit_vector)
    requires
        0 < n < 8,
        cur >> n == 0,
        k < 8,
    ensures
        k < n ==> (((cur << ((8 - n) as u8)) >> ((7 - k) as u8)) & 1) == ((cur >> ((n - 1 - k) as u8)) & 1),
        k >= n ==> (((cur << ((8 - n) as u8)) >> ((7 - k) as u8)) & 1) == 0,
{
}

proof fn lemma_mask_bit(bit: u8)
    by (bit_vector)
    ensures
        bit & 1 <= 1,
        bit & 1 == 0 || bit & 1 == 1,
{
}

/// Collects bits into bytes.
pub struct BitWriter {
    bytes: Vec<u8>,
    cur: u8,
    nbits: u8,
}

impl BitWriter {
    /// The bits written so far, each 0 or 1.
    pub closed spec fn bits(&self) -> Seq<u8> {
        bits_of_bytes(self.bytes@) + partial_bits(self.cur, self.nbits as nat)
    }

    pub closed spec fn wf(&self) -> bool {
        &&& self.nbits < 8
        &&& self.cur >> self.nbits == 0
    }

    pub fn new() -> (w: Self)
        ensures
            w.wf(),
            w.bits() == Seq::<u8>::empty(),
    {
        let w = BitWriter { bytes: Vec::new(), cur: 0, nbits: 0 };
        proof {
            lemma_zero_shift();
        }
        assert(w.bits() =~= Seq::<u8>::empty());
        w
    }

    /// Appends the low bit of `bit`.
    pub fn write_bit(&mut self, bit: u8)
        requires
            old(self).wf(),
        ensures
            final(self).wf(),
            final(self).bits() == old(self).bits().push(bit & 1),
    {
        let ghost old_bits = self.bits();
        let ghost cur0 = self.cur;
        let ghost n0 = self.nbits;
        proof {
            lemma_mask_bit(bit);
        }
        self.cur = (self.cur << 1) | (bit & 1);
        self.nbits = self.nbits + 1;
        proof {
            assert forall|k: u8| k < n0 implies #[trigger] ((((cur0 << 1) | (bit & 1)) >> ((n0 - k) as u8)) & 1) == ((cur0 >> ((n0 - 1 - k) as u8)) & 1) by {
                lemma_shift_in(cur0, bit & 1, n0, k);
            }
            lemma_shift_in(cur0, bit & 1, n0, 0);
            assert(partial_bits(self.cur, self.nbits as nat) =~= partial_bits(cur0, n0 as nat).push(bit & 1)) by {
                let l = partial_bits(self.cur, self.nbits as nat);
                let r = partial_bits(cur0, n0 as nat).push(bit & 1);
                assert forall|i: int| 0 <= i < l.len() implies l[i] == r[i] by {
                    if i < n0 {
                        let k = i as u8;
                        assert((n0 + 1 - 1 - i) as u8 == n0 - k);
                    }
                }
            }
        }
        if self.nbits == 8 {
            let ghost bytes0 = self.bytes@;
            self.bytes.push(self.cur);
            proof {
                lemma_bits_push(bytes0, self.cur);
            }
            self.cur = 0;
            self.nbits = 0;
            proof {
                lemma_zero_shift();
            }
            assert(partial_bits(0, 0) =~= Seq::<u8>::empty());
        }
        assert(self.bits() =~= old_bits.push(bit & 1));
    }

    /// The bytes, with the last one padded by zero bits.
    pub fn finish(self) -> (out: Vec<u8>)
        requires
            self.wf(),
        ensures
            bits_of_bytes(out@) == self.bits() + zero_bits(
                ((8 - self.bits().len() % 8) % 8) as nat,
            ),
            out@.len() == (self.bits().len() + 7) / 8,
    {
        let mut me = self;
        let ghost all = me.bits();
        if me.nbits > 0 {
            let ghost bytes0 = me.bytes@;
            let n = me.nbits;
            let cur0 = me.cur;
            me.cur = me.cur << (8 - me.nbits);
            me.bytes.push(me.cur);
            proof {
                lemma_bits_push(bytes0, me.cur);
                assert(bits_of_bytes(bytes0).len() % 8 == 0);
                assert(all.len() % 8 == n);
                let l = partial_bits(me.cur, 8);
                let r = partial_bits(cur0, n as nat) + zero_bits((8 - n) as nat);
                assert forall|i: int| 0 <= i < 8 implies l[i] == r[i] by {
                    lemma_pad(cur0, n, i as u8);
                }
                assert(l =~= r);
            }
            assert(bits_of_bytes(me.bytes@) =~= all + zero_bits(((8 - all.len() % 8) % 8) as nat));
        } else {
            assert(partial_bits(me.cur, 0) =~= Seq::<u8>::empty());
            assert(zero_bits(0) =~= Seq::<u8>::empty());
            assert(bits_of_bytes(me.bytes@).len() % 8 == 0);
            assert(bits_of_bytes(me.bytes@) =~= all + zero_bits(((8 - all.len() % 8) % 8) as nat));
        }
        let ghost m = me.bytes@.len() as int;
        let ghost k = all.len() as int;
        assert(8 * m == k + (8 - k % 8) % 8);
        assert(m == (k + 7) / 8) by (nonlinear_arith)
            requires
                8 * m == k + (8 - k % 8) % 8,
                k >= 0,
        ;
        me.bytes
    }
}

/// Reads the bits of a byte slice in order.
pub struct BitReader<'a> {
    bytes: &'a [u8],
    pos: usize,
    nbits: u8,
}

impl<'a> BitReader<'a> {
    /// The bytes being read.
    pub closed spec fn data(&self) -> Seq<u8> {
        self.bytes@
    }

    /// How many bits have been read.
    pub closed spec fn index(&self) -> int {
        8 * self.pos + self.nbits
    }

    pub closed spec fn wf(&self) -> bool {
        &&& self.nbits < 8
        &&& self.pos <= self.bytes.len()
        &&& self.pos == self.bytes.len() ==> self.nbits == 0
    }

    /// A well-formed reader is at most at the end of its bits.
    pub proof fn lemma_index_bound(&self)
        requires
            self.wf(),
        ensures
            0 <= self.index() <= bits_of_bytes(self.data()).len(),
    {
    }

    pub fn new(bytes: &'a [u8]) -> (r: Self)
        ensures
            r.wf(),
            r.data() == bytes@,
            r.index() == 0,
    {
        BitReader { bytes, pos: 0, nbits: 0 }
    }

    /// The next bit, or `None` once every bit has been read.
    pub fn read_bit(&mut self) -> (b: Option<u8>)
        requires
            old(self).wf(),
        ensures
            final(self).wf(),
            final(self).data() == old(self).data(),
            old(self).index() < bits_of_bytes(old(self).data()).len() ==> {
                &&& b == Some(bits_of_bytes(old(self).data())[old(self).index()])
                &&& final(self).index() == old(self).index() + 1
            },
            old(self).index() >= bits_of_bytes(old(self).data()).len() ==> {
                &&& b is None
                &&& final(self).index() == old(self).index()
            },
    {
        if self.pos >= self.bytes.len() {
            return None;
        }
        let ghost idx = self.index();
        let bit = (self.bytes[self.pos] >> (7 - self.nbits)) & 1;
        assert(idx / 8 == self.pos && idx % 8 == self.nbits);
        self.nbits = self.nbits + 1;
        if self.nbits == 8 {
            self.nbits = 0;
            self.pos = self.pos + 1;
        }
        Some(bit)
    }
}

/// Byte `i` of a bit string: its bits `8 * i` to `8 * i + 7`, most
/// significant first.
pub open spec fn byte_of_bits(bits: Seq<u8>, i: int) -> u8 {
    ((bits[8 * i] << 7u8) | (bits[8 * i + 1] << 6u8) | (bits[8 * i + 2] << 5u8) | (bits[8 * i + 3] << 4u8)
        | (bits[8 * i + 4] << 3u8) | (bits[8 * i + 5] << 2u8) | (bits[8 * i + 6] << 1u8) | bits[8 * i + 7]) as u8
}

/// The bytes of a bit string whose length is a multiple of eight.
pub open spec fn bytes_of_bits(bits: Seq<u8>) -> Seq<u8> {
    Seq::new(bits.len() / 8, |i: int| byte_of_bits(bits, i))
}

/// The bytes of a bit string padded with zero bits to a whole byte.
pub open spec fn packed(bits: Seq<u8>) -> Seq<u8> {
    bytes_of_bits(bits + zero_bits(((8 - bits.len() % 8) % 8) as nat))
}

proof fn lemma_byte_of_bits_bits(b0: u8, b1: u8, b2: u8, b3: u8, b4: u8, b5: u8, b6: u8, b7: u8, b: u8)
    by (bit_vector)
    requires
        b0 <= 1 && b1 <= 1 && b2 <= 1 && b3 <= 1 && b4 <= 1 && b5 <= 1 && b6 <= 1 && b7 <= 1,
        b == ((b0 << 7u8) | (b1 << 6u8) | (b2 << 5u8) | (b3 << 4u8) | (b4 << 3u8) | (b5 << 2u8) | (b6 << 1u8) | b7),
    ensures
        (b >> 7u8) & 1 == b0,
        (b >> 6u8) & 1 == b1,
        (b >> 5u8) & 1 == b2,
        (b >> 4u8) & 1 == b3,
        (b >> 3u8) & 1 == b4,
        (b >> 2u8) & 1 == b5,
        (b >> 1u8) & 1 == b6,
        (b >> 0u8) & 1 == b7,
{
}

/// Unpacking the bytes a bit string was packed into gives the bit string
/// back, with the zero bits that padded it.
pub proof fn lemma_packed_bits(s: Seq<u8>)
    requires
        forall|i: int| 0 <= i < s.len() ==> #[trigger] s[i] <= 1,
    ensures
        bits_of_bytes(packed(s)) == s + zero_bits(((8 - s.len() % 8) % 8) as nat),
{
    let t = s + zero_bits(((8 - s.len() % 8) % 8) as nat);
    assert(t.len() % 8 == 0);
    assert forall|i: int| 0 <= i < t.len() implies #[trigger] t[i] <= 1 by {
        if i >= s.len() {
            assert(t[i] == 0);
        }
    }
    let bytes = bytes_of_bits(t);
    let u = bits_of_bytes(bytes);
    assert(u.len() == t.len());
    assert forall|i: int| 0 <= i < t.len() implies #[trigger] u[i] == t[i] by {
        let j = i / 8;
        let k = i % 8;
        assert(8 * j + k == i);
        assert(8 * j + 7 < t.len());
        let b = byte_of_bits(t, j);
        assert(bytes[j] == b);
        lemma_byte_of_bits_bits(t[8 * j], t[8 * j + 1], t[8 * j + 2], t[8 * j + 3], t[8 * j + 4], t[8 * j + 5],
            t[8 * j + 6], t[8 * j + 7], b);
        assert(u[i] == bit_of(b, k));
        if k == 0 {
            assert(bit_of(b, 0) == (b >> 7u8) & 1);
        } else if k == 1 {
            assert(bit_of(b, 1) == (b >> 6u8) & 1);
        } else if k == 2 {
            assert(bit_of(b, 2) == (b >> 5u8) & 1);
        } else if k == 3 {
            assert(bit_of(b, 3) == (b >> 4u8) & 1);
        } else if k == 4 {
            assert(bit_of(b, 4) == (b >> 3u8) & 1);
        } else if k == 5 {
            assert(bit_of(b, 5) == (b >> 2u8) & 1);
        } else if k == 6 {
            assert(bit_of(b, 6) == (b >> 1u8) & 1);
        } else {
            assert(bit_of(b, 7) == (b >> 0u8) & 1);
        }
    }
    assert(u =~= t);
}


proof fn lemma_byte_bits(b: u8)
    ensures
        ((((b >> 7u8) & 1) << 7u8) | (((b >> 6u8) & 1) << 6u8) | (((b >> 5u8) & 1) << 5u8) | (((b >> 4u8) & 1) << 4u8)
            | (((b >> 3u8) & 1) << 3u8) | (((b >> 2u8) & 1) << 2u8) | (((b >> 1u8) & 1) << 1u8) | ((b >> 0u8) & 1)) == b,
{
    assert(((((b >> 7u8) & 1) << 7u8) | (((b >> 6u8) & 1) << 6u8) | (((b >> 5u8) & 1) << 5u8) | (((b >> 4u8) & 1) << 4u8)
        | (((b >> 3u8) & 1) << 3u8) | (((b >> 2u8) & 1) << 2u8) | (((b >> 1u8) & 1) << 1u8) | ((b >> 0u8) & 1)) == b) by (bit_vector);
}

/// Packing the bits of some bytes gives the bytes back.
pub proof fn lemma_bytes_of_bits(s: Seq<u8>)
    ensures
        bytes_of_bits(bits_of_bytes(s)) == s,
{
    let bits = bits_of_bytes(s);
    assert forall|i: int| 0 <= i < s.len() implies #[trigger] byte_of_bits(bits, i) == s[i] by {
        lemma_byte_bits(s[i]);
        assert(bits[8 * i] == bit_of(s[i], 0));
        assert(bits[8 * i + 7] == bit_of(s[i], 7));
        assert forall|k: int| 0 <= k < 8 implies #[trigger] bits[8 * i + k] == bit_of(s[i], k) by {
            assert((8 * i + k) / 8 == i);
            assert((8 * i + k) % 8 == k);
        }
    }
    assert(bytes_of_bits(bits) =~= s);
}

} // verus!
