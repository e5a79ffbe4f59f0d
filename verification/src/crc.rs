//! CRC-32 (IEEE 802.3, reflected, polynomial 0xEDB88320), the checksum a
//! container keeps of its original input.
use vstd::prelude::*;

verus! {

/// One shift of the reflected CRC register.
pub open spec fn step(c: u32) -> u32 {
    if c & 1 == 1 {
        (c >> 1) ^ 0xEDB8_8320u32
    } else {
        c >> 1
    }
}

/// `k` shifts of the register.
pub open spec fn steps(c: u32, k: nat) -> u32
    decreases k,
{
    if k == 0 {
        c
    } else {
        steps(step(c), (k - 1) as nat)
    }
}

/// The register after feeding it byte `b`.
pub open spec fn feed_byte(c: u32, b: u8) -> u32 {
    steps(c ^ (b as u32), 8)
}

/// The register after feeding it the bytes of `s`, in order.
pub open spec fn feed(c: u32, s: Seq<u8>) -> u32
    decreases s.len(),
{
    if s.len() == 0 {
        c
    } else {
        feed_byte(feed(c, s.drop_last()), s.last())
    }
}

/// The CRC-32 of `s`: the register starts at all ones and ends inverted.
pub open spec fn spec_crc32(s: Seq<u8>) -> u32 {
    feed(0xFFFF_FFFFu32, s) ^ 0xFFFF_FFFFu32
}

/// Computes the CRC-32 of `data`.
pub fn crc32(data: &[u8]) -> (c: u32)
    ensures
        c == spec_crc32(data@),
{
    let mut c: u32 = 0xFFFF_FFFF;
    let mut i: usize = 0;
    while i < data.len()
        invariant
            i <= data.len(),
            c == feed(0xFFFF_FFFFu32, data@.take(i as int)),
        decreases data.len() - i,
    {
        let ghost before = c;
        assert(data@.take(i as int + 1).drop_last() =~= data@.take(i as int));
        c = c ^ (data[i] as u32);
        let mut k: u32 = 0;
        while k < 8
            invariant
                k <= 8,
                steps(c, (8 - k) as nat) == feed_byte(before, data@[i as int]),
            decreases 8 - k,
        {
            c = if c & 1 == 1 {
                (c >> 1) ^ 0xEDB8_8320u32
            } else {
                c >> 1
            };
            k = k + 1;
        }
        i = i + 1;
    }
    assert(data@.take(data.len() as int) =~= data@);
    c ^ 0xFFFF_FFFF
}

} // verus!
