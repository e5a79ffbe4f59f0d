//! Byte statistics and the entropy classes reported per block.
use vstd::prelude::*;

verus! {

/// How many times `b` occurs in `s`.
pub open spec fn count(s: Seq<u8>, b: u8) -> nat
    decreases s.len(),
{
    if s.len() == 0 {
        0
    } else {
        count(s.drop_last(), b) + if s.last() == b { 1nat } else { 0nat }
    }
}

/// How many of the byte values below `k` occur in `s`.
pub open spec fn distinct_below(s: Seq<u8>, k: int) -> nat
    decreases k,
{
    if k <= 0 {
        0
    } else {
        distinct_below(s, k - 1) + if count(s, (k - 1) as u8) > 0 { 1nat } else { 0nat }
    }
}

proof fn lemma_count_le(s: Seq<u8>, b: u8)
    ensures
        count(s, b) <= s.len(),
    decreases s.len(),
{
    if s.len() > 0 {
        lemma_count_le(s.drop_last(), b);
    }
}

/// The number of occurrences of each byte value.
pub fn histogram(bytes: &[u8]) -> (h: [usize; 256])
    ensures
        forall|b: u8| #[trigger] h@[b as int] == count(bytes@, b),
{
    let mut h: [usize; 256] = [0; 256];
    let mut i: usize = 0;
    while i < bytes.len()
        invariant
            i <= bytes.len(),
            forall|b: u8| #[trigger] h@[b as int] == count(bytes@.take(i as int), b),
        decreases bytes.len() - i,
    {
        let b = bytes[i];
        assert(bytes@.take(i as int + 1).drop_last() =~= bytes@.take(i as int));
        proof {
            lemma_count_le(bytes@.take(i as int), b);
        }
        h[b as usize] = h[b as usize] + 1;
        i = i + 1;
        assert forall|c: u8| #[trigger] h@[c as int] == count(bytes@.take(i as int), c) by {
            if c != b {
                assert(h@[c as int] == count(bytes@.take(i as int - 1), c));
            }
        }
    }
    assert(bytes@.take(i as int) =~= bytes@);
    h
}

/// The number of distinct byte values in `bytes`.
pub fn ubytes(bytes: &[u8]) -> (n: usize)
    ensures
        n == distinct_below(bytes@, 256),
{
    let h = histogram(bytes);
    let mut n: usize = 0;
    let mut k: usize = 0;
    while k < 256
        invariant
            k <= 256,
            n <= k,
            n == distinct_below(bytes@, k as int),
            forall|b: u8| #[trigger] h@[b as int] == count(bytes@, b),
        decreases 256 - k,
    {
        assert(h@[(k as u8) as int] == count(bytes@, k as u8));
        if h[k] > 0 {
            n = n + 1;
        }
        k = k + 1;
    }
    n
}

/// How predictable a block's bytes are.
#[derive(Debug, Clone, Copy, PartialEq, Eq)]
pub enum EntropyClass {
    Empty,
    VeryLow,
    Low,
    Medium,
    High,
    VeryHigh,
}

/// The label of each class.
pub open spec fn class_label(c: EntropyClass) -> Seq<char> {
    match c {
        EntropyClass::Empty => "empty"@,
        EntropyClass::VeryLow => "very low"@,
        EntropyClass::Low => "low"@,
        EntropyClass::Medium => "medium"@,
        EntropyClass::High => "high"@,
        EntropyClass::VeryHigh => "very high"@,
    }
}

impl EntropyClass {
    pub fn label(&self) -> (s: &'static str)
        ensures
            s@ == class_label(*self),
    {
        match self {
            EntropyClass::Empty => "empty",
            EntropyClass::VeryLow => "very low",
            EntropyClass::Low => "low",
            EntropyClass::Medium => "medium",
            EntropyClass::High => "high",
            EntropyClass::VeryHigh => "very high",
        }
    }
}

/// The models the cost estimator weighs.
#[derive(Debug, Clone, Copy, PartialEq, Eq)]
pub enum CandidateModel {
    Raw,
    Solid,
    Rle,
    Copy,
    Delta,
    Dict,
    Entropy,
}

/// The name of each candidate.
pub open spec fn candidate_name(c: CandidateModel) -> Seq<char> {
    match c {
        CandidateModel::Raw => "RAW"@,
        CandidateModel::Solid => "SOLID"@,
        CandidateModel::Rle => "RLE"@,
        CandidateModel::Copy => "COPY"@,
        CandidateModel::Delta => "DELTA"@,
        CandidateModel::Dict => "DICTIONARY"@,
        CandidateModel::Entropy => "ENTROPY"@,
    }
}

impl CandidateModel {
    pub fn name(&self) -> (s: &'static str)
        ensures
            s@ == candidate_name(*self),
    {
        match self {
            CandidateModel::Raw => "RAW",
            CandidateModel::Solid => "SOLID",
            CandidateModel::Rle => "RLE",
            CandidateModel::Copy => "COPY",
            CandidateModel::Delta => "DELTA",
            CandidateModel::Dict => "DICTIONARY",
            CandidateModel::Entropy => "ENTROPY",
        }
    }
}

} // verus!
