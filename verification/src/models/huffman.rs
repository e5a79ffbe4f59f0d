//! Canonical Huffman coding of bytes: a table of code lengths, then the
//! codes of the bytes, most significant bit first.
use vstd::prelude::*;
use crate::bits::{self, BitReader, BitWriter, bits_of_bytes, zero_bits};
use crate::entropy::{count, histogram};
use crate::varint;
use vstd::arithmetic::power2::{lemma_pow2_pos, lemma_pow2_unfold, pow2};

verus! {

/// A node of the code tree: a byte, or the join of two earlier nodes.
pub enum Node {
    Leaf(u8),
    Internal(usize, usize),
}

/// The queue entry with the smallest (weight, node index), first one wins.
pub open spec fn argmin_from(q: Seq<(usize, usize)>, i: int, best: int) -> int
    decreases q.len() - i,
{
    if i >= q.len() {
        best
    } else if q[i].0 < q[best].0 || (q[i].0 == q[best].0 && q[i].1 < q[best].1) {
        argmin_from(q, i + 1, i)
    } else {
        argmin_from(q, i + 1, best)
    }
}

pub open spec fn argmin(q: Seq<(usize, usize)>) -> int {
    argmin_from(q, 1, 0)
}

/// The symbols present in `bytes`, in increasing order.
pub open spec fn present_below(bytes: Seq<u8>, k: int) -> Seq<u8>
    decreases k,
{
    if k <= 0 {
        Seq::empty()
    } else if count(bytes, (k - 1) as u8) > 0 {
        present_below(bytes, k - 1).push((k - 1) as u8)
    } else {
        present_below(bytes, k - 1)
    }
}

/// The queue and nodes before any merge: one leaf per present symbol.
pub open spec fn initial_queue(bytes: Seq<u8>) -> Seq<(usize, usize)> {
    let p = present_below(bytes, 256);
    Seq::new(p.len(), |i: int| (count(bytes, p[i]) as usize, i as usize))
}

pub open spec fn initial_nodes(bytes: Seq<u8>) -> Seq<Node> {
    let p = present_below(bytes, 256);
    Seq::new(p.len(), |i: int| Node::Leaf(p[i]))
}

/// Merging the two lightest entries until one is left: the final queue and
/// nodes.
pub open spec fn merge(q: Seq<(usize, usize)>, nodes: Seq<Node>) -> (Seq<(usize, usize)>, Seq<Node>)
    decreases q.len(),
{
    if q.len() <= 1 {
        (q, nodes)
    } else {
        let i = argmin(q);
        proof {
            lemma_argmin_bounds(q, 1, 0);
        }
        let a = q[i];
        let q1 = q.remove(i);
        proof {
            lemma_argmin_bounds(q1, 1, 0);
        }
        let j = argmin(q1);
        let b = q1[j];
        let q2 = q1.remove(j);
        let idx = nodes.len();
        merge(q2.push(((a.0 + b.0) as usize, idx as usize)), nodes.push(Node::Internal(a.1, b.1)))
    }
}

/// The code lengths after giving every leaf under node `idx` its depth.
pub open spec fn depths(nodes: Seq<Node>, idx: int, depth: int, lengths: Seq<u8>) -> Seq<u8>
    decreases idx,
{
    if idx < 0 || idx >= nodes.len() {
        lengths
    } else {
        match nodes[idx] {
            Node::Leaf(sym) => lengths.update(sym as int, depth as u8),
            Node::Internal(a, b) => {
                if a < idx && b < idx {
                    depths(nodes, b as int, depth + 1, depths(nodes, a as int, depth + 1, lengths))
                } else {
                    lengths
                }
            },
        }
    }
}

/// The code lengths `code_lengths` gives: none for no bytes, one bit for a
/// single distinct byte, otherwise the depths in the Huffman tree built by
/// joining the two lightest nodes (ties to the older node) until one is left.
pub open spec fn spec_code_lengths(bytes: Seq<u8>) -> Seq<u8> {
    let zeros = Seq::new(256, |i: int| 0u8);
    let p = present_below(bytes, 256);
    if p.len() == 0 {
        zeros
    } else if p.len() == 1 {
        zeros.update(p[0] as int, 1)
    } else {
        let (q, nodes) = merge(initial_queue(bytes), initial_nodes(bytes));
        depths(nodes, q[0].1 as int, 0, zeros)
    }
}

/// The sum of the weights in `q`.
pub open spec fn qsum(q: Seq<(usize, usize)>) -> int
    decreases q.len(),
{
    if q.len() == 0 {
        0
    } else {
        qsum(q.drop_last()) + q.last().0
    }
}

proof fn lemma_qsum_remove(q: Seq<(usize, usize)>, i: int)
    requires
        0 <= i < q.len(),
    ensures
        qsum(q.remove(i)) == qsum(q) - q[i].0,
        q[i].0 <= qsum(q),
    decreases q.len(),
{
    lemma_qsum_nonneg(q.drop_last());
    if i < q.len() - 1 {
        assert(q.remove(i).drop_last() =~= q.drop_last().remove(i));
        lemma_qsum_remove(q.drop_last(), i);
    } else {
        assert(q.remove(i) =~= q.drop_last());
    }
}

proof fn lemma_qsum_nonneg(q: Seq<(usize, usize)>)
    ensures
        qsum(q) >= 0,
    decreases q.len(),
{
    if q.len() > 0 {
        lemma_qsum_nonneg(q.drop_last());
    }
}

proof fn lemma_count_total(s: Seq<u8>, k: int)
    requires
        0 <= k <= 256,
        s.len() <= usize::MAX,
    ensures
        qsum(Seq::new(present_below(s, k).len(), |i: int| (count(s, present_below(s, k)[i]) as usize, i as usize))) == count_below(s, k),
    decreases k,
{
    if k > 0 {
        lemma_count_total(s, k - 1);
        let p = present_below(s, k - 1);
        let q0 = Seq::new(p.len(), |i: int| (count(s, p[i]) as usize, i as usize));
        let p1 = present_below(s, k);
        let q1 = Seq::new(p1.len(), |i: int| (count(s, p1[i]) as usize, i as usize));
        lemma_count_fits(s, (k - 1) as u8);
        if count(s, (k - 1) as u8) > 0 {
            assert(q1.drop_last() =~= q0);
        } else {
            assert(q1 =~= q0);
        }
    }
}

/// The number of bytes of `s` below `k`.
pub open spec fn count_below(s: Seq<u8>, k: int) -> int
    decreases k,
{
    if k <= 0 {
        0
    } else {
        count_below(s, k - 1) + count(s, (k - 1) as u8)
    }
}

pub proof fn lemma_count_fits(s: Seq<u8>, b: u8)
    ensures
        count(s, b) <= s.len(),
    decreases s.len(),
{
    if s.len() > 0 {
        lemma_count_fits(s.drop_last(), b);
    }
}

pub proof fn lemma_count_below_push(s: Seq<u8>, b: u8, k: int)
    requires
        0 <= k <= 256,
    ensures
        count_below(s.push(b), k) == count_below(s, k) + if b < k { 1int } else { 0int },
    decreases k,
{
    if k > 0 {
        lemma_count_below_push(s, b, k - 1);
        assert(s.push(b).drop_last() =~= s);
    }
}

pub proof fn lemma_count_below_all(s: Seq<u8>)
    ensures
        count_below(s, 256) == s.len(),
    decreases s.len(),
{
    if s.len() > 0 {
        lemma_count_below_all(s.drop_last());
        assert(s.drop_last().push(s.last()) =~= s);
        lemma_count_below_push(s.drop_last(), s.last(), 256);
    } else {
        lemma_count_below_zero(s, 256);
    }
}

pub proof fn lemma_count_below_zero(s: Seq<u8>, k: int)
    requires
        s.len() == 0,
    ensures
        count_below(s, k) == 0,
    decreases k,
{
    if k > 0 {
        lemma_count_below_zero(s, k - 1);
    }
}

proof fn lemma_present_bounds(s: Seq<u8>, k: int)
    requires
        0 <= k <= 256,
    ensures
        present_below(s, k).len() <= k,
        forall|i: int| 0 <= i < present_below(s, k).len() ==> (#[trigger] present_below(s, k)[i]) < k,
        forall|i: int, j: int| 0 <= i < j < present_below(s, k).len() ==> present_below(s, k)[i] < present_below(s, k)[j],
        forall|i: int| 0 <= i < present_below(s, k).len() ==> count(s, #[trigger] present_below(s, k)[i]) > 0,
    decreases k,
{
    if k > 0 {
        lemma_present_bounds(s, k - 1);
    }
}

/// Nodes below `nl` are leaves; each later node joins two earlier ones.
pub open spec fn nodes_ok(nodes: Seq<Node>, nl: int) -> bool {
    &&& nl <= nodes.len()
    &&& forall|i: int| 0 <= i < nl ==> (#[trigger] nodes[i]) is Leaf
    &&& forall|i: int| nl <= i < nodes.len() ==> (#[trigger] nodes[i] matches Node::Internal(a, b) && a < i && b < i)
}

/// Every entry of the queue names an existing node.
pub open spec fn queue_ok(q: Seq<(usize, usize)>, nodes: Seq<Node>) -> bool {
    forall|i: int| 0 <= i < q.len() ==> (#[trigger] q[i]).1 < nodes.len()
}

fn pop_min(q: &mut Vec<(usize, usize)>) -> (e: (usize, usize))
    requires
        old(q).len() > 0,
    ensures
        e == old(q)@[argmin(old(q)@)],
        final(q)@ == old(q)@.remove(argmin(old(q)@)),
        0 <= argmin(old(q)@) < old(q)@.len(),
{
    let mut best: usize = 0;
    let mut i: usize = 1;
    proof {
        lemma_argmin_bounds(q@, 1, 0);
    }
    while i < q.len()
        invariant
            1 <= i <= q.len(),
            best < i,
            argmin(q@) == argmin_from(q@, i as int, best as int),
        decreases q.len() - i,
    {
        if q[i].0 < q[best].0 || (q[i].0 == q[best].0 && q[i].1 < q[best].1) {
            best = i;
        }
        i = i + 1;
    }
    q.remove(best)
}

pub proof fn lemma_argmin_bounds(q: Seq<(usize, usize)>, i: int, best: int)
    requires
        0 <= best < q.len(),
        best < i,
    ensures
        0 <= argmin_from(q, i, best) < q.len(),
    decreases q.len() - i,
{
    if i < q.len() {
        if q[i].0 < q[best].0 || (q[i].0 == q[best].0 && q[i].1 < q[best].1) {
            lemma_argmin_bounds(q, i + 1, i);
        } else {
            lemma_argmin_bounds(q, i + 1, best);
        }
    }
}

fn assign_depths(nodes: &Vec<Node>, idx: usize, depth: u8, lengths: &mut [u8; 256], nl: usize)
    requires
        nodes_ok(nodes@, nl as int),
        nl <= 256,
        idx < nodes@.len(),
        idx >= nl ==> depth + idx <= 2 * nl - 2,
    ensures
        final(lengths)@ == depths(nodes@, idx as int, depth as int, old(lengths)@),
    decreases idx,
{
    match &nodes[idx] {
        Node::Leaf(sym) => {
            lengths[*sym as usize] = depth;
        },
        Node::Internal(a, b) => {
            assert(nodes@[idx as int] matches Node::Internal(x, y) && x < idx && y < idx);
            let a = *a;
            let b = *b;
            assign_depths(nodes, a, depth + 1, lengths, nl);
            assign_depths(nodes, b, depth + 1, lengths, nl);
        },
    }
}

/// The length of each byte's code.
pub fn code_lengths(bytes: &[u8]) -> (lengths: [u8; 256])
    ensures
        lengths@ == spec_code_lengths(bytes@),
{
    let mut lengths: [u8; 256] = [0; 256];
    assert(lengths@ =~= Seq::new(256, |i: int| 0u8));
    let hist = histogram(bytes);
    let ghost s = bytes@;
    let mut present: Vec<u8> = Vec::new();
    let mut k: usize = 0;
    while k < 256
        invariant
            k <= 256,
            s == bytes@,
            present@ == present_below(s, k as int),
            forall|b: u8| #[trigger] hist@[b as int] == count(s, b),
        decreases 256 - k,
    {
        assert(hist@[(k as u8) as int] == count(s, k as u8));
        if hist[k] > 0 {
            present.push(k as u8);
        }
        k = k + 1;
    }
    proof {
        lemma_present_bounds(s, 256);
    }
    if present.len() == 0 {
        return lengths;
    }
    if present.len() == 1 {
        lengths[present[0] as usize] = 1;
        return lengths;
    }
    let nl = present.len();
    let mut nodes: Vec<Node> = Vec::new();
    let mut q: Vec<(usize, usize)> = Vec::new();
    let mut i: usize = 0;
    while i < nl
        invariant
            nl == present@.len(),
            s == bytes@,
            nl <= 256,
            present@ == present_below(s, 256),
            forall|b: u8| #[trigger] hist@[b as int] == count(s, b),
            i <= nl,
            nodes@ == initial_nodes(s).take(i as int),
            q@ == initial_queue(s).take(i as int),
        decreases nl - i,
    {
        let sym = present[i];
        nodes.push(Node::Leaf(sym));
        q.push((hist[sym as usize], i));
        i = i + 1;
        assert(nodes@ =~= initial_nodes(s).take(i as int));
        assert(q@ =~= initial_queue(s).take(i as int));
    }
    assert(nodes@ =~= initial_nodes(s));
    assert(q@ =~= initial_queue(s));
    assert(s.len() == bytes.len());
    proof {
        lemma_count_total(s, 256);
        lemma_count_below_all(s);
    }
    while q.len() > 1
        invariant
            nl >= 2,
            s == bytes@,
            nl <= 256,
            nodes_ok(nodes@, nl as int),
            queue_ok(q@, nodes@),
            nodes@.len() + q@.len() == 2 * nl,
            qsum(q@) <= s.len(),
            q@.len() >= 1,
            merge(q@, nodes@) == merge(initial_queue(s), initial_nodes(s)),
        decreases q.len(),
    {
        let ghost q0 = q@;
        let a = pop_min(&mut q);
        proof {
            lemma_qsum_remove(q0, argmin(q0));
        }
        let ghost q1 = q@;
        let b = pop_min(&mut q);
        proof {
            lemma_qsum_remove(q1, argmin(q1));
            assert(a.0 + b.0 <= qsum(q0));
            assert(s.len() == bytes.len());
        }
        let idx = nodes.len();
        nodes.push(Node::Internal(a.1, b.1));
        q.push((a.0 + b.0, idx));
        proof {
            assert forall|j: int| 0 <= j < q@.len() implies (#[trigger] q@[j]).1 < nodes@.len() by {
                if j < q@.len() - 1 {
                    assert(q@[j] == q1.remove(argmin(q1))[j]);
                }
            }
            assert(nodes_ok(nodes@, nl as int)) by {
                assert forall|j: int| nl <= j < nodes@.len() implies (#[trigger] nodes@[j] matches Node::Internal(x, y) && x < j && y < j) by {
                    if j < nodes@.len() - 1 {
                        assert(nodes@[j] == nodes@.drop_last()[j]);
                    }
                }
            }
            assert(qsum(q@) == qsum(q@.drop_last()) + q@.last().0);
            assert(q@.drop_last() =~= q1.remove(argmin(q1)));
        }
    }
    assert(q@.len() == 1);
    let root = q[0].1;
    assign_depths(&nodes, root, 0, &mut lengths, nl);
    lengths
}

/// `a + b`, wrapped to 32 bits.
pub open spec fn add32(a: u32, b: u32) -> u32 {
    if a + b > u32::MAX { (a + b - 0x1_0000_0000) as u32 } else { (a + b) as u32 }
}

/// The largest of the first `k` lengths.
pub open spec fn max_below(l: Seq<u8>, k: int) -> u8
    decreases k,
{
    if k <= 0 {
        0
    } else {
        let m = max_below(l, k - 1);
        if l[k - 1] > m { l[k - 1] } else { m }
    }
}

/// The first code of each length, as canonical Huffman coding assigns them
/// (arithmetic wraps at 32 bits).
pub open spec fn first_code(l: Seq<u8>, bits: int) -> u32
    decreases bits,
{
    if bits <= 0 {
        0
    } else {
        let prev = first_code(l, bits - 1);
        let c: u32 = if bits - 1 == 0 { 0 } else { count(l, (bits - 1) as u8) as u32 };
        (add32(prev, c) << 1u32) as u32
    }
}

/// The canonical code of `sym`: the first code of its length plus the
/// number of earlier symbols of that length.
pub open spec fn spec_code(l: Seq<u8>, sym: int) -> u32 {
    if l[sym] == 0 {
        0
    } else {
        add32(first_code(l, l[sym] as int), count(l.take(sym), l[sym]) as u32)
    }
}

proof fn lemma_count_le_256(l: Seq<u8>, b: u8)
    ensures
        count(l, b) <= l.len(),
    decreases l.len(),
{
    if l.len() > 0 {
        lemma_count_le_256(l.drop_last(), b);
    }
}

pub proof fn lemma_max_below(l: Seq<u8>, k: int)
    requires
        0 <= k <= l.len(),
    ensures
        forall|i: int| 0 <= i < k ==> l[i] <= max_below(l, k),
    decreases k,
{
    if k > 0 {
        lemma_max_below(l, k - 1);
    }
}

/// The canonical code of each byte for the given code lengths.
pub fn canonical_codes(lengths: &[u8; 256]) -> (codes: [u32; 256])
    ensures
        forall|sym: int| 0 <= sym < 256 ==> #[trigger] codes@[sym] == spec_code(lengths@, sym),
{
    let ghost l = lengths@;
    let mut codes: [u32; 256] = [0; 256];
    let mut max_len: u8 = 0;
    let mut k: usize = 0;
    while k < 256
        invariant
            k <= 256,
            l == lengths@,
            max_len == max_below(l, k as int),
        decreases 256 - k,
    {
        if lengths[k] > max_len {
            max_len = lengths[k];
        }
        k = k + 1;
    }
    proof {
        lemma_max_below(l, 256);
    }
    assert(codes@ =~= Seq::new(256, |i: int| 0u32));
    if max_len == 0 {
        assert forall|sym: int| 0 <= sym < 256 implies #[trigger] codes@[sym] == spec_code(l, sym) by {
            assert(l[sym] <= max_len);
        }
        return codes;
    }
    let ml = max_len as usize;
    let mut bl_count: Vec<u32> = Vec::new();
    let mut k: usize = 0;
    while k <= ml
        invariant
            k <= ml + 1,
            ml <= 255,
            bl_count@.len() == k,
            forall|j: int| 0 <= j < k ==> #[trigger] bl_count@[j] == 0,
        decreases ml + 1 - k,
    {
        bl_count.push(0);
        k = k + 1;
    }
    let mut sym: usize = 0;
    while sym < 256
        invariant
            sym <= 256,
            l == lengths@,
            ml == max_below(l, 256),
            forall|i: int| 0 <= i < 256 ==> l[i] <= ml,
            bl_count@.len() == ml + 1,
            forall|j: int| 1 <= j <= ml ==> #[trigger] bl_count@[j] == count(l.take(sym as int), j as u8),
            bl_count@[0] == 0,
        decreases 256 - sym,
    {
        let len = lengths[sym] as usize;
        assert(l.take(sym as int + 1).drop_last() =~= l.take(sym as int));
        proof {
            lemma_count_le_256(l.take(sym as int), len as u8);
        }
        if len > 0 {
            bl_count[len] = bl_count[len] + 1;
        }
        sym = sym + 1;
        assert forall|j: int| 1 <= j <= ml implies #[trigger] bl_count@[j] == count(l.take(sym as int), j as u8) by {
            assert(l.take(sym as int).last() == l[sym - 1]);
        }
    }
    assert(l.take(256) =~= l);
    let mut next_code: Vec<u32> = Vec::new();
    next_code.push(0);
    let mut code: u32 = 0;
    let mut bits: usize = 1;
    while bits <= ml
        invariant
            1 <= bits <= ml + 1,
            ml <= 255,
            l == lengths@,
            bl_count@.len() == ml + 1,
            forall|j: int| 1 <= j <= ml ==> #[trigger] bl_count@[j] == count(l, j as u8),
            bl_count@[0] == 0,
            next_code@.len() == bits,
            code == first_code(l, bits - 1),
            forall|j: int| 1 <= j < bits ==> #[trigger] next_code@[j] == first_code(l, j),
        decreases ml + 1 - bits,
    {
        code = code.wrapping_add(bl_count[bits - 1]) << 1u32;
        next_code.push(code);
        bits = bits + 1;
    }
    let mut sym: usize = 0;
    while sym < 256
        invariant
            sym <= 256,
            l == lengths@,
            forall|i: int| 0 <= i < 256 ==> l[i] <= ml,
            next_code@.len() == ml + 1,
            forall|j: int| 1 <= j <= ml ==> #[trigger] next_code@[j] == add32(first_code(l, j), count(l.take(sym as int), j as u8) as u32),
            forall|i: int| 0 <= i < sym ==> #[trigger] codes@[i] == spec_code(l, i),
            forall|i: int| sym <= i < 256 ==> #[trigger] codes@[i] == 0,
            ml <= 255,
        decreases 256 - sym,
    {
        let len = lengths[sym] as usize;
        let ghost t0 = l.take(sym as int);
        let ghost t1 = l.take(sym as int + 1);
        assert(t1.drop_last() =~= t0);
        assert(t1.last() == l[sym as int]);
        proof {
            lemma_count_le_256(t0, len as u8);
            assert forall|j: int| 1 <= j <= ml implies #[trigger] count(t1, j as u8) == count(t0, j as u8) + (if l[sym as int] == j as u8 { 1int } else { 0int }) by {
            }
        }
        let ghost nc0 = next_code@;
        if len != 0 {
            codes[sym] = next_code[len];
            let old_c = next_code[len];
            next_code[len] = old_c.wrapping_add(1);
            proof {
                lemma_count_le_256(t0, len as u8);
                assert(count(t0, len as u8) <= 256);
            }
        }
        sym = sym + 1;
        assert(l.take(sym as int) == t1);
        assert forall|j: int| 1 <= j <= ml implies #[trigger] next_code@[j] == add32(first_code(l, j), count(l.take(sym as int), j as u8) as u32) by {
            lemma_count_le_256(t0, j as u8);
            if j == len {
                assert(nc0[j] == add32(first_code(l, j), count(t0, j as u8) as u32));
                assert(count(t1, j as u8) == count(t0, j as u8) + 1);
                let a = first_code(l, j);
                let c = count(t0, j as u8) as u32;
                assert(next_code@[j] == add32(add32(a, c), 1));
                assert(add32(add32(a, c), 1) == add32(a, (c + 1) as u32));
            } else {
                assert(l[sym - 1] as int == len as int);
                assert((j as u8) as int == j);
                assert(l[sym - 1] != j as u8);
                assert(count(t1, j as u8) == count(t0, j as u8));
                assert(next_code@[j] == nc0[j]);
            }
        }
    }
    codes
}

/// The symbols with a nonzero length below `k`, in increasing order.
pub open spec fn coded_below(l: Seq<u8>, k: int) -> Seq<u8>
    decreases k,
{
    if k <= 0 {
        Seq::empty()
    } else if l[k - 1] > 0 {
        coded_below(l, k - 1).push((k - 1) as u8)
    } else {
        coded_below(l, k - 1)
    }
}

/// Each symbol of `p` followed by its length.
pub open spec fn pairs(l: Seq<u8>, p: Seq<u8>) -> Seq<u8>
    decreases p.len(),
{
    if p.len() == 0 {
        Seq::empty()
    } else {
        pairs(l, p.drop_last()) + seq![p.last(), l[p.last() as int]]
    }
}

/// The sparse form of a table: a marker, the number of coded symbols, and
/// each one with its length.
pub open spec fn sparse_table(l: Seq<u8>) -> Seq<u8> {
    let p = coded_below(l, 256);
    seq![1u8] + varint::encode(p.len() as usize) + pairs(l, p)
}

/// The packed form: two lengths per byte, low nibble first.
pub open spec fn nibble_table(l: Seq<u8>) -> Seq<u8> {
    seq![2u8] + Seq::new(128, |i: int| (l[2 * i] | ((l[2 * i + 1] << 4u8) as u8)) as u8)
}

/// The bytes `write_table` appends for the lengths `l`: packed nibbles when
/// every length fits four bits and the sparse form would be 130 bytes or
/// more, else the sparse form when it is under 257 bytes, else a marker and
/// the 256 lengths.
pub open spec fn table_bytes(l: Seq<u8>) -> Seq<u8> {
    if max_below(l, 256) <= 15 && sparse_table(l).len() >= 130 {
        nibble_table(l)
    } else if sparse_table(l).len() < 257 {
        sparse_table(l)
    } else {
        seq![0u8] + l
    }
}

/// Reading `n` (symbol, length) pairs from `pos`, stopping early when fewer
/// than two bytes are left.
pub open spec fn read_pairs(data: Seq<u8>, pos: int, n: nat, l: Seq<u8>) -> (Seq<u8>, int)
    decreases n,
{
    if n == 0 || pos + 2 > data.len() || pos < 0 {
        (l, pos)
    } else {
        read_pairs(data, pos + 2, (n - 1) as nat, l.update(data[pos] as int, data[pos + 1]))
    }
}

/// What `read_table` reads at `pos`: the lengths, and where it stops.
pub open spec fn read_table_spec(data: Seq<u8>, pos: int) -> (Seq<u8>, int) {
    let zeros = Seq::new(256, |i: int| 0u8);
    if pos < 0 || pos >= data.len() {
        (zeros, pos)
    } else if data[pos] == 0 {
        let end = if data.len() - (pos + 1) < 256 { data.len() as int } else { pos + 1 + 256 };
        (Seq::new(256, |i: int| if pos + 1 + i < end { data[pos + 1 + i] } else { 0u8 }), end)
    } else if data[pos] == 2 {
        let end = if data.len() - (pos + 1) < 128 { data.len() as int } else { pos + 1 + 128 };
        (Seq::new(256, |i: int| if pos + 1 + i / 2 < end {
            if i % 2 == 0 { data[pos + 1 + i / 2] & 0x0f } else { data[pos + 1 + i / 2] >> 4u8 }
        } else { 0u8 }), end)
    } else {
        let n = varint::value_at(data, pos + 1);
        let p1 = varint::end_at(data, pos + 1);
        read_pairs(data, p1, n as nat, zeros)
    }
}

pub proof fn lemma_coded_below(l: Seq<u8>, k: int)
    requires
        0 <= k <= l.len(),
        l.len() == 256,
    ensures
        coded_below(l, k).len() <= k,
        forall|i: int| 0 <= i < coded_below(l, k).len() ==> (#[trigger] coded_below(l, k)[i]) < k,
        forall|i: int| 0 <= i < coded_below(l, k).len() ==> l[#[trigger] coded_below(l, k)[i] as int] > 0,
        forall|s: int| 0 <= s < k && l[s] > 0 ==> coded_below(l, k).contains(s as u8),
    decreases k,
{
    if k > 0 {
        lemma_coded_below(l, k - 1);
        let p = coded_below(l, k - 1);
        if l[k - 1] > 0 {
            assert forall|s: int| 0 <= s < k && l[s] > 0 implies coded_below(l, k).contains(s as u8) by {
                if s < k - 1 {
                    let j = choose|j: int| 0 <= j < p.len() && p[j] == s as u8;
                    assert(coded_below(l, k)[j] == s as u8);
                } else {
                    assert(coded_below(l, k)[p.len() as int] == s as u8);
                }
            }
        }
    }
}

proof fn lemma_pairs(l: Seq<u8>, p: Seq<u8>)
    ensures
        pairs(l, p).len() == 2 * p.len(),
        forall|i: int| 0 <= i < p.len() ==> #[trigger] pairs(l, p)[2 * i] == p[i] && pairs(l, p)[2 * i + 1] == l[p[i] as int],
    decreases p.len(),
{
    if p.len() > 0 {
        lemma_pairs(l, p.drop_last());
        assert forall|i: int| 0 <= i < p.len() implies #[trigger] pairs(l, p)[2 * i] == p[i] && pairs(l, p)[2 * i + 1] == l[p[i] as int] by {
            if i < p.len() - 1 {
                assert(pairs(l, p)[2 * i] == pairs(l, p.drop_last())[2 * i]);
                assert(pairs(l, p)[2 * i + 1] == pairs(l, p.drop_last())[2 * i + 1]);
            }
        }
    }
}

fn write_table(out: &mut Vec<u8>, lengths: &[u8; 256])
    ensures
        final(out)@ == old(out)@ + table_bytes(lengths@),
{
    let ghost l = lengths@;
    let mut present: Vec<u8> = Vec::new();
    let mut k: usize = 0;
    while k < 256
        invariant
            k <= 256,
            l == lengths@,
            present@ == coded_below(l, k as int),
        decreases 256 - k,
    {
        if lengths[k] > 0 {
            present.push(k as u8);
        }
        k = k + 1;
    }
    proof {
        lemma_coded_below(l, 256);
    }
    let mut sparse: Vec<u8> = Vec::new();
    sparse.push(1);
    varint::write(&mut sparse, present.len());
    let ghost head = sparse@;
    let mut i: usize = 0;
    while i < present.len()
        invariant
            l == lengths@,
            i <= present@.len(),
            present@ == coded_below(l, 256),
            sparse@ == head + pairs(l, present@.take(i as int)),
        decreases present.len() - i,
    {
        let sym = present[i];
        sparse.push(sym);
        sparse.push(lengths[sym as usize]);
        assert(present@.take(i as int + 1).drop_last() =~= present@.take(i as int));
        i = i + 1;
        assert(sparse@ =~= head + pairs(l, present@.take(i as int)));
    }
    assert(present@.take(i as int) =~= present@);
    assert(sparse@ =~= sparse_table(l));
    let mut max_len: u8 = 0;
    let mut k: usize = 0;
    while k < 256
        invariant
            k <= 256,
            l == lengths@,
            max_len == max_below(l, k as int),
        decreases 256 - k,
    {
        if lengths[k] > max_len {
            max_len = lengths[k];
        }
        k = k + 1;
    }
    if max_len <= 15 && sparse.len() >= 130 {
        let ghost o0 = out@;
        out.push(2);
        let mut i: usize = 0;
        while i < 128
            invariant
                i <= 128,
                l == lengths@,
                out@ == o0 + nibble_table(l).take(i as int + 1),
            decreases 128 - i,
        {
            out.push(lengths[2 * i] | (lengths[2 * i + 1] << 4));
            i = i + 1;
            assert(out@ =~= o0 + nibble_table(l).take(i as int + 1));
        }
        assert(nibble_table(l).take(129) =~= nibble_table(l));
    } else if sparse.len() < 257 {
        out.extend_from_slice(sparse.as_slice());
        assert(final(out)@ =~= old(out)@ + table_bytes(l)) by {
            assert(sparse@ == sparse_table(l));
        }
    } else {
        out.push(0);
        out.extend_from_slice(lengths.as_slice());
        assert(out@ =~= old(out)@ + table_bytes(l));
    }
}

fn read_table(data: &[u8], pos: &mut usize) -> (lengths: [u8; 256])
    requires
        *old(pos) <= data.len(),
    ensures
        (lengths@, *final(pos) as int) == read_table_spec(data@, *old(pos) as int),
        *final(pos) <= data.len(),
{
    let ghost d = data@;
    let ghost p0 = *pos as int;
    let mut lengths: [u8; 256] = [0; 256];
    assert(lengths@ =~= Seq::new(256, |i: int| 0u8));
    if *pos >= data.len() {
        return lengths;
    }
    let mode = data[*pos];
    *pos = *pos + 1;
    if mode == 0 {
        let end = if data.len() - *pos < 256 { data.len() } else { *pos + 256 };
        let mut i: usize = 0;
        while *pos + i < end
            invariant
                *pos == p0 + 1,
                *pos <= end <= d.len(),
                end - *pos <= 256,
                d == data@,
                i <= end - *pos,
                forall|j: int| 0 <= j < i ==> #[trigger] lengths@[j] == d[p0 + 1 + j],
                forall|j: int| i <= j < 256 ==> #[trigger] lengths@[j] == 0,
            decreases end - *pos - i,
        {
            lengths[i] = data[*pos + i];
            i = i + 1;
        }
        *pos = end;
        assert(lengths@ =~= read_table_spec(d, p0).0);
    } else if mode == 2 {
        let end = if data.len() - *pos < 128 { data.len() } else { *pos + 128 };
        let mut i: usize = 0;
        while *pos + i < end
            invariant
                *pos == p0 + 1,
                *pos <= end <= d.len(),
                end - *pos <= 128,
                d == data@,
                i <= end - *pos,
                forall|j: int| 0 <= j < 2 * i ==> #[trigger] lengths@[j] == (if j % 2 == 0 { d[p0 + 1 + j / 2] & 0x0f } else { d[p0 + 1 + j / 2] >> 4u8 }),
                forall|j: int| 2 * i <= j < 256 ==> #[trigger] lengths@[j] == 0,
            decreases end - *pos - i,
        {
            let b = data[*pos + i];
            lengths[i * 2] = b & 0x0f;
            lengths[i * 2 + 1] = b >> 4;
            i = i + 1;
        }
        *pos = end;
        assert(lengths@ =~= read_table_spec(d, p0).0);
    } else {
        let ghost p1 = *pos as int;
        let n = varint::read(data, pos);
        proof {
            varint::lemma_end_bounds(d, p1, 0);
        }
        let mut k: usize = 0;
        while k < n
            invariant
                d == data@,
                *pos <= d.len(),
                k <= n,
                read_table_spec(d, p0) == read_pairs(d, *pos as int, (n - k) as nat, lengths@),
                lengths@.len() == 256,
            ensures
                read_table_spec(d, p0) == (lengths@, *pos as int),
                *pos <= d.len(),
            decreases n - k,
        {
            if data.len() - *pos < 2 {
                break;
            }
            let s = data[*pos];
            lengths[s as usize] = data[*pos + 1];
            *pos = *pos + 2;
            k = k + 1;
        }
    }
    lengths
}


/// The `len` low bits of `code`, most significant first; a shift by 32 or
/// more bits counts modulo 32.
pub open spec fn code_bits(code: u32, len: u8) -> Seq<u8> {
    Seq::new(len as nat, |k: int| ((code >> (((len - 1 - k) as u32) % 32u32)) & 1u32) as u8)
}

/// The bits `encode` writes for the bytes `s` under the lengths `l`.
pub open spec fn stream_bits(s: Seq<u8>, l: Seq<u8>) -> Seq<u8>
    decreases s.len(),
{
    if s.len() == 0 {
        Seq::empty()
    } else {
        stream_bits(s.drop_last(), l) + code_bits(spec_code(l, s.last() as int), l[s.last() as int])
    }
}

/// What `encode` writes for `b`: the code-length table, then the bits of
/// the codes packed into bytes, the last one padded with zero bits.
pub open spec fn spec_encode(b: Seq<u8>) -> Seq<u8> {
    let l = spec_code_lengths(b);
    let s = stream_bits(b, l);
    table_bytes(l) + crate::bits::bytes_of_bits(s + zero_bits(((8 - s.len() % 8) % 8) as nat))
}

/// Encodes `bytes`: the code-length table, then each byte's canonical code,
/// the last byte padded with zero bits.
pub fn encode(bytes: &[u8]) -> (out: Vec<u8>)
    ensures
        out@ == spec_encode(bytes@),
        ({
            let l = spec_code_lengths(bytes@);
            let t = table_bytes(l);
            let s = stream_bits(bytes@, l);
            &&& t.len() <= out@.len()
            &&& out@.take(t.len() as int) == t
            &&& bits_of_bytes(out@.skip(t.len() as int)) == s + zero_bits(((8 - s.len() % 8) % 8) as nat)
        }),
{
    let lengths = code_lengths(bytes);
    let codes = canonical_codes(&lengths);
    let ghost l = lengths@;
    let mut out: Vec<u8> = Vec::new();
    write_table(&mut out, &lengths);
    let ghost t = out@;
    assert(t =~= table_bytes(l));
    let mut w = BitWriter::new();
    let mut j: usize = 0;
    while j < bytes.len()
        invariant
            j <= bytes.len(),
            w.wf(),
            l == lengths@,
            forall|sym: int| 0 <= sym < 256 ==> #[trigger] codes@[sym] == spec_code(l, sym),
            w.bits() == stream_bits(bytes@.take(j as int), l),
        decreases bytes.len() - j,
    {
        let sym = bytes[j] as usize;
        let code = codes[sym];
        let len = lengths[sym];
        let ghost b0 = w.bits();
        let mut i: u8 = len;
        while i > 0
            invariant
                i <= len,
                w.wf(),
                w.bits() == b0 + code_bits(code, len).take(len - i),
            decreases i,
        {
            i = i - 1;
            let bit = (code.wrapping_shr(i as u32) & 1) as u8;
            proof {
                let x = code.wrapping_shr(i as u32);
                assert(((x & 1u32) as u8) & 1u8 == (x & 1u32) as u8) by (bit_vector);
            }
            w.write_bit(bit);
            assert(w.bits() =~= b0 + code_bits(code, len).take(len - i));
        }
        assert(code_bits(code, len).take(len as int) =~= code_bits(code, len));
        assert(bytes@.take(j as int + 1).drop_last() =~= bytes@.take(j as int));
        j = j + 1;
    }
    assert(bytes@.take(j as int) =~= bytes@);
    let tail = w.finish();
    let mut k: usize = 0;
    while k < tail.len()
        invariant
            k <= tail.len(),
            out@ == t + tail@.take(k as int),
        decreases tail.len() - k,
    {
        out.push(tail[k]);
        k = k + 1;
        assert(out@ =~= t + tail@.take(k as int));
    }
    assert(tail@.take(k as int) =~= tail@);
    assert(out@.take(t.len() as int) =~= t);
    assert(out@.skip(t.len() as int) =~= tail@);
    proof {
        crate::bits::lemma_bytes_of_bits(tail@);
        assert(out@ =~= t + tail@);
    }
    out
}

/// The highest symbol below `k` with a nonzero length `len` and the code
/// `code`.
pub open spec fn lookup(l: Seq<u8>, len: u8, code: u32, k: int) -> Option<u8>
    decreases k,
{
    if k <= 0 {
        None
    } else if l[k - 1] != 0 && l[k - 1] == len && spec_code(l, k - 1) == code {
        Some((k - 1) as u8)
    } else {
        lookup(l, len, code, k - 1)
    }
}

/// The output, current code and its length after the first `n` bits, when
/// at most `count` bytes are wanted.
pub open spec fn dec_state(bits: Seq<u8>, n: int, l: Seq<u8>, count: nat) -> (Seq<u8>, u32, u8)
    decreases n,
{
    if n <= 0 {
        (Seq::empty(), 0, 0)
    } else {
        let (o, c, len) = dec_state(bits, n - 1, l, count);
        if o.len() >= count {
            (o, c, len)
        } else {
            let c2 = ((c << 1u32) | (bits[n - 1] as u32)) as u32;
            let l2 = ((len + 1) % 256) as u8;
            match lookup(l, l2, c2, 256) {
                Some(s) => (o.push(s), 0, 0),
                None => (o, c2, l2),
            }
        }
    }
}

/// What `decode` gives back: nothing for no bytes wanted or no data;
/// otherwise the table is read at the start, and the bits after it are
/// matched against the codes until `count` bytes are out or the bits run
/// out.
pub open spec fn spec_decode(data: Seq<u8>, count: nat) -> Seq<u8> {
    if count == 0 || data.len() == 0 {
        Seq::empty()
    } else {
        let (l, p) = read_table_spec(data, 0);
        let bits = bits_of_bytes(data.skip(p));
        dec_state(bits, bits.len() as int, l, count).0
    }
}

proof fn lemma_dec_state_len(bits: Seq<u8>, n: int, l: Seq<u8>, count: nat)
    ensures
        dec_state(bits, n, l, count).0.len() <= count,
    decreases n,
{
    if n > 0 {
        lemma_dec_state_len(bits, n - 1, l, count);
    }
}

pub proof fn lemma_dec_state_done(bits: Seq<u8>, n: int, m: int, l: Seq<u8>, count: nat)
    requires
        0 <= n <= m,
        dec_state(bits, n, l, count).0.len() >= count,
    ensures
        dec_state(bits, m, l, count) == dec_state(bits, n, l, count),
    decreases m - n,
{
    if m > n {
        lemma_dec_state_done(bits, n, m - 1, l, count);
    }
}

fn find_symbol(lengths: &[u8; 256], codes: &[u32; 256], len: u8, code: u32) -> (r: Option<u8>)
    requires
        forall|sym: int| 0 <= sym < 256 ==> #[trigger] codes@[sym] == spec_code(lengths@, sym),
    ensures
        r == lookup(lengths@, len, code, 256),
{
    let mut k: usize = 256;
    while k > 0
        invariant
            k <= 256,
            forall|sym: int| 0 <= sym < 256 ==> #[trigger] codes@[sym] == spec_code(lengths@, sym),
            lookup(lengths@, len, code, 256) == lookup(lengths@, len, code, k as int),
        decreases k,
    {
        if lengths[k - 1] != 0 && lengths[k - 1] == len && codes[k - 1] == code {
            return Some((k - 1) as u8);
        }
        k = k - 1;
    }
    None
}

/// Decodes up to `count` bytes of what `encode` wrote.
pub fn decode(data: &[u8], count: usize) -> (out: Vec<u8>)
    ensures
        out@ == spec_decode(data@, count as nat),
{
    if count == 0 || data.len() == 0 {
        return Vec::new();
    }
    let mut pos: usize = 0;
    let lengths = read_table(data, &mut pos);
    let codes = canonical_codes(&lengths);
    let ghost l = lengths@;
    let rest = &data[pos..data.len()];
    let ghost bits = bits_of_bytes(data@.skip(pos as int));
    assert(rest@ =~= data@.skip(pos as int));
    let mut r = BitReader::new(rest);
    let mut out: Vec<u8> = Vec::new();
    let mut cur_code: u32 = 0;
    let mut cur_len: u8 = 0;
    let ghost mut n: int = 0;
    while out.len() < count
        invariant
            r.wf(),
            r.data() == rest@,
            bits == bits_of_bytes(rest@),
            0 <= n <= bits.len(),
            r.index() == n,
            l == lengths@,
            forall|sym: int| 0 <= sym < 256 ==> #[trigger] codes@[sym] == spec_code(l, sym),
            dec_state(bits, n, l, count as nat) == (out@, cur_code, cur_len),
        ensures
            dec_state(bits, n, l, count as nat).0 == out@,
            0 <= n <= bits.len(),
            n == bits.len() || out@.len() >= count,
        decreases bits.len() - n, count - out@.len(),
    {
        match r.read_bit() {
            Some(bit) => {
                cur_code = (cur_code << 1u32) | (bit as u32);
                cur_len = cur_len.wrapping_add(1);
                match find_symbol(&lengths, &codes, cur_len, cur_code) {
                    Some(sym) => {
                        out.push(sym);
                        cur_code = 0;
                        cur_len = 0;
                    },
                    None => {},
                }
                proof {
                    n = n + 1;
                }
            },
            None => {
                break;
            },
        }
    }
    proof {
        if n < bits.len() {
            lemma_dec_state_done(bits, n, bits.len() as int, l, count as nat);
        }
    }
    out
}

/// The first code of each length in exact arithmetic: twice the first code
/// of the length below plus the number of codes of that length.
pub open spec fn first_code_exact(l: Seq<u8>, bits: nat) -> int
    decreases bits,
{
    if bits == 0 {
        0
    } else {
        let c: int = if bits - 1 == 0 { 0 } else { count(l, (bits - 1) as u8) as int };
        2 * (first_code_exact(l, (bits - 1) as nat) + c)
    }
}

/// The number of codes of length `bits` (none of length 0).
pub open spec fn codes_of(l: Seq<u8>, bits: nat) -> int {
    if bits == 0 { 0 } else { count(l, bits as u8) as int }
}

/// The code lengths fill no more than the code space: every length is at
/// most 32, and at each length the codes of that length fit after its
/// first code.
pub open spec fn lengths_fit(l: Seq<u8>) -> bool {
    &&& forall|i: int| 0 <= i < l.len() ==> #[trigger] l[i] <= 32
    &&& forall|bits: nat| 1 <= bits <= 32 ==> #[trigger] first_code_exact(l, bits) + count(l, bits as u8) <= pow2(bits)
}

proof fn lemma_fc_grows(l: Seq<u8>, a: nat, b: nat)
    requires
        a < b,
    ensures
        first_code_exact(l, b) >= pow2((b - a) as nat) * (first_code_exact(l, a) + codes_of(l, a)),
        first_code_exact(l, a) >= 0,
    decreases b,
{
    lemma_fc_nonneg(l, a);
    lemma_pow2_unfold((b - a) as nat);
    vstd::arithmetic::power2::lemma2_to64();
    if a + 1 < b {
        lemma_fc_grows(l, a, (b - 1) as nat);
        lemma_fc_nonneg(l, (b - 1) as nat);
        let x = first_code_exact(l, a) + codes_of(l, a);
        let p = pow2((b - 1 - a) as nat) as int;
        let q = pow2((b - a) as nat) as int;
        assert(first_code_exact(l, b) >= 2 * first_code_exact(l, (b - 1) as nat));
        assert(2 * first_code_exact(l, (b - 1) as nat) >= q * x) by (nonlinear_arith)
            requires
                first_code_exact(l, (b - 1) as nat) >= p * x,
                q == 2 * p,
        ;
    }
}

proof fn lemma_fc_nonneg(l: Seq<u8>, a: nat)
    ensures
        first_code_exact(l, a) >= 0,
    decreases a,
{
    if a > 0 {
        lemma_fc_nonneg(l, (a - 1) as nat);
    }
}

/// Where the exact first codes stay below 2^32, the wrapping ones agree.
proof fn lemma_fc_agrees(l: Seq<u8>, bits: nat)
    requires
        l.len() == 256,
        first_code_exact(l, bits) < 0x1_0000_0000,
    ensures
        first_code(l, bits as int) == first_code_exact(l, bits),
    decreases bits,
{
    if bits > 0 {
        let b1 = (bits - 1) as nat;
        lemma_fc_nonneg(l, b1);
        if b1 > 0 {
            lemma_count_le_256(l, b1 as u8);
        }
        let c: int = if b1 == 0 { 0 } else { count(l, b1 as u8) as int };
        assert(first_code_exact(l, b1) + c < 0x8000_0000);
        assert(first_code_exact(l, b1) < 0x1_0000_0000);
        lemma_fc_agrees(l, b1);
        let x = add32(first_code(l, b1 as int), c as u32);
        assert(x == first_code_exact(l, b1) + c);
        vstd::arithmetic::power2::lemma2_to64();
        vstd::bits::lemma_u32_shl_is_mul(x, 1);
    }
}

pub proof fn lemma_count_take(l: Seq<u8>, b: u8, i: int, j: int)
    requires
        0 <= i <= j <= l.len(),
    ensures
        count(l.take(i), b) <= count(l.take(j), b),
        i < j && l[i] == b ==> count(l.take(i), b) < count(l.take(j), b),
    decreases j - i,
{
    if i < j {
        lemma_count_take(l, b, i, j - 1);
        assert(l.take(j).drop_last() =~= l.take(j - 1));
        if i < j - 1 {
            lemma_count_take(l, b, i + 1, j - 1);
            assert(l.take(i + 1).drop_last() =~= l.take(i));
        } else {
            assert(l.take(i + 1).drop_last() =~= l.take(i));
        }
    }
}

/// The code of a symbol of length `bits`: its first code plus the number
/// of earlier symbols of that length, below 2^bits.
pub proof fn lemma_code_value(l: Seq<u8>, sym: int)
    requires
        l.len() == 256,
        lengths_fit(l),
        0 <= sym < 256,
        l[sym] >= 1,
    ensures
        spec_code(l, sym) == first_code_exact(l, l[sym] as nat) + count(l.take(sym), l[sym]),
        count(l.take(sym), l[sym]) < count(l, l[sym]),
        spec_code(l, sym) < pow2(l[sym] as nat),
{
    let bits = l[sym] as nat;
    assert(l[sym] <= 32);
    assert(first_code_exact(l, bits) + count(l, bits as u8) <= pow2(bits));
    lemma_count_take(l, l[sym], sym, 256);
    assert(l.take(256) =~= l);
    vstd::arithmetic::power2::lemma2_to64();
    if bits < 32 {
        vstd::arithmetic::power2::lemma_pow2_strictly_increases(bits, 32);
    }
    lemma_fc_nonneg(l, bits);
    lemma_fc_agrees(l, bits);
}

/// Canonical codes are prefix free where the lengths fit the code space:
/// the code of a symbol is never the leading bits of the code of another
/// symbol of the same or greater length, and each code fits its length.
pub proof fn lemma_prefix_free(l: Seq<u8>, a: int, b: int)
    requires
        l.len() == 256,
        lengths_fit(l),
        0 <= a < 256,
        0 <= b < 256,
        a != b,
        1 <= l[a] <= l[b],
    ensures
        spec_code(l, a) < pow2(l[a] as nat),
        spec_code(l, b) < pow2(l[b] as nat),
        spec_code(l, b) as int / (pow2((l[b] - l[a]) as nat) as int) != spec_code(l, a),
{
    lemma_code_value(l, a);
    lemma_code_value(l, b);
    let la = l[a] as nat;
    let lb = l[b] as nat;
    let d = (lb - la) as nat;
    lemma_pow2_pos(d);
    if la == lb {
        assert(pow2(0) == 1) by {
            vstd::arithmetic::power2::lemma2_to64();
        }
        if a < b {
            lemma_count_take(l, l[a], a, b);
        } else {
            lemma_count_take(l, l[b], b, a);
        }
        assert(spec_code(l, b) as int / 1 == spec_code(l, b) as int);
    } else {
        lemma_fc_grows(l, la, lb);
        let x = first_code_exact(l, la) + codes_of(l, la);
        let p = pow2(d) as int;
        let cb = spec_code(l, b) as int;
        assert(cb >= p * x);
        vstd::arithmetic::div_mod::lemma_div_is_ordered(p * x, cb, p);
        vstd::arithmetic::div_mod::lemma_div_multiples_vanish(x, p);
        assert(cb / p >= x);
        assert(codes_of(l, la) == count(l, l[a]));
        assert(spec_code(l, a) < x);
    }
}

} // verus!
