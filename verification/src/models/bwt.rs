//! The Burrows-Wheeler transform: the last column of the sorted rotations,
//! and the row where the input itself ends up.
use vstd::prelude::*;
use crate::entropy::{count, histogram};
use super::huffman::{count_below, lemma_count_below_all, lemma_count_fits};

verus! {

/// The key of entry `j` of `input`.
pub open spec fn key_of(input: Seq<usize>, key: Seq<usize>, j: int) -> int {
    key[input[j] as int] as int
}

/// How many of the first `m` entries of `input` have a key below `b`.
pub open spec fn cnt_lt(input: Seq<usize>, key: Seq<usize>, b: int, m: int) -> int
    decreases m,
{
    if m <= 0 {
        0
    } else {
        cnt_lt(input, key, b, m - 1) + if key_of(input, key, m - 1) < b { 1int } else { 0 }
    }
}

/// How many of the first `m` entries of `input` have the key `b`.
pub open spec fn cnt_eq(input: Seq<usize>, key: Seq<usize>, b: int, m: int) -> int
    decreases m,
{
    if m <= 0 {
        0
    } else {
        cnt_eq(input, key, b, m - 1) + if key_of(input, key, m - 1) == b { 1int } else { 0 }
    }
}

/// Where a stable sort of `input` by key puts entry `i`: after every entry
/// with a smaller key and every earlier entry with the same key.
pub open spec fn slot(input: Seq<usize>, key: Seq<usize>, i: int) -> int {
    cnt_lt(input, key, key_of(input, key, i), input.len() as int) + cnt_eq(input, key, key_of(input, key, i), i)
}

/// Every key of an entry of `input` is below `bound`.
pub open spec fn keys_fit(input: Seq<usize>, key: Seq<usize>, bound: int) -> bool {
    forall|j: int| 0 <= j < input.len() ==> #[trigger] key_of(input, key, j) < bound
}

proof fn lemma_cnt_bounds(input: Seq<usize>, key: Seq<usize>, b: int, m: int)
    requires
        0 <= m,
    ensures
        0 <= cnt_lt(input, key, b, m) <= m,
        0 <= cnt_eq(input, key, b, m) <= m,
        cnt_lt(input, key, b + 1, m) == cnt_lt(input, key, b, m) + cnt_eq(input, key, b, m),
    decreases m,
{
    if m > 0 {
        lemma_cnt_bounds(input, key, b, m - 1);
    }
}

proof fn lemma_cnt_lt_zero(input: Seq<usize>, key: Seq<usize>, m: int)
    ensures
        cnt_lt(input, key, 0, m) == 0,
    decreases m,
{
    if m > 0 {
        lemma_cnt_lt_zero(input, key, m - 1);
    }
}

proof fn lemma_cnt_lt_mono(input: Seq<usize>, key: Seq<usize>, a: int, b: int, m: int)
    requires
        a <= b,
        0 <= m,
    ensures
        cnt_lt(input, key, a, m) <= cnt_lt(input, key, b, m),
    decreases m,
{
    if m > 0 {
        lemma_cnt_lt_mono(input, key, a, b, m - 1);
    }
}

proof fn lemma_cnt_eq_mono(input: Seq<usize>, key: Seq<usize>, b: int, j: int, i: int)
    requires
        0 <= j <= i,
    ensures
        cnt_eq(input, key, b, j) <= cnt_eq(input, key, b, i),
        j < i && key_of(input, key, j) == b ==> cnt_eq(input, key, b, j) < cnt_eq(input, key, b, i),
    decreases i - j,
{
    if j < i {
        lemma_cnt_eq_mono(input, key, b, j, i - 1);
        if j < i - 1 {
            lemma_cnt_eq_mono(input, key, b, j + 1, i - 1);
        }
    }
}

proof fn lemma_slot(input: Seq<usize>, key: Seq<usize>, i: int)
    requires
        0 <= i < input.len(),
    ensures
        0 <= slot(input, key, i) < input.len(),
{
    let n = input.len() as int;
    let k = key_of(input, key, i);
    lemma_cnt_bounds(input, key, k, n);
    lemma_cnt_bounds(input, key, k + 1, n);
    lemma_cnt_bounds(input, key, k, i);
    lemma_cnt_eq_mono(input, key, k, i, n);
    assert(cnt_eq(input, key, k, i) < cnt_eq(input, key, k, n));
    assert(slot(input, key, i) == cnt_lt(input, key, k, n) + cnt_eq(input, key, k, i));
}

proof fn lemma_slot_distinct(input: Seq<usize>, key: Seq<usize>, j: int, i: int)
    requires
        0 <= j < i < input.len(),
    ensures
        slot(input, key, j) != slot(input, key, i),
{
    let n = input.len() as int;
    let kj = key_of(input, key, j);
    let ki = key_of(input, key, i);
    if kj == ki {
        lemma_cnt_eq_mono(input, key, ki, j, i);
    } else if kj < ki {
        lemma_cnt_bounds(input, key, kj, n);
        lemma_cnt_eq_mono(input, key, kj, j, n);
        lemma_cnt_eq_mono(input, key, kj, j + 1, n);
        assert(cnt_eq(input, key, kj, j) < cnt_eq(input, key, kj, n));
        lemma_cnt_lt_mono(input, key, kj + 1, ki, n);
        lemma_cnt_bounds(input, key, ki, i);
    } else {
        lemma_cnt_bounds(input, key, ki, n);
        lemma_cnt_eq_mono(input, key, ki, i, n);
        assert(cnt_eq(input, key, ki, i) < cnt_eq(input, key, ki, n));
        lemma_cnt_lt_mono(input, key, ki + 1, kj, n);
        lemma_cnt_bounds(input, key, kj, j);
    }
}

/// One pass of a counting sort: `out` gets the entries of `input` ordered
/// by their keys, stably (entry `i` lands at `slot(i)`), and `count[b]`
/// ends as the number of entries with a key up to `b`, when every key is
/// below the length of `count`.
fn radix_pass(input: &Vec<usize>, key: &Vec<usize>, count: &mut Vec<usize>, out: &mut Vec<usize>)
    requires
        forall|i: int| 0 <= i < input@.len() ==> #[trigger] input@[i] < old(out)@.len(),
        input@.len() == old(out)@.len(),
        key@.len() == old(out)@.len(),
    ensures
        final(out)@.len() == old(out)@.len(),
        final(count)@.len() == old(count)@.len(),
        forall|i: int| 0 <= i < final(out)@.len() ==> #[trigger] final(out)@[i] < final(out)@.len() || final(out)@[i] == old(out)@[i],
        keys_fit(input@, key@, old(count)@.len() as int) ==> {
            &&& forall|i: int| 0 <= i < input@.len() ==> #[trigger] final(out)@[slot(input@, key@, i)] == input@[i]
            &&& forall|b: int| 0 <= b < final(count)@.len() ==> #[trigger] final(count)@[b] == cnt_lt(input@, key@, b + 1, input@.len() as int)
        },
{
    let ghost fit = keys_fit(input@, key@, count@.len() as int);
    let ghost inp = input@;
    let ghost ky = key@;
    let n = out.len();
    let mut c: usize = 0;
    while c < count.len()
        invariant
            c <= count@.len(),
            count@.len() == old(count)@.len(),
            forall|b: int| 0 <= b < c ==> #[trigger] count@[b] == 0,
        decreases count.len() - c,
    {
        count.set(c, 0);
        c = c + 1;
    }
    let mut i: usize = 0;
    while i < input.len()
        invariant
            i <= input@.len(),
            inp == input@,
            ky == key@,
            n == input@.len() == key@.len(),
            forall|j: int| 0 <= j < input@.len() ==> #[trigger] input@[j] < n,
            count@.len() == old(count)@.len(),
            fit == keys_fit(inp, ky, count@.len() as int),
            fit ==> forall|b: int| 0 <= b < count@.len() ==> #[trigger] count@[b] == cnt_eq(inp, ky, b, i as int),
        decreases input.len() - i,
    {
        let s = input[i];
        proof {
            if fit {
                assert(key_of(inp, ky, i as int) < count@.len());
            }
        }
        if s < key.len() {
            let k = key[s];
            proof {
                lemma_cnt_bounds(inp, ky, k as int, i as int);
            }
            if k < count.len() && count[k] < usize::MAX {
                count.set(k, count[k] + 1);
            }
        }
        i = i + 1;
    }
    let ghost m = n as int;
    proof {
        lemma_cnt_lt_zero(inp, ky, m);
    }
    let mut sum: usize = 0;
    let mut c: usize = 0;
    while c < count.len()
        invariant
            c <= count@.len(),
            inp == input@,
            ky == key@,
            m == input@.len(),
            m == n,
            count@.len() == old(count)@.len(),
            fit == keys_fit(inp, ky, count@.len() as int),
            fit ==> sum == cnt_lt(inp, ky, c as int, m),
            fit ==> forall|b: int| 0 <= b < c ==> #[trigger] count@[b] == cnt_lt(inp, ky, b, m),
            fit ==> forall|b: int| c <= b < count@.len() ==> #[trigger] count@[b] == cnt_eq(inp, ky, b, m),
        decreases count.len() - c,
    {
        let start = sum;
        proof {
            lemma_cnt_bounds(inp, ky, c as int, m);
            lemma_cnt_bounds(inp, ky, c as int + 1, m);
        }
        assert(fit ==> sum + count[c as int] <= m);
        assert(fit ==> count[c as int] == cnt_eq(inp, ky, c as int, m));
        sum = if count[c] <= usize::MAX - sum { sum + count[c] } else { usize::MAX };
        count.set(c, start);
        c = c + 1;
    }
    let ghost o0 = out@;
    let mut i: usize = 0;
    while i < input.len()
        invariant
            i <= input@.len(),
            inp == input@,
            ky == key@,
            input@.len() == n,
            m == n,
            out@.len() == n,
            key@.len() == n,
            count@.len() == old(count)@.len(),
            o0 == old(out)@,
            fit == keys_fit(inp, ky, count@.len() as int),
            forall|j: int| 0 <= j < input@.len() ==> #[trigger] input@[j] < n,
            forall|j: int| 0 <= j < n ==> #[trigger] out@[j] < n || out@[j] == o0[j],
            fit ==> forall|b: int| 0 <= b < count@.len() ==> #[trigger] count@[b] == cnt_lt(inp, ky, b, m) + cnt_eq(inp, ky, b, i as int),
            fit ==> forall|j: int| 0 <= j < i ==> #[trigger] out@[slot(inp, ky, j)] == inp[j],
        decreases input.len() - i,
    {
        let s = input[i];
        let bucket = key[s];
        proof {
            if fit {
                assert(key_of(inp, ky, i as int) < count@.len());
                lemma_slot(inp, ky, i as int);
                lemma_cnt_bounds(inp, ky, bucket as int, i as int);
                lemma_cnt_bounds(inp, ky, bucket as int, m);
            }
        }
        if bucket < count.len() {
            let at = count[bucket];
            if at < n {
                let ghost before = out@;
                out.set(at, s);
                proof {
                    if fit {
                        assert forall|j: int| 0 <= j < i + 1 implies #[trigger] out@[slot(inp, ky, j)] == inp[j] by {
                            if j < i {
                                lemma_slot_distinct(inp, ky, j, i as int);
                                lemma_slot(inp, ky, j);
                                assert(out@[slot(inp, ky, j)] == before[slot(inp, ky, j)]);
                            }
                        }
                    }
                }
                if at < usize::MAX {
                    count.set(bucket, at + 1);
                }
            }
        }
        i = i + 1;
    }
    proof {
        if fit {
            assert forall|b: int| 0 <= b < count@.len() implies #[trigger] count@[b] == cnt_lt(inp, ky, b + 1, m) by {
                lemma_cnt_bounds(inp, ky, b, m);
            }
        }
    }
}

/// Byte `p` of the rotation of `d` that starts at `k`.
pub open spec fn rot_at(d: Seq<u8>, k: int, p: int) -> u8 {
    d[(k + p) % (d.len() as int)]
}

/// How the rotations of `d` at `a` and at `b` compare from byte `p` on:
/// -1 when the first is smaller there, 1 when larger, 0 when they agree.
pub open spec fn rot_order(d: Seq<u8>, a: int, b: int, p: int) -> int
    decreases d.len() - p,
{
    if p >= d.len() {
        0
    } else if rot_at(d, a, p) < rot_at(d, b, p) {
        -1
    } else if rot_at(d, a, p) > rot_at(d, b, p) {
        1
    } else {
        rot_order(d, a, b, p + 1)
    }
}

/// Rotation `a` of `d` sorts before rotation `b`: it is smaller, or the two
/// are equal and `a` starts earlier.
pub open spec fn rot_lt(d: Seq<u8>, a: int, b: int) -> bool {
    rot_order(d, a, b, 0) < 0 || (rot_order(d, a, b, 0) == 0 && a < b)
}

/// How many of the rotations starting below `m` sort before rotation `k`.
pub open spec fn rows_before(d: Seq<u8>, k: int, m: int) -> int
    decreases m,
{
    if m <= 0 {
        0
    } else {
        rows_before(d, k, m - 1) + if rot_lt(d, m - 1, k) { 1int } else { 0 }
    }
}

/// The row of the sorted rotations of `d` where rotation `k` stands.
pub open spec fn bwt_row(d: Seq<u8>, k: int) -> int {
    rows_before(d, k, d.len() as int)
}

/// The last byte of rotation `k`: the byte before `k`, cyclically.
pub open spec fn last_byte(d: Seq<u8>, k: int) -> u8 {
    d[(k + d.len() - 1) % (d.len() as int)]
}

/// The rotation that stands at row `i`.
pub open spec fn row_start(d: Seq<u8>, i: int) -> int {
    choose|k: int| 0 <= k < d.len() && bwt_row(d, k) == i
}

/// The last column of the sorted rotations of `d`.
pub open spec fn bwt_last(d: Seq<u8>) -> Seq<u8> {
    Seq::new(d.len(), |i: int| last_byte(d, row_start(d, i)))
}

/// The row of the rotation that starts at the first byte (0 when `d` is
/// empty).
pub open spec fn bwt_primary(d: Seq<u8>) -> usize {
    if d.len() == 0 { 0 } else { bwt_row(d, 0) as usize }
}

pub proof fn lemma_order_range(d: Seq<u8>, a: int, b: int, p: int)
    ensures
        -1 <= rot_order(d, a, b, p) <= 1,
        rot_order(d, a, b, p) == -rot_order(d, b, a, p),
    decreases d.len() - p,
{
    if p < d.len() {
        lemma_order_range(d, a, b, p + 1);
    }
}

pub proof fn lemma_order_trans(d: Seq<u8>, a: int, b: int, c: int, p: int)
    requires
        rot_order(d, a, b, p) <= 0,
        rot_order(d, b, c, p) <= 0,
    ensures
        rot_order(d, a, c, p) <= 0,
        rot_order(d, a, c, p) == 0 ==> rot_order(d, a, b, p) == 0 && rot_order(d, b, c, p) == 0,
    decreases d.len() - p,
{
    if p < d.len() && rot_at(d, a, p) == rot_at(d, b, p) && rot_at(d, b, p) == rot_at(d, c, p) {
        lemma_order_trans(d, a, b, c, p + 1);
    }
}

/// Sorting before is a strict total order on the rotations.
pub proof fn lemma_lt_order(d: Seq<u8>, a: int, b: int, c: int)
    ensures
        !rot_lt(d, a, a),
        rot_lt(d, a, b) && rot_lt(d, b, c) ==> rot_lt(d, a, c),
        a != b ==> rot_lt(d, a, b) || rot_lt(d, b, a),
        rot_lt(d, a, b) ==> !rot_lt(d, b, a),
{
    lemma_order_range(d, a, a, 0);
    lemma_order_range(d, a, b, 0);
    lemma_order_range(d, b, c, 0);
    if rot_lt(d, a, b) && rot_lt(d, b, c) {
        lemma_order_trans(d, a, b, c, 0);
    }
}

proof fn lemma_rows_le(d: Seq<u8>, k: int, m: int)
    requires
        0 <= m,
    ensures
        0 <= rows_before(d, k, m) <= m,
        0 <= k < m ==> rows_before(d, k, m) < m,
    decreases m,
{
    if m > 0 {
        lemma_rows_le(d, k, m - 1);
        lemma_lt_order(d, k, k, k);
    }
}

proof fn lemma_rows_mono(d: Seq<u8>, a: int, b: int, m: int)
    requires
        0 <= m,
        rot_lt(d, a, b),
    ensures
        rows_before(d, a, m) <= rows_before(d, b, m),
        0 <= a < m ==> rows_before(d, a, m) < rows_before(d, b, m),
    decreases m,
{
    if m > 0 {
        lemma_rows_mono(d, a, b, m - 1);
        lemma_lt_order(d, m - 1, a, b);
        lemma_lt_order(d, a, a, a);
    }
}

/// Rotations that start at different bytes stand at different rows, each
/// inside the rows.
pub proof fn lemma_rows_distinct(d: Seq<u8>, a: int, b: int)
    requires
        0 <= a < d.len(),
        0 <= b < d.len(),
    ensures
        0 <= bwt_row(d, a) < d.len(),
        a != b ==> bwt_row(d, a) != bwt_row(d, b),
        rot_lt(d, a, b) ==> bwt_row(d, a) < bwt_row(d, b),
{
    let n = d.len() as int;
    lemma_rows_le(d, a, n);
    lemma_lt_order(d, a, b, a);
    if rot_lt(d, a, b) {
        lemma_rows_mono(d, a, b, n);
    } else if a != b {
        lemma_rows_mono(d, b, a, n);
    }
}

/// Every row holds a rotation.
pub proof fn lemma_rows_onto(d: Seq<u8>, i: int)
    requires
        0 <= i < d.len(),
    ensures
        0 <= row_start(d, i) < d.len(),
        bwt_row(d, row_start(d, i)) == i,
{
    let n = d.len() as int;
    let x = vstd::set_lib::set_int_range(0, n);
    let f = |k: int| bwt_row(d, k);
    let y = x.map(f);
    vstd::set_lib::lemma_int_range(0, n);
    assert(vstd::relations::injective_on(f, x)) by {
        assert forall|a: int, b: int| x.contains(a) && x.contains(b) && #[trigger] f(a) == #[trigger] f(b) implies a == b by {
            lemma_rows_distinct(d, a, b);
        }
    }
    vstd::set_lib::lemma_map_size(x, y, f);
    assert(y.subset_of(x)) by {
        assert forall|v: int| y.contains(v) implies x.contains(v) by {
            let k = choose|k: int| x.contains(k) && f(k) == v;
            lemma_rows_distinct(d, k, k);
        }
    }
    vstd::set_lib::lemma_subset_equality(y, x);
    assert(y.contains(i));
    let k = choose|k: int| x.contains(k) && f(k) == i;
    assert(0 <= k < n && bwt_row(d, k) == i);
}

/// A column that holds the last byte of each rotation at the rotation's
/// row is the last column.
proof fn lemma_last_column(d: Seq<u8>, l: Seq<u8>)
    requires
        l.len() == d.len(),
        forall|k: int| 0 <= k < d.len() ==> l[#[trigger] bwt_row(d, k)] == last_byte(d, k),
    ensures
        l == bwt_last(d),
{
    assert forall|i: int| 0 <= i < d.len() implies l[i] == bwt_last(d)[i] by {
        lemma_rows_onto(d, i);
        let k = row_start(d, i);
        assert(l[bwt_row(d, k)] == last_byte(d, k));
    }
    assert(l =~= bwt_last(d));
}

/// A list of rotations, each sorting before the next, stands row by row.
proof fn lemma_sorted_rows(d: Seq<u8>, sa: Seq<usize>, j: int)
    requires
        sa.len() == d.len(),
        forall|i: int| 0 <= i < sa.len() ==> #[trigger] sa[i] < sa.len(),
        forall|i: int| 0 < i < sa.len() ==> rot_lt(d, sa[i - 1] as int, #[trigger] sa[i] as int),
        0 <= j < sa.len(),
    ensures
        bwt_row(d, sa[j] as int) == j,
{
    lemma_rows_at_least(d, sa, j);
    lemma_rows_at_most(d, sa, j);
}

proof fn lemma_rows_at_least(d: Seq<u8>, sa: Seq<usize>, j: int)
    requires
        sa.len() == d.len(),
        forall|i: int| 0 <= i < sa.len() ==> #[trigger] sa[i] < sa.len(),
        forall|i: int| 0 < i < sa.len() ==> rot_lt(d, sa[i - 1] as int, #[trigger] sa[i] as int),
        0 <= j < sa.len(),
    ensures
        bwt_row(d, sa[j] as int) >= j,
    decreases j,
{
    lemma_rows_distinct(d, sa[j] as int, sa[j] as int);
    if j > 0 {
        lemma_rows_at_least(d, sa, j - 1);
        lemma_rows_distinct(d, sa[j - 1] as int, sa[j] as int);
    }
}

proof fn lemma_rows_at_most(d: Seq<u8>, sa: Seq<usize>, j: int)
    requires
        sa.len() == d.len(),
        forall|i: int| 0 <= i < sa.len() ==> #[trigger] sa[i] < sa.len(),
        forall|i: int| 0 < i < sa.len() ==> rot_lt(d, sa[i - 1] as int, #[trigger] sa[i] as int),
        0 <= j < sa.len(),
    ensures
        bwt_row(d, sa[j] as int) <= j,
    decreases sa.len() - j,
{
    lemma_rows_distinct(d, sa[j] as int, sa[j] as int);
    if j < sa.len() - 1 {
        lemma_rows_at_most(d, sa, j + 1);
        lemma_rows_distinct(d, sa[j] as int, sa[j + 1] as int);
    }
}

pub proof fn lemma_wrap(x: int, n: int)
    requires
        0 < n,
        0 <= x < 2 * n,
    ensures
        x % n == if x >= n { x - n } else { x },
{
    if x >= n {
        vstd::arithmetic::div_mod::lemma_fundamental_div_mod_converse(x, n, 1, x - n);
    } else {
        vstd::arithmetic::div_mod::lemma_fundamental_div_mod_converse(x, n, 0, x);
    }
}

/// Compares the rotations of `data` at `a` and at `b`.
fn compare_rotations(data: &[u8], a: usize, b: usize) -> (r: i8)
    requires
        a < data.len(),
        b < data.len(),
        data.len() < usize::MAX / 2,
    ensures
        r as int == rot_order(data@, a as int, b as int, 0),
{
    let n = data.len();
    let mut p: usize = 0;
    while p < n
        invariant
            p <= n,
            n == data@.len(),
            a < n,
            b < n,
            n < usize::MAX / 2,
            rot_order(data@, a as int, b as int, 0) == rot_order(data@, a as int, b as int, p as int),
        decreases n - p,
    {
        let ia = if a + p >= n { a + p - n } else { a + p };
        let ib = if b + p >= n { b + p - n } else { b + p };
        proof {
            lemma_wrap(a + p, n as int);
            lemma_wrap(b + p, n as int);
        }
        let x = data[ia];
        let y = data[ib];
        if x < y {
            return -1;
        }
        if x > y {
            return 1;
        }
        p = p + 1;
    }
    0
}

/// Whether rotation `a` of `data` sorts before rotation `b`.
fn rot_less(data: &[u8], a: usize, b: usize) -> (r: bool)
    requires
        a < data.len(),
        b < data.len(),
        data.len() < usize::MAX / 2,
    ensures
        r == rot_lt(data@, a as int, b as int),
{
    let c = compare_rotations(data, a, b);
    c < 0 || (c == 0 && a < b)
}

/// The last byte of rotation `k` of `data`.
fn last_of(data: &[u8], k: usize) -> (r: u8)
    requires
        k < data.len(),
    ensures
        r == last_byte(data@, k as int),
{
    let n = data.len();
    proof {
        lemma_wrap(k + n - 1, n as int);
    }
    if k == 0 { data[n - 1] } else { data[k - 1] }
}

/// The last column of the sorted rotations of `data`, and the row of the
/// rotation that starts at the first byte.
pub fn forward(data: &[u8]) -> (r: (Vec<u8>, usize))
    requires
        data.len() < usize::MAX / 2,
    ensures
        r.0@ == bwt_last(data@),
        r.1 == bwt_primary(data@),
        data@.len() > 0 ==> r.1 < data@.len(),
        forall|k: int| 0 <= k < data@.len() ==> r.0@[#[trigger] bwt_row(data@, k)] == last_byte(data@, k),
{
    let n = data.len();
    if n == 0 {
        let e: Vec<u8> = Vec::new();
        assert(e@ =~= bwt_last(data@));
        return (e, 0);
    }
    let mut sa: Vec<usize> = Vec::new();
    let mut rank: Vec<usize> = Vec::new();
    let mut i: usize = 0;
    while i < n
        invariant
            i <= n,
            n == data@.len(),
            sa@.len() == i,
            rank@.len() == i,
            forall|j: int| 0 <= j < i ==> #[trigger] sa@[j] == j,
        decreases n - i,
    {
        sa.push(i);
        rank.push(data[i] as usize);
        i = i + 1;
    }
    let mut tmp: Vec<usize> = vec![0usize; n];
    let mut rank2: Vec<usize> = vec![0usize; n];
    let mut scratch: Vec<usize> = vec![0usize; n];
    let mut count: Vec<usize> = vec![0usize; if n > 256 { n } else { 256 }];
    let mut k: usize = 1;
    loop
        invariant
            n == data@.len(),
            0 < n < usize::MAX / 2,
            1 <= k < 2 * n,
            sa@.len() == n,
            rank@.len() == n,
            tmp@.len() == n,
            rank2@.len() == n,
            scratch@.len() == n,
            forall|j: int| 0 <= j < n ==> #[trigger] sa@[j] < n,
            forall|j: int| 0 <= j < n ==> #[trigger] scratch@[j] < n,
        decreases 2 * n - k,
    {
        let mut i: usize = 0;
        while i < n
            invariant
                i <= n,
                n == data@.len(),
                rank@.len() == n,
                rank2@.len() == n,
                0 < n < usize::MAX / 2,
                1 <= k,
            decreases n - i,
        {
            rank2.set(i, rank[(i + k % n) % n]);
            i = i + 1;
        }
        radix_pass(&sa, &rank2, &mut count, &mut scratch);
        radix_pass(&scratch, &rank, &mut count, &mut sa);
        tmp.set(sa[0], 0);
        let mut w: usize = 1;
        while w < n
            invariant
                1 <= w <= n,
                n == data@.len(),
                sa@.len() == n,
                rank@.len() == n,
                rank2@.len() == n,
                tmp@.len() == n,
                forall|j: int| 0 <= j < n ==> #[trigger] sa@[j] < n,
            decreases n - w,
        {
            let a = sa[w - 1];
            let b = sa[w];
            let same = rank[a] == rank[b] && rank2[a] == rank2[b];
            let t = tmp[a];
            tmp.set(b, if same { t } else { t.saturating_add(1) });
            w = w + 1;
        }
        let mut i: usize = 0;
        while i < n
            invariant
                i <= n,
                rank@.len() == n,
                tmp@.len() == n,
            decreases n - i,
        {
            rank.set(i, tmp[i]);
            i = i + 1;
        }
        if rank[sa[n - 1]] == n - 1 || k >= n {
            break;
        }
        k = k * 2;
    }
    let ghost d = data@;
    let mut sorted = true;
    let mut i: usize = 1;
    while i < n && sorted
        invariant
            1 <= i <= n,
            n == data@.len(),
            d == data@,
            0 < n < usize::MAX / 2,
            sa@.len() == n,
            forall|j: int| 0 <= j < n ==> #[trigger] sa@[j] < n,
            sorted ==> forall|j: int| 0 < j < i ==> rot_lt(d, sa@[j - 1] as int, #[trigger] sa@[j] as int),
        decreases n - i,
    {
        if !rot_less(data, sa[i - 1], sa[i]) {
            sorted = false;
        }
        i = i + 1;
    }
    let mut last: Vec<u8> = Vec::new();
    let mut primary: usize = 0;
    if sorted {
        let mut found = false;
        let mut i: usize = 0;
        while i < n
            invariant
                i <= n,
                n == data@.len(),
                d == data@,
                0 < n < usize::MAX / 2,
                sa@.len() == n,
                last@.len() == i,
                forall|j: int| 0 <= j < n ==> #[trigger] sa@[j] < n,
                forall|j: int| 0 < j < n ==> rot_lt(d, sa@[j - 1] as int, #[trigger] sa@[j] as int),
                forall|j: int| 0 <= j < i ==> #[trigger] last@[j] == last_byte(d, sa@[j] as int),
                found ==> sa@[primary as int] == 0 && primary < n,
                !found ==> forall|j: int| 0 <= j < i ==> #[trigger] sa@[j] != 0,
            decreases n - i,
        {
            let r = sa[i];
            if r == 0 {
                primary = i;
                found = true;
            }
            last.push(last_of(data, r));
            i = i + 1;
        }
        proof {
            assert forall|k: int| 0 <= k < n implies last@[#[trigger] bwt_row(d, k)] == last_byte(d, k) by {
                let row = bwt_row(d, k);
                lemma_rows_distinct(d, k, k);
                lemma_sorted_rows(d, sa@, row);
                lemma_rows_distinct(d, sa@[row] as int, k);
            }
            let row0 = bwt_row(d, 0);
            lemma_rows_distinct(d, 0, 0);
            lemma_sorted_rows(d, sa@, row0);
            lemma_rows_distinct(d, sa@[row0] as int, 0);
            assert(found);
            lemma_sorted_rows(d, sa@, primary as int);
        }
    } else {
        last = vec![0u8; n];
        let mut k: usize = 0;
        while k < n
            invariant
                k <= n,
                n == data@.len(),
                d == data@,
                0 < n < usize::MAX / 2,
                last@.len() == n,
                forall|j: int| 0 <= j < k ==> last@[#[trigger] bwt_row(d, j)] == last_byte(d, j),
                k > 0 ==> primary == bwt_row(d, 0),
            decreases n - k,
        {
            let mut c: usize = 0;
            let mut j: usize = 0;
            while j < n
                invariant
                    j <= n,
                    k < n,
                    n == data@.len(),
                    d == data@,
                    0 < n < usize::MAX / 2,
                    c == rows_before(d, k as int, j as int),
                decreases n - j,
            {
                proof {
                    lemma_rows_le(d, k as int, j as int);
                }
                if rot_less(data, j, k) {
                    c = c + 1;
                }
                j = j + 1;
            }
            proof {
                lemma_rows_distinct(d, k as int, k as int);
            }
            let ghost before = last@;
            last.set(c, last_of(data, k));
            proof {
                assert forall|j: int| 0 <= j < k + 1 implies last@[#[trigger] bwt_row(d, j)] == last_byte(d, j) by {
                    if j < k {
                        lemma_rows_distinct(d, j, k as int);
                        assert(last@[bwt_row(d, j)] == before[bwt_row(d, j)]);
                    }
                }
            }
            if k == 0 {
                primary = c;
            }
            k = k + 1;
        }
    }
    proof {
        lemma_last_column(d, last@);
        lemma_rows_distinct(d, 0, 0);
    }
    (last, primary)
}

/// The row that row `i` of the sorted rotations steps back to: the bytes
/// of `last` below `last[i]`, plus the copies of `last[i]` before `i`.
pub open spec fn lf(last: Seq<u8>, i: int) -> int {
    count_below(last, last[i] as int) + count(last.take(i), last[i])
}

/// The row reached after `k` steps back from `p0`.
pub open spec fn walk(last: Seq<u8>, p0: int, k: nat) -> int
    decreases k,
{
    if k == 0 {
        p0
    } else {
        lf(last, walk(last, p0, (k - 1) as nat))
    }
}

/// The input that `last` and `primary` came from: read backwards from row
/// `primary`, one step back per byte.
pub open spec fn spec_inverse(last: Seq<u8>, primary: int) -> Seq<u8> {
    let n = last.len() as int;
    Seq::new(last.len(), |j: int| last[walk(last, primary, (n - 1 - j) as nat)])
}

proof fn lemma_count_below_mono(s: Seq<u8>, a: int, b: int)
    requires
        0 <= a <= b,
    ensures
        count_below(s, a) <= count_below(s, b),
    decreases b - a,
{
    if a < b {
        lemma_count_below_mono(s, a, b - 1);
    }
}

proof fn lemma_count_prefix(s: Seq<u8>, i: int, b: u8)
    requires
        0 <= i < s.len(),
        s[i] == b,
    ensures
        count(s.take(i), b) < count(s, b),
    decreases s.len(),
{
    if i < s.len() - 1 {
        lemma_count_prefix(s.drop_last(), i, b);
        assert(s.drop_last().take(i) =~= s.take(i));
    } else {
        assert(s.drop_last() =~= s.take(i));
    }
}

proof fn lemma_lf_bound(last: Seq<u8>, i: int)
    requires
        0 <= i < last.len(),
    ensures
        0 <= lf(last, i) < last.len(),
{
    let b = last[i];
    lemma_count_prefix(last, i, b);
    lemma_count_below_mono(last, b as int + 1, 256);
    lemma_count_below_mono(last, 0, b as int);
    lemma_count_below_all(last);
    assert(count_below(last, b as int + 1) == count_below(last, b as int) + count(last, ((b as int + 1) - 1) as u8));
    assert(((b as int + 1) - 1) as u8 == b);
}

/// Undoes `forward`.
pub fn inverse(last: &[u8], primary: usize) -> (out: Vec<u8>)
    requires
        last@.len() == 0 || primary < last@.len(),
    ensures
        out@ == spec_inverse(last@, primary as int),
{
    let n = last.len();
    if n == 0 {
        let out: Vec<u8> = Vec::new();
        assert(out@ =~= spec_inverse(last@, primary as int));
        return out;
    }
    let ghost l = last@;
    let counts = histogram(last);
    let mut c: [usize; 256] = [0; 256];
    let mut sum: usize = 0;
    let mut s: usize = 0;
    proof {
        lemma_count_below_all(l);
    }
    while s < 256
        invariant
            s <= 256,
            l == last@,
            l.len() == n,
            count_below(l, 256) == n,
            sum == count_below(l, s as int),
            forall|b: u8| #[trigger] counts@[b as int] == count(l, b),
            forall|k: int| 0 <= k < s ==> #[trigger] c@[k] == count_below(l, k),
        decreases 256 - s,
    {
        proof {
            lemma_count_below_mono(l, s as int + 1, 256);
        }
        c[s] = sum;
        sum = sum + counts[s];
        s = s + 1;
    }
    let mut lfv: Vec<usize> = Vec::new();
    let mut occ: [usize; 256] = [0; 256];
    let mut i: usize = 0;
    while i < n
        invariant
            i <= n,
            l == last@,
            l.len() == n,
            lfv@.len() == i,
            forall|k: int| 0 <= k < 256 ==> #[trigger] c@[k] == count_below(l, k),
            forall|b: u8| #[trigger] occ@[b as int] == count(l.take(i as int), b),
            forall|k: int| 0 <= k < i ==> #[trigger] lfv@[k] == lf(l, k),
        decreases n - i,
    {
        let b = last[i];
        proof {
            lemma_lf_bound(l, i as int);
            lemma_count_fits(l.take(i as int), b);
        }
        lfv.push(c[b as usize] + occ[b as usize]);
        assert(l.take(i as int + 1).drop_last() =~= l.take(i as int));
        occ[b as usize] = occ[b as usize] + 1;
        i = i + 1;
        assert forall|x: u8| #[trigger] occ@[x as int] == count(l.take(i as int), x) by {
            if x != b {
                assert(occ@[x as int] == count(l.take(i as int - 1), x));
            }
        }
    }
    let mut out: Vec<u8> = vec![0u8; n];
    let mut p: usize = primary;
    let mut j: usize = n;
    while j > 0
        invariant
            j <= n,
            l == last@,
            l.len() == n,
            out@.len() == n,
            lfv@.len() == n,
            forall|k: int| 0 <= k < n ==> #[trigger] lfv@[k] == lf(l, k),
            p == walk(l, primary as int, (n - j) as nat),
            p < n,
            forall|k: int| j <= k < n ==> #[trigger] out@[k] == spec_inverse(l, primary as int)[k],
        decreases j,
    {
        j = j - 1;
        out.set(j, last[p]);
        proof {
            lemma_lf_bound(l, p as int);
        }
        p = lfv[p];
    }
    assert(out@ =~= spec_inverse(l, primary as int));
    out
}

} // verus!
