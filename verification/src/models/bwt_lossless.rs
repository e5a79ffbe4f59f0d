//! The BWT is undone by its inverse: stepping back from the row of the
//! first rotation rebuilds the input, periodic inputs included.
use vstd::prelude::*;
use vstd::set_lib::{set_int_range, lemma_int_range, lemma_len_subset, lemma_map_size, lemma_set_disjoint_lens};
use crate::entropy::count;
use super::huffman::count_below;
use super::bwt::{rot_at, rot_order, rot_lt, rows_before, bwt_row, last_byte, row_start, bwt_last, bwt_primary, lf, walk, spec_inverse,
    lemma_rows_distinct, lemma_rows_onto, lemma_order_range, lemma_order_trans, lemma_lt_order, lemma_wrap};

verus! {

/// The indices below `n` where `p` holds.
pub open spec fn iset(n: int, p: spec_fn(int) -> bool) -> Set<int> {
    Set::new(|m: int| 0 <= m < n && p(m))
}

proof fn lemma_iset_finite(n: int, p: spec_fn(int) -> bool)
    requires
        0 <= n,
    ensures
        iset(n, p).finite(),
        iset(n, p).len() <= n,
{
    lemma_int_range(0, n);
    assert(iset(n, p).subset_of(set_int_range(0, n)));
    lemma_len_subset(iset(n, p), set_int_range(0, n));
}

/// A bijection of `0..n` with inverse `g` carries the indices where `p`
/// holds onto those where `q` holds.
proof fn lemma_bij_count(n: int, f: spec_fn(int) -> int, g: spec_fn(int) -> int, p: spec_fn(int) -> bool, q: spec_fn(int) -> bool)
    requires
        0 <= n,
        forall|m: int| 0 <= m < n ==> 0 <= #[trigger] f(m) < n,
        forall|r: int| 0 <= r < n ==> 0 <= #[trigger] g(r) < n && f(g(r)) == r,
        forall|a: int, b: int| 0 <= a < n && 0 <= b < n && #[trigger] f(a) == #[trigger] f(b) ==> a == b,
        forall|m: int| 0 <= m < n ==> (p(m) <==> q(#[trigger] f(m))),
    ensures
        iset(n, p).len() == iset(n, q).len(),
{
    let x = iset(n, p);
    let y = iset(n, q);
    lemma_iset_finite(n, p);
    assert(x.map(f) =~= y) by {
        assert forall|r: int| y.contains(r) implies x.map(f).contains(r) by {
            assert(x.contains(g(r)) && f(g(r)) == r);
        }
    }
    assert(vstd::relations::injective_on(f, x));
    lemma_map_size(x, y, f);
}

proof fn lemma_count_iset(s: Seq<u8>, b: u8)
    ensures
        count(s, b) == iset(s.len() as int, |i: int| s[i] == b).len(),
    decreases s.len(),
{
    let n = s.len() as int;
    if n == 0 {
        assert(iset(0, |i: int| s[i] == b) =~= Set::<int>::empty());
    } else {
        let t = s.drop_last();
        lemma_count_iset(t, b);
        let a = iset(n - 1, |i: int| t[i] == b);
        lemma_iset_finite(n - 1, |i: int| t[i] == b);
        if s.last() == b {
            assert(iset(n, |i: int| s[i] == b) =~= a.insert(n - 1));
        } else {
            assert(iset(n, |i: int| s[i] == b) =~= a);
        }
    }
}

proof fn lemma_count_below_iset(s: Seq<u8>, c: int)
    requires
        0 <= c <= 256,
    ensures
        count_below(s, c) == iset(s.len() as int, |i: int| s[i] < c).len(),
    decreases c,
{
    let n = s.len() as int;
    if c == 0 {
        assert(iset(n, |i: int| s[i] < c) =~= Set::<int>::empty());
    } else {
        lemma_count_below_iset(s, c - 1);
        let b = (c - 1) as u8;
        lemma_count_iset(s, b);
        let lo = iset(n, |i: int| s[i] < c - 1);
        let eq = iset(n, |i: int| s[i] == b);
        lemma_iset_finite(n, |i: int| s[i] < c - 1);
        lemma_iset_finite(n, |i: int| s[i] == b);
        assert(lo.disjoint(eq));
        lemma_set_disjoint_lens(lo, eq);
        assert(iset(n, |i: int| s[i] < c) =~= lo + eq);
    }
}

/// The row of rotation `k` counts the rotations that sort before it.
proof fn lemma_rows_iset(d: Seq<u8>, k: int, m: int)
    requires
        0 <= m,
    ensures
        rows_before(d, k, m) == iset(m, |x: int| rot_lt(d, x, k)).len(),
    decreases m,
{
    if m == 0 {
        assert(iset(0, |x: int| rot_lt(d, x, k)) =~= Set::<int>::empty());
    } else {
        lemma_rows_iset(d, k, m - 1);
        let a = iset(m - 1, |x: int| rot_lt(d, x, k));
        lemma_iset_finite(m - 1, |x: int| rot_lt(d, x, k));
        if rot_lt(d, m - 1, k) {
            assert(iset(m, |x: int| rot_lt(d, x, k)) =~= a.insert(m - 1));
        } else {
            assert(iset(m, |x: int| rot_lt(d, x, k)) =~= a);
        }
    }
}

/// Byte `p + 1` of a rotation is byte `p` of the next one.
proof fn lemma_rot_shift(d: Seq<u8>, m: int, p: int)
    requires
        0 <= m < d.len(),
        0 <= p < d.len(),
    ensures
        rot_at(d, m, p + 1) == rot_at(d, (m + 1) % (d.len() as int), p),
{
    let n = d.len() as int;
    vstd::arithmetic::div_mod::lemma_add_mod_noop(m + 1, p, n);
    vstd::arithmetic::div_mod::lemma_small_mod(p as nat, n as nat);
}

/// The last byte of the rotation after `m` is `d[m]`.
proof fn lemma_last_byte_shift(d: Seq<u8>, m: int)
    requires
        0 <= m < d.len(),
    ensures
        last_byte(d, (m + 1) % (d.len() as int)) == d[m],
{
    let n = d.len() as int;
    lemma_wrap(m + 1, n);
    if m + 1 < n {
        lemma_wrap(m + n, n);
    } else {
        lemma_wrap(n - 1, n);
    }
}

/// Two rotations that start with the same byte compare as the rotations
/// after them do.
proof fn lemma_shift_order(d: Seq<u8>, m: int, x: int, p: int)
    requires
        0 <= m < d.len(),
        0 <= x < d.len(),
        d[m] == d[x],
        0 <= p < d.len(),
    ensures
        rot_order(d, m, x, p + 1) == rot_order(d, (m + 1) % (d.len() as int), (x + 1) % (d.len() as int), p),
    decreases d.len() - p,
{
    let n = d.len() as int;
    let m1 = (m + 1) % n;
    let x1 = (x + 1) % n;
    lemma_rot_shift(d, m, p);
    lemma_rot_shift(d, x, p);
    if p == n - 1 {
        lemma_wrap(m + n, n);
        lemma_wrap(x + n, n);
        assert(rot_at(d, m, n) == d[m]);
        assert(rot_at(d, x, n) == d[x]);
        assert(rot_order(d, m, x, p + 1) == 0);
        assert(rot_order(d, m1, x1, p + 1) == 0);
        assert(rot_at(d, m1, p) == rot_at(d, x1, p));
        assert(rot_order(d, m1, x1, p) == rot_order(d, m1, x1, p + 1));
    } else {
        lemma_shift_order(d, m, x, p + 1);
        assert(rot_order(d, m, x, p + 1) == (if rot_at(d, m, p + 1) < rot_at(d, x, p + 1) { -1 } else if rot_at(d, m, p + 1) > rot_at(d, x, p + 1) { 1 } else { rot_order(d, m, x, p + 2) }));
        assert(rot_order(d, m1, x1, p) == (if rot_at(d, m1, p) < rot_at(d, x1, p) { -1 } else if rot_at(d, m1, p) > rot_at(d, x1, p) { 1 } else { rot_order(d, m1, x1, p + 1) }));
    }
}

/// Equal rotations agree byte by byte.
proof fn lemma_eq_bytes(d: Seq<u8>, a: int, b: int, p: int, q: int)
    requires
        rot_order(d, a, b, p) == 0,
        0 <= p <= q < d.len(),
    ensures
        rot_at(d, a, q) == rot_at(d, b, q),
    decreases q - p,
{
    if p < q {
        lemma_eq_bytes(d, a, b, p + 1, q);
    }
}

/// Being equal is transitive.
proof fn lemma_eq_trans(d: Seq<u8>, a: int, b: int, c: int)
    requires
        rot_order(d, a, b, 0) == 0,
        rot_order(d, b, c, 0) == 0,
    ensures
        rot_order(d, a, c, 0) == 0,
{
    lemma_order_trans(d, a, b, c, 0);
    lemma_order_range(d, a, b, 0);
    lemma_order_range(d, b, c, 0);
    lemma_order_range(d, a, c, 0);
    lemma_order_trans(d, c, b, a, 0);
}

/// The row map is a bijection of `0..n` with `row_start` as its inverse.
proof fn lemma_row_bijection(d: Seq<u8>)
    ensures
        forall|z: int| 0 <= z < d.len() ==> 0 <= #[trigger] bwt_row(d, z) < d.len() && row_start(d, bwt_row(d, z)) == z,
        forall|r: int| 0 <= r < d.len() ==> 0 <= #[trigger] row_start(d, r) < d.len() && bwt_row(d, row_start(d, r)) == r,
        forall|a: int, b: int| 0 <= a < d.len() && 0 <= b < d.len() && #[trigger] bwt_row(d, a) == #[trigger] bwt_row(d, b) ==> a == b,
{
    assert forall|a: int, b: int| 0 <= a < d.len() && 0 <= b < d.len() && #[trigger] bwt_row(d, a) == #[trigger] bwt_row(d, b) implies a == b by {
        lemma_rows_distinct(d, a, b);
    }
    assert forall|r: int| 0 <= r < d.len() implies 0 <= #[trigger] row_start(d, r) < d.len() && bwt_row(d, row_start(d, r)) == r by {
        lemma_rows_onto(d, r);
    }
    assert forall|z: int| 0 <= z < d.len() implies 0 <= #[trigger] bwt_row(d, z) < d.len() && row_start(d, bwt_row(d, z)) == z by {
        lemma_rows_distinct(d, z, z);
        lemma_rows_onto(d, bwt_row(d, z));
        lemma_rows_distinct(d, row_start(d, bwt_row(d, z)), z);
    }
}

/// Stepping to the next index, cyclically, is a bijection of `0..n`.
proof fn lemma_next_bijection(n: int)
    requires
        0 < n,
    ensures
        forall|m: int| 0 <= m < n ==> 0 <= #[trigger] ((m + 1) % n) < n,
        forall|z: int| 0 <= z < n ==> 0 <= #[trigger] ((z + n - 1) % n) < n && ((z + n - 1) % n + 1) % n == z,
        forall|a: int, b: int| 0 <= a < n && 0 <= b < n && #[trigger] ((a + 1) % n) == #[trigger] ((b + 1) % n) ==> a == b,
{
    assert forall|m: int| 0 <= m < n implies 0 <= #[trigger] ((m + 1) % n) < n by {
        lemma_wrap(m + 1, n);
    }
    assert forall|z: int| 0 <= z < n implies 0 <= #[trigger] ((z + n - 1) % n) < n && ((z + n - 1) % n + 1) % n == z by {
        lemma_wrap(z + n - 1, n);
        lemma_wrap((z + n - 1) % n + 1, n);
    }
    assert forall|a: int, b: int| 0 <= a < n && 0 <= b < n && #[trigger] ((a + 1) % n) == #[trigger] ((b + 1) % n) implies a == b by {
        lemma_wrap(a + 1, n);
        lemma_wrap(b + 1, n);
    }
}

/// The rotations that sort strictly below rotation `x0`.
pub open spec fn below_set(d: Seq<u8>, x0: int) -> Set<int> {
    iset(d.len() as int, |m: int| rot_order(d, m, x0, 0) < 0)
}

/// The rotations equal to rotation `x0`.
pub open spec fn equal_set(d: Seq<u8>, x0: int) -> Set<int> {
    iset(d.len() as int, |m: int| rot_order(d, m, x0, 0) == 0)
}

/// The rows `below .. below + equal` hold the rotations equal to `x0`.
proof fn lemma_row_in_block(d: Seq<u8>, x0: int, j: int)
    requires
        0 <= x0 < d.len(),
        0 <= j < d.len(),
        below_set(d, x0).len() <= j < below_set(d, x0).len() + equal_set(d, x0).len(),
    ensures
        rot_order(d, row_start(d, j), x0, 0) == 0,
{
    let n = d.len() as int;
    lemma_rows_onto(d, j);
    let z = row_start(d, j);
    lemma_rows_iset(d, z, n);
    let r = iset(n, |m: int| rot_lt(d, m, z));
    assert(r.len() == j);
    let lo = below_set(d, x0);
    let eq = equal_set(d, x0);
    lemma_iset_finite(n, |m: int| rot_order(d, m, x0, 0) < 0);
    lemma_iset_finite(n, |m: int| rot_order(d, m, x0, 0) == 0);
    lemma_iset_finite(n, |m: int| rot_lt(d, m, z));
    lemma_order_range(d, z, x0, 0);
    if rot_order(d, z, x0, 0) < 0 {
        assert(r.subset_of(lo.remove(z))) by {
            assert forall|m: int| r.contains(m) implies lo.remove(z).contains(m) by {
                lemma_order_range(d, m, z, 0);
                lemma_order_trans(d, m, z, x0, 0);
                lemma_lt_order(d, m, z, m);
            }
        }
        assert(lo.contains(z));
        lemma_len_subset(r, lo.remove(z));
        assert(false);
    } else if rot_order(d, z, x0, 0) > 0 {
        assert(lo.disjoint(eq));
        lemma_set_disjoint_lens(lo, eq);
        assert((lo + eq).subset_of(r)) by {
            assert forall|m: int| (lo + eq).contains(m) implies r.contains(m) by {
                lemma_order_range(d, x0, z, 0);
                lemma_order_trans(d, m, x0, z, 0);
            }
        }
        lemma_len_subset(lo + eq, r);
        assert(false);
    }
}

/// Rotations compare by their first bytes, and on equal first bytes as
/// the rotations after them.
proof fn lemma_first_byte(d: Seq<u8>, m: int, x: int)
    requires
        0 <= m < d.len(),
        0 <= x < d.len(),
    ensures
        d[m] < d[x] ==> rot_order(d, m, x, 0) < 0,
        d[m] > d[x] ==> rot_order(d, m, x, 0) > 0,
        d[m] == d[x] ==> rot_order(d, m, x, 0) == rot_order(d, (m + 1) % (d.len() as int), (x + 1) % (d.len() as int), 0),
{
    let n = d.len() as int;
    lemma_wrap(m, n);
    lemma_wrap(x, n);
    assert(rot_at(d, m, 0) == d[m]);
    assert(rot_at(d, x, 0) == d[x]);
    if d[m] == d[x] {
        lemma_shift_order(d, m, x, 0);
    }
}

/// Where `lf` steps from the row of the rotation after `x0`: into the rows
/// of the rotations equal to `x0`.
proof fn lemma_lf_value(d: Seq<u8>, x0: int)
    requires
        0 <= x0 < d.len(),
    ensures
        ({
            let n = d.len() as int;
            let j = lf(bwt_last(d), bwt_row(d, (x0 + 1) % n));
            &&& below_set(d, x0).len() <= j < below_set(d, x0).len() + equal_set(d, x0).len()
            &&& j < n
        }),
{
    let n = d.len() as int;
    let l = bwt_last(d);
    let y = (x0 + 1) % n;
    let c = d[x0];
    lemma_row_bijection(d);
    lemma_next_bijection(n);
    let i = bwt_row(d, y);
    lemma_last_byte_shift(d, x0);
    assert(l[i] == c);
    // The bytes of the column below `c`: the rotations whose first byte is below `c`.
    let pa = |m: int| d[m] < c;
    let qa = |z: int| last_byte(d, z) < c;
    let ra = |r: int| l[r] < c;
    lemma_count_below_iset(l, c as int);
    assert(iset(l.len() as int, |k: int| l[k] < c as int) =~= iset(n, ra));
    assert forall|m: int| 0 <= m < n implies (pa(m) <==> qa(#[trigger] ((m + 1) % n))) by {
        lemma_last_byte_shift(d, m);
    }
    lemma_bij_count(n, |m: int| (m + 1) % n, |z: int| (z + n - 1) % n, pa, qa);
    lemma_bij_count(n, |z: int| bwt_row(d, z), |r: int| row_start(d, r), qa, ra);
    // The copies of `c` above row `i`: the rotations after a `c` that sort before `y`.
    let pb = |m: int| d[m] == c && rot_order(d, (m + 1) % n, y, 0) < 0;
    let pc = |m: int| d[m] == c && rot_order(d, (m + 1) % n, y, 0) == 0 && (m + 1) % n < y;
    let pbc = |m: int| d[m] == c && rot_lt(d, (m + 1) % n, y);
    let qbc = |z: int| last_byte(d, z) == c && rot_lt(d, z, y);
    let rbz = |z: int| last_byte(d, z) == c && bwt_row(d, z) < i;
    let rbc = |r: int| l[r] == c && r < i;
    lemma_count_iset(l.take(i), c);
    assert(iset(i, |k: int| l.take(i)[k] == c) =~= iset(n, rbc));
    lemma_bij_count(n, |z: int| bwt_row(d, z), |r: int| row_start(d, r), rbz, rbc);
    assert(iset(n, rbz) =~= iset(n, qbc)) by {
        assert forall|z: int| 0 <= z < n implies (#[trigger] iset(n, rbz).contains(z) <==> iset(n, qbc).contains(z)) by {
            lemma_rows_distinct(d, z, y);
            lemma_rows_distinct(d, y, z);
            lemma_lt_order(d, z, y, z);
        }
    }
    assert forall|m: int| 0 <= m < n implies (pbc(m) <==> qbc(#[trigger] ((m + 1) % n))) by {
        lemma_last_byte_shift(d, m);
    }
    lemma_bij_count(n, |m: int| (m + 1) % n, |z: int| (z + n - 1) % n, pbc, qbc);
    lemma_iset_finite(n, pb);
    lemma_iset_finite(n, pc);
    lemma_iset_finite(n, pa);
    assert(iset(n, pb).disjoint(iset(n, pc)));
    lemma_set_disjoint_lens(iset(n, pb), iset(n, pc));
    assert(iset(n, pbc) =~= iset(n, pb) + iset(n, pc));
    // The rotations below `x0`: first byte below `c`, or `c` followed by a rotation below `y`.
    assert(below_set(d, x0) =~= iset(n, pa) + iset(n, pb)) by {
        assert forall|m: int| 0 <= m < n implies (#[trigger] below_set(d, x0).contains(m) <==> (pa(m) || pb(m))) by {
            lemma_first_byte(d, m, x0);
        }
    }
    assert(iset(n, pa).disjoint(iset(n, pb)));
    lemma_set_disjoint_lens(iset(n, pa), iset(n, pb));
    // The rotations equal to `x0`: `c` followed by a rotation equal to `y`.
    let pe = |m: int| d[m] == c && rot_order(d, (m + 1) % n, y, 0) == 0;
    assert(equal_set(d, x0) =~= iset(n, pe)) by {
        assert forall|m: int| 0 <= m < n implies (#[trigger] equal_set(d, x0).contains(m) <==> pe(m)) by {
            lemma_first_byte(d, m, x0);
        }
    }
    lemma_iset_finite(n, pe);
    lemma_order_range(d, y, y, 0);
    assert(iset(n, pe).contains(x0));
    assert(iset(n, pc).subset_of(iset(n, pe).remove(x0)));
    lemma_len_subset(iset(n, pc), iset(n, pe).remove(x0));
    // Both fit in the rows.
    let lo = below_set(d, x0);
    let eq = equal_set(d, x0);
    lemma_iset_finite(n, |m: int| rot_order(d, m, x0, 0) < 0);
    lemma_iset_finite(n, |m: int| rot_order(d, m, x0, 0) == 0);
    assert(lo.disjoint(eq));
    lemma_set_disjoint_lens(lo, eq);
    lemma_int_range(0, n);
    assert((lo + eq).subset_of(set_int_range(0, n)));
    lemma_len_subset(lo + eq, set_int_range(0, n));
}

/// Stepping back with `lf` from a row whose rotation equals rotation `k`
/// reaches a row whose rotation equals the one before `k`.
proof fn lemma_lf_eq(d: Seq<u8>, i: int, k: int)
    requires
        0 <= i < d.len(),
        0 <= k < d.len(),
        rot_order(d, row_start(d, i), k, 0) == 0,
    ensures
        0 <= lf(bwt_last(d), i) < d.len(),
        rot_order(d, row_start(d, lf(bwt_last(d), i)), (k + d.len() - 1) % (d.len() as int), 0) == 0,
{
    let n = d.len() as int;
    lemma_row_bijection(d);
    lemma_next_bijection(n);
    let y = row_start(d, i);
    let x0 = (y + n - 1) % n;
    assert((x0 + 1) % n == y);
    assert(bwt_row(d, y) == i);
    lemma_lf_value(d, x0);
    let j = lf(bwt_last(d), i);
    lemma_row_in_block(d, x0, j);
    let k0 = (k + n - 1) % n;
    assert((k0 + 1) % n == k);
    lemma_last_byte_shift(d, x0);
    lemma_last_byte_shift(d, k0);
    lemma_eq_bytes(d, y, k, 0, n - 1);
    assert(d[x0] == d[k0]);
    lemma_first_byte(d, x0, k0);
    lemma_eq_trans(d, row_start(d, j), x0, k0);
}

/// After `t` steps back from the row of the first rotation, the row holds
/// a rotation equal to rotation `(n - t) % n`.
proof fn lemma_walk(d: Seq<u8>, t: nat)
    requires
        t < d.len(),
        d.len() <= usize::MAX,
    ensures
        0 <= walk(bwt_last(d), bwt_primary(d) as int, t) < d.len(),
        rot_order(d, row_start(d, walk(bwt_last(d), bwt_primary(d) as int, t)), (d.len() - t) % (d.len() as int), 0) == 0,
    decreases t,
{
    let n = d.len() as int;
    let l = bwt_last(d);
    let p = bwt_primary(d) as int;
    lemma_row_bijection(d);
    if t == 0 {
        assert(p == bwt_row(d, 0));
        lemma_wrap(n, n);
        lemma_order_range(d, 0, 0, 0);
    } else {
        lemma_walk(d, (t - 1) as nat);
        let i = walk(l, p, (t - 1) as nat);
        let k = (n - (t - 1)) % n;
        lemma_wrap(n - (t - 1), n);
        lemma_lf_eq(d, i, k);
        lemma_wrap(k + n - 1, n);
        lemma_wrap(n - t, n);
        assert(walk(l, p, t) == lf(l, i));
    }
}

/// The inverse transform gives the input back: stepping back from the row
/// of the first rotation reads the input from its end, whatever repeats it
/// holds.
pub proof fn lemma_inverse_forward(d: Seq<u8>)
    requires
        d.len() <= usize::MAX,
    ensures
        spec_inverse(bwt_last(d), bwt_primary(d) as int) == d,
{
    let n = d.len() as int;
    let l = bwt_last(d);
    let p = bwt_primary(d) as int;
    let r = spec_inverse(l, p);
    if n > 0 {
        lemma_row_bijection(d);
        assert forall|j: int| 0 <= j < n implies r[j] == d[j] by {
            let t = (n - 1 - j) as nat;
            lemma_walk(d, t);
            let w = walk(l, p, t);
            let z = row_start(d, w);
            let k = (n - t) % n;
            lemma_eq_bytes(d, z, k, 0, n - 1);
            lemma_wrap(j + 1, n);
            lemma_wrap(j + n, n);
            lemma_wrap(n - 1, n);
            assert(r[j] == l[w]);
        }
    }
    assert(r =~= d);
}

} // verus!
