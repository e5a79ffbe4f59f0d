//! Splitting into words and joining back gives the bytes back.
use vstd::prelude::*;
use super::range;
use super::range_lossless;
use super::word::{
    dict_bytes, first, flag_of, group_len, group_vals, groups_bytes, is_alpha, item_bytes, read_dict, read_items, spec_decode,
    spec_encode, spec_tokenize, spec_untokenize, step, tok, word_end,
};
use crate::varint;

verus! {

/// What an item stands for with the dictionary `dict`: a word, or a byte.
pub open spec fn item_text(dict: Seq<Seq<u8>>, it: (bool, usize)) -> Seq<u8> {
    if it.0 { dict[it.1 as int] } else { seq![it.1 as u8] }
}

/// What the items from `s` up to `e` stand for, one after another.
pub open spec fn items_text(dict: Seq<Seq<u8>>, items: Seq<(bool, usize)>, s: int, e: int) -> Seq<u8>
    decreases e - s,
{
    if s >= e {
        Seq::empty()
    } else {
        item_text(dict, items[s]) + items_text(dict, items, s + 1, e)
    }
}

/// Every word item names an entry of `dict`.
pub open spec fn items_ok(dict: Seq<Seq<u8>>, items: Seq<(bool, usize)>) -> bool {
    forall|k: int| 0 <= k < items.len() && (#[trigger] items[k]).0 ==> items[k].1 < dict.len()
}

proof fn lemma_first(dict: Seq<Seq<u8>>, w: Seq<u8>, k: int)
    requires
        0 <= k,
    ensures
        first(dict, w, k) == -1 || (k <= first(dict, w, k) < dict.len() && dict[first(dict, w, k)] == w),
    decreases dict.len() - k,
{
    if k < dict.len() && dict[k] != w {
        lemma_first(dict, w, k + 1);
    }
}

proof fn lemma_word_end_past(b: Seq<u8>, i: int)
    requires
        0 <= i <= b.len(),
    ensures
        i <= word_end(b, i) <= b.len(),
        i < b.len() && is_alpha(b[i]) ==> i < word_end(b, i),
    decreases b.len() - i,
{
    if i < b.len() && is_alpha(b[i]) {
        lemma_word_end_past(b, i + 1);
    }
}

proof fn lemma_text_same(d1: Seq<Seq<u8>>, d2: Seq<Seq<u8>>, items: Seq<(bool, usize)>, s: int, e: int)
    requires
        0 <= s,
        e <= items.len(),
        items_ok(d1, items),
        d1.len() <= d2.len(),
        d2.take(d1.len() as int) == d1,
    ensures
        items_text(d1, items, s, e) == items_text(d2, items, s, e),
    decreases e - s,
{
    if s < e {
        if items[s].0 {
            assert(d2.take(d1.len() as int)[items[s].1 as int] == d2[items[s].1 as int]);
        }
        lemma_text_same(d1, d2, items, s + 1, e);
    }
}

/// Tokenizing from `i` keeps the dictionary and items so far in front,
/// and the new items stand for the rest of `b`.
proof fn lemma_tok(b: Seq<u8>, i: int, dict: Seq<Seq<u8>>, items: Seq<(bool, usize)>)
    requires
        0 <= i <= b.len(),
        dict.len() + (b.len() - i) <= usize::MAX,
        items_ok(dict, items),
        forall|k: int| 0 <= k < dict.len() ==> (#[trigger] dict[k]).len() <= b.len(),
    ensures
        ({
            let (d2, it2) = tok(b, i, dict, items);
            &&& dict.len() <= d2.len()
            &&& d2.take(dict.len() as int) == dict
            &&& items.len() <= it2.len()
            &&& it2.take(items.len() as int) == items
            &&& items_ok(d2, it2)
            &&& forall|k: int| 0 <= k < d2.len() ==> (#[trigger] d2[k]).len() <= b.len()
            &&& words_len(d2, d2.len() as int) <= words_len(dict, dict.len() as int) + (b.len() - i)
            &&& items_text(d2, it2, items.len() as int, it2.len() as int) == b.subrange(i, b.len() as int)
        }),
    decreases b.len() - i,
{
    let (d2, it2) = tok(b, i, dict, items);
    if i >= b.len() {
        assert(d2.take(dict.len() as int) =~= dict);
        assert(it2.take(items.len() as int) =~= items);
        assert(b.subrange(i, b.len() as int) =~= Seq::<u8>::empty());
    } else {
        lemma_word_end_past(b, i);
        let (dict1, items1, next): (Seq<Seq<u8>>, Seq<(bool, usize)>, int) = if is_alpha(b[i]) {
            let j = word_end(b, i);
            let w = b.subrange(i, j);
            let f = first(dict, w, 0);
            lemma_first(dict, w, 0);
            if f >= 0 {
                (dict, items.push((true, f as usize)), j)
            } else {
                (dict.push(w), items.push((true, dict.len() as usize)), j)
            }
        } else {
            (dict, items.push((false, b[i] as usize)), i + 1)
        };
        assert(tok(b, i, dict, items) == tok(b, next, dict1, items1));
        assert(items_ok(dict1, items1)) by {
            assert forall|k: int| 0 <= k < items1.len() && (#[trigger] items1[k]).0 implies items1[k].1 < dict1.len() by {
                if k < items.len() {
                    assert(items1[k] == items[k]);
                }
            }
        }
        assert(dict1.take(dict.len() as int) =~= dict);
        assert forall|k: int| 0 <= k < dict1.len() implies (#[trigger] dict1[k]).len() <= b.len() by {
            if k < dict.len() {
                assert(dict1[k] == dict[k]);
            }
        }
        super::word::lemma_tok_len(b, next, dict1, items1);
        lemma_tok(b, next, dict1, items1);
        if dict1.len() > dict.len() {
            let w = b.subrange(i, word_end(b, i));
            assert(dict1 == dict.push(w));
            lemma_words_len_same(dict, dict1, dict.len() as int);
        }
        assert(d2.take(dict.len() as int) =~= d2.take(dict1.len() as int).take(dict.len() as int));
        assert(it2.take(items.len() as int) =~= it2.take(items1.len() as int).take(items.len() as int));
        let s = items.len() as int;
        assert(it2[s] == it2.take(items1.len() as int)[s]);
        assert(it2[s] == items1[s]);
        let t1 = items_text(d2, it2, s + 1, it2.len() as int);
        assert(t1 == b.subrange(next, b.len() as int));
        let head = item_text(d2, it2[s]);
        if is_alpha(b[i]) {
            let j = word_end(b, i);
            let w = b.subrange(i, j);
            assert(d2.take(dict1.len() as int)[it2[s].1 as int] == d2[it2[s].1 as int]);
            assert(head == w);
            assert(b.subrange(i, b.len() as int) =~= w + b.subrange(j, b.len() as int));
        } else {
            assert(head =~= seq![b[i]]);
            assert(b.subrange(i, b.len() as int) =~= seq![b[i]] + b.subrange(i + 1, b.len() as int));
        }
    }
}

proof fn lemma_flag_bv(a: u8, n: u8, c: bool, j: u8)
    by (bit_vector)
    requires
        n < 8u8,
        j < 8u8,
        a >> n == 0u8,
    ensures
        n < 7u8 ==> (a | (if c { (1u8 << n) as u8 } else { 0u8 })) >> ((n + 1u8) as u8) == 0u8,
        j < n ==> ((((a | (if c { (1u8 << n) as u8 } else { 0u8 })) >> j) & 1u8 == 1u8) <==> ((a >> j) & 1u8 == 1u8)),
        (((a | (if c { (1u8 << n) as u8 } else { 0u8 })) >> n) & 1u8 == 1u8) <==> c,
{
}

/// Bit `j` of the flag byte of `m` items from `s` tells whether item `s + j`
/// is a word.
proof fn lemma_flag(items: Seq<(bool, usize)>, s: int, m: int)
    requires
        0 <= m <= 8,
        0 <= s,
        s + m <= items.len(),
    ensures
        m < 8 ==> flag_of(items, s, m) >> (m as u8) == 0,
        forall|j: int| 0 <= j < m ==> (((flag_of(items, s, m) >> (j as u8)) & 1 == 1) <==> (#[trigger] items[s + j]).0),
    decreases m,
{
    if m == 0 {
        crate::bits::lemma_zero_shift();
    } else {
        lemma_flag(items, s, m - 1);
        let a = flag_of(items, s, m - 1);
        let n = (m - 1) as u8;
        let c = items[s + m - 1].0;
        assert(flag_of(items, s, m) == a | (if c { (1u8 << n) as u8 } else { 0u8 }));
        lemma_flag_bv(a, n, c, 0);
        assert forall|j: int| 0 <= j < m implies (((flag_of(items, s, m) >> (j as u8)) & 1 == 1) <==> (#[trigger] items[s + j]).0) by {
            lemma_flag_bv(a, n, c, j as u8);
        }
    }
}

proof fn lemma_dict_prefix(dict: Seq<Seq<u8>>, i: int, n: int)
    requires
        0 <= i <= n,
    ensures
        dict_bytes(dict, i).len() <= dict_bytes(dict, n).len(),
        dict_bytes(dict, n).subrange(0, dict_bytes(dict, i).len() as int) == dict_bytes(dict, i),
    decreases n,
{
    if i < n {
        lemma_dict_prefix(dict, i, n - 1);
        let a = dict_bytes(dict, n - 1);
        let b = dict_bytes(dict, n);
        assert(b.subrange(0, a.len() as int) =~= a);
        assert(b.subrange(0, dict_bytes(dict, i).len() as int) =~= a.subrange(0, dict_bytes(dict, i).len() as int));
    } else {
        assert(dict_bytes(dict, n).subrange(0, dict_bytes(dict, n).len() as int) =~= dict_bytes(dict, n));
    }
}

/// A varint written at `p` of `d` reads back.
proof fn lemma_varint_at(d: Seq<u8>, p: int, v: usize)
    requires
        0 <= p,
        p + varint::encode(v).len() <= d.len(),
        d.subrange(p, p + varint::encode(v).len()) == varint::encode(v),
    ensures
        varint::value_at(d, p) == v,
        varint::end_at(d, p) == p + varint::encode(v).len(),
{
    let e = varint::encode(v);
    assert(d =~= d.take(p) + e + d.skip(p + e.len()));
    varint::lemma_read_write(v, d.take(p), d.skip(p + e.len()));
}

proof fn lemma_read_dict(d: Seq<u8>, at: int, dict: Seq<Seq<u8>>, j: int)
    requires
        0 <= j <= dict.len(),
        0 <= at,
        forall|k: int| 0 <= k < dict.len() ==> (#[trigger] dict[k]).len() <= usize::MAX,
        at + dict_bytes(dict, dict.len() as int).len() <= d.len(),
        d.subrange(at, at + dict_bytes(dict, dict.len() as int).len()) == dict_bytes(dict, dict.len() as int),
    ensures
        read_dict(d, at + dict_bytes(dict, j).len(), (dict.len() - j) as nat, dict.take(j))
            == (dict, at + dict_bytes(dict, dict.len() as int).len()),
    decreases dict.len() - j,
{
    let n = dict.len() as int;
    if j == n {
        assert(dict.take(j) =~= dict);
    } else {
        lemma_dict_prefix(dict, j + 1, n);
        let all = dict_bytes(dict, n);
        let bj = dict_bytes(dict, j);
        let bj1 = dict_bytes(dict, j + 1);
        let w = dict[j];
        let e = varint::encode(w.len() as usize);
        assert(bj1 == bj + e + w);
        let p = at + bj.len();
        assert forall|k: int| 0 <= k < bj1.len() implies d[at + k] == #[trigger] bj1[k] by {
            assert(all.subrange(0, bj1.len() as int)[k] == bj1[k]);
            assert(d.subrange(at, at + all.len())[k] == all[k]);
        }
        assert(d.subrange(p, p + e.len()) =~= e) by {
            assert forall|k: int| 0 <= k < e.len() implies d.subrange(p, p + e.len())[k] == e[k] by {
                assert(d[p + k] == bj1[bj.len() + k]);
            }
        }
        lemma_varint_at(d, p, w.len() as usize);
        let q = p + e.len();
        assert(d.subrange(q, q + w.len()) =~= w) by {
            assert forall|k: int| 0 <= k < w.len() implies d.subrange(q, q + w.len())[k] == w[k] by {
                assert(d[q + k] == bj1[bj.len() + e.len() + k]);
            }
        }
        assert(dict.take(j).push(w) =~= dict.take(j + 1));
        lemma_read_dict(d, at, dict, j + 1);
    }
}

proof fn lemma_groups_prefix(items: Seq<(bool, usize)>, i: int, n: int)
    requires
        0 <= i <= n,
    ensures
        groups_bytes(items, i).len() <= groups_bytes(items, n).len(),
        groups_bytes(items, n).subrange(0, groups_bytes(items, i).len() as int) == groups_bytes(items, i),
    decreases n,
{
    if i < n {
        lemma_groups_prefix(items, i, n - 1);
        let a = groups_bytes(items, n - 1);
        let b = groups_bytes(items, n);
        assert(b.subrange(0, a.len() as int) =~= a);
        assert(b.subrange(0, groups_bytes(items, i).len() as int) =~= a.subrange(0, groups_bytes(items, i).len() as int));
    } else {
        assert(groups_bytes(items, n).subrange(0, groups_bytes(items, n).len() as int) =~= groups_bytes(items, n));
    }
}

/// Reading the items of one group from item `bb` of it on.
proof fn lemma_group_items(d: Seq<u8>, dict: Seq<Seq<u8>>, items: Seq<(bool, usize)>, gp: int, s: int, m: int, bb: int, k: nat, out: Seq<u8>)
    requires
        0 <= s,
        0 <= bb <= m <= 8,
        s + m <= items.len(),
        m - bb <= k,
        0 <= gp,
        items_ok(dict, items),
        gp + 1 + group_vals(items, s, m).len() <= d.len(),
        d.subrange(gp, gp + 1 + group_vals(items, s, m).len()) == seq![flag_of(items, s, m)] + group_vals(items, s, m),
        forall|j: int| 0 <= j < m ==> (((flag_of(items, s, m) >> (j as u8)) & 1 == 1) <==> (#[trigger] items[s + j]).0),
    ensures
        read_items(d, dict, gp + 1 + group_vals(items, s, bb).len(), k, flag_of(items, s, m), bb as u8, out)
            == read_items(d, dict, gp + 1 + group_vals(items, s, m).len(), (k - (m - bb)) as nat, flag_of(items, s, m), m as u8,
                out + items_text(dict, items, s + bb, s + m)),
    decreases m - bb,
{
    let f = flag_of(items, s, m);
    if bb == m {
        assert(out + items_text(dict, items, s + bb, s + m) =~= out);
    } else {
        lemma_gv_prefix(items, s, bb + 1, m);
        let gv = group_vals(items, s, m);
        let gb = group_vals(items, s, bb);
        let gb1 = group_vals(items, s, bb + 1);
        let it = items[s + bb];
        let ib = item_bytes(it);
        assert(gb1 == gb + ib);
        let p = gp + 1 + gb.len();
        assert forall|t: int| 0 <= t < ib.len() implies d[p + t] == #[trigger] ib[t] by {
            assert(gv.subrange(0, gb1.len() as int)[gb.len() + t] == gb1[gb.len() + t]);
            assert(d.subrange(gp, gp + 1 + gv.len())[1 + gb.len() + t] == (seq![f] + gv)[1 + gb.len() + t]);
        }
        assert(((f >> (bb as u8)) & 1 == 1) <==> it.0);
        if it.0 {
            let e = varint::encode(it.1);
            assert(d.subrange(p, p + e.len()) =~= e) by {
                assert forall|t: int| 0 <= t < e.len() implies d.subrange(p, p + e.len())[t] == e[t] by {
                    assert(d[p + t] == ib[t]);
                }
            }
            lemma_varint_at(d, p, it.1);
            assert(read_items(d, dict, p, k, f, bb as u8, out)
                == read_items(d, dict, p + e.len(), (k - 1) as nat, f, (bb + 1) as u8, out + dict[it.1 as int]));
        } else {
            assert(d[p] == ib[0]);
            assert(read_items(d, dict, p, k, f, bb as u8, out)
                == read_items(d, dict, p + 1, (k - 1) as nat, f, (bb + 1) as u8, out.push(d[p])));
            assert(out.push(d[p]) =~= out + item_text(dict, it));
        }
        lemma_group_items(d, dict, items, gp, s, m, bb + 1, (k - 1) as nat, out + item_text(dict, it));
        assert(out + item_text(dict, it) + items_text(dict, items, s + bb + 1, s + m) =~= out + items_text(dict, items, s + bb, s + m));
    }
}

proof fn lemma_gv_prefix(items: Seq<(bool, usize)>, s: int, i: int, n: int)
    requires
        0 <= i <= n,
    ensures
        group_vals(items, s, i).len() <= group_vals(items, s, n).len(),
        group_vals(items, s, n).subrange(0, group_vals(items, s, i).len() as int) == group_vals(items, s, i),
    decreases n,
{
    if i < n {
        lemma_gv_prefix(items, s, i, n - 1);
        let a = group_vals(items, s, n - 1);
        let b = group_vals(items, s, n);
        assert(b.subrange(0, a.len() as int) =~= a);
        assert(b.subrange(0, group_vals(items, s, i).len() as int) =~= a.subrange(0, group_vals(items, s, i).len() as int));
    } else {
        assert(group_vals(items, s, n).subrange(0, group_vals(items, s, n).len() as int) =~= group_vals(items, s, n));
    }
}

/// Reading the items group by group from group `g` on.
proof fn lemma_groups(d: Seq<u8>, dict: Seq<Seq<u8>>, items: Seq<(bool, usize)>, base: int, g: int, flag: u8, out: Seq<u8>)
    requires
        0 <= g,
        8 * g <= items.len() + 7,
        0 <= base,
        items_ok(dict, items),
        base + groups_bytes(items, ((items.len() + 7) / 8) as int).len() <= d.len(),
        d.subrange(base, base + groups_bytes(items, ((items.len() + 7) / 8) as int).len()) == groups_bytes(items, ((items.len() + 7) / 8) as int),
    ensures
        read_items(d, dict, base + groups_bytes(items, g).len(), (if 8 * g < items.len() { items.len() - 8 * g } else { 0 }) as nat, flag, 8, out)
            == out + items_text(dict, items, if 8 * g < items.len() { 8 * g } else { items.len() as int }, items.len() as int),
    decreases items.len() + 8 - 8 * g,
{
    let n = items.len() as int;
    let ng = (n + 7) / 8;
    if 8 * g >= n {
        assert(out + items_text(dict, items, n, n) =~= out);
    } else {
        let s = 8 * g;
        let m = group_len(n, g);
        assert(g < ng);
        lemma_groups_prefix(items, g + 1, ng);
        let all = groups_bytes(items, ng);
        let g0 = groups_bytes(items, g);
        let g1 = groups_bytes(items, g + 1);
        let f = flag_of(items, s, m);
        let gv = group_vals(items, s, m);
        assert(g1 == g0 + seq![f] + gv);
        let gp = base + g0.len();
        assert(d.subrange(gp, gp + 1 + gv.len()) =~= seq![f] + gv) by {
            assert forall|t: int| 0 <= t < 1 + gv.len() implies d.subrange(gp, gp + 1 + gv.len())[t] == (seq![f] + gv)[t] by {
                assert(all.subrange(0, g1.len() as int)[g0.len() + t] == g1[g0.len() + t]);
                assert(d.subrange(base, base + all.len())[g0.len() + t] == all[g0.len() + t]);
            }
        }
        assert(d.subrange(gp, gp + 1 + gv.len())[0] == f);
        assert(d[gp] == f);
        lemma_flag(items, s, m);
        let k = (n - s) as nat;
        assert(read_items(d, dict, gp, k, flag, 8, out) == read_items(d, dict, gp + 1, k, f, 0, out)) by {
            assert(step(d, gp) == gp + 1);
        }
        assert(group_vals(items, s, 0) == Seq::<u8>::empty());
        lemma_group_items(d, dict, items, gp, s, m, 0, k, out);
        let out1 = out + items_text(dict, items, s, s + m);
        if m == 8 {
            lemma_groups(d, dict, items, base, g + 1, f, out1);
            assert(base + g1.len() == gp + 1 + gv.len());
            lemma_text_split(dict, items, s, s + m, n);
            assert(out1 + items_text(dict, items, s + m, n) =~= out + items_text(dict, items, s, n));
        } else {
            assert(s + m == n);
        }
    }
}

proof fn lemma_text_split(dict: Seq<Seq<u8>>, items: Seq<(bool, usize)>, a: int, b: int, c: int)
    requires
        a <= b <= c,
    ensures
        items_text(dict, items, a, c) == items_text(dict, items, a, b) + items_text(dict, items, b, c),
    decreases b - a,
{
    if a < b {
        lemma_text_split(dict, items, a + 1, b, c);
        assert(items_text(dict, items, a, c) =~= items_text(dict, items, a, b) + items_text(dict, items, b, c));
    } else {
        assert(items_text(dict, items, a, c) =~= Seq::<u8>::empty() + items_text(dict, items, b, c));
    }
}

/// The total length of the first `k` dictionary words.
pub open spec fn words_len(dict: Seq<Seq<u8>>, k: int) -> int
    decreases k,
{
    if k <= 0 { 0 } else { words_len(dict, k - 1) + dict[k - 1].len() }
}

proof fn lemma_words_len_same(d1: Seq<Seq<u8>>, d2: Seq<Seq<u8>>, k: int)
    requires
        0 <= k <= d1.len(),
        k <= d2.len(),
        forall|i: int| 0 <= i < k ==> d1[i] == d2[i],
    ensures
        words_len(d1, k) == words_len(d2, k),
    decreases k,
{
    if k > 0 {
        lemma_words_len_same(d1, d2, k - 1);
    }
}

/// 128 to the power `m`.
pub open spec fn pow128(m: nat) -> int
    decreases m,
{
    if m == 0 { 1 } else { 128 * pow128((m - 1) as nat) }
}

proof fn lemma_varint_len_below(v: usize, m: nat)
    requires
        m >= 1,
        (v as int) < pow128(m),
    ensures
        varint::encode(v).len() <= m,
    decreases m,
{
    if v >= 0x80 {
        if m == 1 {
            assert(pow128(1) == 128 * pow128(0));
        }
        vstd::arithmetic::power2::lemma2_to64();
        vstd::bits::lemma_usize_shr_is_div(v, 7);
        let p = pow128((m - 1) as nat);
        assert((v as int) / 128 < p) by (nonlinear_arith)
            requires
                (v as int) < 128 * p,
        ;
        lemma_varint_len_below(v >> 7, (m - 1) as nat);
    }
}

/// A varint of a `usize` takes at most ten bytes.
proof fn lemma_varint_len(v: usize)
    ensures
        varint::encode(v).len() <= 10,
{
    assert(pow128(10) == 0x40_0000_0000_0000_0000int) by {
        reveal_with_fuel(pow128, 11);
    }
    lemma_varint_len_below(v, 10);
}

proof fn lemma_dict_bytes_len(dict: Seq<Seq<u8>>, k: int)
    requires
        0 <= k <= dict.len(),
        forall|i: int| 0 <= i < dict.len() ==> (#[trigger] dict[i]).len() <= usize::MAX,
    ensures
        dict_bytes(dict, k).len() <= 10 * k + words_len(dict, k),
    decreases k,
{
    if k > 0 {
        lemma_dict_bytes_len(dict, k - 1);
        lemma_varint_len(dict[k - 1].len() as usize);
    }
}

proof fn lemma_group_vals_len(items: Seq<(bool, usize)>, s: int, k: int)
    ensures
        group_vals(items, s, k).len() <= 10 * (if k > 0 { k } else { 0 }),
    decreases k,
{
    if k > 0 {
        lemma_group_vals_len(items, s, k - 1);
        lemma_varint_len(items[s + k - 1].1);
    }
}

proof fn lemma_groups_len(items: Seq<(bool, usize)>, g: int)
    requires
        0 <= g,
    ensures
        groups_bytes(items, g).len() <= 81 * g,
    decreases g,
{
    if g > 0 {
        lemma_groups_len(items, g - 1);
        let m = group_len(items.len() as int, g - 1);
        lemma_group_vals_len(items, 8 * (g - 1), m);
    }
}

/// The tokens of a short enough input fit a `usize` length.
proof fn lemma_tokenize_len(b: Seq<u8>)
    requires
        b.len() <= usize::MAX / 64,
    ensures
        spec_tokenize(b).len() <= usize::MAX,
{
    let (dict, items) = tok(b, 0, Seq::empty(), Seq::empty());
    lemma_tok(b, 0, Seq::empty(), Seq::empty());
    super::word::lemma_tok_len(b, 0, Seq::empty(), Seq::empty());
    let nd = dict.len() as int;
    let ni = items.len() as int;
    let ng = (ni + 7) / 8;
    lemma_varint_len(nd as usize);
    lemma_varint_len(ni as usize);
    lemma_dict_bytes_len(dict, nd);
    lemma_groups_len(items, ng);
    let n = b.len() as int;
    assert(81 * ng <= 11 * n + 81) by (nonlinear_arith)
        requires
            ng == (ni + 7) / 8,
            0 <= ni <= n,
    ;
}

/// Joining the tokens of `b` back gives `b`.
pub proof fn lemma_untokenize_tokenize(b: Seq<u8>)
    requires
        b.len() <= usize::MAX / 2,
    ensures
        spec_untokenize(spec_tokenize(b)) == b,
{
    let (dict, items) = tok(b, 0, Seq::empty(), Seq::empty());
    lemma_tok(b, 0, Seq::empty(), Seq::empty());
    super::word::lemma_tok_len(b, 0, Seq::empty(), Seq::empty());
    let nd = dict.len() as usize;
    let ni = items.len() as usize;
    let ng = (items.len() + 7) / 8;
    let e1 = varint::encode(nd);
    let db = dict_bytes(dict, dict.len() as int);
    let e2 = varint::encode(ni);
    let gb = groups_bytes(items, ng as int);
    let d = spec_tokenize(b);
    assert(d == e1 + db + e2 + gb);
    assert(d.subrange(0, e1.len() as int) =~= e1);
    lemma_varint_at(d, 0, nd);
    let at = e1.len() as int;
    assert(d.subrange(at, at + db.len()) =~= db);
    assert(dict.take(0) =~= Seq::<Seq<u8>>::empty());
    lemma_read_dict(d, at, dict, 0);
    let p = at + db.len();
    assert(d.subrange(p, p + e2.len()) =~= e2);
    lemma_varint_at(d, p, ni);
    let base = p + e2.len();
    assert(d.subrange(base, base + gb.len()) =~= gb);
    assert(groups_bytes(items, 0) == Seq::<u8>::empty());
    lemma_groups(d, dict, items, base, 0, 0, Seq::empty());
    assert(Seq::<u8>::empty() + items_text(dict, items, 0, items.len() as int) =~= b.subrange(0, b.len() as int));
    assert(b.subrange(0, b.len() as int) =~= b);
}

/// Decoding what `encode` writes for `b` gives `b` back.
pub proof fn lemma_decode_encode(b: Seq<u8>)
    requires
        b.len() <= usize::MAX / 64,
    ensures
        spec_decode(spec_encode(b)) == b,
{
    lemma_tokenize_len(b);
    let t = spec_tokenize(b);
    let d = spec_encode(b);
    varint::lemma_read_write(t.len() as usize, Seq::empty(), range::spec_encode(t));
    assert(d =~= Seq::<u8>::empty() + varint::encode(t.len() as usize) + range::spec_encode(t));
    assert(d.skip(varint::encode(t.len() as usize).len() as int) =~= range::spec_encode(t));
    range_lossless::lemma_decode_encode(t);
    lemma_untokenize_tokenize(b);
}

} // verus!
