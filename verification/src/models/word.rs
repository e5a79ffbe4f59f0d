//! A word dictionary: runs of ASCII letters become indices into a list of
//! the distinct words, in order of first appearance; other bytes stay.
use vstd::prelude::*;
use super::range;
use super::transpose::views;
use crate::slices;
use crate::varint;

verus! {

/// An ASCII letter.
pub open spec fn is_alpha(c: u8) -> bool {
    (65 <= c <= 90) || (97 <= c <= 122)
}

fn is_alpha_byte(c: u8) -> (r: bool)
    ensures
        r == is_alpha(c),
{
    (65 <= c && c <= 90) || (97 <= c && c <= 122)
}

/// The end of the run of letters that starts at `i`.
pub open spec fn word_end(b: Seq<u8>, i: int) -> int
    decreases b.len() - i,
{
    if 0 <= i < b.len() && is_alpha(b[i]) {
        word_end(b, i + 1)
    } else {
        i
    }
}

/// The first index at or after `k` where `dict` holds `w`, or -1.
pub open spec fn first(dict: Seq<Seq<u8>>, w: Seq<u8>, k: int) -> int
    decreases dict.len() - k,
{
    if k < 0 || k >= dict.len() {
        -1
    } else if dict[k] == w {
        k
    } else {
        first(dict, w, k + 1)
    }
}

/// Tokenizing from `i` with the dictionary and items so far: a word is
/// looked up (and added when new), any other byte is an item of its own.
pub open spec fn tok(b: Seq<u8>, i: int, dict: Seq<Seq<u8>>, items: Seq<(bool, usize)>) -> (Seq<Seq<u8>>, Seq<(bool, usize)>)
    decreases b.len() - i,
{
    if i < 0 || i >= b.len() {
        (dict, items)
    } else if is_alpha(b[i]) {
        let j = word_end(b, i);
        if j <= i || j > b.len() {
            (dict, items)
        } else {
            let w = b.subrange(i, j);
            let f = first(dict, w, 0);
            if f >= 0 {
                tok(b, j, dict, items.push((true, f as usize)))
            } else {
                tok(b, j, dict.push(w), items.push((true, dict.len() as usize)))
            }
        }
    } else {
        tok(b, i + 1, dict, items.push((false, b[i] as usize)))
    }
}

/// Each of the first `k` words: its length, then its bytes.
pub open spec fn dict_bytes(dict: Seq<Seq<u8>>, k: int) -> Seq<u8>
    decreases k,
{
    if k <= 0 {
        Seq::empty()
    } else {
        dict_bytes(dict, k - 1) + varint::encode(dict[k - 1].len() as usize) + dict[k - 1]
    }
}

/// The flag byte of the `k` items from `s`: bit `j` set when item `s + j`
/// is a word.
pub open spec fn flag_of(items: Seq<(bool, usize)>, s: int, k: int) -> u8
    decreases k,
{
    if k <= 0 {
        0
    } else {
        flag_of(items, s, k - 1) | (if items[s + k - 1].0 { (1u8 << ((k - 1) as u8)) as u8 } else { 0u8 })
    }
}

/// An item's bytes: a word's index as a varint, or the byte itself.
pub open spec fn item_bytes(it: (bool, usize)) -> Seq<u8> {
    if it.0 { varint::encode(it.1) } else { seq![it.1 as u8] }
}

/// The bytes of the `k` items from `s`.
pub open spec fn group_vals(items: Seq<(bool, usize)>, s: int, k: int) -> Seq<u8>
    decreases k,
{
    if k <= 0 {
        Seq::empty()
    } else {
        group_vals(items, s, k - 1) + item_bytes(items[s + k - 1])
    }
}

/// The size of group `g`: eight items, fewer for the last.
pub open spec fn group_len(n: int, g: int) -> int {
    if n - 8 * g < 8 { n - 8 * g } else { 8 }
}

/// The first `g` groups of eight items: a flag byte, then the items.
pub open spec fn groups_bytes(items: Seq<(bool, usize)>, g: int) -> Seq<u8>
    decreases g,
{
    if g <= 0 {
        Seq::empty()
    } else {
        let s = 8 * (g - 1);
        let m = group_len(items.len() as int, g - 1);
        groups_bytes(items, g - 1) + seq![flag_of(items, s, m)] + group_vals(items, s, m)
    }
}

/// What `tokenize` writes: the dictionary, then the items in groups.
pub open spec fn spec_tokenize(b: Seq<u8>) -> Seq<u8> {
    let (dict, items) = tok(b, 0, Seq::empty(), Seq::empty());
    let ng = (items.len() + 7) / 8;
    varint::encode(dict.len() as usize) + dict_bytes(dict, dict.len() as int) + varint::encode(items.len() as usize) + groups_bytes(items, ng as int)
}

proof fn lemma_word_end(b: Seq<u8>, i: int)
    requires
        0 <= i <= b.len(),
    ensures
        i <= word_end(b, i) <= b.len(),
    decreases b.len() - i,
{
    if i < b.len() && is_alpha(b[i]) {
        lemma_word_end(b, i + 1);
    }
}

pub proof fn lemma_tok_len(b: Seq<u8>, i: int, dict: Seq<Seq<u8>>, items: Seq<(bool, usize)>)
    requires
        0 <= i <= b.len(),
    ensures
        tok(b, i, dict, items).0.len() <= dict.len() + b.len() - i,
        tok(b, i, dict, items).1.len() <= items.len() + b.len() - i,
    decreases b.len() - i,
{
    if i < b.len() {
        if is_alpha(b[i]) {
            lemma_word_end(b, i);
            let j = word_end(b, i);
            if j > i && j <= b.len() {
                let w = b.subrange(i, j);
                if first(dict, w, 0) >= 0 {
                    lemma_tok_len(b, j, dict, items.push((true, first(dict, w, 0) as usize)));
                } else {
                    lemma_tok_len(b, j, dict.push(w), items.push((true, dict.len() as usize)));
                }
            }
        } else {
            lemma_tok_len(b, i + 1, dict, items.push((false, b[i] as usize)));
        }
    }
}

fn find_word(dict: &Vec<Vec<u8>>, w: &[u8]) -> (r: Option<usize>)
    ensures
        match r {
            Some(k) => first(views(dict@), w@, 0) == k as int,
            None => first(views(dict@), w@, 0) == -1,
        },
{
    let ghost dv = views(dict@);
    let mut k: usize = 0;
    while k < dict.len()
        invariant
            k <= dict@.len(),
            dv == views(dict@),
            first(dv, w@, 0) == first(dv, w@, k as int),
        decreases dict.len() - k,
    {
        if slices::equal(dict[k].as_slice(), w) {
            assert(dv[k as int] == dict@[k as int]@);
            return Some(k);
        }
        assert(dv[k as int] != w@);
        k = k + 1;
    }
    None
}

fn tokenize(bytes: &[u8]) -> (out: Vec<u8>)
    ensures
        out@ == spec_tokenize(bytes@),
{
    let ghost b = bytes@;
    let n = bytes.len();
    let mut dict: Vec<Vec<u8>> = Vec::new();
    let mut items: Vec<(bool, usize)> = Vec::new();
    let ghost full = tok(b, 0, Seq::empty(), Seq::empty());
    let mut i: usize = 0;
    proof {
        lemma_tok_len(b, 0, Seq::empty(), Seq::empty());
        assert(views(dict@) =~= Seq::<Seq<u8>>::empty());
    }
    while i < n
        invariant
            b == bytes@,
            n == b.len(),
            i <= n,
            full == tok(b, i as int, views(dict@), items@),
            dict@.len() <= i,
            items@.len() <= i,
        decreases n - i,
    {
        if is_alpha_byte(bytes[i]) {
            let start = i;
            proof {
                lemma_word_end(b, i as int);
            }
            while i < n && is_alpha_byte(bytes[i])
                invariant
                    b == bytes@,
                    n == b.len(),
                    start <= i <= n,
                    word_end(b, start as int) == word_end(b, i as int),
                decreases n - i,
            {
                i = i + 1;
            }
            let w = &bytes[start..i];
            match find_word(&dict, w) {
                Some(id) => {
                    items.push((true, id));
                },
                None => {
                    let id = dict.len();
                    let ghost d0 = views(dict@);
                    dict.push(slices::copy(w));
                    assert(views(dict@) =~= d0.push(w@));
                    items.push((true, id));
                },
            }
        } else {
            items.push((false, bytes[i] as usize));
            i = i + 1;
        }
    }
    let ghost dv = views(dict@);
    let ghost it = items@;
    assert(full == (dv, it));
    let mut out: Vec<u8> = Vec::new();
    varint::write(&mut out, dict.len());
    let ghost h0 = out@;
    let mut k: usize = 0;
    while k < dict.len()
        invariant
            k <= dict@.len(),
            dv == views(dict@),
            out@ == h0 + dict_bytes(dv, k as int),
        decreases dict.len() - k,
    {
        assert(dv[k as int] == dict@[k as int]@);
        varint::write(&mut out, dict[k].len());
        slices::append(&mut out, dict[k].as_slice());
        k = k + 1;
        assert(out@ =~= h0 + dict_bytes(dv, k as int));
    }
    varint::write(&mut out, items.len());
    let ghost h1 = out@;
    let ni = items.len();
    let ng = ni / 8 + if ni % 8 != 0 { 1 } else { 0 };
    assert(ng == (ni + 7) / 8);
    let mut g: usize = 0;
    while g < ng
        invariant
            it == items@,
            ni == it.len(),
            ng == (ni + 7) / 8,
            g <= ng,
            out@ == h1 + groups_bytes(it, g as int),
        decreases ng - g,
    {
        assert(8 * g < ni) by (nonlinear_arith)
            requires
                g < ng,
                ng == (ni + 7) / 8,
        ;
        let s = g * 8;
        let m = if ni - s < 8 { ni - s } else { 8 };
        let mut flag: u8 = 0;
        let mut k: usize = 0;
        while k < m
            invariant
                k <= m <= 8,
                s + m <= ni,
                it == items@,
                ni == it.len(),
                flag == flag_of(it, s as int, k as int),
            decreases m - k,
        {
            let ghost f0 = flag;
            if items[s + k].0 {
                flag = flag | (1u8 << (k as u8));
            } else {
                assert(f0 | 0u8 == f0) by (bit_vector);
            }
            k = k + 1;
        }
        out.push(flag);
        let ghost h2 = out@;
        let mut k: usize = 0;
        while k < m
            invariant
                k <= m <= 8,
                s + m <= ni,
                it == items@,
                ni == it.len(),
                out@ == h2 + group_vals(it, s as int, k as int),
            decreases m - k,
        {
            let (is_word, v) = items[s + k];
            if is_word {
                varint::write(&mut out, v);
            } else {
                out.push(v as u8);
            }
            k = k + 1;
            assert(out@ =~= h2 + group_vals(it, s as int, k as int));
        }
        g = g + 1;
        assert(group_len(ni as int, g - 1) == m);
        assert(out@ =~= h1 + groups_bytes(it, g as int));
    }
    out
}

/// Reading `k` dictionary entries at `p`: each a length, then that many
/// bytes (cut at the end of `d`). Gives the words and where they end.
pub open spec fn read_dict(d: Seq<u8>, p: int, k: nat, dict: Seq<Seq<u8>>) -> (Seq<Seq<u8>>, int)
    decreases k,
{
    if k == 0 {
        (dict, p)
    } else {
        let len = varint::value_at(d, p);
        let q = varint::end_at(d, p);
        let end = if q >= d.len() { q } else if len > d.len() - q { d.len() as int } else { q + len };
        read_dict(d, end, (k - 1) as nat, dict.push(d.subrange(q, end)))
    }
}

/// One step past `pos`, but not past the end of `d`.
pub open spec fn step(d: Seq<u8>, pos: int) -> int {
    if pos < d.len() { pos + 1 } else { pos }
}

/// Reading `k` more items at `pos`, where `bit` flags of the byte `flag`
/// have been used: a new flag byte every eight items (0 past the end); a
/// word item is a varint index (an unknown index adds nothing), any other
/// item one byte.
pub open spec fn read_items(d: Seq<u8>, dict: Seq<Seq<u8>>, pos: int, k: nat, flag: u8, bit: u8, out: Seq<u8>) -> Seq<u8>
    decreases k,
{
    if k == 0 {
        out
    } else {
        let (f, b, p) = if bit >= 8 {
            (if 0 <= pos < d.len() { d[pos] } else { 0u8 }, 0u8, step(d, pos))
        } else {
            (flag, bit, pos)
        };
        let is_word = (f >> b) & 1 == 1;
        if is_word {
            let id = varint::value_at(d, p);
            let q = varint::end_at(d, p);
            let o2 = if id < dict.len() { out + dict[id as int] } else { out };
            read_items(d, dict, q, (k - 1) as nat, f, (b + 1) as u8, o2)
        } else if 0 <= p < d.len() {
            read_items(d, dict, p + 1, (k - 1) as nat, f, (b + 1) as u8, out.push(d[p]))
        } else {
            read_items(d, dict, p, (k - 1) as nat, f, (b + 1) as u8, out)
        }
    }
}

/// What `untokenize` rebuilds from `d`.
pub open spec fn spec_untokenize(d: Seq<u8>) -> Seq<u8> {
    let nw = varint::value_at(d, 0);
    let (dict, p) = read_dict(d, varint::end_at(d, 0), nw as nat, Seq::empty());
    let ni = varint::value_at(d, p);
    read_items(d, dict, varint::end_at(d, p), ni as nat, 0, 8, Seq::empty())
}

fn untokenize(data: &[u8]) -> (out: Vec<u8>)
    ensures
        out@ == spec_untokenize(data@),
{
    let ghost d = data@;
    let mut pos: usize = 0;
    let n_words = varint::read(data, &mut pos);
    proof {
        varint::lemma_end_bounds(d, 0, 0);
    }
    let ghost p0 = pos as int;
    let mut dict: Vec<Vec<u8>> = Vec::new();
    let mut k: usize = 0;
    assert(views(dict@) =~= Seq::<Seq<u8>>::empty());
    while k < n_words
        invariant
            d == data@,
            k <= n_words,
            pos <= d.len(),
            read_dict(d, p0, n_words as nat, Seq::empty()) == read_dict(d, pos as int, (n_words - k) as nat, views(dict@)),
        decreases n_words - k,
    {
        let ghost q0 = pos as int;
        let len = varint::read(data, &mut pos);
        proof {
            varint::lemma_end_bounds(d, q0, 0);
        }
        let end = if pos >= data.len() { pos } else if len > data.len() - pos { data.len() } else { pos + len };
        let ghost v0 = views(dict@);
        dict.push(slices::copy(&data[pos..end]));
        assert(views(dict@) =~= v0.push(d.subrange(pos as int, end as int)));
        pos = end;
        k = k + 1;
    }
    let ghost dv = views(dict@);
    let ghost q1 = pos as int;
    let n_items = varint::read(data, &mut pos);
    proof {
        varint::lemma_end_bounds(d, q1, 0);
    }
    let mut out: Vec<u8> = Vec::new();
    let mut flag: u8 = 0;
    let mut bit: u8 = 8;
    let mut k: usize = 0;
    while k < n_items
        invariant
            d == data@,
            dv == views(dict@),
            k <= n_items,
            pos <= d.len(),
            bit <= 8,
            spec_untokenize(d) == read_items(d, dv, pos as int, (n_items - k) as nat, flag, bit, out@),
        decreases n_items - k,
    {
        if bit == 8 {
            flag = if pos < data.len() { data[pos] } else { 0 };
            if pos < data.len() {
                pos = pos + 1;
            }
            bit = 0;
        }
        let is_word = (flag >> bit) & 1 == 1;
        bit = bit + 1;
        if is_word {
            let ghost q = pos as int;
            let id = varint::read(data, &mut pos);
            proof {
                varint::lemma_end_bounds(d, q, 0);
            }
            if id < dict.len() {
                assert(dv[id as int] == dict@[id as int]@);
                slices::append(&mut out, dict[id].as_slice());
            }
        } else if pos < data.len() {
            out.push(data[pos]);
            pos = pos + 1;
        }
        k = k + 1;
    }
    out
}

/// What `encode` writes: the length of the tokenized form, then its range
/// coding.
pub open spec fn spec_encode(b: Seq<u8>) -> Seq<u8> {
    let t = spec_tokenize(b);
    varint::encode(t.len() as usize) + range::spec_encode(t)
}

/// What `decode` rebuilds.
pub open spec fn spec_decode(d: Seq<u8>) -> Seq<u8> {
    let n = varint::value_at(d, 0);
    spec_untokenize(range::spec_decode(d.skip(varint::end_at(d, 0)), n as nat))
}

/// Replaces words by dictionary indices and range codes the result.
pub fn encode(bytes: &[u8]) -> (out: Vec<u8>)
    ensures
        out@ == spec_encode(bytes@),
{
    let t = tokenize(bytes);
    let mut out: Vec<u8> = Vec::new();
    varint::write(&mut out, t.len());
    let coded = range::encode(t.as_slice());
    slices::append(&mut out, coded.as_slice());
    out
}

/// Decodes what `encode` wrote; the original length is not needed.
pub fn decode(data: &[u8], _orig_len: usize) -> (out: Vec<u8>)
    ensures
        out@ == spec_decode(data@),
{
    let mut pos: usize = 0;
    let t_len = varint::read(data, &mut pos);
    proof {
        varint::lemma_end_bounds(data@, 0, 0);
    }
    let rest = &data[pos..data.len()];
    assert(rest@ =~= data@.skip(pos as int));
    let t = range::decode(rest, t_len);
    untokenize(t.as_slice())
}

} // verus!
