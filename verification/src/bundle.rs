//! A directory as one stream: the number of files, each path and length,
//! then every file's bytes one after another.
use vstd::prelude::*;
use vstd::utf8::{decode_utf8, encode_utf8};
use crate::slices;
use crate::text::{lossy_string, text_of, utf8_bytes};
use crate::varint;
use crate::biglz;
use crate::models::lz;

verus! {

/// The paths and contents of `files`.
pub open spec fn files_view(files: Seq<(String, Vec<u8>)>) -> Seq<(Seq<char>, Seq<u8>)> {
    files.map_values(|f: (String, Vec<u8>)| (f.0@, f.1@))
}

/// The path and length records of the first `k` files.
pub open spec fn meta_bytes(f: Seq<(Seq<char>, Seq<u8>)>, k: int) -> Seq<u8>
    decreases k,
{
    if k <= 0 {
        Seq::empty()
    } else {
        let p = encode_utf8(f[k - 1].0);
        meta_bytes(f, k - 1) + varint::encode(p.len() as usize) + p + varint::encode(f[k - 1].1.len() as usize)
    }
}

/// The contents of the first `k` files, one after another.
pub open spec fn data_bytes(f: Seq<(Seq<char>, Seq<u8>)>, k: int) -> Seq<u8>
    decreases k,
{
    if k <= 0 {
        Seq::empty()
    } else {
        data_bytes(f, k - 1) + f[k - 1].1
    }
}

/// What `pack` writes for the files `f`.
pub open spec fn spec_pack(f: Seq<(Seq<char>, Seq<u8>)>) -> Seq<u8> {
    varint::encode(f.len() as usize) + meta_bytes(f, f.len() as int) + data_bytes(f, f.len() as int)
}

/// Bundles `files` into one stream.
pub fn pack(files: &[(String, Vec<u8>)]) -> (out: Vec<u8>)
    ensures
        out@ == spec_pack(files_view(files@)),
{
    let ghost f = files_view(files@);
    let mut out: Vec<u8> = Vec::new();
    varint::write(&mut out, files.len());
    let ghost h = out@;
    let mut i: usize = 0;
    while i < files.len()
        invariant
            i <= files@.len(),
            f == files_view(files@),
            out@ == h + meta_bytes(f, i as int),
        decreases files.len() - i,
    {
        let p = utf8_bytes(&files[i].0);
        varint::write(&mut out, p.len());
        slices::append(&mut out, p);
        varint::write(&mut out, files[i].1.len());
        i = i + 1;
        assert(out@ =~= h + meta_bytes(f, i as int));
    }
    let ghost h2 = out@;
    let mut i: usize = 0;
    while i < files.len()
        invariant
            i <= files@.len(),
            f == files_view(files@),
            out@ == h2 + data_bytes(f, i as int),
        decreases files.len() - i,
    {
        slices::append(&mut out, files[i].1.as_slice());
        i = i + 1;
        assert(out@ =~= h2 + data_bytes(f, i as int));
    }
    out
}

/// Where `n` bytes from `p` end: cut at the end of `b`.
pub open spec fn cut(b: Seq<u8>, p: int, n: usize) -> int {
    if p >= b.len() { p } else if n > b.len() - p { b.len() as int } else { p + n }
}

/// Reading `k` path and length records at `pos`: the paths (as
/// `lossy_string` turns their bytes into text) and lengths, and where they
/// end.
pub open spec fn read_meta(b: Seq<u8>, pos: int, k: nat, acc: Seq<(Seq<char>, usize)>) -> (Seq<(Seq<char>, usize)>, int)
    decreases k,
{
    if k == 0 {
        (acc, pos)
    } else {
        let plen = varint::value_at(b, pos);
        let q = varint::end_at(b, pos);
        let end = cut(b, q, plen);
        let path = text_of(b.subrange(q, end));
        let dlen = varint::value_at(b, end);
        read_meta(b, varint::end_at(b, end), (k - 1) as nat, acc.push((path, dlen)))
    }
}

/// The files for the records `m` from `i` on, their bytes taken from `pos`
/// (each cut at the end of `b`).
pub open spec fn read_files(b: Seq<u8>, pos: int, m: Seq<(Seq<char>, usize)>, i: int) -> Seq<(Seq<char>, Seq<u8>)>
    decreases m.len() - i,
{
    if i < 0 || i >= m.len() {
        Seq::empty()
    } else {
        let end = cut(b, pos, m[i].1);
        seq![(m[i].0, b.subrange(pos, end))] + read_files(b, end, m, i + 1)
    }
}

/// What `unpack` gives back for `b`.
pub open spec fn spec_unpack(b: Seq<u8>) -> Seq<(Seq<char>, Seq<u8>)> {
    let n = varint::value_at(b, 0);
    let (m, pos) = read_meta(b, varint::end_at(b, 0), n as nat, Seq::empty());
    read_files(b, pos, m, 0)
}

/// Splits a bundle back into its files.
pub fn unpack(bytes: &[u8]) -> (files: Vec<(String, Vec<u8>)>)
    ensures
        files_view(files@) == spec_unpack(bytes@),
{
    let ghost b = bytes@;
    let mut pos: usize = 0;
    let n = varint::read(bytes, &mut pos);
    proof {
        varint::lemma_end_bounds(b, 0, 0);
    }
    let ghost p0 = pos as int;
    let mut paths: Vec<String> = Vec::new();
    let mut lens: Vec<usize> = Vec::new();
    let ghost mut acc: Seq<(Seq<char>, usize)> = Seq::empty();
    let mut k: usize = 0;
    while k < n
        invariant
            b == bytes@,
            k <= n,
            pos <= b.len(),
            paths@.len() == acc.len(),
            lens@.len() == acc.len(),
            forall|j: int| 0 <= j < acc.len() ==> #[trigger] acc[j] == (paths@[j]@, lens@[j]),
            read_meta(b, p0, n as nat, Seq::empty()) == read_meta(b, pos as int, (n - k) as nat, acc),
        decreases n - k,
    {
        let ghost q0 = pos as int;
        let plen = varint::read(bytes, &mut pos);
        proof {
            varint::lemma_end_bounds(b, q0, 0);
        }
        let end = if pos >= bytes.len() { pos } else if plen > bytes.len() - pos { bytes.len() } else { pos + plen };
        let path = lossy_string(&bytes[pos..end]);
        pos = end;
        let ghost q1 = pos as int;
        let dlen = varint::read(bytes, &mut pos);
        proof {
            varint::lemma_end_bounds(b, q1, 0);
            acc = acc.push((path@, dlen));
        }
        paths.push(path);
        lens.push(dlen);
        k = k + 1;
    }
    let ghost m = acc;
    let mut files: Vec<(String, Vec<u8>)> = Vec::new();
    let mut i: usize = 0;
    let mut names = paths;
    let ghost names0 = names@;
    let mut rev: Vec<String> = Vec::new();
    while names.len() > 0
        invariant
            names@.len() + rev@.len() == names0.len(),
            forall|j: int| 0 <= j < names@.len() ==> #[trigger] names@[j] == names0[j],
            forall|j: int| 0 <= j < rev@.len() ==> #[trigger] rev@[j] == names0[names0.len() - 1 - j],
        decreases names@.len(),
    {
        let s = names.pop().unwrap();
        rev.push(s);
    }
    let ghost tail_pos = pos as int;
    assert(read_files(b, tail_pos, m, 0) == spec_unpack(b));
    while i < lens.len()
        invariant
            b == bytes@,
            m.len() == lens@.len(),
            rev@.len() + i == m.len(),
            pos <= b.len(),
            forall|j: int| 0 <= j < m.len() ==> #[trigger] m[j].1 == lens@[j],
            forall|j: int| 0 <= j < rev@.len() ==> #[trigger] rev@[j]@ == m[m.len() - 1 - j].0,
            files_view(files@) + read_files(b, pos as int, m, i as int) == spec_unpack(b),
            files@.len() == i,
        decreases lens.len() - i,
    {
        let dlen = lens[i];
        let end = if pos >= bytes.len() { pos } else if dlen > bytes.len() - pos { bytes.len() } else { pos + dlen };
        let data = slices::copy(&bytes[pos..end]);
        let name = rev.pop().unwrap();
        let ghost fv0 = files_view(files@);
        files.push((name, data));
        assert(files_view(files@) =~= fv0.push((m[i as int].0, b.subrange(pos as int, end as int))));
        pos = end;
        i = i + 1;
        assert(files_view(files@) + read_files(b, pos as int, m, i as int) =~= spec_unpack(b));
    }
    files
}


proof fn lemma_meta_bytes_prefix(f: Seq<(Seq<char>, Seq<u8>)>, i: int, n: int)
    requires
        0 <= i <= n,
    ensures
        meta_bytes(f, i).len() <= meta_bytes(f, n).len(),
        meta_bytes(f, n).subrange(0, meta_bytes(f, i).len() as int) == meta_bytes(f, i),
    decreases n,
{
    if i < n {
        lemma_meta_bytes_prefix(f, i, n - 1);
        let a = meta_bytes(f, n - 1);
        let b = meta_bytes(f, n);
        assert(b.subrange(0, a.len() as int) =~= a);
        assert(b.subrange(0, meta_bytes(f, i).len() as int) =~= a.subrange(0, meta_bytes(f, i).len() as int));
    } else {
        assert(meta_bytes(f, n).subrange(0, meta_bytes(f, n).len() as int) =~= meta_bytes(f, n));
    }
}

pub(crate) proof fn lemma_data_bytes_prefix(f: Seq<(Seq<char>, Seq<u8>)>, i: int, n: int)
    requires
        0 <= i <= n,
    ensures
        data_bytes(f, i).len() <= data_bytes(f, n).len(),
        data_bytes(f, n).subrange(0, data_bytes(f, i).len() as int) == data_bytes(f, i),
    decreases n,
{
    if i < n {
        lemma_data_bytes_prefix(f, i, n - 1);
        let a = data_bytes(f, n - 1);
        let b = data_bytes(f, n);
        assert(b.subrange(0, a.len() as int) =~= a);
        assert(b.subrange(0, data_bytes(f, i).len() as int) =~= a.subrange(0, data_bytes(f, i).len() as int));
    } else {
        assert(data_bytes(f, n).subrange(0, data_bytes(f, n).len() as int) =~= data_bytes(f, n));
    }
}

/// Where `b` holds the encoding of `v` at `p`, the varint there is `v` and
/// ends after it.
pub(crate) proof fn lemma_varint_at(b: Seq<u8>, p: int, v: usize)
    requires
        0 <= p,
        p + varint::encode(v).len() <= b.len(),
        b.subrange(p, p + varint::encode(v).len()) == varint::encode(v),
    ensures
        varint::value_at(b, p) == v,
        varint::end_at(b, p) == p + varint::encode(v).len(),
{
    let e = varint::encode(v);
    let pre = b.take(p);
    let rest = b.skip(p + e.len());
    assert(b =~= pre + e + rest);
    varint::lemma_read_write(v, pre, rest);
}

/// The path and length records of `f`, as `read_meta` gives them.
pub open spec fn records_of(f: Seq<(Seq<char>, Seq<u8>)>) -> Seq<(Seq<char>, usize)> {
    f.map_values(|x: (Seq<char>, Seq<u8>)| (x.0, x.1.len() as usize))
}

proof fn lemma_read_meta_packed(f: Seq<(Seq<char>, Seq<u8>)>, i: int)
    requires
        0 <= i <= f.len(),
        f.len() <= usize::MAX,
        forall|k: int| 0 <= k < f.len() ==> (#[trigger] encode_utf8(f[k].0)).len() <= usize::MAX && f[k].1.len() <= usize::MAX,
    ensures
        ({
            let b = spec_pack(f);
            let h = varint::encode(f.len() as usize).len();
            read_meta(b, (h + meta_bytes(f, i).len()) as int, (f.len() - i) as nat, records_of(f).take(i))
                == (records_of(f), (h + meta_bytes(f, f.len() as int).len()) as int)
        }),
    decreases f.len() - i,
{
    let b = spec_pack(f);
    let n = f.len() as int;
    let h = varint::encode(f.len() as usize).len() as int;
    if i == n {
        assert(records_of(f).take(i) =~= records_of(f));
    } else {
        lemma_meta_bytes_prefix(f, i + 1, n);
        let mi = meta_bytes(f, i);
        let mi1 = meta_bytes(f, i + 1);
        let p = encode_utf8(f[i].0);
        let e1 = varint::encode(p.len() as usize);
        let e2 = varint::encode(f[i].1.len() as usize);
        assert(mi1 == mi + e1 + p + e2);
        let q = h + mi.len();
        assert forall|k: int| 0 <= k < mi1.len() implies b[h + k] == #[trigger] mi1[k] by {
            assert(meta_bytes(f, n).subrange(0, mi1.len() as int)[k] == mi1[k]);
        }
        assert(b.subrange(q, q + e1.len()) =~= e1) by {
            assert forall|k: int| 0 <= k < e1.len() implies b.subrange(q, q + e1.len())[k] == e1[k] by {
                assert(b[q + k] == mi1[mi.len() + k]);
            }
        }
        lemma_varint_at(b, q, p.len() as usize);
        let q1 = q + e1.len();
        assert(b.subrange(q1, q1 + p.len()) =~= p) by {
            assert forall|k: int| 0 <= k < p.len() implies b.subrange(q1, q1 + p.len())[k] == p[k] by {
                assert(b[q1 + k] == mi1[mi.len() + e1.len() + k]);
            }
        }
        let q2 = q1 + p.len();
        assert(cut(b, q1, p.len() as usize) == q2);
        vstd::utf8::encode_utf8_valid_utf8(f[i].0);
        vstd::utf8::encode_utf8_decode_utf8(f[i].0);
        assert(b.subrange(q2, q2 + e2.len()) =~= e2) by {
            assert forall|k: int| 0 <= k < e2.len() implies b.subrange(q2, q2 + e2.len())[k] == e2[k] by {
                assert(b[q2 + k] == mi1[mi.len() + e1.len() + p.len() + k]);
            }
        }
        lemma_varint_at(b, q2, f[i].1.len() as usize);
        assert(records_of(f).take(i).push((f[i].0, f[i].1.len() as usize)) =~= records_of(f).take(i + 1));
        lemma_read_meta_packed(f, i + 1);
    }
}

proof fn lemma_read_files_packed(f: Seq<(Seq<char>, Seq<u8>)>, i: int)
    requires
        0 <= i <= f.len(),
        forall|k: int| 0 <= k < f.len() ==> (#[trigger] f[k].1).len() <= usize::MAX,
    ensures
        ({
            let b = spec_pack(f);
            let d0 = varint::encode(f.len() as usize).len() + meta_bytes(f, f.len() as int).len();
            read_files(b, (d0 + data_bytes(f, i).len()) as int, records_of(f), i) == f.skip(i)
        }),
    decreases f.len() - i,
{
    let b = spec_pack(f);
    let n = f.len() as int;
    let d0 = (varint::encode(f.len() as usize).len() + meta_bytes(f, n).len()) as int;
    if i == n {
        assert(f.skip(i) =~= Seq::<(Seq<char>, Seq<u8>)>::empty());
    } else {
        lemma_data_bytes_prefix(f, i + 1, n);
        let di = data_bytes(f, i);
        let di1 = data_bytes(f, i + 1);
        assert(di1 == di + f[i].1);
        let q = d0 + di.len();
        assert forall|k: int| 0 <= k < di1.len() implies b[d0 + k] == #[trigger] di1[k] by {
            assert(data_bytes(f, n).subrange(0, di1.len() as int)[k] == di1[k]);
        }
        assert(cut(b, q, f[i].1.len() as usize) == q + f[i].1.len()) by {
            if f[i].1.len() > 0 {
                assert(q < b.len());
            }
        }
        assert(b.subrange(q, q + f[i].1.len()) =~= f[i].1) by {
            assert forall|k: int| 0 <= k < f[i].1.len() implies b.subrange(q, q + f[i].1.len())[k] == f[i].1[k] by {
                assert(b[q + k] == di1[di.len() + k]);
            }
        }
        lemma_read_files_packed(f, i + 1);
        assert(f.skip(i) =~= seq![f[i]] + f.skip(i + 1));
    }
}

/// Unbundling what `pack` wrote gives back the files, paths and contents,
/// in order.
pub proof fn lemma_unpack_pack(f: Seq<(Seq<char>, Seq<u8>)>)
    requires
        f.len() <= usize::MAX,
        forall|k: int| 0 <= k < f.len() ==> (#[trigger] encode_utf8(f[k].0)).len() <= usize::MAX && f[k].1.len() <= usize::MAX,
    ensures
        spec_unpack(spec_pack(f)) == f,
{
    let b = spec_pack(f);
    let e0 = varint::encode(f.len() as usize);
    assert(b.subrange(0, e0.len() as int) =~= e0);
    lemma_varint_at(b, 0, f.len() as usize);
    assert(records_of(f).take(0) =~= Seq::<(Seq<char>, usize)>::empty());
    lemma_read_meta_packed(f, 0);
    assert forall|k: int| 0 <= k < f.len() implies (#[trigger] f[k].1).len() <= usize::MAX by {
        assert(encode_utf8(f[k].0).len() <= usize::MAX);
    }
    lemma_read_files_packed(f, 0);
    assert(f.skip(0) =~= f);
}

/// What `unwrap` gives for the stored form `d`: the LZ pass after the
/// length, decoded to that length.
pub open spec fn spec_unwrap(d: Seq<u8>) -> Seq<u8> {
    lz::spec_decode(d.skip(varint::end_at(d, 0)), varint::value_at(d, 0) as nat)
}

/// A bundle as it is stored: its length, then one LZ pass over the whole
/// bundle, so that files repeated in a directory cost almost nothing.
/// Unwrapping gives the bundle back.
pub fn wrap(bundle: &[u8]) -> (out: Vec<u8>)
    ensures
        out@ == varint::encode(bundle@.len() as usize) + biglz::spec_serialize(biglz::spec_tokens(bundle@, 0, biglz::MAX_CHAIN as nat)),
        spec_unwrap(out@) == bundle@,
{
    let mut out: Vec<u8> = Vec::new();
    varint::write(&mut out, bundle.len());
    let ghost head = out@;
    let body = biglz::encode(bundle);
    slices::append(&mut out, body.as_slice());
    proof {
        varint::lemma_read_write(bundle.len(), Seq::empty(), body@);
        assert(Seq::<u8>::empty() + head + body@ =~= out@);
        assert(out@.skip(head.len() as int) =~= body@);
    }
    out
}

/// The bundle that `wrap` stored in `data`.
pub fn unwrap(data: &[u8]) -> (out: Vec<u8>)
    ensures
        out@ == spec_unwrap(data@),
{
    let mut pos: usize = 0;
    let n = varint::read(data, &mut pos);
    proof {
        varint::lemma_end_bounds(data@, 0, 0);
    }
    let rest = &data[pos..data.len()];
    assert(rest@ =~= data@.skip(pos as int));
    biglz::decode(rest, n)
}

} // verus!
