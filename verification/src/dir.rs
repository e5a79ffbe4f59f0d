//! The manifest of a packed directory: each file's path, length and CRC,
//! with the contents one after another in a separate payload.
use vstd::prelude::*;
use vstd::utf8::encode_utf8;
use crate::bundle::{files_view, cut};
use crate::crc::{crc32, spec_crc32};
use crate::slices;
use crate::text::{le32, le32_bytes, from_le, read_le32, lossy_string, text_of, utf8_bytes};
use crate::varint;

verus! {

/// The manifest's magic of the first layout, without CRCs.
pub open spec fn magic_v1() -> Seq<u8> {
    seq![70u8, 68, 73, 82]
}

/// The manifest's magic with CRCs.
pub open spec fn magic_v2() -> Seq<u8> {
    seq![70u8, 68, 82, 50]
}

/// A file of the manifest: where its bytes start in the payload, how many
/// there are, and their CRC when the manifest has one.
#[derive(Debug, Clone)]
pub struct Entry {
    pub path: String,
    pub offset: usize,
    pub len: usize,
    pub crc: Option<u32>,
}

/// Why an entry's bytes cannot be cut from the payload.
#[derive(Debug, Clone, Copy, PartialEq, Eq, Structural)]
pub enum SliceError {
    /// The entry's end does not fit a `usize`.
    SizeOverflow,
    /// The entry reaches past the end of the payload.
    OutsidePayload,
}

impl Entry {
    /// The entry's bytes, `offset .. offset + len` of `payload`.
    pub fn contents(&self, payload: &[u8]) -> (r: Result<Vec<u8>, SliceError>)
        ensures
            self.offset + self.len > usize::MAX <==> r == Err::<Vec<u8>, SliceError>(SliceError::SizeOverflow),
            (self.offset + self.len <= usize::MAX && self.offset + self.len > payload.len())
                <==> r == Err::<Vec<u8>, SliceError>(SliceError::OutsidePayload),
            r matches Ok(v) ==> v@ == payload@.subrange(self.offset as int, self.offset + self.len),
    {
        if self.len > usize::MAX - self.offset {
            return Err(SliceError::SizeOverflow);
        }
        let end = self.offset + self.len;
        if end > payload.len() {
            return Err(SliceError::OutsidePayload);
        }
        Ok(slices::copy(&payload[self.offset..end]))
    }
}

/// Why a manifest cannot be read.
#[derive(Debug, Clone, Copy, PartialEq, Eq, Structural)]
pub enum ManifestError {
    /// No manifest magic at the start.
    Missing,
    /// The manifest ends inside a record.
    Truncated,
}

impl ManifestError {
    /// The message the command line shows.
    pub fn message(&self) -> (s: &'static str)
        ensures
            *self == ManifestError::Missing ==> s@ == "missing directory manifest"@,
            *self == ManifestError::Truncated ==> s@ == "truncated directory manifest"@,
    {
        match self {
            ManifestError::Missing => "missing directory manifest",
            ManifestError::Truncated => "truncated directory manifest",
        }
    }
}

/// The records of the first `k` files: path, length and CRC.
pub open spec fn manifest_records(f: Seq<(Seq<char>, Seq<u8>)>, k: int) -> Seq<u8>
    decreases k,
{
    if k <= 0 {
        Seq::empty()
    } else {
        let p = encode_utf8(f[k - 1].0);
        manifest_records(f, k - 1) + varint::encode(p.len() as usize) + p + varint::encode(f[k - 1].1.len() as usize)
            + le32(spec_crc32(f[k - 1].1))
    }
}

/// The contents of the first `k` files, one after another.
pub open spec fn payload_bytes(f: Seq<(Seq<char>, Seq<u8>)>, k: int) -> Seq<u8> {
    crate::bundle::data_bytes(f, k)
}

/// Packs `files` into a manifest (with CRCs) and a payload.
pub fn pack(files: &[(String, Vec<u8>)]) -> (r: (Vec<u8>, Vec<u8>))
    ensures
        r.0@ == magic_v2() + varint::encode(files@.len() as usize) + manifest_records(files_view(files@), files@.len() as int),
        r.1@ == payload_bytes(files_view(files@), files@.len() as int),
{
    let ghost f = files_view(files@);
    let mut meta: Vec<u8> = Vec::new();
    let mut payload: Vec<u8> = Vec::new();
    meta.push(70);
    meta.push(68);
    meta.push(82);
    meta.push(50);
    varint::write(&mut meta, files.len());
    let ghost h = meta@;
    assert(h =~= magic_v2() + varint::encode(files@.len() as usize));
    let mut i: usize = 0;
    while i < files.len()
        invariant
            i <= files@.len(),
            f == files_view(files@),
            meta@ == h + manifest_records(f, i as int),
            payload@ == payload_bytes(f, i as int),
        decreases files.len() - i,
    {
        let p = utf8_bytes(&files[i].0);
        varint::write(&mut meta, p.len());
        slices::append(&mut meta, p);
        varint::write(&mut meta, files[i].1.len());
        let c = le32_bytes(crc32(files[i].1.as_slice()));
        slices::append(&mut meta, &c);
        slices::append(&mut payload, files[i].1.as_slice());
        i = i + 1;
        assert(meta@ =~= h + manifest_records(f, i as int));
        assert(payload@ =~= payload_bytes(f, i as int));
    }
    (meta, payload)
}

/// An entry as plain values: path, offset, length, CRC.
pub open spec fn entry_view(e: Entry) -> (Seq<char>, usize, usize, Option<u32>) {
    (e.path@, e.offset, e.len, e.crc)
}

/// The entries as plain values.
pub open spec fn entries_view(v: Seq<Entry>) -> Seq<(Seq<char>, usize, usize, Option<u32>)> {
    v.map_values(|e: Entry| entry_view(e))
}

/// Reading `k` more records at `pos` (`has_crc`: each ends with a CRC), the
/// entries so far in `acc` and the next offset `off` (wrapping): the
/// entries, or the record that runs past the end.
pub open spec fn read_records(m: Seq<u8>, pos: int, k: nat, has_crc: bool, off: usize, acc: Seq<(Seq<char>, usize, usize, Option<u32>)>) -> Result<Seq<(Seq<char>, usize, usize, Option<u32>)>, ManifestError>
    decreases k,
{
    if k == 0 {
        Ok(acc)
    } else {
        let plen = varint::value_at(m, pos);
        let q = varint::end_at(m, pos);
        if plen > m.len() - q {
            Err(ManifestError::Truncated)
        } else {
            let path = text_of(m.subrange(q, q + plen));
            let len = varint::value_at(m, q + plen);
            let p2 = varint::end_at(m, q + plen);
            if has_crc {
                if 4 > m.len() - p2 {
                    Err(ManifestError::Truncated)
                } else {
                    let c = from_le(m[p2], m[p2 + 1], m[p2 + 2], m[p2 + 3]);
                    read_records(m, p2 + 4, (k - 1) as nat, has_crc, off.wrapping_add(len), acc.push((path, off, len, Some(c))))
                }
            } else {
                read_records(m, p2, (k - 1) as nat, has_crc, off.wrapping_add(len), acc.push((path, off, len, None)))
            }
        }
    }
}

/// What `read` makes of a manifest.
pub open spec fn spec_read(m: Seq<u8>) -> Result<Seq<(Seq<char>, usize, usize, Option<u32>)>, ManifestError> {
    if m.len() < 4 {
        Err(ManifestError::Missing)
    } else if m.take(4) != magic_v2() && m.take(4) != magic_v1() {
        Err(ManifestError::Missing)
    } else {
        let has_crc = m.take(4) == magic_v2();
        read_records(m, varint::end_at(m, 4), varint::value_at(m, 4) as nat, has_crc, 0, Seq::empty())
    }
}

/// Reads the entries of a manifest.
pub fn read(meta: &[u8]) -> (r: Result<Vec<Entry>, ManifestError>)
    ensures
        match r {
            Ok(v) => spec_read(meta@) == Ok::<_, ManifestError>(entries_view(v@)),
            Err(e) => spec_read(meta@) == Err::<Seq<(Seq<char>, usize, usize, Option<u32>)>, _>(e),
        },
{
    let ghost m = meta@;
    if meta.len() < 4 {
        return Err(ManifestError::Missing);
    }
    let is_v2 = meta[0] == 70 && meta[1] == 68 && meta[2] == 82 && meta[3] == 50;
    let is_v1 = meta[0] == 70 && meta[1] == 68 && meta[2] == 73 && meta[3] == 82;
    assert(is_v2 <==> m.take(4) == magic_v2()) by {
        if m.take(4) == magic_v2() {
            assert(m.take(4)[0] == 70u8 && m.take(4)[1] == 68u8 && m.take(4)[2] == 82u8 && m.take(4)[3] == 50u8);
        }
        if is_v2 {
            assert(m.take(4) =~= magic_v2());
        }
    }
    assert(is_v1 <==> m.take(4) == magic_v1()) by {
        if m.take(4) == magic_v1() {
            assert(m.take(4)[0] == 70u8 && m.take(4)[1] == 68u8 && m.take(4)[2] == 73u8 && m.take(4)[3] == 82u8);
        }
        if is_v1 {
            assert(m.take(4) =~= magic_v1());
        }
    }
    if !is_v2 && !is_v1 {
        return Err(ManifestError::Missing);
    }
    let has_crc = is_v2;
    let mut pos: usize = 4;
    let count = varint::read(meta, &mut pos);
    proof {
        varint::lemma_end_bounds(m, 4, 0);
    }
    let mut entries: Vec<Entry> = Vec::new();
    let mut offset: usize = 0;
    let mut k: usize = 0;
    assert(entries_view(entries@) =~= Seq::<(Seq<char>, usize, usize, Option<u32>)>::empty());
    while k < count
        invariant
            m == meta@,
            k <= count,
            pos <= m.len(),
            spec_read(m) == read_records(m, pos as int, (count - k) as nat, has_crc, offset, entries_view(entries@)),
        decreases count - k,
    {
        let ghost q0 = pos as int;
        let path_len = varint::read(meta, &mut pos);
        proof {
            varint::lemma_end_bounds(m, q0, 0);
        }
        if path_len > meta.len() - pos {
            return Err(ManifestError::Truncated);
        }
        let path = lossy_string(&meta[pos..pos + path_len]);
        pos = pos + path_len;
        let ghost q1 = pos as int;
        let len = varint::read(meta, &mut pos);
        proof {
            varint::lemma_end_bounds(m, q1, 0);
        }
        let crc = if has_crc {
            if 4 > meta.len() - pos {
                return Err(ManifestError::Truncated);
            }
            let c = read_le32(meta[pos], meta[pos + 1], meta[pos + 2], meta[pos + 3]);
            pos = pos + 4;
            Some(c)
        } else {
            None
        };
        let ghost ev0 = entries_view(entries@);
        let e = Entry { path, offset, len, crc };
        let ghost ev = entry_view(e);
        entries.push(e);
        assert(entries_view(entries@) =~= ev0.push(ev));
        offset = offset.wrapping_add(len);
        k = k + 1;
    }
    Ok(entries)
}


proof fn lemma_records_prefix(f: Seq<(Seq<char>, Seq<u8>)>, i: int, n: int)
    requires
        0 <= i <= n,
    ensures
        manifest_records(f, i).len() <= manifest_records(f, n).len(),
        manifest_records(f, n).subrange(0, manifest_records(f, i).len() as int) == manifest_records(f, i),
    decreases n,
{
    if i < n {
        lemma_records_prefix(f, i, n - 1);
        let a = manifest_records(f, n - 1);
        let b = manifest_records(f, n);
        assert(b.subrange(0, a.len() as int) =~= a);
        assert(b.subrange(0, manifest_records(f, i).len() as int) =~= a.subrange(0, manifest_records(f, i).len() as int));
    } else {
        assert(manifest_records(f, n).subrange(0, manifest_records(f, n).len() as int) =~= manifest_records(f, n));
    }
}

/// The entries of the manifest of `f`: each path, where its bytes start
/// in the payload, their length and CRC.
pub open spec fn entries_of(f: Seq<(Seq<char>, Seq<u8>)>) -> Seq<(Seq<char>, usize, usize, Option<u32>)> {
    Seq::new(f.len(), |i: int| (f[i].0, payload_bytes(f, i).len() as usize, f[i].1.len() as usize, Some(spec_crc32(f[i].1))))
}

/// The manifest that `pack` writes for `f`.
pub open spec fn manifest_of(f: Seq<(Seq<char>, Seq<u8>)>) -> Seq<u8> {
    magic_v2() + varint::encode(f.len() as usize) + manifest_records(f, f.len() as int)
}

#[verifier::rlimit(50)]
proof fn lemma_read_records_packed(f: Seq<(Seq<char>, Seq<u8>)>, i: int)
    requires
        0 <= i <= f.len(),
        f.len() <= usize::MAX,
        payload_bytes(f, f.len() as int).len() <= usize::MAX,
        forall|k: int| 0 <= k < f.len() ==> (#[trigger] encode_utf8(f[k].0)).len() <= usize::MAX,
    ensures
        ({
            let m = manifest_of(f);
            let h = 4 + varint::encode(f.len() as usize).len();
            read_records(m, (h + manifest_records(f, i).len()) as int, (f.len() - i) as nat, true,
                payload_bytes(f, i).len() as usize, entries_of(f).take(i)) == Ok::<_, ManifestError>(entries_of(f))
        }),
    decreases f.len() - i,
{
    let m = manifest_of(f);
    let n = f.len() as int;
    let h = (4 + varint::encode(f.len() as usize).len()) as int;
    crate::bundle::lemma_data_bytes_prefix(f, i, n);
    if i == n {
        assert(entries_of(f).take(i) =~= entries_of(f));
    } else {
        crate::bundle::lemma_data_bytes_prefix(f, i + 1, n);
        lemma_records_prefix(f, i + 1, n);
        let mi = manifest_records(f, i);
        let mi1 = manifest_records(f, i + 1);
        let p = encode_utf8(f[i].0);
        let e1 = varint::encode(p.len() as usize);
        let e2 = varint::encode(f[i].1.len() as usize);
        let c = le32(spec_crc32(f[i].1));
        assert(mi1 == mi + e1 + p + e2 + c);
        let q = h + mi.len();
        assert forall|k: int| 0 <= k < mi1.len() implies m[h + k] == #[trigger] mi1[k] by {
            assert(manifest_records(f, n).subrange(0, mi1.len() as int)[k] == mi1[k]);
        }
        assert(m.subrange(q, q + e1.len()) =~= e1) by {
            assert forall|k: int| 0 <= k < e1.len() implies m.subrange(q, q + e1.len())[k] == e1[k] by {
                assert(m[q + k] == mi1[mi.len() + k]);
            }
        }
        crate::bundle::lemma_varint_at(m, q, p.len() as usize);
        let q1 = q + e1.len();
        assert(m.subrange(q1, q1 + p.len()) =~= p) by {
            assert forall|k: int| 0 <= k < p.len() implies m.subrange(q1, q1 + p.len())[k] == p[k] by {
                assert(m[q1 + k] == mi1[mi.len() + e1.len() + k]);
            }
        }
        vstd::utf8::encode_utf8_valid_utf8(f[i].0);
        vstd::utf8::encode_utf8_decode_utf8(f[i].0);
        let q2 = q1 + p.len();
        assert(m.subrange(q2, q2 + e2.len()) =~= e2) by {
            assert forall|k: int| 0 <= k < e2.len() implies m.subrange(q2, q2 + e2.len())[k] == e2[k] by {
                assert(m[q2 + k] == mi1[mi.len() + e1.len() + p.len() + k]);
            }
        }
        assert(f[i].1.len() <= usize::MAX) by {
            assert(payload_bytes(f, i + 1).len() == payload_bytes(f, i).len() + f[i].1.len());
        }
        crate::bundle::lemma_varint_at(m, q2, f[i].1.len() as usize);
        let q3 = q2 + e2.len();
        assert(m[q3] == c[0] && m[q3 + 1] == c[1] && m[q3 + 2] == c[2] && m[q3 + 3] == c[3]) by {
            assert(m[q3] == mi1[(mi.len() + e1.len() + p.len() + e2.len()) as int]);
            assert(m[q3 + 1] == mi1[(mi.len() + e1.len() + p.len() + e2.len() + 1) as int]);
            assert(m[q3 + 2] == mi1[(mi.len() + e1.len() + p.len() + e2.len() + 2) as int]);
            assert(m[q3 + 3] == mi1[(mi.len() + e1.len() + p.len() + e2.len() + 3) as int]);
        }
        crate::text::lemma_le32(spec_crc32(f[i].1));
        let off = payload_bytes(f, i).len() as usize;
        assert(payload_bytes(f, i + 1).len() == payload_bytes(f, i).len() + f[i].1.len());
        assert(off.wrapping_add(f[i].1.len() as usize) == payload_bytes(f, i + 1).len() as usize);
        assert(entries_of(f).take(i).push((f[i].0, off, f[i].1.len() as usize, Some(spec_crc32(f[i].1)))) =~= entries_of(f).take(i + 1));
        lemma_read_records_packed(f, i + 1);
    }
}

/// Reading the manifest that `pack` writes gives each file's path, length
/// and CRC, and the offset at which its bytes stand in the payload.
pub proof fn lemma_read_pack(f: Seq<(Seq<char>, Seq<u8>)>)
    requires
        f.len() <= usize::MAX,
        payload_bytes(f, f.len() as int).len() <= usize::MAX,
        forall|k: int| 0 <= k < f.len() ==> (#[trigger] encode_utf8(f[k].0)).len() <= usize::MAX,
    ensures
        spec_read(manifest_of(f)) == Ok::<_, ManifestError>(entries_of(f)),
        forall|i: int| 0 <= i < f.len() ==> payload_bytes(f, f.len() as int).subrange(
            #[trigger] entries_of(f)[i].1 as int, entries_of(f)[i].1 + entries_of(f)[i].2) == f[i].1,
{
    let m = manifest_of(f);
    let n = f.len() as int;
    assert(m.take(4) =~= magic_v2());
    let e0 = varint::encode(f.len() as usize);
    assert(m.subrange(4, 4 + e0.len() as int) =~= e0);
    crate::bundle::lemma_varint_at(m, 4, f.len() as usize);
    assert(entries_of(f).take(0) =~= Seq::<(Seq<char>, usize, usize, Option<u32>)>::empty());
    assert(manifest_records(f, 0).len() == 0);
    lemma_read_records_packed(f, 0);
    assert forall|i: int| 0 <= i < f.len() implies payload_bytes(f, n).subrange(
        #[trigger] entries_of(f)[i].1 as int, entries_of(f)[i].1 + entries_of(f)[i].2) == f[i].1 by {
        crate::bundle::lemma_data_bytes_prefix(f, i + 1, n);
        let di = payload_bytes(f, i);
        let di1 = payload_bytes(f, i + 1);
        assert(di1 == di + f[i].1);
        assert(payload_bytes(f, n).subrange(di.len() as int, di1.len() as int) =~= f[i].1) by {
            assert forall|k: int| 0 <= k < f[i].1.len() implies payload_bytes(f, n).subrange(di.len() as int, di1.len() as int)[k] == f[i].1[k] by {
                assert(payload_bytes(f, n).subrange(0, di1.len() as int)[di.len() + k] == di1[di.len() + k]);
            }
        }
    }
}

} // verus!
