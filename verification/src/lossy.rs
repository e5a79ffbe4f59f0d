//! Lossy packing: dropping the low bits of bytes, keeping raw image headers
//! intact, and telling apart inputs that are compressed already.
use vstd::prelude::*;
use crate::image::{is_ws, is_digit, skip_space, digits_end, is_ppm};
use crate::slices;

verus! {

/// `d` starts with `p`.
pub open spec fn starts(d: Seq<u8>, p: Seq<u8>) -> bool {
    p.len() <= d.len() && d.take(p.len() as int) == p
}

pub fn starts_with(d: &[u8], p: &[u8]) -> (r: bool)
    ensures
        r == starts(d@, p@),
{
    if p.len() > d.len() {
        return false;
    }
    let r = slices::equal(&d[0..p.len()], p);
    assert(d@.subrange(0, p@.len() as int) =~= d@.take(p@.len() as int));
    r
}

/// The compressed format `d` starts like, by its signature.
pub open spec fn compressed_kind(d: Seq<u8>) -> Option<Seq<char>> {
    if starts(d, seq![0x89u8, 80, 78, 71]) { Some("PNG"@) }
    else if starts(d, seq![0xFFu8, 0xD8, 0xFF]) { Some("JPEG"@) }
    else if starts(d, seq![71u8, 73, 70, 56]) { Some("GIF"@) }
    else if starts(d, seq![80u8, 75, 3, 4]) { Some("ZIP"@) }
    else if starts(d, seq![0x1Fu8, 0x8B]) { Some("gzip"@) }
    else if starts(d, seq![70u8, 79, 83, 76]) { Some("fossil"@) }
    else { None }
}

/// The name of the compressed format `data` is in (PNG, JPEG, GIF, ZIP,
/// gzip, or a packed file), if any.
pub fn compressed_format(data: &[u8]) -> (r: Option<&'static str>)
    ensures
        match r {
            Some(s) => compressed_kind(data@) == Some(s@),
            None => compressed_kind(data@) is None,
        },
{
    let png: [u8; 4] = [0x89, 80, 78, 71];
    let jpeg: [u8; 3] = [0xFF, 0xD8, 0xFF];
    let gif: [u8; 4] = [71, 73, 70, 56];
    let zip: [u8; 4] = [80, 75, 3, 4];
    let gz: [u8; 2] = [0x1F, 0x8B];
    let fosl: [u8; 4] = [70, 79, 83, 76];
    assert(png@ =~= seq![0x89u8, 80, 78, 71]);
    assert(jpeg@ =~= seq![0xFFu8, 0xD8, 0xFF]);
    assert(gif@ =~= seq![71u8, 73, 70, 56]);
    assert(zip@ =~= seq![80u8, 75, 3, 4]);
    assert(gz@ =~= seq![0x1Fu8, 0x8B]);
    assert(fosl@ =~= seq![70u8, 79, 83, 76]);
    if starts_with(data, &png) {
        return Some("PNG");
    }
    if starts_with(data, &jpeg) {
        return Some("JPEG");
    }
    if starts_with(data, &gif) {
        return Some("GIF");
    }
    if starts_with(data, &zip) {
        return Some("ZIP");
    }
    if starts_with(data, &gz) {
        return Some("gzip");
    }
    if starts_with(data, &fosl) {
        return Some("fossil");
    }
    None
}

proof fn lemma_starts_bytes(d: Seq<u8>, p: Seq<u8>)
    ensures
        starts(d, p) <==> (p.len() <= d.len() && forall|i: int| 0 <= i < p.len() ==> #[trigger] d[i] == p[i]),
{
    if p.len() <= d.len() && (forall|i: int| 0 <= i < p.len() ==> #[trigger] d[i] == p[i]) {
        assert(d.take(p.len() as int) =~= p);
    }
    if starts(d, p) {
        assert forall|i: int| 0 <= i < p.len() implies #[trigger] d[i] == p[i] by {
            assert(d.take(p.len() as int)[i] == d[i]);
        }
    }
}

/// Which compressed format data is in goes by its first bytes alone:
/// `89 'P' 'N' 'G'` is PNG, `FF D8 FF` JPEG, `'G' 'I' 'F' '8'` GIF,
/// `'P' 'K' 03 04` ZIP, `1F 8B` gzip and `'F' 'O' 'S' 'L'` a packed file;
/// data that starts with none of these is in no compressed format.
pub proof fn lemma_compressed_signatures(d: Seq<u8>)
    ensures
        d.len() >= 4 && d[0] == 0x89 && d[1] == 80 && d[2] == 78 && d[3] == 71 ==> compressed_kind(d) == Some("PNG"@),
        d.len() >= 3 && d[0] == 0xFF && d[1] == 0xD8 && d[2] == 0xFF ==> compressed_kind(d) == Some("JPEG"@),
        d.len() >= 4 && d[0] == 71 && d[1] == 73 && d[2] == 70 && d[3] == 56 ==> compressed_kind(d) == Some("GIF"@),
        d.len() >= 4 && d[0] == 80 && d[1] == 75 && d[2] == 3 && d[3] == 4 ==> compressed_kind(d) == Some("ZIP"@),
        d.len() >= 2 && d[0] == 0x1F && d[1] == 0x8B ==> compressed_kind(d) == Some("gzip"@),
        d.len() >= 4 && d[0] == 70 && d[1] == 79 && d[2] == 83 && d[3] == 76 ==> compressed_kind(d) == Some("fossil"@),
        !(d.len() >= 4 && d[0] == 0x89 && d[1] == 80 && d[2] == 78 && d[3] == 71)
            && !(d.len() >= 3 && d[0] == 0xFF && d[1] == 0xD8 && d[2] == 0xFF)
            && !(d.len() >= 4 && d[0] == 71 && d[1] == 73 && d[2] == 70 && d[3] == 56)
            && !(d.len() >= 4 && d[0] == 80 && d[1] == 75 && d[2] == 3 && d[3] == 4)
            && !(d.len() >= 2 && d[0] == 0x1F && d[1] == 0x8B)
            && !(d.len() >= 4 && d[0] == 70 && d[1] == 79 && d[2] == 83 && d[3] == 76)
            ==> compressed_kind(d) is None,
{
    let png = seq![0x89u8, 80, 78, 71];
    let jpeg = seq![0xFFu8, 0xD8, 0xFF];
    let gif = seq![71u8, 73, 70, 56];
    let zip = seq![80u8, 75, 3, 4];
    let gz = seq![0x1Fu8, 0x8B];
    let fosl = seq![70u8, 79, 83, 76];
    lemma_starts_bytes(d, png);
    lemma_starts_bytes(d, jpeg);
    lemma_starts_bytes(d, gif);
    lemma_starts_bytes(d, zip);
    lemma_starts_bytes(d, gz);
    lemma_starts_bytes(d, fosl);
    assert(starts(d, png) <==> (d.len() >= 4 && d[0] == 0x89 && d[1] == 80 && d[2] == 78 && d[3] == 71)) by {
        if d.len() >= 4 && d[0] == 0x89 && d[1] == 80 && d[2] == 78 && d[3] == 71 {
            assert forall|i: int| 0 <= i < png.len() implies #[trigger] d[i] == png[i] by {}
        }
        if starts(d, png) { assert(d[0] == png[0] && d[1] == png[1] && d[2] == png[2] && d[3] == png[3]); }
    }
    assert(starts(d, jpeg) <==> (d.len() >= 3 && d[0] == 0xFF && d[1] == 0xD8 && d[2] == 0xFF)) by {
        if d.len() >= 3 && d[0] == 0xFF && d[1] == 0xD8 && d[2] == 0xFF {
            assert forall|i: int| 0 <= i < jpeg.len() implies #[trigger] d[i] == jpeg[i] by {}
        }
        if starts(d, jpeg) { assert(d[0] == jpeg[0] && d[1] == jpeg[1] && d[2] == jpeg[2]); }
    }
    assert(starts(d, gif) <==> (d.len() >= 4 && d[0] == 71 && d[1] == 73 && d[2] == 70 && d[3] == 56)) by {
        if d.len() >= 4 && d[0] == 71 && d[1] == 73 && d[2] == 70 && d[3] == 56 {
            assert forall|i: int| 0 <= i < gif.len() implies #[trigger] d[i] == gif[i] by {}
        }
        if starts(d, gif) { assert(d[0] == gif[0] && d[1] == gif[1] && d[2] == gif[2] && d[3] == gif[3]); }
    }
    assert(starts(d, zip) <==> (d.len() >= 4 && d[0] == 80 && d[1] == 75 && d[2] == 3 && d[3] == 4)) by {
        if d.len() >= 4 && d[0] == 80 && d[1] == 75 && d[2] == 3 && d[3] == 4 {
            assert forall|i: int| 0 <= i < zip.len() implies #[trigger] d[i] == zip[i] by {}
        }
        if starts(d, zip) { assert(d[0] == zip[0] && d[1] == zip[1] && d[2] == zip[2] && d[3] == zip[3]); }
    }
    assert(starts(d, gz) <==> (d.len() >= 2 && d[0] == 0x1F && d[1] == 0x8B)) by {
        if d.len() >= 2 && d[0] == 0x1F && d[1] == 0x8B {
            assert forall|i: int| 0 <= i < gz.len() implies #[trigger] d[i] == gz[i] by {}
        }
        if starts(d, gz) { assert(d[0] == gz[0] && d[1] == gz[1]); }
    }
    assert(starts(d, fosl) <==> (d.len() >= 4 && d[0] == 70 && d[1] == 79 && d[2] == 83 && d[3] == 76)) by {
        if d.len() >= 4 && d[0] == 70 && d[1] == 79 && d[2] == 83 && d[3] == 76 {
            assert forall|i: int| 0 <= i < fosl.len() implies #[trigger] d[i] == fosl[i] by {}
        }
        if starts(d, fosl) { assert(d[0] == fosl[0] && d[1] == fosl[1] && d[2] == fosl[2] && d[3] == fosl[3]); }
    }
}

/// The raw image formats whose headers `quantize_content` keeps: PPM.
pub fn raw_image_format(data: &[u8]) -> (r: Option<&'static str>)
    ensures
        match r {
            Some(s) => is_ppm(data@) && s@ == "PPM"@,
            None => !is_ppm(data@),
        },
{
    if data.len() >= 2 && data[0] == 80 && (data[1] == 54 || data[1] == 53) {
        Some("PPM")
    } else {
        None
    }
}

/// Skipping up to `k` more header fields from `pos`: the position after
/// them and how many were found (a field is digits after space and
/// comments; the scan stops at the first place without one).
pub open spec fn header_fields(d: Seq<u8>, pos: int, k: nat) -> (int, nat)
    decreases k,
{
    if k == 0 || pos >= d.len() {
        (pos, 0)
    } else {
        let s = skip_space(d, pos);
        if s < d.len() && is_digit(d[s]) {
            let r = header_fields(d, digits_end(d, s), (k - 1) as nat);
            (r.0, r.1 + 1)
        } else {
            (s, 0)
        }
    }
}

/// The length of a PPM header: three fields and one whitespace byte.
pub open spec fn ppm_header_spec(d: Seq<u8>) -> Option<int> {
    if !is_ppm(d) {
        None
    } else {
        let (p, n) = header_fields(d, 2, 3);
        if n < 3 {
            None
        } else if p < d.len() && is_ws(d[p]) {
            Some(p + 1)
        } else {
            Some(p)
        }
    }
}

/// The length of the header of a PPM image, if `data` is one.
pub fn ppm_header_len(data: &[u8]) -> (r: Option<usize>)
    ensures
        match r {
            Some(h) => ppm_header_spec(data@) == Some(h as int) && h <= data@.len(),
            None => ppm_header_spec(data@) is None,
        },
{
    let ghost d = data@;
    if !(data.len() >= 2 && data[0] == 80 && (data[1] == 54 || data[1] == 53)) {
        return None;
    }
    let mut pos: usize = 2;
    let mut tokens: usize = 0;
    while pos < data.len() && tokens < 3
        invariant_except_break
            d == data@,
            2 <= pos <= d.len(),
            tokens <= 3,
            header_fields(d, 2, 3) == ({
                let r = header_fields(d, pos as int, (3 - tokens) as nat);
                (r.0, (r.1 + tokens) as nat)
            }),
        ensures
            d == data@,
            2 <= pos <= d.len(),
            header_fields(d, 2, 3) == (pos as int, tokens as nat),
        decreases 3 - tokens, d.len() - pos,
    {
        let s = crate::image::skip_space_at(data, pos);
        proof {
            crate::image::lemma_skip_space(d, pos as int);
        }
        if s < data.len() && 48 <= data[s] && data[s] <= 57 {
            let mut e = s;
            proof {
                crate::image::lemma_digits_end(d, s as int);
            }
            while e < data.len() && 48 <= data[e] && data[e] <= 57
                invariant
                    d == data@,
                    s <= e <= d.len(),
                    digits_end(d, s as int) == digits_end(d, e as int),
                decreases d.len() - e,
            {
                e = e + 1;
            }
            pos = e;
            tokens = tokens + 1;
        } else {
            pos = s;
            assert(header_fields(d, 2, 3) == (pos as int, tokens as nat));
            break;
        }
    }
    if tokens < 3 {
        return None;
    }
    if pos < data.len() && (data[pos] == 32 || data[pos] == 9 || data[pos] == 10 || data[pos] == 12 || data[pos] == 13) {
        pos = pos + 1;
    }
    Some(pos)
}

/// Each byte with its low `bits` bits cleared (all of them from eight on).
pub open spec fn spec_quantize(d: Seq<u8>, bits: u8) -> Seq<u8> {
    Seq::new(d.len(), |i: int| if bits >= 8 { 0u8 } else { d[i] & ((0xFFu8 << bits) as u8) })
}

/// Clears the low `bits` bits of every byte.
pub fn quantize(data: &[u8], bits: u8) -> (out: Vec<u8>)
    ensures
        out@ == spec_quantize(data@, bits),
{
    let mask: u8 = if bits >= 8 { 0 } else { 0xFFu8 << bits };
    let mut out: Vec<u8> = Vec::new();
    let mut i: usize = 0;
    while i < data.len()
        invariant
            i <= data@.len(),
            mask == (if bits >= 8 { 0u8 } else { (0xFFu8 << bits) as u8 }),
            out@ == spec_quantize(data@, bits).take(i as int),
        decreases data.len() - i,
    {
        let b = data[i] & mask;
        proof {
            if bits >= 8 {
                assert(data@[i as int] & 0u8 == 0u8) by (bit_vector);
            }
        }
        out.push(b);
        i = i + 1;
        assert(out@ =~= spec_quantize(data@, bits).take(i as int));
    }
    assert(spec_quantize(data@, bits).take(i as int) =~= spec_quantize(data@, bits));
    out
}

/// What `quantize_content` gives: a PPM keeps its header and has its
/// pixels quantized; anything else is quantized whole.
pub open spec fn spec_quantize_content(d: Seq<u8>, bits: u8) -> Seq<u8> {
    match ppm_header_spec(d) {
        Some(h) => d.take(h) + spec_quantize(d.skip(h), bits),
        None => spec_quantize(d, bits),
    }
}

/// Quantizes `data`, keeping the header of a PPM image intact.
pub fn quantize_content(data: &[u8], bits: u8) -> (out: Vec<u8>)
    ensures
        out@ == spec_quantize_content(data@, bits),
{
    match ppm_header_len(data) {
        Some(h) => {
            let mut out = slices::copy(&data[0..h]);
            let q = quantize(&data[h..data.len()], bits);
            slices::append(&mut out, q.as_slice());
            assert(data@.subrange(h as int, data@.len() as int) =~= data@.skip(h as int));
            out
        },
        None => quantize(data, bits),
    }
}

/// Quantizing twice changes nothing more than quantizing once.
pub proof fn lemma_quantize_idempotent(d: Seq<u8>, bits: u8)
    ensures
        spec_quantize(spec_quantize(d, bits), bits) == spec_quantize(d, bits),
{
    let q = spec_quantize(d, bits);
    assert forall|i: int| 0 <= i < d.len() implies #[trigger] spec_quantize(q, bits)[i] == q[i] by {
        if bits < 8 {
            let m = (0xFFu8 << bits) as u8;
            let x = d[i];
            assert((x & m) & m == x & m) by (bit_vector);
        }
    }
    assert(spec_quantize(q, bits) =~= q);
}

} // verus!
