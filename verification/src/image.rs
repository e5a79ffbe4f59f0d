//! Raw images (binary PPM and uncompressed 24/32-bit BMP): each row of
//! pixels is replaced by its difference to a PNG-style prediction, with the
//! filter that gives the smallest differences.
use vstd::prelude::*;
use crate::slices;

verus! {

/// Where the pixels start, bytes per pixel, bytes per row, and rows.
pub struct Image {
    pub header: usize,
    pub bpp: usize,
    pub stride: usize,
    pub rows: usize,
}

/// ASCII whitespace: space, tab, line feed, form feed, carriage return.
pub open spec fn is_ws(c: u8) -> bool {
    c == 32 || c == 9 || c == 10 || c == 12 || c == 13
}

/// An ASCII digit.
pub open spec fn is_digit(c: u8) -> bool {
    48 <= c <= 57
}

/// The end of the comment that starts at `pos`: the next line feed, or the
/// end.
pub open spec fn comment_end(d: Seq<u8>, pos: int) -> int
    decreases d.len() - pos,
{
    if pos < 0 || pos >= d.len() || d[pos] == 10 {
        pos
    } else {
        comment_end(d, pos + 1)
    }
}

/// Past the whitespace and `#` comments at `pos`.
pub open spec fn skip_space(d: Seq<u8>, pos: int) -> int
    decreases d.len() - pos, 1int,
{
    if pos < 0 || pos >= d.len() {
        pos
    } else if d[pos] == 35 {
        let e = comment_end(d, pos);
        if e > pos && e <= d.len() { skip_space(d, e) } else { pos }
    } else if is_ws(d[pos]) {
        skip_space(d, pos + 1)
    } else {
        pos
    }
}

/// The end of the digits at `pos`.
pub open spec fn digits_end(d: Seq<u8>, pos: int) -> int
    decreases d.len() - pos,
{
    if 0 <= pos < d.len() && is_digit(d[pos]) {
        digits_end(d, pos + 1)
    } else {
        pos
    }
}

/// The decimal value of `d[start..end]`.
pub open spec fn dec_value(d: Seq<u8>, start: int, end: int) -> int
    decreases end - start,
{
    if end <= start {
        0
    } else {
        10 * dec_value(d, start, end - 1) + (d[end - 1] - 48)
    }
}

/// Reading a number at `pos`: its value (if it fits a `usize`) and where it
/// ends, after skipping space and comments; nothing when no digit follows.
pub open spec fn read_num(d: Seq<u8>, pos: int) -> Option<(usize, int)> {
    let s = skip_space(d, pos);
    let e = digits_end(d, s);
    if e == s || dec_value(d, s, e) > usize::MAX {
        None
    } else {
        Some((dec_value(d, s, e) as usize, e))
    }
}

/// The geometry of a binary PPM (`P6` colour, `P5` grey): width, height and
/// maximum value as decimal numbers, then one whitespace byte.
pub open spec fn ppm_geometry_spec(d: Seq<u8>) -> Option<(usize, usize, usize, usize)> {
    let channels: int = if d.len() >= 2 && d[0] == 80 && d[1] == 54 { 3 } else { 1 };
    if !is_ppm(d) {
        None
    } else {
    match read_num(d, 2) {
        None => None,
        Some((w, p1)) => match read_num(d, p1) {
            None => None,
            Some((h, p2)) => match read_num(d, p2) {
                None => None,
                Some((maxval, p3)) => {
                    let header = if p3 < d.len() && is_ws(d[p3]) { p3 + 1 } else { p3 };
                    let bpp = if maxval < 256 { channels } else { 2 * channels };
                    if w == 0 || h == 0 || maxval == 0 || w * bpp > usize::MAX {
                        None
                    } else {
                        Some((header as usize, bpp as usize, (w * bpp) as usize, h))
                    }
                },
            },
        },
    }
    }
}

proof fn lemma_comment_end(d: Seq<u8>, pos: int)
    requires
        0 <= pos <= d.len(),
    ensures
        pos <= comment_end(d, pos) <= d.len(),
    decreases d.len() - pos,
{
    if pos < d.len() && d[pos] != 10 {
        lemma_comment_end(d, pos + 1);
    }
}

pub proof fn lemma_skip_space(d: Seq<u8>, pos: int)
    requires
        0 <= pos <= d.len(),
    ensures
        pos <= skip_space(d, pos) <= d.len(),
    decreases d.len() - pos,
{
    if pos < d.len() {
        if d[pos] == 35 {
            lemma_comment_end(d, pos);
            let e = comment_end(d, pos);
            if e > pos && e <= d.len() {
                lemma_skip_space(d, e);
            }
        } else if is_ws(d[pos]) {
            lemma_skip_space(d, pos + 1);
        }
    }
}

pub proof fn lemma_digits_end(d: Seq<u8>, pos: int)
    requires
        0 <= pos <= d.len(),
    ensures
        pos <= digits_end(d, pos) <= d.len(),
    decreases d.len() - pos,
{
    if pos < d.len() && is_digit(d[pos]) {
        lemma_digits_end(d, pos + 1);
    }
}

fn is_ws_byte(c: u8) -> (r: bool)
    ensures
        r == is_ws(c),
{
    c == 32 || c == 9 || c == 10 || c == 12 || c == 13
}

pub fn skip_space_at(data: &[u8], pos: usize) -> (p: usize)
    requires
        pos <= data.len(),
    ensures
        p == skip_space(data@, pos as int),
{
    let ghost d = data@;
    let mut pos = pos;
    let ghost p0 = pos as int;
    proof {
        lemma_skip_space(d, p0);
    }
    while pos < data.len()
        invariant
            d == data@,
            pos <= d.len(),
            skip_space(d, p0) == skip_space(d, pos as int),
        ensures
            skip_space(d, p0) == pos as int,
        decreases d.len() - pos,
    {
        let c = data[pos];
        if c == 35 {
            let ghost start = pos as int;
            proof {
                lemma_comment_end(d, start);
                lemma_comment_end(d, start + 1);
            }
            while pos < data.len() && data[pos] != 10
                invariant
                    d == data@,
                    start <= pos <= d.len(),
                    comment_end(d, start) == comment_end(d, pos as int),
                decreases d.len() - pos,
            {
                pos = pos + 1;
            }
            assert(skip_space(d, start) == skip_space(d, pos as int));
        } else if is_ws_byte(c) {
            pos = pos + 1;
        } else {
            break;
        }
    }
    pos
}

/// Reads a decimal number at `pos` after space and comments.
fn read_number(data: &[u8], pos: usize) -> (r: Option<(usize, usize)>)
    requires
        pos <= data.len(),
    ensures
        match r {
            Some((v, e)) => read_num(data@, pos as int) == Some((v, e as int)) && pos <= e <= data@.len(),
            None => read_num(data@, pos as int) is None,
        },
{
    let ghost d = data@;
    let start = skip_space_at(data, pos);
    proof {
        lemma_skip_space(d, pos as int);
        lemma_digits_end(d, start as int);
    }
    let mut p = start;
    let mut v: usize = 0;
    while p < data.len() && 48 <= data[p] && data[p] <= 57
        invariant
            d == data@,
            start <= p <= d.len(),
            start == skip_space(d, pos as int),
            digits_end(d, start as int) == digits_end(d, p as int),
            all_digits(d, start as int, p as int),
            v == dec_value(d, start as int, p as int),
        decreases d.len() - p,
    {
        let digit = (data[p] - 48) as usize;
        if v > (usize::MAX - digit) / 10 {
            proof {
                assert(10 * v + digit > usize::MAX) by (nonlinear_arith)
                    requires
                        v > (usize::MAX - digit) / 10,
                        digit <= 9,
                ;
                assert(all_digits(d, start as int, p as int + 1));
                assert(dec_value(d, start as int, p as int + 1) == 10 * v + digit);
                lemma_digits_run(d, start as int, p as int + 1);
                lemma_digits_end(d, p as int + 1);
                lemma_dec_grows(d, start as int, p as int + 1, digits_end(d, start as int));
                let e = digits_end(d, start as int);
                assert(e >= p + 1);
                assert(dec_value(d, start as int, e) > usize::MAX);
                assert(skip_space(d, pos as int) == start);
                assert(read_num(d, pos as int) is None);
            }
            return None;
        }
        v = v * 10 + digit;
        p = p + 1;
    }
    if p == start {
        return None;
    }
    Some((v, p))
}

/// Every byte of `d[s..e]` is a digit.
pub open spec fn all_digits(d: Seq<u8>, s: int, e: int) -> bool
    decreases e - s,
{
    e <= s || (all_digits(d, s, e - 1) && 0 <= e - 1 < d.len() && is_digit(d[e - 1]))
}

proof fn lemma_digits_run(d: Seq<u8>, s: int, p: int)
    requires
        0 <= s <= p,
        all_digits(d, s, p),
    ensures
        all_digits(d, s, digits_end(d, p)),
    decreases d.len() - p,
{
    if 0 <= p < d.len() && is_digit(d[p]) {
        lemma_digits_run(d, s, p + 1);
    }
}

proof fn lemma_dec_grows(d: Seq<u8>, s: int, e1: int, e2: int)
    requires
        s <= e1 <= e2,
        all_digits(d, s, e2),
    ensures
        0 <= dec_value(d, s, e1) <= dec_value(d, s, e2),
    decreases e2 - e1,
{
    if e2 > e1 {
        lemma_dec_grows(d, s, e1, e2 - 1);
    } else {
        lemma_dec_nonneg(d, s, e1);
    }
}

proof fn lemma_dec_nonneg(d: Seq<u8>, s: int, e: int)
    requires
        all_digits(d, s, e),
    ensures
        dec_value(d, s, e) >= 0,
    decreases e - s,
{
    if e > s {
        lemma_dec_nonneg(d, s, e - 1);
    }
}

/// `d` starts with `P6` or `P5`.
pub open spec fn is_ppm(d: Seq<u8>) -> bool {
    d.len() >= 2 && d[0] == 80 && (d[1] == 54 || d[1] == 53)
}

/// `d` starts with `BM`.
pub open spec fn is_bmp(d: Seq<u8>) -> bool {
    d.len() >= 2 && d[0] == 66 && d[1] == 77
}

fn ppm_geometry(data: &[u8]) -> (r: Option<Image>)
    ensures
        match r {
            Some(img) => ppm_geometry_spec(data@) == Some((img.header, img.bpp, img.stride, img.rows)),
            None => ppm_geometry_spec(data@) is None,
        },
{
    let ghost d = data@;
    let channels: usize = if data.len() >= 2 && data[0] == 80 && data[1] == 54 {
        3
    } else if data.len() >= 2 && data[0] == 80 && data[1] == 53 {
        1
    } else {
        return None;
    };
    let (w, p1) = match read_number(data, 2) {
        Some(x) => x,
        None => return None,
    };
    let (h, p2) = match read_number(data, p1) {
        Some(x) => x,
        None => return None,
    };
    let (maxval, p3) = match read_number(data, p2) {
        Some(x) => x,
        None => return None,
    };
    let header = if p3 < data.len() && is_ws_byte(data[p3]) { p3 + 1 } else { p3 };
    if w == 0 || h == 0 || maxval == 0 {
        return None;
    }
    let bpp = if maxval < 256 { channels } else { 2 * channels };
    let stride = match w.checked_mul(bpp) {
        Some(x) => x,
        None => return None,
    };
    Some(Image { header, bpp, stride, rows: h })
}

/// The little-endian number at `at`.
pub open spec fn le_at(d: Seq<u8>, at: int) -> u32 {
    crate::text::from_le(d[at], d[at + 1], d[at + 2], d[at + 3])
}

fn le_u32(data: &[u8], at: usize) -> (v: u32)
    requires
        at + 4 <= data.len(),
    ensures
        v == le_at(data@, at as int),
{
    crate::text::read_le32(data[at], data[at + 1], data[at + 2], data[at + 3])
}

/// The geometry of an uncompressed 24- or 32-bit BMP: the pixel offset,
/// the width and (signed) height, the rows padded to four bytes. Pixels
/// that would start inside the 54-byte header are not taken: filtering them
/// would change the fields the geometry is read back from.
pub open spec fn bmp_geometry_spec(d: Seq<u8>) -> Option<(usize, usize, usize, usize)> {
    if !is_bmp(d) || d.len() < 54 {
        None
    } else {
        let offset = le_at(d, 10) as usize;
        let width = le_at(d, 18) as i32;
        let height = le_at(d, 22) as i32;
        let bit_count = d[28] + 256 * d[29];
        let rows: int = if height < 0 { -(height as int) } else { height as int };
        let bpp: int = bit_count / 8;
        if le_at(d, 14) < 40 || le_at(d, 30) != 0 || width <= 0 || height == 0 || (bit_count != 24 && bit_count != 32) {
            None
        } else if width * bpp + 3 > usize::MAX || offset > d.len() || offset < 54 {
            None
        } else {
            Some((offset, bpp as usize, ((width * bpp + 3) / 4 * 4) as usize, rows as usize))
        }
    }
}

fn bmp_geometry(data: &[u8]) -> (r: Option<Image>)
    ensures
        match r {
            Some(img) => bmp_geometry_spec(data@) == Some((img.header, img.bpp, img.stride, img.rows)),
            None => bmp_geometry_spec(data@) is None,
        },
{
    if !(data.len() >= 2 && data[0] == 66 && data[1] == 77) || data.len() < 54 {
        return None;
    }
    let offset = le_u32(data, 10) as usize;
    let bi_size = le_u32(data, 14);
    if bi_size < 40 {
        return None;
    }
    let width = le_u32(data, 18) as i32;
    let height = le_u32(data, 22) as i32;
    let bit_count: u16 = data[28] as u16 + 256 * (data[29] as u16);
    let compression = le_u32(data, 30);
    if compression != 0 || width <= 0 || height == 0 {
        return None;
    }
    if bit_count != 24 && bit_count != 32 {
        return None;
    }
    let w = width as usize;
    let rows: usize = if height < 0 { (-(height as i64)) as usize } else { height as usize };
    let bpp = (bit_count / 8) as usize;
    let wb = match w.checked_mul(bpp) {
        Some(x) => x,
        None => return None,
    };
    if wb > usize::MAX - 3 {
        return None;
    }
    let stride = (wb + 3) / 4 * 4;
    if offset > data.len() || offset < 54 {
        return None;
    }
    Some(Image { header: offset, bpp, stride, rows })
}

/// The geometry of a PPM or BMP, by its signature.
pub open spec fn geometry_spec(d: Seq<u8>) -> Option<(usize, usize, usize, usize)> {
    if is_ppm(d) {
        ppm_geometry_spec(d)
    } else if is_bmp(d) {
        bmp_geometry_spec(d)
    } else {
        None
    }
}

fn geometry(data: &[u8]) -> (r: Option<Image>)
    ensures
        match r {
            Some(img) => geometry_spec(data@) == Some((img.header, img.bpp, img.stride, img.rows)),
            None => geometry_spec(data@) is None,
        },
{
    if data.len() >= 2 && data[0] == 80 && (data[1] == 54 || data[1] == 53) {
        ppm_geometry(data)
    } else if data.len() >= 2 && data[0] == 66 && data[1] == 77 {
        bmp_geometry(data)
    } else {
        None
    }
}

/// An image whose rows exactly fill the bytes after its header.
pub open spec fn detect_spec(d: Seq<u8>) -> Option<(usize, usize, usize, usize)> {
    match geometry_spec(d) {
        None => None,
        Some((h, bpp, s, rows)) => {
            if s == 0 || rows == 0 || h + rows * s != d.len() {
                None
            } else {
                Some((h, bpp, s, rows))
            }
        },
    }
}

/// The geometry of a raw image whose pixels fill the rest of `data`.
pub fn detect(data: &[u8]) -> (r: Option<Image>)
    ensures
        match r {
            Some(img) => detect_spec(data@) == Some((img.header, img.bpp, img.stride, img.rows)),
            None => detect_spec(data@) is None,
        },
{
    let n = data.len();
    let img = match geometry(data) {
        Some(i) => i,
        None => return None,
    };
    if img.stride == 0 || img.rows == 0 {
        return None;
    }
    let pixels = match img.rows.checked_mul(img.stride) {
        Some(x) => x,
        None => return None,
    };
    let total = match img.header.checked_add(pixels) {
        Some(x) => x,
        None => return None,
    };
    if total != n {
        return None;
    }
    Some(img)
}

/// `|x|`.
pub open spec fn abs(x: int) -> int {
    if x < 0 { -x } else { x }
}

/// The Paeth predictor: whichever of `a`, `b`, `c` is closest to
/// `a + b - c` (ties to `a`, then `b`).
pub open spec fn paeth_spec(a: u8, b: u8, c: u8) -> u8 {
    let p = a + b - c;
    let pa = abs(p - a);
    let pb = abs(p - b);
    let pc = abs(p - c);
    if pa <= pb && pa <= pc { a } else if pb <= pc { b } else { c }
}

fn paeth(a: u8, b: u8, c: u8) -> (r: u8)
    ensures
        r == paeth_spec(a, b, c),
{
    let ai = a as i32;
    let bi = b as i32;
    let ci = c as i32;
    let p = ai + bi - ci;
    let pa = if p - ai < 0 { ai - p } else { p - ai };
    let pb = if p - bi < 0 { bi - p } else { p - bi };
    let pc = if p - ci < 0 { ci - p } else { p - ci };
    if pa <= pb && pa <= pc {
        a
    } else if pb <= pc {
        b
    } else {
        c
    }
}

/// The prediction of filter `f` from the left (`a`), upper (`b`) and upper
/// left (`c`) bytes: none, left, up, their average, or Paeth.
pub open spec fn predict_spec(f: u8, a: u8, b: u8, c: u8) -> u8 {
    if f == 1 { a } else if f == 2 { b } else if f == 3 { ((a + b) / 2) as u8 } else if f == 4 { paeth_spec(a, b, c) } else { 0 }
}

fn predict(f: u8, a: u8, b: u8, c: u8) -> (r: u8)
    ensures
        r == predict_spec(f, a, b, c),
{
    match f {
        1 => a,
        2 => b,
        3 => ((a as u16 + b as u16) / 2) as u8,
        4 => paeth(a, b, c),
        _ => 0,
    }
}

/// The bytes before `x` in a row: left (`bpp` back), above, above left.
pub open spec fn neighbours(cur: Seq<u8>, prev: Seq<u8>, bpp: int, x: int) -> (u8, u8, u8) {
    let a: u8 = if x >= bpp { cur[x - bpp] } else { 0 };
    let b: u8 = if prev.len() > 0 { prev[x] } else { 0 };
    let c: u8 = if x >= bpp && prev.len() > 0 { prev[x - bpp] } else { 0 };
    (a, b, c)
}

/// The residuals of row `cur` under filter `f` (`prev` is the row above,
/// empty for the first row).
pub open spec fn residuals(cur: Seq<u8>, prev: Seq<u8>, bpp: int, f: u8) -> Seq<u8> {
    Seq::new(cur.len(), |x: int| {
        let (a, b, c) = neighbours(cur, prev, bpp, x);
        cur[x].wrapping_sub(predict_spec(f, a, b, c))
    })
}

/// The cost of residuals: their sizes as signed bytes.
pub open spec fn score(r: Seq<u8>) -> int
    decreases r.len(),
{
    if r.len() == 0 {
        0
    } else {
        score(r.drop_last()) + abs((r.last() as i8) as int)
    }
}

/// The first filter below `k` with the smallest score, and that score.
pub open spec fn best_filter(cur: Seq<u8>, prev: Seq<u8>, bpp: int, k: int) -> (u8, int)
    decreases k,
{
    if k <= 0 {
        (0, 0)
    } else {
        let b = best_filter(cur, prev, bpp, k - 1);
        let sc = score(residuals(cur, prev, bpp, (k - 1) as u8));
        if k == 1 || sc < b.1 { ((k - 1) as u8, sc) } else { b }
    }
}

/// The filtered form of a row: the chosen filter, then its residuals.
pub open spec fn filter_row(cur: Seq<u8>, prev: Seq<u8>, bpp: int) -> Seq<u8> {
    let f = best_filter(cur, prev, bpp, 5).0;
    seq![f] + residuals(cur, prev, bpp, f)
}

/// The filtered form of `k` rows of `s` bytes from `px`, after the row
/// `prev`.
pub open spec fn filter_rows(px: Seq<u8>, prev: Seq<u8>, s: int, bpp: int, k: nat) -> Seq<u8>
    decreases k,
{
    if k == 0 {
        Seq::empty()
    } else {
        let cur = px.take(s);
        filter_row(cur, prev, bpp) + filter_rows(px.skip(s), cur, s, bpp, (k - 1) as nat)
    }
}

/// What `filter` makes of an image: the header, then the filtered rows.
pub open spec fn spec_filter(d: Seq<u8>, h: int, bpp: int, s: int, rows: nat) -> Seq<u8> {
    d.take(h) + filter_rows(d.skip(h), Seq::empty(), s, bpp, rows)
}

proof fn lemma_score_bound(r: Seq<u8>)
    ensures
        0 <= score(r) <= 128 * r.len(),
    decreases r.len(),
{
    if r.len() > 0 {
        lemma_score_bound(r.drop_last());
    }
}

fn filter_one(cur: &[u8], prev: &[u8], bpp: usize, f: u8, cand: &mut Vec<u8>) -> (sc: u128)
    requires
        prev@.len() == 0 || prev@.len() == cur@.len(),
    ensures
        final(cand)@ == residuals(cur@, prev@, bpp as int, f),
        sc == score(residuals(cur@, prev@, bpp as int, f)),
        sc <= 128 * cur@.len(),
{
    let ghost r = residuals(cur@, prev@, bpp as int, f);
    cand.clear();
    let mut sc: u128 = 0;
    let mut x: usize = 0;
    while x < cur.len()
        invariant
            x <= cur@.len(),
            prev@.len() == 0 || prev@.len() == cur@.len(),
            r == residuals(cur@, prev@, bpp as int, f),
            cand@ == r.take(x as int),
            sc == score(r.take(x as int)),
        decreases cur.len() - x,
    {
        proof {
            lemma_score_bound(r.take(x as int));
        }
        let a: u8 = if x >= bpp { cur[x - bpp] } else { 0 };
        let b: u8 = if prev.len() > 0 { prev[x] } else { 0 };
        let c: u8 = if x >= bpp && prev.len() > 0 { prev[x - bpp] } else { 0 };
        let res = cur[x].wrapping_sub(predict(f, a, b, c));
        cand.push(res);
        let sr = res as i8;
        let mag: u128 = if sr < 0 { (-(sr as i16)) as u128 } else { sr as u128 };
        assert(r.take(x as int + 1).drop_last() =~= r.take(x as int));
        sc = sc + mag;
        x = x + 1;
        assert(cand@ =~= r.take(x as int));
    }
    assert(r.take(x as int) =~= r);
    proof {
        lemma_score_bound(r);
    }
    sc
}

/// Filters each row of `img` in `data` with the filter (none, left, up,
/// average, Paeth) that gives the smallest residuals, first one on ties;
/// the header is kept.
pub fn filter(data: &[u8], img: &Image) -> (out: Vec<u8>)
    requires
        img.header + img.rows * img.stride == data@.len(),
        1 <= img.stride,
    ensures
        out@ == spec_filter(data@, img.header as int, img.bpp as int, img.stride as int, img.rows as nat),
{
    let stride = img.stride;
    let bpp = img.bpp;
    let n = data.len();
    let ghost d = data@;
    let mut out: Vec<u8> = Vec::new();
    slices::append(&mut out, &data[0..img.header]);
    let ghost h0 = out@;
    let mut best: Vec<u8> = Vec::new();
    let mut cand: Vec<u8> = Vec::new();
    let mut pos: usize = img.header;
    let mut r: usize = 0;
    let ghost full = filter_rows(d.skip(img.header as int), Seq::empty(), stride as int, bpp as int, img.rows as nat);
    assert(img.rows * img.stride >= 0) by (nonlinear_arith)
        requires
            img.rows >= 0,
            img.stride >= 0,
    ;
    while r < img.rows
        invariant
            d == data@,
            r <= img.rows,
            stride == img.stride,
            bpp == img.bpp,
            1 <= stride,
            pos == img.header + r * stride,
            img.header + img.rows * stride == d.len(),
            n == d.len(),
            h0.len() <= out@.len(),
            full == out@.skip(h0.len() as int) + filter_rows(d.skip(pos as int), if r == 0 { Seq::empty() } else { d.subrange(pos - stride, pos as int) }, stride as int, bpp as int, (img.rows - r) as nat),
            out@.take(h0.len() as int) == h0,
            h0 == d.take(img.header as int),
        decreases img.rows - r,
    {
        assert(pos + stride <= d.len()) by (nonlinear_arith)
            requires
                pos == img.header + r * stride,
                img.header + img.rows * stride == d.len(),
                r < img.rows,
        ;
        assert(r > 0 ==> pos >= stride) by (nonlinear_arith)
            requires
                pos == img.header + r * stride,
                stride >= 1,
        ;
        let cur = &data[pos..pos + stride];
        let prev: &[u8] = if r > 0 { &data[pos - stride..pos] } else { &data[0..0] };
        let mut best_type: u8 = 0;
        let mut best_score: u128 = 0;
        let mut f: u8 = 0;
        while f < 5
            invariant
                f <= 5,
                prev@.len() == 0 || prev@.len() == cur@.len(),
                (best_type, best_score as int) == best_filter(cur@, prev@, bpp as int, f as int),
                f > 0 ==> best@ == residuals(cur@, prev@, bpp as int, best_type),
            decreases 5 - f,
        {
            let sc = filter_one(cur, prev, bpp, f, &mut cand);
            if f == 0 || sc < best_score {
                best_score = sc;
                best_type = f;
                best = slices::copy(cand.as_slice());
            }
            f = f + 1;
        }
        let ghost o0 = out@;
        out.push(best_type);
        slices::append(&mut out, best.as_slice());
        proof {
            assert(prev@ == (if r == 0 { Seq::empty() } else { d.subrange(pos - stride, pos as int) }));
            assert(cur@ == d.skip(pos as int).take(stride as int));
            assert(d.skip(pos as int).skip(stride as int) =~= d.skip(pos + stride));
            assert(out@.skip(h0.len() as int) =~= o0.skip(h0.len() as int) + filter_row(cur@, prev@, bpp as int));
        }
        pos = pos + stride;
        r = r + 1;
        assert(pos == img.header + r * stride) by (nonlinear_arith)
            requires
                pos == img.header + (r - 1) * stride + stride,
        ;
        assert(d.subrange(pos - stride, pos as int) == cur@);
    }
    assert(filter_rows(d.skip(pos as int), d.subrange(pos - stride, pos as int), stride as int, bpp as int, 0) =~= Seq::<u8>::empty());
    assert(out@ =~= out@.take(h0.len() as int) + out@.skip(h0.len() as int));
    out
}

/// The first `x` bytes of a row rebuilt from its residuals `fr` under
/// filter `f`, below the row `prev` (empty for the first row).
pub open spec fn decode_row(fr: Seq<u8>, prev: Seq<u8>, bpp: int, f: u8, x: int) -> Seq<u8>
    decreases x,
{
    if x <= 0 {
        Seq::empty()
    } else {
        let row = decode_row(fr, prev, bpp, f, x - 1);
        let (a, b, c) = neighbours(row, prev, bpp, x - 1);
        row.push(fr[x - 1].wrapping_add(predict_spec(f, a, b, c)))
    }
}

/// `k` rows of `s` zero bytes.
pub open spec fn zero_rows(s: int, k: nat) -> Seq<u8>
    decreases k,
{
    if k == 0 {
        Seq::empty()
    } else {
        Seq::new(s as nat, |i: int| 0u8) + zero_rows(s, (k - 1) as nat)
    }
}

/// `k` rows rebuilt from the filtered rows `fl` (a filter byte and `s`
/// residuals each) below the row `prev`; rows missing from `fl` are zero.
pub open spec fn unfilter_rows(fl: Seq<u8>, prev: Seq<u8>, s: int, bpp: int, k: nat) -> Seq<u8>
    decreases k,
{
    if k == 0 {
        Seq::empty()
    } else if fl.len() < 1 + s {
        zero_rows(s, k)
    } else {
        let row = decode_row(fl.subrange(1, 1 + s), prev, bpp, fl[0], s);
        row + unfilter_rows(fl.skip(1 + s), row, s, bpp, (k - 1) as nat)
    }
}

/// What `unfilter` gives: for data with an image header, the header and the
/// rebuilt rows; anything else (and an image too large to hold) unchanged.
pub open spec fn spec_unfilter(d: Seq<u8>) -> Seq<u8> {
    match geometry_spec(d) {
        None => d,
        Some((h, bpp, s, rows)) => {
            if rows * s > usize::MAX {
                d
            } else {
                d.take(h as int) + unfilter_rows(d.skip(h as int), Seq::empty(), s as int, bpp as int, rows as nat)
            }
        },
    }
}

fn unfilter_row(frow: &[u8], prev: &Vec<u8>, bpp: usize, f: u8) -> (row: Vec<u8>)
    requires
        bpp >= 1,
        prev@.len() == 0 || prev@.len() == frow@.len(),
    ensures
        row@ == decode_row(frow@, prev@, bpp as int, f, frow@.len() as int),
        row@.len() == frow@.len(),
{
    let mut row: Vec<u8> = Vec::new();
    let mut x: usize = 0;
    while x < frow.len()
        invariant
            x <= frow@.len(),
            bpp >= 1,
            prev@.len() == 0 || prev@.len() == frow@.len(),
            row@ == decode_row(frow@, prev@, bpp as int, f, x as int),
            row@.len() == x,
        decreases frow.len() - x,
    {
        let a: u8 = if x >= bpp { row[x - bpp] } else { 0 };
        let b: u8 = if prev.len() > 0 { prev[x] } else { 0 };
        let c: u8 = if x >= bpp && prev.len() > 0 { prev[x - bpp] } else { 0 };
        row.push(frow[x].wrapping_add(predict(f, a, b, c)));
        x = x + 1;
    }
    row
}

/// Reverses `filter` on data whose header describes an image; anything
/// else is returned unchanged.
pub fn unfilter(data: &[u8]) -> (out: Vec<u8>)
    ensures
        out@ == spec_unfilter(data@),
{
    let ghost d = data@;
    let img = match geometry(data) {
        Some(i) => i,
        None => return slices::copy(data),
    };
    if img.rows.checked_mul(img.stride).is_none() {
        return slices::copy(data);
    }
    proof {
        lemma_geometry_header(d);
    }
    let stride = img.stride;
    let bpp = img.bpp;
    let mut out: Vec<u8> = Vec::new();
    slices::append(&mut out, &data[0..img.header]);
    let filtered = &data[img.header..data.len()];
    let ghost fl = filtered@;
    let ghost full = unfilter_rows(fl, Seq::empty(), stride as int, bpp as int, img.rows as nat);
    let ghost h0 = out@;
    let mut prev: Vec<u8> = Vec::new();
    let mut base: usize = 0;
    let mut stopped = false;
    let mut r: usize = 0;
    assert(fl.skip(0) =~= fl);
    assert(out@.skip(h0.len() as int) =~= Seq::<u8>::empty());
    assert(prev@ =~= Seq::<u8>::empty());
    while r < img.rows
        invariant
            fl == filtered@,
            r <= img.rows,
            stride == img.stride,
            bpp == img.bpp,
            bpp >= 1,
            stride >= 1,
            base <= fl.len(),
            !stopped ==> (r == 0 <==> prev@.len() == 0),
            !stopped ==> (prev@.len() == 0 || prev@.len() == stride),
            h0.len() <= out@.len(),
            out@.take(h0.len() as int) == h0,
            full == out@.skip(h0.len() as int) + (if stopped {
                zero_rows(stride as int, (img.rows - r) as nat)
            } else {
                unfilter_rows(fl.skip(base as int), prev@, stride as int, bpp as int, (img.rows - r) as nat)
            }),
        decreases img.rows - r,
    {
        let ghost o0 = out@;
        if !stopped && filtered.len() - base > stride {
            let ftype = filtered[base];
            let frow = &filtered[base + 1..base + 1 + stride];
            let row = unfilter_row(frow, &prev, bpp, ftype);
            slices::append(&mut out, row.as_slice());
            proof {
                assert(frow@ == fl.skip(base as int).subrange(1, 1 + stride));
                assert(fl.skip(base as int).skip(1 + stride) =~= fl.skip(base + 1 + stride));
                assert(out@.skip(h0.len() as int) =~= o0.skip(h0.len() as int) + row@);
            }
            base = base + 1 + stride;
            prev = row;
        } else {
            let ghost was = stopped;
            stopped = true;
            let mut k: usize = 0;
            while k < stride
                invariant
                    k <= stride,
                    out@ == o0 + Seq::new(k as nat, |i: int| 0u8),
                decreases stride - k,
            {
                out.push(0);
                k = k + 1;
                assert(out@ =~= o0 + Seq::new(k as nat, |i: int| 0u8));
            }
            proof {
                assert(out@.skip(h0.len() as int) =~= o0.skip(h0.len() as int) + Seq::new(stride as nat, |i: int| 0u8));
            }
        }
        r = r + 1;
    }
    assert(out@ =~= h0 + full);
    out
}

proof fn lemma_geometry_header(d: Seq<u8>)
    requires
        geometry_spec(d) is Some,
    ensures
        geometry_spec(d).unwrap().0 <= d.len(),
        geometry_spec(d).unwrap().1 >= 1,
        geometry_spec(d).unwrap().2 >= 1,
{
    if is_ppm(d) {
        let r1 = read_num(d, 2);
        if let Some((w, p1)) = r1 {
            assert(p1 <= d.len()) by {
                lemma_read_num_end(d, 2);
            }
            if let Some((h, p2)) = read_num(d, p1) {
                lemma_read_num_end(d, p1);
                lemma_read_num_end(d, p2);
                if let Some((m, p3)) = read_num(d, p2) {
                    let channels: int = if d.len() >= 2 && d[0] == 80 && d[1] == 54 { 3 } else { 1 };
                    let bpp = if m < 256 { channels } else { 2 * channels };
                    assert(w >= 1 ==> w * bpp >= 1) by (nonlinear_arith)
                        requires
                            bpp >= 1,
                    ;
                }
            }
        }
    }
}

proof fn lemma_read_num_end(d: Seq<u8>, pos: int)
    requires
        0 <= pos <= d.len() || pos > d.len(),
    ensures
        read_num(d, pos) matches Some((v, e)) ==> e <= d.len() || e == pos,
{
    if 0 <= pos <= d.len() {
        lemma_skip_space(d, pos);
        lemma_digits_end(d, skip_space(d, pos));
    }
}


/// `d1` and `d2` hold the same bytes below `k`.
pub open spec fn agree(d1: Seq<u8>, d2: Seq<u8>, k: int) -> bool {
    &&& 0 <= k <= d1.len()
    &&& k <= d2.len()
    &&& forall|i: int| 0 <= i < k ==> #[trigger] d1[i] == d2[i]
}

proof fn lemma_comment_end_frame(d1: Seq<u8>, d2: Seq<u8>, pos: int, k: int)
    requires
        agree(d1, d2, k),
        0 <= pos <= d1.len(),
        comment_end(d1, pos) < k,
    ensures
        comment_end(d2, pos) == comment_end(d1, pos),
    decreases d1.len() - pos,
{
    lemma_comment_end(d1, pos);
    if pos < d1.len() {
        assert(d2[pos] == d1[pos]);
    }
    if pos < d1.len() && d1[pos] != 10 {
        lemma_comment_end_frame(d1, d2, pos + 1, k);
    }
}

proof fn lemma_skip_space_frame(d1: Seq<u8>, d2: Seq<u8>, pos: int, k: int)
    requires
        agree(d1, d2, k),
        0 <= pos <= d1.len(),
        skip_space(d1, pos) < k,
    ensures
        skip_space(d2, pos) == skip_space(d1, pos),
    decreases d1.len() - pos,
{
    lemma_skip_space(d1, pos);
    if pos < d1.len() {
        assert(pos < k);
        assert(d2[pos] == d1[pos]);
        assert(pos < d2.len());
        if d1[pos] == 35 {
            lemma_comment_end(d1, pos);
            let e = comment_end(d1, pos);
            lemma_comment_end(d1, pos + 1);
            assert(e > pos);
            lemma_skip_space(d1, e);
            assert(skip_space(d1, pos) == skip_space(d1, e));
            lemma_comment_end_frame(d1, d2, pos, k);
            assert(comment_end(d2, pos) == e);
            lemma_skip_space_frame(d1, d2, e, k);
            assert(skip_space(d2, pos) == skip_space(d2, e));
        } else if is_ws(d1[pos]) {
            lemma_skip_space_frame(d1, d2, pos + 1, k);
        }
    }
}

proof fn lemma_digits_end_frame(d1: Seq<u8>, d2: Seq<u8>, pos: int, k: int)
    requires
        agree(d1, d2, k),
        0 <= pos <= digits_end(d1, pos) <= k,
        digits_end(d1, pos) == k ==> k < d1.len() && k < d2.len() && !is_digit(d2[k]),
    ensures
        digits_end(d2, pos) == digits_end(d1, pos),
    decreases d1.len() - pos,
{
    if 0 <= pos < d1.len() && is_digit(d1[pos]) {
        lemma_digits_end(d1, pos + 1);
        lemma_digits_end_frame(d1, d2, pos + 1, k);
    }
}

proof fn lemma_dec_value_frame(d1: Seq<u8>, d2: Seq<u8>, start: int, end: int, k: int)
    requires
        agree(d1, d2, k),
        0 <= start,
        end <= k,
    ensures
        dec_value(d2, start, end) == dec_value(d1, start, end),
    decreases end - start,
{
    if end > start {
        lemma_dec_value_frame(d1, d2, start, end - 1, k);
    }
}

proof fn lemma_read_num_frame(d1: Seq<u8>, d2: Seq<u8>, pos: int, k: int)
    requires
        agree(d1, d2, k),
        0 <= pos <= d1.len(),
        read_num(d1, pos) matches Some((v, e)) && e <= k && (e == k ==> k < d1.len() && k < d2.len() && !is_digit(d2[k])),
    ensures
        read_num(d2, pos) == read_num(d1, pos),
{
    lemma_skip_space(d1, pos);
    let s1 = skip_space(d1, pos);
    lemma_digits_end(d1, s1);
    let e = digits_end(d1, s1);
    lemma_skip_space_frame(d1, d2, pos, k);
    lemma_digits_end_frame(d1, d2, s1, k);
    lemma_dec_value_frame(d1, d2, s1, e, k);
}

proof fn lemma_best_filter_small(cur: Seq<u8>, prev: Seq<u8>, bpp: int, k: int)
    requires
        1 <= k <= 256,
    ensures
        best_filter(cur, prev, bpp, k).0 < k,
    decreases k,
{
    if k > 1 {
        lemma_best_filter_small(cur, prev, bpp, k - 1);
    } else {
        assert(best_filter(cur, prev, bpp, 0).0 == 0);
    }
}

proof fn lemma_decode_residuals(cur: Seq<u8>, prev: Seq<u8>, bpp: int, f: u8, x: int)
    requires
        bpp >= 1,
        prev.len() == 0 || prev.len() == cur.len(),
        0 <= x <= cur.len(),
    ensures
        decode_row(residuals(cur, prev, bpp, f), prev, bpp, f, x) == cur.take(x),
    decreases x,
{
    if x > 0 {
        lemma_decode_residuals(cur, prev, bpp, f, x - 1);
        let row = cur.take(x - 1);
        assert(neighbours(row, prev, bpp, x - 1) == neighbours(cur, prev, bpp, x - 1));
        assert(cur.take(x - 1).push(cur[x - 1]) =~= cur.take(x));
    }
}

proof fn lemma_unfilter_filter_rows(px: Seq<u8>, prev: Seq<u8>, s: int, bpp: int, k: nat)
    requires
        s >= 1,
        bpp >= 1,
        prev.len() == 0 || prev.len() == s,
        px.len() == k * s,
    ensures
        unfilter_rows(filter_rows(px, prev, s, bpp, k), prev, s, bpp, k) == px,
        filter_rows(px, prev, s, bpp, k).len() == k * (1 + s),
    decreases k,
{
    if k == 0 {
        assert(k * s == 0) by (nonlinear_arith)
            requires
                k == 0,
        ;
        assert(px =~= Seq::<u8>::empty());
    } else {
        assert(px.len() == (k - 1) * s + s) by (nonlinear_arith)
            requires
                px.len() == k * s,
        ;
        let cur = px.take(s);
        let rest = px.skip(s);
        lemma_unfilter_filter_rows(rest, cur, s, bpp, (k - 1) as nat);
        let f = best_filter(cur, prev, bpp, 5).0;
        let fr = filter_row(cur, prev, bpp);
        let fl = fr + filter_rows(rest, cur, s, bpp, (k - 1) as nat);
        assert(fl[0] == f);
        assert(fl.subrange(1, 1 + s) =~= residuals(cur, prev, bpp, f));
        assert(fl.skip(1 + s) =~= filter_rows(rest, cur, s, bpp, (k - 1) as nat));
        lemma_decode_residuals(cur, prev, bpp, f, s);
        assert(cur.take(s) =~= cur);
        assert(cur + rest =~= px);
        assert((k - 1) * (1 + s) + (1 + s) == k * (1 + s)) by (nonlinear_arith);
    }
}

/// The first byte after an image header in its filtered form: the first
/// row's filter, one of the five filters.
proof fn lemma_first_filter_byte(d: Seq<u8>, h: int, bpp: int, s: int, rows: nat)
    requires
        0 <= h <= d.len(),
        s >= 1,
        rows >= 1,
        d.len() == h + rows * s,
    ensures
        spec_filter(d, h, bpp, s, rows).len() > h,
        spec_filter(d, h, bpp, s, rows)[h] <= 4,
{
    let px = d.skip(h);
    assert(px.len() == rows * s);
    assert(px.len() >= s) by (nonlinear_arith)
        requires
            px.len() == rows * s,
            rows >= 1,
            s >= 1,
    ;
    lemma_best_filter_small(px.take(s), Seq::empty(), bpp, 5);
}

/// The geometry of an image reads back from its filtered form: the header
/// is kept, and the byte after a PPM header is a filter, neither a digit nor
/// white space.
proof fn lemma_geometry_filtered(d: Seq<u8>, h: usize, bpp: usize, s: usize, rows: usize)
    requires
        detect_spec(d) == Some((h, bpp, s, rows)),
        d.len() <= usize::MAX,
    ensures
        geometry_spec(spec_filter(d, h as int, bpp as int, s as int, rows as nat)) == geometry_spec(d),
{
    lemma_geometry_header(d);
    let f = spec_filter(d, h as int, bpp as int, s as int, rows as nat);
    lemma_first_filter_byte(d, h as int, bpp as int, s as int, rows as nat);
    assert(agree(d, f, h as int));
    if is_ppm(d) {
        let r1 = read_num(d, 2);
        let (w, p1) = r1.unwrap();
        lemma_read_num_end(d, 2);
        let (hh, p2) = read_num(d, p1).unwrap();
        lemma_read_num_end(d, p1);
        let (m, p3) = read_num(d, p2).unwrap();
        lemma_read_num_end(d, p2);
        lemma_skip_space(d, p1);
        lemma_skip_space(d, p2);
        lemma_skip_space(d, 2);
        assert(p3 <= h);
        assert(p1 < p3 && p2 < p3);
        assert(rows * s >= 1) by (nonlinear_arith)
            requires
                rows >= 1,
                s >= 1,
        ;
        assert(d.len() >= 2 && f[0] == d[0] && f[1] == d[1]);
        lemma_read_num_frame(d, f, 2, h as int);
        lemma_read_num_frame(d, f, p1, h as int);
        if p3 == h {
            assert(!is_digit(f[p3]));
        }
        lemma_read_num_frame(d, f, p2, h as int);
        if p3 < h {
            assert(f[p3] == d[p3]);
        } else {
            assert(!is_ws(f[p3]));
        }
    } else {
        assert(is_bmp(d));
        assert(f[10] == d[10] && f[11] == d[11] && f[12] == d[12] && f[13] == d[13]);
        assert(f[14] == d[14] && f[15] == d[15] && f[16] == d[16] && f[17] == d[17]);
        assert(f[18] == d[18] && f[19] == d[19] && f[20] == d[20] && f[21] == d[21]);
        assert(f[22] == d[22] && f[23] == d[23] && f[24] == d[24] && f[25] == d[25]);
        assert(f[28] == d[28] && f[29] == d[29]);
        assert(f[30] == d[30] && f[31] == d[31] && f[32] == d[32] && f[33] == d[33]);
    }
}

/// Filtering is reversible: unfiltering the filtered form of a raw image
/// gives the image back.
pub proof fn lemma_unfilter_filter(d: Seq<u8>)
    requires
        detect_spec(d) is Some,
        d.len() <= usize::MAX,
    ensures
        ({
            let (h, bpp, s, rows) = detect_spec(d).unwrap();
            spec_unfilter(spec_filter(d, h as int, bpp as int, s as int, rows as nat)) == d
        }),
{
    let (h, bpp, s, rows) = detect_spec(d).unwrap();
    lemma_geometry_header(d);
    lemma_geometry_filtered(d, h, bpp, s, rows);
    let f = spec_filter(d, h as int, bpp as int, s as int, rows as nat);
    let px = d.skip(h as int);
    lemma_unfilter_filter_rows(px, Seq::empty(), s as int, bpp as int, rows as nat);
    assert(f.take(h as int) =~= d.take(h as int));
    assert(f.skip(h as int) =~= filter_rows(px, Seq::empty(), s as int, bpp as int, rows as nat));
    assert(d.take(h as int) + px =~= d);
}


/// The filter `best_filter` picks among the first `k` has the smallest
/// score among them, and every filter before it scores more.
proof fn lemma_best_filter_min(cur: Seq<u8>, prev: Seq<u8>, bpp: int, k: int)
    requires
        1 <= k <= 5,
    ensures
        ({
            let b = best_filter(cur, prev, bpp, k);
            &&& b.0 < k
            &&& b.1 == score(residuals(cur, prev, bpp, b.0))
            &&& forall|g: u8| g < k ==> b.1 <= #[trigger] score(residuals(cur, prev, bpp, g))
            &&& forall|g: u8| g < b.0 ==> b.1 < #[trigger] score(residuals(cur, prev, bpp, g))
        }),
    decreases k,
{
    if k > 1 {
        lemma_best_filter_min(cur, prev, bpp, k - 1);
        let b = best_filter(cur, prev, bpp, k);
        assert forall|g: u8| g < k implies b.1 <= #[trigger] score(residuals(cur, prev, bpp, g)) by {
            if g < k - 1 {
            } else {
                assert(g == (k - 1) as u8);
            }
        }
    } else {
        let b = best_filter(cur, prev, bpp, 1);
        assert forall|g: u8| g < 1 implies b.1 <= #[trigger] score(residuals(cur, prev, bpp, g)) by {
            assert(g == 0u8);
        }
    }
}

/// Row `r` of the filtered rows: the filtered form of row `r` of `px` below
/// the row before it (`prev` for the first).
proof fn lemma_filter_rows_at(px: Seq<u8>, prev: Seq<u8>, s: int, bpp: int, k: nat, r: int)
    requires
        s >= 1,
        px.len() == k * s,
        0 <= r < k,
    ensures
        filter_rows(px, prev, s, bpp, k).len() == k * (1 + s),
        filter_rows(px, prev, s, bpp, k).subrange(r * (1 + s), (r + 1) * (1 + s))
            == filter_row(px.subrange(r * s, r * s + s), if r == 0 { prev } else { px.subrange(r * s - s, r * s) }, bpp),
    decreases k,
{
    assert(px.len() == (k - 1) * s + s) by (nonlinear_arith)
        requires
            px.len() == k * s,
    ;
    let cur = px.take(s);
    let rest = px.skip(s);
    let fr = filter_row(cur, prev, bpp);
    assert(fr.len() == 1 + s);
    let all = filter_rows(px, prev, s, bpp, k);
    let tail = filter_rows(rest, cur, s, bpp, (k - 1) as nat);
    assert(all == fr + tail);
    if k == 1 {
        assert(tail =~= Seq::<u8>::empty());
        assert(k * (1 + s) == 1 + s) by (nonlinear_arith)
            requires
                k == 1,
        ;
    } else {
        lemma_filter_rows_at(rest, cur, s, bpp, (k - 1) as nat, 0);
        assert(k * (1 + s) == (k - 1) * (1 + s) + (1 + s)) by (nonlinear_arith);
    }
    if r == 0 {
        assert(all.subrange(0, 1 + s) =~= fr);
        assert(px.subrange(0, s) =~= cur);
    } else {
        lemma_filter_rows_at(rest, cur, s, bpp, (k - 1) as nat, r - 1);
        assert(r * (1 + s) == (r - 1) * (1 + s) + (1 + s)) by (nonlinear_arith);
        assert((r + 1) * (1 + s) == r * (1 + s) + (1 + s)) by (nonlinear_arith);
        assert(r * s == (r - 1) * s + s) by (nonlinear_arith);
        assert(r * s + s <= px.len()) by (nonlinear_arith)
            requires
                px.len() == k * s,
                r < k,
                s >= 1,
        ;
        assert((r + 1) * (1 + s) <= k * (1 + s)) by (nonlinear_arith)
            requires
                r < k,
                s >= 1,
        ;
        assert((r - 1) * s >= 0) by (nonlinear_arith)
            requires
                r >= 1,
                s >= 1,
        ;
        assert(r >= 2 ==> (r - 1) * s >= s) by (nonlinear_arith)
            requires
                s >= 1,
        ;
        assert(all.subrange(r * (1 + s), (r + 1) * (1 + s)) =~= tail.subrange((r - 1) * (1 + s), r * (1 + s)));
        assert(rest.subrange((r - 1) * s, (r - 1) * s + s) =~= px.subrange(r * s, r * s + s));
        if r == 1 {
            assert(px.subrange(r * s - s, r * s) =~= cur);
        } else {
            assert(rest.subrange((r - 1) * s - s, (r - 1) * s) =~= px.subrange(r * s - s, r * s));
        }
    }
}

/// Filtering keeps the header and picks, for every row, a filter with the
/// smallest residual score among the five (none, sub, up, average,
/// Paeth), the first one on ties: row `r` is written as that filter's byte,
/// then the row's residuals under it.
pub proof fn lemma_filter_picks_best(d: Seq<u8>, h: int, bpp: int, s: int, rows: nat, r: int)
    requires
        0 <= h <= d.len(),
        s >= 1,
        d.len() == h + rows * s,
        0 <= r < rows,
    ensures
        ({
            let out = spec_filter(d, h, bpp, s, rows);
            let at = h + r * (1 + s);
            let cur = d.subrange(h + r * s, h + r * s + s);
            let prev = if r == 0 { Seq::<u8>::empty() } else { d.subrange(h + r * s - s, h + r * s) };
            let f = out[at];
            &&& out.len() == h + rows * (1 + s)
            &&& out.take(h) == d.take(h)
            &&& f < 5
            &&& out.subrange(at + 1, at + 1 + s) == residuals(cur, prev, bpp, f)
            &&& forall|g: u8| g < 5 ==> score(residuals(cur, prev, bpp, f)) <= #[trigger] score(residuals(cur, prev, bpp, g))
            &&& forall|g: u8| g < f ==> score(residuals(cur, prev, bpp, f)) < #[trigger] score(residuals(cur, prev, bpp, g))
        }),
{
    let px = d.skip(h);
    let out = spec_filter(d, h, bpp, s, rows);
    let fl = filter_rows(px, Seq::empty(), s, bpp, rows);
    lemma_filter_rows_at(px, Seq::empty(), s, bpp, rows, r);
    let at = h + r * (1 + s);
    let cur = d.subrange(h + r * s, h + r * s + s);
    let prev = if r == 0 { Seq::<u8>::empty() } else { d.subrange(h + r * s - s, h + r * s) };
    assert(r * s + s <= px.len()) by (nonlinear_arith)
        requires
            px.len() == rows * s,
            r < rows,
            s >= 1,
    ;
    assert((r + 1) * (1 + s) == r * (1 + s) + 1 + s) by (nonlinear_arith);
    assert((r + 1) * (1 + s) <= rows * (1 + s)) by (nonlinear_arith)
        requires
            r < rows,
            s >= 1,
    ;
    assert(r > 0 ==> r * s >= s) by (nonlinear_arith)
        requires
            s >= 1,
    ;
    assert(r * (1 + s) >= 0) by (nonlinear_arith)
        requires
            r >= 0,
            s >= 1,
    ;
    assert(px.subrange(r * s, r * s + s) =~= cur);
    if r > 0 {
        assert(px.subrange(r * s - s, r * s) =~= prev);
    }
    let row = fl.subrange(r * (1 + s), (r + 1) * (1 + s));
    assert(row == filter_row(cur, prev, bpp));
    lemma_best_filter_min(cur, prev, bpp, 5);
    assert(out =~= d.take(h) + fl);
    assert(out[at] == row[0]);
    assert(out.subrange(at + 1, at + 1 + s) =~= row.subrange(1, 1 + s));
    assert(out.take(h) =~= d.take(h));
}

} // verus!
