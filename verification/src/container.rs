//! The packed file: a header (magic, version, mode, filter, extension,
//! original size, CRC), then either the blocks, each with its model,
//! original length and payload, or the original bytes stored as they are.
//! The reader also takes the later layout that carries metadata after the
//! CRC and only the last block's length.
use vstd::prelude::*;
use std::collections::BTreeMap;
use vstd::utf8::encode_utf8;
use crate::block::{self, RAW, SEGMENT_BLOCKS, decode_block};
use crate::crc::{crc32, spec_crc32};
use crate::image;
use crate::models::lz;
use crate::slices;
use crate::text::{le32, le32_bytes, from_le, read_le32, lossy_string, text_of};
use crate::varint;

verus! {

/// The size of a block of the original (the last one may be shorter).
pub const BLOCK_SIZE: usize = 4096;
/// The format version written.
pub const VERSION: u8 = 1;
/// The newest format version read: version 2 adds metadata after the CRC
/// and keeps only the last block's length.
pub const NEWEST_VERSION: u8 = 2;
/// Mode byte: the body is blocks.
pub const MODE_BLOCKS: u8 = 0;
/// Mode byte: the body is the original bytes.
pub const MODE_STORED: u8 = 1;
/// Filter byte: none.
pub const FILTER_NONE: u8 = 0;
/// Filter byte: the blocks hold an image filtered row by row.
pub const FILTER_PNG: u8 = 1;

/// The magic at the start of every packed file: `FOSL`.
pub open spec fn magic() -> Seq<u8> {
    seq![70u8, 79, 83, 76]
}

/// A block: its model, the length of its original bytes, its payload.
pub struct Block {
    pub model: u8,
    pub orig_len: usize,
    pub payload: Vec<u8>,
}

/// A packed file read into memory.
pub struct Container {
    pub ext: String,
    pub orig_size: usize,
    pub crc: u32,
    pub filter: u8,
    pub meta: Vec<u8>,
    pub blocks: Vec<Block>,
}

/// Why a packed file, or a range of it, cannot be read.
#[derive(Debug, Clone, Copy, PartialEq, Eq, Structural)]
pub enum FormatError {
    /// The file ends early.
    Truncated,
    /// The file does not start with the magic.
    BadMagic,
    /// The file has a newer version than this reader.
    UnsupportedVersion(u8),
    /// The mode byte is neither blocks nor stored.
    UnknownMode(u8),
    /// A range reaches past the original.
    RangeBeyond,
    /// A range's end does not fit a `usize`.
    RangeOverflow,
}

/// The header for the given fields.
pub open spec fn spec_header(mode: u8, filter: u8, ext: Seq<u8>, orig_size: usize, crc: u32) -> Seq<u8> {
    magic() + seq![VERSION, mode, filter, ext.len() as u8] + ext + varint::encode(orig_size) + le32(crc)
}

fn header(mode: u8, filter: u8, ext: &[u8], orig_size: usize, crc: u32) -> (out: Vec<u8>)
    ensures
        out@ == spec_header(mode, filter, ext@, orig_size, crc),
{
    let mut out: Vec<u8> = Vec::new();
    out.push(70);
    out.push(79);
    out.push(83);
    out.push(76);
    out.push(VERSION);
    out.push(mode);
    out.push(filter);
    out.push(ext.len() as u8);
    slices::append(&mut out, ext);
    varint::write(&mut out, orig_size);
    let c = le32_bytes(crc);
    slices::append(&mut out, &c);
    assert(out@ =~= spec_header(mode, filter, ext@, orig_size, crc));
    out
}

/// The first `k` blocks: model, original length, payload length, payload.
pub open spec fn blocks_bytes(enc: Seq<(u8, Seq<u8>)>, lens: Seq<usize>, k: int) -> Seq<u8>
    decreases k,
{
    if k <= 0 {
        Seq::empty()
    } else {
        blocks_bytes(enc, lens, k - 1) + seq![enc[k - 1].0] + varint::encode(lens[k - 1])
            + varint::encode(enc[k - 1].1.len() as usize) + enc[k - 1].1
    }
}

/// The model and payload of each encoded block.
pub open spec fn encoded_view(e: Seq<(u8, Vec<u8>)>) -> Seq<(u8, Seq<u8>)> {
    e.map_values(|x: (u8, Vec<u8>)| (x.0, x.1@))
}

/// The blocked form: the header, the block count, then the blocks.
pub open spec fn spec_blocked(orig: Seq<u8>, ext: Seq<u8>, filtered: bool, lens: Seq<usize>, enc: Seq<(u8, Seq<u8>)>) -> Seq<u8> {
    let filter = if filtered { FILTER_PNG } else { FILTER_NONE };
    spec_header(MODE_BLOCKS, filter, ext, orig.len() as usize, spec_crc32(orig)) + varint::encode(enc.len() as usize)
        + blocks_bytes(enc, lens, enc.len() as int)
}

/// The stored form: the header, then the original bytes.
pub open spec fn spec_stored(orig: Seq<u8>, ext: Seq<u8>) -> Seq<u8> {
    spec_header(MODE_STORED, FILTER_NONE, ext, orig.len() as usize, spec_crc32(orig)) + orig
}

/// What `assemble` writes: the blocked form when it is no longer than the
/// stored form, else the stored form.
pub open spec fn spec_assemble(orig: Seq<u8>, ext: Seq<u8>, filtered: bool, lens: Seq<usize>, enc: Seq<(u8, Seq<u8>)>) -> Seq<u8> {
    let blocked = spec_blocked(orig, ext, filtered, lens, enc);
    let stored = spec_stored(orig, ext);
    if blocked.len() <= stored.len() { blocked } else { stored }
}

/// Writes a packed file for `orig` from its encoded blocks; `block_lens`
/// are the original lengths of those blocks.
pub fn assemble(orig: &[u8], ext: &str, filtered: bool, block_lens: &[usize], encoded: &[(u8, Vec<u8>)]) -> (out: Vec<u8>)
    requires
        block_lens.len() == encoded.len(),
    ensures
        out@ == spec_assemble(orig@, encode_utf8(ext@), filtered, block_lens@, encoded_view(encoded@)),
        out@.len() <= spec_stored(orig@, encode_utf8(ext@)).len(),
{
    let ext_bytes = ext.as_bytes();
    let crc = crc32(orig);
    let filter = if filtered { FILTER_PNG } else { FILTER_NONE };
    let ghost enc = encoded_view(encoded@);
    let mut blocked = header(MODE_BLOCKS, filter, ext_bytes, orig.len(), crc);
    varint::write(&mut blocked, encoded.len());
    let ghost h = blocked@;
    let mut i: usize = 0;
    while i < encoded.len()
        invariant
            i <= encoded@.len(),
            block_lens.len() == encoded.len(),
            enc == encoded_view(encoded@),
            blocked@ == h + blocks_bytes(enc, block_lens@, i as int),
        decreases encoded.len() - i,
    {
        blocked.push(encoded[i].0);
        varint::write(&mut blocked, block_lens[i]);
        varint::write(&mut blocked, encoded[i].1.len());
        slices::append(&mut blocked, encoded[i].1.as_slice());
        i = i + 1;
        assert(blocked@ =~= h + blocks_bytes(enc, block_lens@, i as int));
    }
    let mut stored = header(MODE_STORED, FILTER_NONE, ext_bytes, orig.len(), crc);
    slices::append(&mut stored, orig);
    assert(blocked@ =~= spec_blocked(orig@, ext_bytes@, filtered, block_lens@, enc));
    assert(stored@ =~= spec_stored(orig@, ext_bytes@));
    if blocked.len() <= stored.len() {
        blocked
    } else {
        stored
    }
}

/// Whether `ext` names a directory bundle (`/`).
pub open spec fn is_dir_ext(ext: Seq<char>) -> bool {
    encode_utf8(ext) == seq![47u8]
}

fn dir_ext(ext: &str) -> (r: bool)
    ensures
        r == is_dir_ext(ext@),
{
    let b = ext.as_bytes();
    let r = b.len() == 1 && b[0] == 47;
    assert(r ==> b@ =~= seq![47u8]);
    r
}

/// The bytes that are cut into blocks: a detected raw image filtered row by
/// row (not for a directory bundle), else nothing, meaning the input
/// itself.
pub open spec fn spec_block_source(bytes: Seq<u8>, ext: Seq<char>) -> Option<Seq<u8>> {
    if is_dir_ext(ext) {
        None
    } else {
        match image::detect_spec(bytes) {
            None => None,
            Some((h, bpp, s, rows)) => Some(image::spec_filter(bytes, h as int, bpp as int, s as int, rows as nat)),
        }
    }
}

/// The filtered form of `bytes` when it is a raw image and not a directory
/// bundle.
pub fn block_source(bytes: &[u8], ext: &str) -> (r: Option<Vec<u8>>)
    ensures
        match r {
            Some(v) => spec_block_source(bytes@, ext@) == Some(v@),
            None => spec_block_source(bytes@, ext@) is None,
        },
{
    if dir_ext(ext) {
        return None;
    }
    match image::detect(bytes) {
        Some(img) => Some(image::filter(bytes, &img)),
        None => None,
    }
}

/// The `n` bytes at `pos` and the position after them, if there are that
/// many.
pub open spec fn take_at(d: Seq<u8>, pos: int, n: int) -> Option<(Seq<u8>, int)> {
    if 0 <= pos <= d.len() && 0 <= n <= d.len() - pos { Some((d.subrange(pos, pos + n), pos + n)) } else { None }
}

/// The byte at `pos` and the position after it.
pub open spec fn byte_at(d: Seq<u8>, pos: int) -> Option<(u8, int)> {
    if 0 <= pos < d.len() { Some((d[pos], pos + 1)) } else { None }
}

/// The little-endian number at `pos` and the position after it.
pub open spec fn u32_at(d: Seq<u8>, pos: int) -> Option<(u32, int)> {
    if 0 <= pos && pos + 4 <= d.len() { Some((from_le(d[pos], d[pos + 1], d[pos + 2], d[pos + 3]), pos + 4)) } else { None }
}

/// The varint at `pos`, where the groups so far gave `acc` and the next
/// group is shifted by `shift` (shifts past the width of `usize` wrap, as
/// `wrapping_shl` does); nothing when the bytes run out first.
pub open spec fn var_at(d: Seq<u8>, pos: int, shift: u32, acc: usize) -> Option<(usize, int)>
    decreases d.len() - pos,
{
    if pos < 0 || pos >= d.len() {
        None
    } else {
        let b = d[pos];
        let acc2 = acc | ((b & 0x7f) as usize).wrapping_shl(shift);
        if b & 0x80 == 0 { Some((acc2, pos + 1)) } else { var_at(d, pos + 1, shift.wrapping_add(7), acc2) }
    }
}

proof fn lemma_group_split(v: usize, s: u32)
    by (bit_vector)
    requires
        v >= 0x80,
        s < usize::BITS,
        (v << s) >> s == v,
    ensures
        s + 7 < usize::BITS,
        ((v >> 7usize) << ((s + 7) as u32)) >> ((s + 7) as u32) == v >> 7usize,
        ((((((v & 0x7f) | 0x80) as u8) & 0x7f) as usize) << s) | ((v >> 7usize) << ((s + 7) as u32)) == v << s,
        (((v & 0x7f) | 0x80) as u8) & 0x80 != 0,
{
}

proof fn lemma_group_last(v: usize, s: u32)
    by (bit_vector)
    requires
        v < 0x80,
    ensures
        (v as u8) & 0x80 == 0,
        (((v as u8) & 0x7f) as usize) == v,
{
}

/// `var_at` reads the encoding of `v` at `pos`, its groups shifted on from
/// `s`, as `v` shifted by `s` over `acc`, and stops after it.
proof fn lemma_var_at_encode(d: Seq<u8>, pos: int, v: usize, s: u32, acc: usize)
    requires
        0 <= pos,
        pos + varint::encode(v).len() <= d.len(),
        d.subrange(pos, pos + varint::encode(v).len()) == varint::encode(v),
        s < usize::BITS,
        (v << s) >> s == v,
    ensures
        var_at(d, pos, s, acc) == Some(((acc | (v << s)) as usize, pos + varint::encode(v).len())),
    decreases v,
{
    let e = varint::encode(v);
    assert(d[pos] == e[0]);
    if v < 0x80 {
        lemma_group_last(v, s);
        assert(s % usize::BITS == s);
    } else {
        lemma_group_split(v, s);
        varint::lemma_shift_decreases(v);
        let b = ((v & 0x7f) | 0x80) as u8;
        let w = v >> 7usize;
        assert(e == seq![b] + varint::encode(w));
        assert(s % usize::BITS == s);
        let acc2 = (acc | (((b & 0x7f) as usize) << s)) as usize;
        assert(d.subrange(pos + 1, pos + 1 + varint::encode(w).len()) =~= varint::encode(w)) by {
            assert forall|k: int| 0 <= k < varint::encode(w).len() implies
                d.subrange(pos + 1, pos + 1 + varint::encode(w).len())[k] == varint::encode(w)[k] by {
                assert(d[pos + 1 + k] == e[1 + k]);
            }
        }
        assert(s.wrapping_add(7) == (s + 7) as u32);
        lemma_var_at_encode(d, pos + 1, w, (s + 7) as u32, acc2);
        lemma_or_assoc(acc, (((b & 0x7f) as usize) << s) as usize, (w << ((s + 7) as u32)) as usize);
    }
}

proof fn lemma_or_assoc(a: usize, b: usize, c: usize)
    by (bit_vector)
    ensures
        (a | b) | c == a | (b | c),
{
}

/// Where `d` holds the encoding of `v` at `p`, the varint read there is
/// `v`, and it ends after the encoding.
pub proof fn lemma_var_at_in(d: Seq<u8>, p: int, v: usize)
    requires
        0 <= p,
        p + varint::encode(v).len() <= d.len(),
        d.subrange(p, p + varint::encode(v).len()) == varint::encode(v),
    ensures
        var_at(d, p, 0, 0) == Some((v, p + varint::encode(v).len())),
{
    assert((v << 0u32) >> 0u32 == v && (0usize | (v << 0u32)) == v) by (bit_vector);
    lemma_var_at_encode(d, p, v, 0, 0);
}

/// Reads the fields of a packed file in order.
struct Cursor<'a> {
    data: &'a [u8],
    pos: usize,
}

impl<'a> Cursor<'a> {
    fn take(&mut self, n: usize) -> (r: Result<&'a [u8], FormatError>)
        requires
            old(self).pos <= old(self).data@.len(),
        ensures
            final(self).data == old(self).data,
            final(self).pos <= final(self).data@.len(),
            match take_at(old(self).data@, old(self).pos as int, n as int) {
                Some((s, p)) => r matches Ok(x) && x@ == s && final(self).pos == p,
                None => r == Err::<&'a [u8], FormatError>(FormatError::Truncated) && final(self).pos == old(self).pos,
            },
    {
        if n > self.data.len() - self.pos {
            return Err(FormatError::Truncated);
        }
        let s = &self.data[self.pos..self.pos + n];
        self.pos = self.pos + n;
        Ok(s)
    }

    fn u8(&mut self) -> (r: Result<u8, FormatError>)
        requires
            old(self).pos <= old(self).data@.len(),
        ensures
            final(self).data == old(self).data,
            final(self).pos <= final(self).data@.len(),
            match byte_at(old(self).data@, old(self).pos as int) {
                Some((b, p)) => r == Ok::<u8, FormatError>(b) && final(self).pos == p,
                None => r == Err::<u8, FormatError>(FormatError::Truncated),
            },
    {
        if self.pos >= self.data.len() {
            return Err(FormatError::Truncated);
        }
        let b = self.data[self.pos];
        self.pos = self.pos + 1;
        Ok(b)
    }

    fn u32le(&mut self) -> (r: Result<u32, FormatError>)
        requires
            old(self).pos <= old(self).data@.len(),
        ensures
            final(self).data == old(self).data,
            final(self).pos <= final(self).data@.len(),
            match u32_at(old(self).data@, old(self).pos as int) {
                Some((v, p)) => r == Ok::<u32, FormatError>(v) && final(self).pos == p,
                None => r == Err::<u32, FormatError>(FormatError::Truncated),
            },
    {
        if 4 > self.data.len() - self.pos {
            return Err(FormatError::Truncated);
        }
        let p = self.pos;
        let v = read_le32(self.data[p], self.data[p + 1], self.data[p + 2], self.data[p + 3]);
        self.pos = p + 4;
        Ok(v)
    }

    fn varint(&mut self) -> (r: Result<usize, FormatError>)
        requires
            old(self).pos <= old(self).data@.len(),
        ensures
            final(self).data == old(self).data,
            final(self).pos <= final(self).data@.len(),
            match var_at(old(self).data@, old(self).pos as int, 0, 0) {
                Some((v, p)) => r == Ok::<usize, FormatError>(v) && final(self).pos == p,
                None => r == Err::<usize, FormatError>(FormatError::Truncated),
            },
    {
        let ghost d = self.data@;
        let ghost p0 = self.pos as int;
        let mut result: usize = 0;
        let mut shift: u32 = 0;
        loop
            invariant
                self.data == old(self).data,
                self.data@ == d,
                p0 == old(self).pos,
                self.pos <= d.len(),
                var_at(d, p0, 0, 0) == var_at(d, self.pos as int, shift, result),
            decreases d.len() - self.pos,
        {
            if self.pos >= self.data.len() {
                return Err(FormatError::Truncated);
            }
            let byte = self.data[self.pos];
            self.pos = self.pos + 1;
            result = result | ((byte & 0x7f) as usize).wrapping_shl(shift);
            if byte & 0x80 == 0 {
                return Ok(result);
            }
            shift = shift.wrapping_add(7);
        }
    }
}

/// The header fields of a packed file.
pub struct HeaderView {
    pub version: u8,
    pub mode: u8,
    pub filter: u8,
    pub ext: Seq<u8>,
    pub orig_size: usize,
    pub crc: u32,
    pub meta: Seq<u8>,
    pub pos: int,
}

/// Reading the header: magic, version (newer than this reader's is an
/// error), mode, filter, extension, original size, CRC, and for version 2
/// the metadata; where it ends.
pub open spec fn parse_header(d: Seq<u8>) -> Result<HeaderView, FormatError> {
    match take_at(d, 0, 4) {
        None => Err(FormatError::Truncated),
        Some((m, p0)) => if m != magic() { Err(FormatError::BadMagic) } else {
        match byte_at(d, p0) {
            None => Err(FormatError::Truncated),
            Some((version, p1)) => if version > NEWEST_VERSION { Err(FormatError::UnsupportedVersion(version)) } else {
            match byte_at(d, p1) {
                None => Err(FormatError::Truncated),
                Some((mode, p2)) => match byte_at(d, p2) {
                    None => Err(FormatError::Truncated),
                    Some((filter, p3)) => match byte_at(d, p3) {
                        None => Err(FormatError::Truncated),
                        Some((ext_len, p4)) => match take_at(d, p4, ext_len as int) {
                            None => Err(FormatError::Truncated),
                            Some((ext, p5)) => match var_at(d, p5, 0, 0) {
                                None => Err(FormatError::Truncated),
                                Some((orig_size, p6)) => match u32_at(d, p6) {
                                    None => Err(FormatError::Truncated),
                                    Some((crc, p7)) => if version >= 2 {
                                        match var_at(d, p7, 0, 0) {
                                            None => Err(FormatError::Truncated),
                                            Some((meta_len, p8)) => match take_at(d, p8, meta_len as int) {
                                                None => Err(FormatError::Truncated),
                                                Some((meta, p9)) => Ok(HeaderView { version, mode, filter, ext, orig_size, crc, meta, pos: p9 }),
                                            },
                                        }
                                    } else {
                                        Ok(HeaderView { version, mode, filter, ext, orig_size, crc, meta: Seq::empty(), pos: p7 })
                                    },
                                },
                            },
                        },
                    },
                },
            }
            },
        }
        },
    }
}

/// Reading the header written for the given fields gives them back, and
/// the header ends where it was written to end.
pub proof fn lemma_parse_header(mode: u8, filter: u8, ext: Seq<u8>, orig_size: usize, crc: u32, rest: Seq<u8>)
    requires
        ext.len() <= 255,
    ensures
        parse_header(spec_header(mode, filter, ext, orig_size, crc) + rest) == Ok::<HeaderView, FormatError>((HeaderView {
            version: VERSION, mode, filter, ext, orig_size, crc, meta: Seq::empty(),
            pos: spec_header(mode, filter, ext, orig_size, crc).len() as int,
        })),
{
    let h = spec_header(mode, filter, ext, orig_size, crc);
    let d = h + rest;
    let p5: int = 8 + ext.len() as int;
    let e1 = varint::encode(orig_size);
    let p6: int = p5 + e1.len();
    let p7: int = p6 + 4;
    assert(h.len() == p7);
    assert(d.subrange(0, 4) =~= magic());
    assert(d[4] == VERSION && d[5] == mode && d[6] == filter && d[7] == ext.len() as u8);
    assert(d.subrange(8, p5) =~= ext);
    assert(d.subrange(p5, p6) =~= e1);
    lemma_var_at_in(d, p5, orig_size);
    assert(d[p6] == le32(crc)[0] && d[p6 + 1] == le32(crc)[1] && d[p6 + 2] == le32(crc)[2] && d[p6 + 3] == le32(crc)[3]);
    crate::text::lemma_le32(crc);
}

fn read_header<'a>(c: &mut Cursor<'a>) -> (r: Result<(u8, u8, u8, &'a [u8], usize, u32, &'a [u8]), FormatError>)
    requires
        old(c).pos == 0,
    ensures
        final(c).data == old(c).data,
        final(c).pos <= final(c).data@.len(),
        match parse_header(old(c).data@) {
            Ok(h) => r matches Ok((version, mode, filter, ext, orig_size, crc, meta)) && version == h.version && mode == h.mode
                && filter == h.filter && ext@ == h.ext && orig_size == h.orig_size && crc == h.crc && meta@ == h.meta
                && final(c).pos == h.pos,
            Err(e) => r matches Err(e2) && e2 == e,
        },
{
    let m = c.take(4)?;
    if !(m[0] == 70 && m[1] == 79 && m[2] == 83 && m[3] == 76) {
        return Err(FormatError::BadMagic);
    }
    assert(m@ =~= magic());
    let version = c.u8()?;
    if version > NEWEST_VERSION {
        return Err(FormatError::UnsupportedVersion(version));
    }
    let mode = c.u8()?;
    let filter = c.u8()?;
    let ext_len = c.u8()?;
    let ext = c.take(ext_len as usize)?;
    let orig_size = c.varint()?;
    let crc = c.u32le()?;
    let meta: &'a [u8] = if version >= 2 {
        let meta_len = c.varint()?;
        c.take(meta_len)?
    } else {
        &c.data[0..0]
    };
    assert(version < 2 ==> meta@ =~= Seq::<u8>::empty());
    Ok((version, mode, filter, ext, orig_size, crc, meta))
}

/// Reading `n` blocks from block `i` on at `pos`: model, original length
/// (from version 2 on: the block size, the last block's from the header),
/// payload length and payload.
pub open spec fn parse_blocks(d: Seq<u8>, pos: int, i: int, n: usize, version: u8, last_len: usize, acc: Seq<(u8, usize, Seq<u8>)>) -> Result<Seq<(u8, usize, Seq<u8>)>, FormatError>
    decreases n - i,
{
    if i < 0 || i >= n {
        Ok(acc)
    } else {
        match byte_at(d, pos) {
            None => Err(FormatError::Truncated),
            Some((model, p1)) => {
                let ol: Option<(usize, int)> = if version >= 2 {
                    Some((if i == n - 1 { last_len } else { BLOCK_SIZE }, p1))
                } else {
                    var_at(d, p1, 0, 0)
                };
                match ol {
                    None => Err(FormatError::Truncated),
                    Some((orig_len, p2)) => match var_at(d, p2, 0, 0) {
                        None => Err(FormatError::Truncated),
                        Some((pay_len, p3)) => match take_at(d, p3, pay_len as int) {
                            None => Err(FormatError::Truncated),
                            Some((payload, p4)) => parse_blocks(d, p4, i + 1, n, version, last_len, acc.push((model, orig_len, payload))),
                        },
                    },
                }
            },
        }
    }
}

/// Reading the body after the header: the stored bytes as one raw block,
/// or the block count, the last block's length (version 2, when there are
/// blocks) and the blocks.
pub open spec fn parse_body(d: Seq<u8>, h: HeaderView) -> Result<Seq<(u8, usize, Seq<u8>)>, FormatError> {
    if h.mode == MODE_STORED {
        match take_at(d, h.pos, h.orig_size as int) {
            None => Err(FormatError::Truncated),
            Some((raw, _p)) => Ok(seq![(RAW, h.orig_size, raw)]),
        }
    } else if h.mode == MODE_BLOCKS {
        match var_at(d, h.pos, 0, 0) {
            None => Err(FormatError::Truncated),
            Some((n, p1)) => {
                let ll: Option<(usize, int)> = if h.version >= 2 && n > 0 { var_at(d, p1, 0, 0) } else { Some((0, p1)) };
                match ll {
                    None => Err(FormatError::Truncated),
                    Some((last_len, p2)) => parse_blocks(d, p2, 0, n, h.version, last_len, Seq::empty()),
                }
            },
        }
    } else {
        Err(FormatError::UnknownMode(h.mode))
    }
}

/// What `read` makes of `d`: the extension as text, the original size, the
/// CRC, the filter, the metadata and the blocks.
pub open spec fn spec_read(d: Seq<u8>) -> Result<(Seq<char>, usize, u32, u8, Seq<u8>, Seq<(u8, usize, Seq<u8>)>), FormatError> {
    match parse_header(d) {
        Err(e) => Err(e),
        Ok(h) => match parse_body(d, h) {
            Err(e) => Err(e),
            Ok(bs) => Ok((text_of(h.ext), h.orig_size, h.crc, h.filter, h.meta, bs)),
        },
    }
}

/// A block as plain values.
pub open spec fn block_view(b: Block) -> (u8, usize, Seq<u8>) {
    (b.model, b.orig_len, b.payload@)
}

/// The blocks as plain values.
pub open spec fn blocks_view(v: Seq<Block>) -> Seq<(u8, usize, Seq<u8>)> {
    v.map_values(|b: Block| block_view(b))
}

/// A container as plain values.
pub open spec fn container_view(c: Container) -> (Seq<char>, usize, u32, u8, Seq<u8>, Seq<(u8, usize, Seq<u8>)>) {
    (c.ext@, c.orig_size, c.crc, c.filter, c.meta@, blocks_view(c.blocks@))
}

/// Reads a packed file.
pub fn read(data: &[u8]) -> (r: Result<Container, FormatError>)
    ensures
        match r {
            Ok(c) => spec_read(data@) == Ok::<_, FormatError>(container_view(c)),
            Err(e) => spec_read(data@) == Err::<(Seq<char>, usize, u32, u8, Seq<u8>, Seq<(u8, usize, Seq<u8>)>), FormatError>(e),
        },
{
    let ghost d = data@;
    let mut c = Cursor { data, pos: 0 };
    let (version, mode, filter, ext_raw, orig_size, crc, meta_raw) = read_header(&mut c)?;
    let ghost h = parse_header(d).unwrap();
    let ext = lossy_string(ext_raw);
    let meta = slices::copy(meta_raw);
    let mut blocks: Vec<Block> = Vec::new();
    if mode == MODE_STORED {
        let raw = c.take(orig_size)?;
        blocks.push(Block { model: RAW, orig_len: orig_size, payload: slices::copy(raw) });
        assert(blocks_view(blocks@) =~= seq![(RAW, orig_size, raw@)]);
    } else if mode == MODE_BLOCKS {
        let n_blocks = c.varint()?;
        let last_len = if version >= 2 && n_blocks > 0 { c.varint()? } else { 0 };
        let mut i: usize = 0;
        assert(blocks_view(blocks@) =~= Seq::<(u8, usize, Seq<u8>)>::empty());
        while i < n_blocks
            invariant
                c.data@ == d,
                d == data@,
                c.pos <= d.len(),
                i <= n_blocks,
                h == parse_header(d).unwrap(),
                parse_header(d) is Ok,
                h.version == version,
                parse_body(d, h) == parse_blocks(d, c.pos as int, i as int, n_blocks, version, last_len, blocks_view(blocks@)),
                spec_read(d) == (match parse_body(d, h) {
                    Err(e) => Err(e),
                    Ok(bs) => Ok((text_of(h.ext), h.orig_size, h.crc, h.filter, h.meta, bs)),
                }),
            decreases n_blocks - i,
        {
            let ghost p0 = c.pos as int;
            let model = match c.u8() {
                Ok(m) => m,
                Err(e) => {
                    assert(byte_at(d, p0) is None);
                    assert(parse_blocks(d, p0, i as int, n_blocks, version, last_len, blocks_view(blocks@)) == Err::<Seq<(u8, usize, Seq<u8>)>, FormatError>(FormatError::Truncated));
                    assert(e == FormatError::Truncated);
                    assert(spec_read(d) == Err::<(Seq<char>, usize, u32, u8, Seq<u8>, Seq<(u8, usize, Seq<u8>)>), FormatError>(FormatError::Truncated));
                    return Err(e);
                },
            };
            let ghost p1 = c.pos as int;
            let orig_len = if version >= 2 {
                if i == n_blocks - 1 { last_len } else { BLOCK_SIZE }
            } else {
                match c.varint() {
                    Ok(v) => v,
                    Err(e) => {
                        assert(var_at(d, p1, 0, 0) is None);
                        assert(parse_blocks(d, p0, i as int, n_blocks, version, last_len, blocks_view(blocks@)) == Err::<Seq<(u8, usize, Seq<u8>)>, FormatError>(FormatError::Truncated));
                        assert(e == FormatError::Truncated);
                        assert(spec_read(d) == Err::<(Seq<char>, usize, u32, u8, Seq<u8>, Seq<(u8, usize, Seq<u8>)>), FormatError>(FormatError::Truncated));
                        return Err(e);
                    },
                }
            };
            let pay_len = c.varint()?;
            let payload = c.take(pay_len)?;
            let ghost bv = blocks_view(blocks@);
            blocks.push(Block { model, orig_len, payload: slices::copy(payload) });
            assert(blocks_view(blocks@) =~= bv.push((model, orig_len, payload@)));
            i = i + 1;
        }
    } else {
        return Err(FormatError::UnknownMode(mode));
    }
    Ok(Container { ext, orig_size, crc, filter, meta, blocks })
}

/// The outputs `outs[0..k]` one after another.
pub open spec fn concat(outs: Seq<Seq<u8>>, k: int) -> Seq<u8>
    decreases k,
{
    if k <= 0 { Seq::empty() } else { concat(outs, k - 1) + outs[k - 1] }
}

/// How many bytes of a directory bundle share one LZ window.
pub open spec fn segment_bytes() -> int {
    SEGMENT_BLOCKS * BLOCK_SIZE
}

/// Where the history of block `i` starts in what was decoded before it
/// (`done` bytes): the start of its segment for a directory bundle, else
/// the start.
pub open spec fn history_floor(dir: bool, i: int, done: int) -> int {
    if !dir {
        0
    } else {
        let f = (i / SEGMENT_BLOCKS as int) * segment_bytes();
        if f < done { f } else { done }
    }
}

/// `outs[i]` is an output of decoding block `i` of `bs` with the bytes
/// decoded before it (from its history floor) as history.
pub open spec fn block_ok_at(bs: Seq<(u8, usize, Seq<u8>)>, dir: bool, outs: Seq<Seq<u8>>, i: int) -> bool {
    let done = concat(outs, i);
    block::decoded_ok(bs[i].0, bs[i].2, bs[i].1, done.skip(history_floor(dir, i, done.len() as int)), outs[i])
}

/// `outs` are outputs of decoding the blocks `bs` in turn, each with the
/// bytes decoded before it (from its history floor) as history.
pub open spec fn decoded_blocks(bs: Seq<(u8, usize, Seq<u8>)>, dir: bool, outs: Seq<Seq<u8>>) -> bool {
    &&& outs.len() == bs.len()
    &&& forall|i: int| 0 <= i < bs.len() ==> #[trigger] block_ok_at(bs, dir, outs, i)
}

impl Container {
    /// Every block's original length leaves room for the LZ history.
    pub open spec fn lengths_ok(&self) -> bool {
        forall|i: int| 0 <= i < self.blocks@.len() ==> #[trigger] self.blocks@[i].orig_len <= usize::MAX - lz::HISTORY
    }

    /// Decodes every block in order and reverses the image filter when the
    /// header says so.
    /// Whether every block's original length leaves room for the LZ
    /// history.
    pub fn lengths_fit(&self) -> (r: bool)
        ensures
            r == self.lengths_ok(),
    {
        let mut i: usize = 0;
        while i < self.blocks.len()
            invariant
                i <= self.blocks@.len(),
                forall|j: int| 0 <= j < i ==> #[trigger] self.blocks@[j].orig_len <= usize::MAX - lz::HISTORY,
            decreases self.blocks.len() - i,
        {
            if self.blocks[i].orig_len > usize::MAX - lz::HISTORY {
                return false;
            }
            i = i + 1;
        }
        true
    }

    /// Whether `bytes` have the checksum that the header records (what
    /// unpacking checks of the decoded original unless told to trust it).
    pub fn checksum_matches(&self, bytes: &[u8]) -> (r: bool)
        ensures
            r == (spec_crc32(bytes@) == self.crc),
    {
        crc32(bytes) == self.crc
    }

    pub fn decode(&self) -> (out: Vec<u8>)
        requires
            self.lengths_ok(),
        ensures
            exists|outs: Seq<Seq<u8>>| #![trigger decoded_blocks(blocks_view(self.blocks@), is_dir_ext(self.ext@), outs)]
                decoded_blocks(blocks_view(self.blocks@), is_dir_ext(self.ext@), outs)
                && out@ == (if self.filter == FILTER_PNG {
                    image::spec_unfilter(concat(outs, outs.len() as int))
                } else {
                    concat(outs, outs.len() as int)
                }),
    {
        let dir = dir_ext(self.ext.as_str());
        let ghost bs = blocks_view(self.blocks@);
        let mut out: Vec<u8> = Vec::new();
        let ghost mut outs: Seq<Seq<u8>> = Seq::empty();
        let mut i: usize = 0;
        while i < self.blocks.len()
            invariant
                i <= self.blocks@.len(),
                bs == blocks_view(self.blocks@),
                self.lengths_ok(),
                dir == is_dir_ext(self.ext@),
                outs.len() == i,
                out@ == concat(outs, i as int),
                forall|j: int| 0 <= j < i ==> #[trigger] block_ok_at(bs, dir, outs, j),
            decreases self.blocks@.len() - i,
        {
            let floor: usize = if !dir {
                0
            } else {
                match (i / SEGMENT_BLOCKS).checked_mul(SEGMENT_BLOCKS * BLOCK_SIZE) {
                    Some(f) => if f < out.len() { f } else { out.len() },
                    None => out.len(),
                }
            };
            proof {
                let f = (i as int / SEGMENT_BLOCKS as int) * segment_bytes();
                assert(dir ==> (floor == (if f < out@.len() { f } else { out@.len() as int })));
            }
            let b = &self.blocks[i];
            assert(b.orig_len <= usize::MAX - lz::HISTORY);
            let decoded = decode_block(b.model, b.payload.as_slice(), b.orig_len, &out.as_slice()[floor..out.len()]);
            proof {
                let done = concat(outs, i as int);
                assert(out@.subrange(floor as int, out@.len() as int) =~= done.skip(history_floor(dir, i as int, done.len() as int)));
                assert(bs[i as int] == (b.model, b.orig_len, b.payload@));
                let o2 = outs.push(decoded@);
                assert forall|j: int| 0 <= j < i + 1 implies #[trigger] block_ok_at(bs, dir, o2, j) by {
                    lemma_concat_prefix(outs, o2, j);
                    if j < i {
                        assert(block_ok_at(bs, dir, outs, j));
                    }
                }
                assert(concat(o2, i as int + 1) == concat(outs, i as int) + decoded@) by {
                    lemma_concat_prefix(outs, o2, i as int);
                }
                outs = o2;
            }
            slices::append(&mut out, decoded.as_slice());
            i = i + 1;
        }
        assert(decoded_blocks(bs, dir, outs));
        if self.filter == FILTER_PNG {
            out = image::unfilter(out.as_slice());
        }
        out
    }

    /// Decodes block `n` alone: the blocks before it are decoded one after
    /// another, and all they give is its history.
    pub fn decode_block_at(&self, n: usize) -> (out: Vec<u8>)
        requires
            self.lengths_ok(),
            n < self.blocks@.len(),
        ensures
            exists|outs: Seq<Seq<u8>>| #![trigger decoded_blocks(blocks_view(self.blocks@).take(n + 1), false, outs)]
                decoded_blocks(blocks_view(self.blocks@).take(n + 1), false, outs) && out@ == outs[n as int],
    {
        let ghost bs = blocks_view(self.blocks@).take(n + 1);
        let mut history: Vec<u8> = Vec::new();
        let ghost mut outs: Seq<Seq<u8>> = Seq::empty();
        let mut i: usize = 0;
        while i < n
            invariant
                i <= n < self.blocks@.len(),
                bs == blocks_view(self.blocks@).take(n + 1),
                self.lengths_ok(),
                outs.len() == i,
                history@ == concat(outs, i as int),
                forall|j: int| 0 <= j < i ==> #[trigger] block_ok_at(bs, false, outs, j),
            decreases n - i,
        {
            let b = &self.blocks[i];
            assert(b.orig_len <= usize::MAX - lz::HISTORY);
            let decoded = decode_block(b.model, b.payload.as_slice(), b.orig_len, history.as_slice());
            proof {
                let done = concat(outs, i as int);
                assert(done.skip(0) =~= done);
                assert(bs[i as int] == (b.model, b.orig_len, b.payload@));
                let o2 = outs.push(decoded@);
                assert forall|j: int| 0 <= j < i + 1 implies #[trigger] block_ok_at(bs, false, o2, j) by {
                    lemma_concat_prefix(outs, o2, j);
                    if j < i {
                        assert(block_ok_at(bs, false, outs, j));
                    }
                }
                assert(concat(o2, i as int + 1) == concat(outs, i as int) + decoded@) by {
                    lemma_concat_prefix(outs, o2, i as int);
                }
                outs = o2;
            }
            slices::append(&mut history, decoded.as_slice());
            i = i + 1;
        }
        let b = &self.blocks[n];
        assert(b.orig_len <= usize::MAX - lz::HISTORY);
        let decoded = decode_block(b.model, b.payload.as_slice(), b.orig_len, history.as_slice());
        proof {
            let done = concat(outs, n as int);
            assert(done.skip(0) =~= done);
            assert(bs[n as int] == (b.model, b.orig_len, b.payload@));
            let o2 = outs.push(decoded@);
            assert forall|j: int| 0 <= j < n + 1 implies #[trigger] block_ok_at(bs, false, o2, j) by {
                lemma_concat_prefix(outs, o2, j);
                if j < n {
                    assert(block_ok_at(bs, false, outs, j));
                }
            }
            assert(decoded_blocks(bs, false, o2));
            outs = o2;
        }
        decoded
    }
}

proof fn lemma_concat_prefix(a: Seq<Seq<u8>>, b: Seq<Seq<u8>>, k: int)
    requires
        0 <= k <= a.len(),
        k <= b.len(),
        forall|j: int| 0 <= j < k ==> a[j] == b[j],
    ensures
        concat(a, k) == concat(b, k),
    decreases k,
{
    if k > 0 {
        lemma_concat_prefix(a, b, k - 1);
    }
}

/// How many blocks `n` bytes are cut into.
pub open spec fn block_count(n: int) -> int {
    if n <= 0 { 0 } else { (n + BLOCK_SIZE - 1) / (BLOCK_SIZE as int) }
}

/// Where block `k` of `n` bytes ends: a block size on, or at the end.
pub open spec fn block_end(n: int, k: int) -> int {
    if (k + 1) * BLOCK_SIZE < n { (k + 1) * BLOCK_SIZE } else { n }
}

/// The segment size in bytes for a directory bundle, else 0.
pub open spec fn seg_bytes(dir: bool) -> int {
    if dir { segment_bytes() } else { 0 }
}

proof fn lemma_block_count(n: int)
    requires
        n > 0,
    ensures
        block_count(n) >= 1,
        (block_count(n) - 1) * BLOCK_SIZE < n <= block_count(n) * BLOCK_SIZE,
{
    vstd::arithmetic::div_mod::lemma_fundamental_div_mod(n + BLOCK_SIZE - 1, BLOCK_SIZE as int);
    vstd::arithmetic::div_mod::lemma_mod_bound(n + BLOCK_SIZE - 1, BLOCK_SIZE as int);
}

proof fn lemma_floor_matches(k: int)
    requires
        k >= 0,
    ensures
        history_floor(true, k, k * BLOCK_SIZE) == block::segment_floor(k * BLOCK_SIZE, segment_bytes()),
{
    vstd::arithmetic::div_mod::lemma_fundamental_div_mod(k, SEGMENT_BLOCKS as int);
    vstd::arithmetic::div_mod::lemma_mod_bound(k, SEGMENT_BLOCKS as int);
    let q = k / SEGMENT_BLOCKS as int;
    let r = k % SEGMENT_BLOCKS as int;
    vstd::arithmetic::div_mod::lemma_fundamental_div_mod_converse(k * BLOCK_SIZE, segment_bytes(), q, r * BLOCK_SIZE);
}

/// A block's payload decodes to one output only.
proof fn lemma_decoded_unique(m: u8, p: Seq<u8>, l: usize, h: Seq<u8>, o1: Seq<u8>, o2: Seq<u8>)
    requires
        block::decoded_ok(m, p, l, h, o1),
        block::decoded_ok(m, p, l, h, o2),
    ensures
        o1 == o2,
{
}

/// Decoding is lossless: when each block of `src` was encoded (by
/// `encode_block_seg`, with the directory segments when `dir`, or by the
/// signal model through `offer_signal`), the blocks read back from the file
/// decode, one after another, to `src`.
pub proof fn lemma_blocks_lossless(src: Seq<u8>, dir: bool, fast: bool, enc: Seq<(u8, Seq<u8>)>, outs: Seq<Seq<u8>>)
    requires
        src.len() <= usize::MAX,
        enc.len() == block_count(src.len() as int),
        forall|k: int| 0 <= k < enc.len() ==> block::encoded_ok(src, k * BLOCK_SIZE, block_end(src.len() as int, k), seg_bytes(dir), fast, #[trigger] enc[k]),
        decoded_blocks(blocks_read_back(enc, block_lens(src.len() as int)), dir, outs),
    ensures
        concat(outs, outs.len() as int) == src,
{
    let n = src.len() as int;
    let nb = enc.len() as int;
    if n == 0 {
        assert(concat(outs, 0) =~= src);
    } else {
        lemma_block_count(n);
        assert(concat(outs, 0) =~= src.take(0));
        lemma_blocks_lossless_from(src, dir, fast, enc, outs, 0);
        assert(src.take(n) =~= src);
    }
}

#[verifier::rlimit(30)]
proof fn lemma_blocks_lossless_from(src: Seq<u8>, dir: bool, fast: bool, enc: Seq<(u8, Seq<u8>)>, outs: Seq<Seq<u8>>, k: int)
    requires
        0 < src.len() <= usize::MAX,
        enc.len() == block_count(src.len() as int),
        (block_count(src.len() as int) - 1) * BLOCK_SIZE < src.len() <= block_count(src.len() as int) * BLOCK_SIZE,
        forall|k: int| 0 <= k < enc.len() ==> block::encoded_ok(src, k * BLOCK_SIZE, block_end(src.len() as int, k), seg_bytes(dir), fast, #[trigger] enc[k]),
        decoded_blocks(blocks_read_back(enc, block_lens(src.len() as int)), dir, outs),
        0 <= k <= enc.len(),
        forall|j: int| 0 <= j < k ==> #[trigger] outs[j] == src.subrange(j * BLOCK_SIZE, block_end(src.len() as int, j)),
        concat(outs, k) == src.take(if k * BLOCK_SIZE < src.len() { k * BLOCK_SIZE } else { src.len() as int }),
    ensures
        concat(outs, enc.len() as int) == src.take(src.len() as int),
    decreases enc.len() - k,
{
    let n = src.len() as int;
    let nb = enc.len() as int;
    if k < nb {
        let start = k * BLOCK_SIZE;
        let end = block_end(n, k);
        assert(start < n);
        let bs = blocks_read_back(enc, block_lens(n));
        let done = concat(outs, k);
        assert(done == src.take(start));
        assert(block_ok_at(bs, dir, outs, k));
        let floor = history_floor(dir, k, done.len() as int);
        if dir {
            lemma_floor_matches(k);
        }
        assert(floor == block::segment_floor(start, seg_bytes(dir)));
        assert(done.skip(floor) =~= src.subrange(floor, start));
        block::lemma_block_roundtrip(src, start, end, seg_bytes(dir), fast, enc[k]);
        if k < nb - 1 {
            assert((k + 1) * BLOCK_SIZE < n);
        }
        assert(block_lens(n).len() == nb);
        assert(bs[k].1 == block_lens(n)[k]);
        assert(bs[k].1 == (end - start) as usize);
        lemma_decoded_unique(enc[k].0, enc[k].1, bs[k].1, src.subrange(floor, start), outs[k], src.subrange(start, end));
        assert(concat(outs, k + 1) =~= src.take(if (k + 1) * BLOCK_SIZE < n { (k + 1) * BLOCK_SIZE } else { n }));
        lemma_blocks_lossless_from(src, dir, fast, enc, outs, k + 1);
    }
}

/// Where a block's payload is in the file, with its model and original
/// length.
pub struct BlockRef {
    pub model: u8,
    pub orig_len: usize,
    pub payload_offset: usize,
    pub payload_len: usize,
}

/// A block reference as plain values.
pub open spec fn ref_view(b: BlockRef) -> (u8, usize, usize, usize) {
    (b.model, b.orig_len, b.payload_offset, b.payload_len)
}

/// The block references as plain values.
pub open spec fn refs_view(v: Seq<BlockRef>) -> Seq<(u8, usize, usize, usize)> {
    v.map_values(|b: BlockRef| ref_view(b))
}

/// A packed file whose blocks are decoded on demand, with the decoded
/// blocks kept for reuse.
pub struct LazyContainer<'a> {
    pub ext: String,
    pub orig_size: usize,
    pub crc: u32,
    pub filter: u8,
    pub meta: Vec<u8>,
    pub blocks: Vec<BlockRef>,
    data: &'a [u8],
    seg_blocks: usize,
    cache: BTreeMap<usize, Vec<u8>>,
}

/// The parts of a lazy container without its data and cache.
pub struct LazyParts {
    pub ext: String,
    pub orig_size: usize,
    pub crc: u32,
    pub filter: u8,
    pub meta: Vec<u8>,
    pub blocks: Vec<BlockRef>,
    pub seg_blocks: usize,
}

/// The stored bytes at `po` as raw blocks of `BLOCK_SIZE` bytes (the last
/// may be shorter), from `off` on.
pub open spec fn stored_refs(po: int, orig: int, off: int) -> Seq<(u8, usize, usize, usize)>
    decreases orig - off,
{
    if off >= orig || off < 0 {
        Seq::empty()
    } else {
        let len = if orig - off < BLOCK_SIZE { orig - off } else { BLOCK_SIZE as int };
        seq![(RAW, len as usize, (po + off) as usize, len as usize)] + stored_refs(po, orig, off + len)
    }
}

/// Reading `n` block references from block `i` on at `pos`, as
/// `parse_blocks` reads the blocks.
pub open spec fn parse_refs(d: Seq<u8>, pos: int, i: int, n: usize, version: u8, last_len: usize, acc: Seq<(u8, usize, usize, usize)>) -> Result<Seq<(u8, usize, usize, usize)>, FormatError>
    decreases n - i,
{
    if i < 0 || i >= n {
        Ok(acc)
    } else {
        match byte_at(d, pos) {
            None => Err(FormatError::Truncated),
            Some((model, p1)) => {
                let ol: Option<(usize, int)> = if version >= 2 {
                    Some((if i == n - 1 { last_len } else { BLOCK_SIZE }, p1))
                } else {
                    var_at(d, p1, 0, 0)
                };
                match ol {
                    None => Err(FormatError::Truncated),
                    Some((orig_len, p2)) => match var_at(d, p2, 0, 0) {
                        None => Err(FormatError::Truncated),
                        Some((pay_len, p3)) => match take_at(d, p3, pay_len as int) {
                            None => Err(FormatError::Truncated),
                            Some((_payload, p4)) => parse_refs(d, p4, i + 1, n, version, last_len, acc.push((model, orig_len, p3 as usize, pay_len))),
                        },
                    },
                }
            },
        }
    }
}

/// The blocks that reading the blocked form of `enc` gives: each model and
/// payload, with the block size as length but for the last block, whose
/// length the header holds.
pub open spec fn blocks_read_back(enc: Seq<(u8, Seq<u8>)>, lens: Seq<usize>) -> Seq<(u8, usize, Seq<u8>)> {
    Seq::new(enc.len(), |i: int| (enc[i].0, lens[i], enc[i].1))
}

proof fn lemma_blocks_bytes_prefix(enc: Seq<(u8, Seq<u8>)>, lens: Seq<usize>, i: int, n: int)
    requires
        0 <= i <= n,
    ensures
        blocks_bytes(enc, lens, i).len() <= blocks_bytes(enc, lens, n).len(),
        blocks_bytes(enc, lens, n).subrange(0, blocks_bytes(enc, lens, i).len() as int) == blocks_bytes(enc, lens, i),
    decreases n,
{
    if i < n {
        lemma_blocks_bytes_prefix(enc, lens, i, n - 1);
        let a = blocks_bytes(enc, lens, n - 1);
        let b = blocks_bytes(enc, lens, n);
        assert(b.subrange(0, a.len() as int) =~= a);
        assert(b.subrange(0, blocks_bytes(enc, lens, i).len() as int) =~= a.subrange(0, blocks_bytes(enc, lens, i).len() as int));
    } else {
        assert(blocks_bytes(enc, lens, n).subrange(0, blocks_bytes(enc, lens, n).len() as int) =~= blocks_bytes(enc, lens, n));
    }
}

#[verifier::rlimit(40)]
proof fn lemma_parse_blocks_from(pre: Seq<u8>, enc: Seq<(u8, Seq<u8>)>, lens: Seq<usize>, rest: Seq<u8>, i: int)
    requires
        0 <= i <= enc.len(),
        enc.len() <= usize::MAX,
        lens.len() == enc.len(),
        forall|k: int| 0 <= k < enc.len() ==> #[trigger] enc[k].1.len() <= usize::MAX,
    ensures
        parse_blocks(pre + blocks_bytes(enc, lens, enc.len() as int) + rest, (pre.len() + blocks_bytes(enc, lens, i).len()) as int, i, enc.len() as usize, VERSION, 0,
            blocks_read_back(enc, lens).take(i)) == Ok::<Seq<(u8, usize, Seq<u8>)>, FormatError>(blocks_read_back(enc, lens)),
    decreases enc.len() - i,
{
    let n = enc.len() as int;
    let d = pre + blocks_bytes(enc, lens, n) + rest;
    let q = pre.len() as int;
    let want = blocks_read_back(enc, lens);
    if i == n {
        assert(want.take(i) =~= want);
    } else {
        lemma_blocks_bytes_prefix(enc, lens, i + 1, n);
        let bi = blocks_bytes(enc, lens, i);
        let bi1 = blocks_bytes(enc, lens, i + 1);
        let m = enc[i].0;
        let pl = enc[i].1;
        let el = varint::encode(lens[i]);
        let ev = varint::encode(pl.len() as usize);
        assert(bi1 == bi + seq![m] + el + ev + pl);
        let p0 = q + bi.len();
        assert forall|k: int| 0 <= k < bi1.len() implies d[q + k] == #[trigger] bi1[k] by {
            assert(blocks_bytes(enc, lens, n).subrange(0, bi1.len() as int)[k] == bi1[k]);
        }
        assert(d[p0] == bi1[bi.len() as int]);
        assert(d.subrange(p0 + 1, p0 + 1 + el.len()) =~= el) by {
            assert forall|k: int| 0 <= k < el.len() implies d.subrange(p0 + 1, p0 + 1 + el.len())[k] == el[k] by {
                assert(d[p0 + 1 + k] == bi1[bi.len() + 1 + k]);
            }
        }
        lemma_var_at_in(d, p0 + 1, lens[i]);
        let p2 = p0 + 1 + el.len();
        assert(d.subrange(p2, p2 + ev.len()) =~= ev) by {
            assert forall|k: int| 0 <= k < ev.len() implies d.subrange(p2, p2 + ev.len())[k] == ev[k] by {
                assert(d[p2 + k] == bi1[bi.len() + 1 + el.len() + k]);
            }
        }
        lemma_var_at_in(d, p2, pl.len() as usize);
        let p3 = p2 + ev.len();
        assert(d.subrange(p3, p3 + pl.len()) =~= pl) by {
            assert forall|k: int| 0 <= k < pl.len() implies d.subrange(p3, p3 + pl.len())[k] == pl[k] by {
                assert(d[p3 + k] == bi1[bi.len() + 1 + el.len() + ev.len() + k]);
            }
        }
        assert(want.take(i).push((m, lens[i], pl)) =~= want.take(i + 1));
        lemma_parse_blocks_from(pre, enc, lens, rest, i + 1);
    }
}

/// Reading the packed file that `assemble` writes gives back its header
/// fields (with no metadata), and its blocks: the encoded blocks, each with
/// its original length, where the blocked form was kept, else the original
/// as one raw block.
pub proof fn lemma_read_assemble(orig: Seq<u8>, ext: Seq<char>, filtered: bool, lens: Seq<usize>, enc: Seq<(u8, Seq<u8>)>)
    requires
        encode_utf8(ext).len() <= 255,
        orig.len() <= usize::MAX,
        enc.len() <= usize::MAX,
        forall|k: int| 0 <= k < enc.len() ==> #[trigger] enc[k].1.len() <= usize::MAX,
        lens.len() == enc.len(),
    ensures
        ({
            let x = encode_utf8(ext);
            let blocked = spec_blocked(orig, x, filtered, lens, enc);
            let stored = spec_stored(orig, x);
            let filter = if filtered { FILTER_PNG } else { FILTER_NONE };
            spec_read(spec_assemble(orig, x, filtered, lens, enc)) == if blocked.len() <= stored.len() {
                Ok::<(Seq<char>, usize, u32, u8, Seq<u8>, Seq<(u8, usize, Seq<u8>)>), FormatError>((ext, orig.len() as usize, spec_crc32(orig), filter, Seq::empty(),
                    blocks_read_back(enc, lens)))
            } else {
                Ok((ext, orig.len() as usize, spec_crc32(orig), FILTER_NONE, Seq::empty(), seq![(RAW, orig.len() as usize, orig)]))
            }
        }),
{
    let x = encode_utf8(ext);
    vstd::utf8::encode_utf8_valid_utf8(ext);
    vstd::utf8::encode_utf8_decode_utf8(ext);
    let blocked = spec_blocked(orig, x, filtered, lens, enc);
    let stored = spec_stored(orig, x);
    if blocked.len() <= stored.len() {
        lemma_read_blocked(orig, x, filtered, lens, enc);
    } else {
        lemma_read_stored(orig, x);
    }
}

#[verifier::rlimit(40)]
#[verifier::spinoff_prover]
proof fn lemma_read_blocked(orig: Seq<u8>, x: Seq<u8>, filtered: bool, lens: Seq<usize>, enc: Seq<(u8, Seq<u8>)>)
    requires
        x.len() <= 255,
        enc.len() <= usize::MAX,
        forall|k: int| 0 <= k < enc.len() ==> #[trigger] enc[k].1.len() <= usize::MAX,
        lens.len() == enc.len(),
    ensures
        ({
            let filter = if filtered { FILTER_PNG } else { FILTER_NONE };
            let h = parse_header(spec_blocked(orig, x, filtered, lens, enc));
            &&& h is Ok
            &&& h->Ok_0.ext == x && h->Ok_0.orig_size == orig.len() as usize && h->Ok_0.crc == spec_crc32(orig)
            &&& h->Ok_0.filter == filter && h->Ok_0.meta == Seq::<u8>::empty()
            &&& h->Ok_0.mode == MODE_BLOCKS
            &&& parse_body(spec_blocked(orig, x, filtered, lens, enc), h->Ok_0) == Ok::<Seq<(u8, usize, Seq<u8>)>, FormatError>(blocks_read_back(enc, lens))
        }),
{
    let filter = if filtered { FILTER_PNG } else { FILTER_NONE };
    let n = enc.len() as usize;
    let hb = spec_header(MODE_BLOCKS, filter, x, orig.len() as usize, spec_crc32(orig));
    let body = blocks_bytes(enc, lens, enc.len() as int);
    let d = spec_blocked(orig, x, filtered, lens, enc);
    assert(d =~= hb + (varint::encode(n) + body));
    lemma_parse_header(MODE_BLOCKS, filter, x, orig.len() as usize, spec_crc32(orig), varint::encode(n) + body);
    assert(d.subrange(hb.len() as int, (hb.len() + varint::encode(n).len()) as int) =~= varint::encode(n));
    lemma_var_at_in(d, hb.len() as int, n);
    let pre = hb + varint::encode(n);
    assert(d =~= pre + body + Seq::<u8>::empty());
    assert(blocks_read_back(enc, lens).take(0) =~= Seq::<(u8, usize, Seq<u8>)>::empty());
    lemma_parse_blocks_from(pre, enc, lens, Seq::empty(), 0);
}

proof fn lemma_read_stored(orig: Seq<u8>, x: Seq<u8>)
    requires
        x.len() <= 255,
        orig.len() <= usize::MAX,
    ensures
        ({
            let h = parse_header(spec_stored(orig, x));
            &&& h is Ok
            &&& h->Ok_0.ext == x && h->Ok_0.orig_size == orig.len() as usize && h->Ok_0.crc == spec_crc32(orig)
            &&& h->Ok_0.filter == FILTER_NONE && h->Ok_0.meta == Seq::<u8>::empty()
            &&& h->Ok_0.mode == MODE_STORED
            &&& h->Ok_0.pos == spec_header(MODE_STORED, FILTER_NONE, x, orig.len() as usize, spec_crc32(orig)).len()
            &&& parse_body(spec_stored(orig, x), h->Ok_0) == Ok::<Seq<(u8, usize, Seq<u8>)>, FormatError>(seq![(RAW, orig.len() as usize, orig)])
        }),
{
    let hs = spec_header(MODE_STORED, FILTER_NONE, x, orig.len() as usize, spec_crc32(orig));
    lemma_parse_header(MODE_STORED, FILTER_NONE, x, orig.len() as usize, spec_crc32(orig), orig);
    let d = spec_stored(orig, x);
    assert(d.subrange(hs.len() as int, (hs.len() + orig.len()) as int) =~= orig);
    assert(parse_body(d, parse_header(d)->Ok_0) == Ok::<Seq<(u8, usize, Seq<u8>)>, FormatError>(seq![(RAW, orig.len() as usize, orig)]));
}

/// The block references of the body after the header.
pub open spec fn parse_body_refs(d: Seq<u8>, h: HeaderView) -> Result<Seq<(u8, usize, usize, usize)>, FormatError> {
    if h.mode == MODE_STORED {
        match take_at(d, h.pos, h.orig_size as int) {
            None => Err(FormatError::Truncated),
            Some((_raw, _p)) => Ok(stored_refs(h.pos, h.orig_size as int, 0)),
        }
    } else if h.mode == MODE_BLOCKS {
        match var_at(d, h.pos, 0, 0) {
            None => Err(FormatError::Truncated),
            Some((n, p1)) => {
                let ll: Option<(usize, int)> = if h.version >= 2 && n > 0 { var_at(d, p1, 0, 0) } else { Some((0, p1)) };
                match ll {
                    None => Err(FormatError::Truncated),
                    Some((last_len, p2)) => parse_refs(d, p2, 0, n, h.version, last_len, Seq::empty()),
                }
            },
        }
    } else {
        Err(FormatError::UnknownMode(h.mode))
    }
}

/// What `read_lazy` makes of `d`: the header fields and the block
/// references.
pub open spec fn spec_read_lazy(d: Seq<u8>) -> Result<(Seq<char>, usize, u32, u8, Seq<u8>, Seq<(u8, usize, usize, usize)>), FormatError> {
    match parse_header(d) {
        Err(e) => Err(e),
        Ok(h) => match parse_body_refs(d, h) {
            Err(e) => Err(e),
            Ok(bs) => Ok((text_of(h.ext), h.orig_size, h.crc, h.filter, h.meta, bs)),
        },
    }
}

/// Every reference points inside `d`.
pub open spec fn refs_inside(bs: Seq<(u8, usize, usize, usize)>, len: int) -> bool {
    forall|i: int| 0 <= i < bs.len() ==> #[trigger] bs[i].2 + bs[i].3 <= len
}

proof fn lemma_stored_refs_inside(po: int, orig: int, off: int, len: int)
    requires
        0 <= po,
        0 <= off,
        po + orig <= len,
    ensures
        refs_inside(stored_refs(po, orig, off), len),
    decreases orig - off,
{
    if off < orig {
        let l = if orig - off < BLOCK_SIZE { orig - off } else { BLOCK_SIZE as int };
        lemma_stored_refs_inside(po, orig, off + l, len);
        let r = stored_refs(po, orig, off);
        assert forall|i: int| 0 <= i < r.len() implies #[trigger] r[i].2 + r[i].3 <= len by {
            if i > 0 {
                assert(r[i] == stored_refs(po, orig, off + l)[i - 1]);
            }
        }
    }
}

impl<'a> LazyContainer<'a> {
    /// The file the references point into.
    pub closed spec fn data(&self) -> Seq<u8> {
        self.data@
    }

    /// The decoded blocks kept so far, by index.
    pub closed spec fn cache(&self) -> Map<usize, Vec<u8>> {
        self.cache@
    }

    /// How many blocks share one LZ window (0: no segments).
    pub closed spec fn seg_blocks(&self) -> usize {
        self.seg_blocks
    }

    /// The references point inside the file.
    pub closed spec fn wf(&self) -> bool {
        refs_inside(refs_view(self.blocks@), self.data().len() as int)
    }

    /// Every block's original length leaves room for the LZ history.
    pub closed spec fn lengths_ok(&self) -> bool {
        forall|i: int| 0 <= i < self.blocks@.len() ==> #[trigger] self.blocks@[i].orig_len <= usize::MAX - lz::HISTORY
    }

    /// The block references as plain values.
    pub closed spec fn refs(&self) -> Seq<(u8, usize, usize, usize)> {
        refs_view(self.blocks@)
    }

    /// The original size from the header.
    pub closed spec fn size(&self) -> usize {
        self.orig_size
    }

    /// The header fields: name, original size, checksum, filter and
    /// metadata.
    pub closed spec fn fields(&self) -> (Seq<char>, usize, u32, u8, Seq<u8>) {
        (self.ext@, self.orig_size, self.crc, self.filter, self.meta@)
    }
}

/// Reads the header and block references of a packed file, without
/// decoding anything.
pub fn read_lazy<'a>(data: &'a [u8]) -> (r: Result<LazyContainer<'a>, FormatError>)
    ensures
        match r {
            Ok(c) => spec_read_lazy(data@) == Ok::<_, FormatError>((c.fields().0, c.fields().1, c.fields().2, c.fields().3, c.fields().4, c.refs()))
                && c.wf() && c.data() == data@ && c.cache() == Map::<usize, Vec<u8>>::empty()
                && c.seg_blocks() == (if is_dir_ext(c.fields().0) { SEGMENT_BLOCKS } else { 0 }),
            Err(e) => spec_read_lazy(data@) == Err::<(Seq<char>, usize, u32, u8, Seq<u8>, Seq<(u8, usize, usize, usize)>), FormatError>(e),
        },
{
    let ghost d = data@;
    let mut c = Cursor { data, pos: 0 };
    let (version, mode, filter, ext_raw, orig_size, crc, meta_raw) = read_header(&mut c)?;
    let ghost h = parse_header(d).unwrap();
    let ext = lossy_string(ext_raw);
    let meta = slices::copy(meta_raw);
    let mut blocks: Vec<BlockRef> = Vec::new();
    if mode == MODE_STORED {
        let payload_offset = c.pos;
        let _raw = c.take(orig_size)?;
        let mut off: usize = 0;
        assert(refs_view(blocks@) =~= Seq::<(u8, usize, usize, usize)>::empty());
        while off < orig_size
            invariant
                off <= orig_size,
                d == data@,
                payload_offset + orig_size <= data.len(),
                refs_view(blocks@) + stored_refs(payload_offset as int, orig_size as int, off as int) == stored_refs(payload_offset as int, orig_size as int, 0),
            decreases orig_size - off,
        {
            let len = if orig_size - off < BLOCK_SIZE { orig_size - off } else { BLOCK_SIZE };
            let ghost rv = refs_view(blocks@);
            blocks.push(BlockRef { model: RAW, orig_len: len, payload_offset: payload_offset + off, payload_len: len });
            assert(refs_view(blocks@) =~= rv.push((RAW, len, (payload_offset + off) as usize, len)));
            off = off + len;
            assert(refs_view(blocks@) + stored_refs(payload_offset as int, orig_size as int, off as int) =~= stored_refs(payload_offset as int, orig_size as int, 0));
        }
        assert(refs_view(blocks@) =~= stored_refs(payload_offset as int, orig_size as int, 0));
        proof {
            lemma_stored_refs_inside(payload_offset as int, orig_size as int, 0, d.len() as int);
        }
    } else if mode == MODE_BLOCKS {
        let n_blocks = c.varint()?;
        let last_len = if version >= 2 && n_blocks > 0 { c.varint()? } else { 0 };
        let mut i: usize = 0;
        assert(refs_view(blocks@) =~= Seq::<(u8, usize, usize, usize)>::empty());
        while i < n_blocks
            invariant
                c.data@ == d,
                d == data@,
                c.pos <= d.len(),
                i <= n_blocks,
                h == parse_header(d).unwrap(),
                parse_header(d) is Ok,
                h.version == version,
                parse_body_refs(d, h) == parse_refs(d, c.pos as int, i as int, n_blocks, version, last_len, refs_view(blocks@)),
                spec_read_lazy(d) == (match parse_body_refs(d, h) {
                    Err(e) => Err(e),
                    Ok(bs) => Ok((text_of(h.ext), h.orig_size, h.crc, h.filter, h.meta, bs)),
                }),
                refs_inside(refs_view(blocks@), d.len() as int),
            decreases n_blocks - i,
        {
            let ghost p0 = c.pos as int;
            let model = match c.u8() {
                Ok(m) => m,
                Err(e) => {
                    assert(spec_read_lazy(d) == Err::<(Seq<char>, usize, u32, u8, Seq<u8>, Seq<(u8, usize, usize, usize)>), FormatError>(FormatError::Truncated));
                    return Err(e);
                },
            };
            let orig_len = if version >= 2 {
                if i == n_blocks - 1 { last_len } else { BLOCK_SIZE }
            } else {
                match c.varint() {
                    Ok(v) => v,
                    Err(e) => {
                        assert(spec_read_lazy(d) == Err::<(Seq<char>, usize, u32, u8, Seq<u8>, Seq<(u8, usize, usize, usize)>), FormatError>(FormatError::Truncated));
                        return Err(e);
                    },
                }
            };
            let payload_len = match c.varint() {
                Ok(v) => v,
                Err(e) => {
                    assert(spec_read_lazy(d) == Err::<(Seq<char>, usize, u32, u8, Seq<u8>, Seq<(u8, usize, usize, usize)>), FormatError>(FormatError::Truncated));
                    return Err(e);
                },
            };
            let payload_offset = c.pos;
            match c.take(payload_len) {
                Ok(_) => {},
                Err(e) => {
                    assert(spec_read_lazy(d) == Err::<(Seq<char>, usize, u32, u8, Seq<u8>, Seq<(u8, usize, usize, usize)>), FormatError>(FormatError::Truncated));
                    return Err(e);
                },
            }
            let ghost rv = refs_view(blocks@);
            blocks.push(BlockRef { model, orig_len, payload_offset, payload_len });
            assert(refs_view(blocks@) =~= rv.push((model, orig_len, payload_offset, payload_len)));
            i = i + 1;
        }
    } else {
        return Err(FormatError::UnknownMode(mode));
    }
    let seg_blocks = if dir_ext(ext.as_str()) { SEGMENT_BLOCKS } else { 0 };
    let cache: BTreeMap<usize, Vec<u8>> = BTreeMap::new();
    Ok(LazyContainer { ext, orig_size, crc, filter, meta, blocks, data, seg_blocks, cache })
}


/// The first block of the LZ segment of block `j` (0 when blocks share no
/// segments).
pub open spec fn seg_start(seg_blocks: usize, j: int) -> int {
    if seg_blocks == 0 { 0 } else { (j / seg_blocks as int) * seg_blocks as int }
}

/// The payload of a block reference, cut from the file.
pub open spec fn ref_payload(data: Seq<u8>, b: (u8, usize, usize, usize)) -> Seq<u8> {
    data.subrange(b.2 as int, b.2 + b.3)
}

/// `entries[t]` is block `from + t` as a range read gets it: the cached
/// bytes where the cache held them, else an output of decoding the block
/// with the bytes before it (from its segment's start) as history.
pub open spec fn range_entry_ok(
    data: Seq<u8>,
    refs: Seq<(u8, usize, usize, usize)>,
    seg_blocks: usize,
    from: int,
    cache: Map<usize, Vec<u8>>,
    entries: Seq<Seq<u8>>,
    t: int,
) -> bool {
    let j = from + t;
    let done = concat(entries, t);
    let f = seg_start(seg_blocks, j) * BLOCK_SIZE - from * BLOCK_SIZE;
    let floor = if f < done.len() { f } else { done.len() as int };
    if cache.contains_key(j as usize) {
        entries[t] == cache[j as usize]@
    } else {
        block::decoded_ok(refs[j].0, ref_payload(data, refs[j]), refs[j].1, done.skip(floor), entries[t])
    }
}

/// `entries` are blocks `from ..= last` as a range read gets them.
pub open spec fn range_entries_ok(
    data: Seq<u8>,
    refs: Seq<(u8, usize, usize, usize)>,
    seg_blocks: usize,
    from: int,
    cache: Map<usize, Vec<u8>>,
    entries: Seq<Seq<u8>>,
) -> bool {
    forall|t: int| 0 <= t < entries.len() ==> #[trigger] range_entry_ok(data, refs, seg_blocks, from, cache, entries, t)
}

/// The cache after a range read: what it held, and each block of
/// `entries` under its index.
pub open spec fn cache_after(old_cache: Map<usize, Vec<u8>>, new_cache: Map<usize, Vec<u8>>, from: int, entries: Seq<Seq<u8>>) -> bool {
    &&& forall|k: usize| #[trigger] new_cache.contains_key(k) <==> (old_cache.contains_key(k) || (from <= k < from + entries.len()))
    &&& forall|k: usize| old_cache.contains_key(k) ==> #[trigger] new_cache[k] == old_cache[k]
    &&& forall|t: int| 0 <= t < entries.len() ==> (#[trigger] new_cache[(from + t) as usize])@ == entries[t]
}

/// Keys of type `usize` are ordered as integers.
proof fn lemma_index_keys_ordered()
    ensures
        vstd::laws_cmp::obeys_cmp::<usize>(),
{
    broadcast use vstd::laws_cmp::group_laws_cmp;
}

/// The first block of the LZ segment of block `idx`.
fn segment_start(seg_blocks: usize, idx: usize) -> (r: usize)
    ensures
        r == seg_start(seg_blocks, idx as int),
        r <= idx,
{
    if seg_blocks == 0 {
        0
    } else {
        proof {
            vstd::arithmetic::div_mod::lemma_fundamental_div_mod(idx as int, seg_blocks as int);
            vstd::arithmetic::mul::lemma_mul_is_commutative(seg_blocks as int, idx as int / seg_blocks as int);
        }
        (idx / seg_blocks) * seg_blocks
    }
}

proof fn lemma_seg_start_ordered(seg_blocks: usize, a: int, b: int)
    requires
        0 <= a <= b,
    ensures
        seg_start(seg_blocks, a) <= seg_start(seg_blocks, b),
{
    if seg_blocks > 0 {
        vstd::arithmetic::div_mod::lemma_div_is_ordered(a, b, seg_blocks as int);
        vstd::arithmetic::mul::lemma_mul_inequality(a / seg_blocks as int, b / seg_blocks as int, seg_blocks as int);
    }
}

proof fn lemma_seg_start_idem(seg_blocks: usize, a: int)
    requires
        0 <= a,
    ensures
        seg_start(seg_blocks, seg_start(seg_blocks, a)) == seg_start(seg_blocks, a),
{
    if seg_blocks > 0 {
        let k = a / seg_blocks as int;
        vstd::arithmetic::mul::lemma_mul_is_commutative(k, seg_blocks as int);
        vstd::arithmetic::div_mod::lemma_div_multiples_vanish(k, seg_blocks as int);
    }
}

/// What a range read of `offset .. offset + len` over the block references
/// `refs` into `data` returns, and how it leaves the cache.
pub open spec fn range_read(
    data: Seq<u8>,
    refs: Seq<(u8, usize, usize, usize)>,
    seg_blocks: usize,
    old_cache: Map<usize, Vec<u8>>,
    new_cache: Map<usize, Vec<u8>>,
    offset: usize,
    len: usize,
    r: Result<Vec<u8>, FormatError>,
) -> bool {
    &&& len == 0 ==> (r matches Ok(v) && v@.len() == 0) && new_cache == old_cache
    &&& len > 0 && offset + len > usize::MAX ==> r == Err::<Vec<u8>, FormatError>(FormatError::RangeOverflow) && new_cache == old_cache
    &&& len > 0 && offset + len <= usize::MAX && (offset + len - 1) / (BLOCK_SIZE as int) >= refs.len()
            ==> r == Err::<Vec<u8>, FormatError>(FormatError::RangeBeyond) && new_cache == old_cache
    &&& len > 0 && offset + len <= usize::MAX && (offset + len - 1) / (BLOCK_SIZE as int) < refs.len() ==> {
            let from = seg_start(seg_blocks, (offset as int) / (BLOCK_SIZE as int));
            let last = (offset + len - 1) / (BLOCK_SIZE as int);
            let base = from * BLOCK_SIZE;
            exists|entries: Seq<Seq<u8>>| #![trigger range_entries_ok(data, refs, seg_blocks, from, old_cache, entries)]
                entries.len() == last - from + 1
                && range_entries_ok(data, refs, seg_blocks, from, old_cache, entries)
                && cache_after(old_cache, new_cache, from, entries)
                && match r {
                    Ok(v) => offset + len - base <= concat(entries, entries.len() as int).len()
                        && v@ == concat(entries, entries.len() as int).subrange(offset - base, offset + len - base),
                    Err(e) => offset + len - base > concat(entries, entries.len() as int).len() && e == FormatError::RangeBeyond,
                }
        }
}

/// Decodes the bytes `offset .. offset + len` of the original from the
/// block references, starting at the LZ segment of the first block
/// needed, and keeps each decoded block in `cache`.
pub fn decode_range(
    data: &[u8],
    blocks: &[BlockRef],
    seg_blocks: usize,
    cache: &mut BTreeMap<usize, Vec<u8>>,
    offset: usize,
    len: usize,
) -> (r: Result<Vec<u8>, FormatError>)
    requires
        refs_inside(refs_view(blocks@), data@.len() as int),
        forall|i: int| 0 <= i < blocks@.len() ==> #[trigger] blocks@[i].orig_len <= usize::MAX - lz::HISTORY,
    ensures
        range_read(data@, refs_view(blocks@), seg_blocks, old(cache)@, final(cache)@, offset, len, r),
{
    proof { lemma_index_keys_ordered(); }
    if len == 0 {
        return Ok(Vec::new());
    }
    let end = match offset.checked_add(len) {
        Some(e) => e,
        None => return Err(FormatError::RangeOverflow),
    };
    let first = offset / BLOCK_SIZE;
    let last = (end - 1) / BLOCK_SIZE;
    if last >= blocks.len() {
        return Err(FormatError::RangeBeyond);
    }
    let from = segment_start(seg_blocks, first);
    proof {
        vstd::arithmetic::div_mod::lemma_fundamental_div_mod(offset as int, BLOCK_SIZE as int);
    }
    let base = from * BLOCK_SIZE;
    let ghost old_cache = cache@;
    let ghost refs = refs_view(blocks@);
    let ghost mut entries: Seq<Seq<u8>> = Seq::empty();
    let mut buf: Vec<u8> = Vec::new();
    let mut j: usize = from;
    while j <= last
        invariant
            from <= j <= last + 1,
            last < blocks@.len(),
            from == seg_start(seg_blocks, first as int),
            first <= last,
            last == (end - 1) / BLOCK_SIZE as int,
            end >= 1,
            base == from * BLOCK_SIZE,
            refs == refs_view(blocks@),
            refs_inside(refs, data@.len() as int),
            forall|i: int| 0 <= i < blocks@.len() ==> #[trigger] blocks@[i].orig_len <= usize::MAX - lz::HISTORY,
            entries.len() == j - from,
            buf@ == concat(entries, entries.len() as int),
            range_entries_ok(data@, refs, seg_blocks, from as int, old_cache, entries),
            cache_after(old_cache, cache@, from as int, entries),
        decreases last + 1 - j,
    {
        let ghost t = j - from;
        let s = segment_start(seg_blocks, j);
        proof {
            lemma_index_keys_ordered();
            lemma_seg_start_ordered(seg_blocks, from as int, j as int);
            lemma_seg_start_idem(seg_blocks, first as int);
            vstd::arithmetic::div_mod::lemma_fundamental_div_mod((end - 1) as int, BLOCK_SIZE as int);
            assert(s * BLOCK_SIZE <= end - 1);
        }
        let f = s * BLOCK_SIZE - base;
        let floor = if f < buf.len() { f } else { buf.len() };
        let decoded: Vec<u8>;
        if cache.contains_key(&j) {
            let cached = cache.get(&j).unwrap();
            decoded = slices::copy(cached.as_slice());
            proof {
                assert(old_cache.contains_key(j));
            }
        } else {
            let b = &blocks[j];
            proof {
                assert(refs[j as int].2 + refs[j as int].3 <= data@.len());
                assert(data@.len() == data.len());
            }
            let payload = &data[b.payload_offset..b.payload_offset + b.payload_len];
            let d = decode_block(b.model, payload, b.orig_len, &buf.as_slice()[floor..buf.len()]);
            let kept = slices::copy(d.as_slice());
            cache.insert(j, kept);
            decoded = d;
        }
        proof {
            let e2 = entries.push(decoded@);
            assert(concat(e2, t) == concat(entries, t)) by {
                lemma_concat_prefix(entries, e2, t);
            }
            assert forall|u: int| 0 <= u < e2.len() implies #[trigger] range_entry_ok(data@, refs, seg_blocks, from as int, old_cache, e2, u) by {
                lemma_concat_prefix(entries, e2, u);
                if u < t {
                    assert(range_entry_ok(data@, refs, seg_blocks, from as int, old_cache, entries, u));
                } else {
                    assert(buf@.subrange(floor as int, buf@.len() as int) =~= concat(entries, t).skip(floor as int));
                }
            }
            entries = e2;
        }
        slices::append(&mut buf, decoded.as_slice());
        j = j + 1;
    }
    if end - base > buf.len() {
        return Err(FormatError::RangeBeyond);
    }
    Ok(slices::copy(&buf.as_slice()[offset - base..end - base]))
}


/// `offset + len`, or `usize::MAX` where that does not fit.
pub open spec fn saturated_end(offset: usize, len: usize) -> int {
    if offset + len > usize::MAX { usize::MAX as int } else { offset + len }
}

impl<'a> LazyContainer<'a> {
    /// Whether every block's original length leaves room for the LZ
    /// history.
    pub fn lengths_fit(&self) -> (r: bool)
        ensures
            r == self.lengths_ok(),
    {
        let mut i: usize = 0;
        while i < self.blocks.len()
            invariant
                i <= self.blocks@.len(),
                forall|j: int| 0 <= j < i ==> #[trigger] self.blocks@[j].orig_len <= usize::MAX - lz::HISTORY,
            decreases self.blocks.len() - i,
        {
            if self.blocks[i].orig_len > usize::MAX - lz::HISTORY {
                return false;
            }
            i = i + 1;
        }
        true
    }

    /// Reads `len` bytes of the original from `offset`, decoding only the
    /// blocks needed (and their LZ segment) and reusing decoded ones.
    pub fn read_range(&mut self, offset: usize, len: usize) -> (r: Result<Vec<u8>, FormatError>)
        requires
            old(self).wf(),
            old(self).lengths_ok(),
        ensures
            final(self).fields() == old(self).fields(),
            final(self).refs() == old(self).refs(),
            final(self).data() == old(self).data(),
            final(self).seg_blocks() == old(self).seg_blocks(),
            final(self).wf(),
            final(self).lengths_ok(),
            saturated_end(offset, len) > old(self).size() ==> r == Err::<Vec<u8>, FormatError>(FormatError::RangeBeyond)
                && final(self).cache() == old(self).cache(),
            saturated_end(offset, len) <= old(self).size() ==> range_read(old(self).data(), old(self).refs(), old(self).seg_blocks(),
                old(self).cache(), final(self).cache(), offset, len, r),
    {
        if offset.saturating_add(len) > self.orig_size {
            return Err(FormatError::RangeBeyond);
        }
        assert(refs_view(self.blocks@).len() == self.blocks@.len());
        decode_range(self.data, self.blocks.as_slice(), self.seg_blocks, &mut self.cache, offset, len)
    }

    /// The header fields, block references and segment size, without the
    /// file and the cache.
    pub fn into_parts(self) -> (p: LazyParts)
        ensures
            (p.ext@, p.orig_size, p.crc, p.filter, p.meta@) == self.fields(),
            refs_view(p.blocks@) == self.refs(),
            p.seg_blocks == self.seg_blocks(),
    {
        LazyParts {
            ext: self.ext,
            orig_size: self.orig_size,
            crc: self.crc,
            filter: self.filter,
            meta: self.meta,
            blocks: self.blocks,
            seg_blocks: self.seg_blocks,
        }
    }
}


/// The lengths of the blocks `n` bytes are cut into.
pub open spec fn block_lens(n: int) -> Seq<usize> {
    Seq::new(block_count(n) as nat, |k: int| (block_end(n, k) - k * BLOCK_SIZE) as usize)
}

/// The segment size in bytes for a file named `ext`: a directory bundle's
/// blocks look back no further than their segment of `SEGMENT_BLOCKS`
/// blocks; other files have no segments (0).
pub fn segment_size(ext: &str) -> (s: usize)
    ensures
        s == seg_bytes(is_dir_ext(ext@)),
{
    if dir_ext(ext) { SEGMENT_BLOCKS * BLOCK_SIZE } else { 0 }
}

/// The lengths of the blocks `n` bytes are cut into: `BLOCK_SIZE` each,
/// the last one shorter when `n` is not a multiple.
pub fn block_lengths(n: usize) -> (v: Vec<usize>)
    ensures
        v@ == block_lens(n as int),
{
    let count: usize = if n == 0 { 0 } else { (n - 1) / BLOCK_SIZE + 1 };
    proof {
        if n > 0 {
            let q = (n - 1) as int / BLOCK_SIZE as int;
            vstd::arithmetic::div_mod::lemma_fundamental_div_mod((n - 1) as int, BLOCK_SIZE as int);
            vstd::arithmetic::div_mod::lemma_fundamental_div_mod_converse((n - 1) as int + BLOCK_SIZE, BLOCK_SIZE as int, q + 1, (n - 1) as int % BLOCK_SIZE as int);
        }
    }
    assert(count == block_count(n as int));
    let mut v: Vec<usize> = Vec::new();
    let mut k: usize = 0;
    while k < count
        invariant
            k <= count,
            count == block_count(n as int),
            n > 0 ==> count == (n - 1) as int / BLOCK_SIZE as int + 1,
            n == 0 ==> count == 0,
            v@ == Seq::new(k as nat, |j: int| (block_end(n as int, j) - j * BLOCK_SIZE) as usize),
        decreases count - k,
    {
        assert(k * BLOCK_SIZE <= n - 1) by (nonlinear_arith)
            requires
                n > 0,
                k < count,
                count == (n - 1) as int / BLOCK_SIZE as int + 1,
        ;
        let start = k * BLOCK_SIZE;
        let len = if n - start < BLOCK_SIZE { n - start } else { BLOCK_SIZE };
        assert(block_end(n as int, k as int) - k * BLOCK_SIZE == len) by (nonlinear_arith)
            requires
                start == k * BLOCK_SIZE,
                start < n,
                len == (if n - start < BLOCK_SIZE { n - start } else { BLOCK_SIZE as int }),
        ;
        v.push(len);
        k = k + 1;
        assert(v@ =~= Seq::new(k as nat, |j: int| (block_end(n as int, j) - j * BLOCK_SIZE) as usize));
    }
    v
}

/// What decoding gives for the blocks `outs` of a file with `filter`: the
/// blocks one after another, unfiltered for an image.
pub open spec fn decoded_output(filter: u8, outs: Seq<Seq<u8>>) -> Seq<u8> {
    if filter == FILTER_PNG {
        image::spec_unfilter(concat(outs, outs.len() as int))
    } else {
        concat(outs, outs.len() as int)
    }
}

/// Packing is lossless: the file that `assemble` writes for the blocks of
/// `bytes` (filtered first when it is a raw image), each encoded by
/// `encode_block_seg` or taken by `offer_signal`, reads back, and its
/// blocks decode to `bytes`.
pub proof fn lemma_lossless(bytes: Seq<u8>, ext: Seq<char>, fast: bool, enc: Seq<(u8, Seq<u8>)>, outs: Seq<Seq<u8>>)
    requires
        encode_utf8(ext).len() <= 255,
        bytes.len() <= usize::MAX,
        ({
            let src = match spec_block_source(bytes, ext) { Some(f) => f, None => bytes };
            &&& src.len() <= usize::MAX
            &&& enc.len() == block_count(src.len() as int)
            &&& forall|k: int| 0 <= k < enc.len() ==> block::encoded_ok(src, k * BLOCK_SIZE, block_end(src.len() as int, k), seg_bytes(is_dir_ext(ext)), fast, #[trigger] enc[k])
            &&& forall|k: int| 0 <= k < enc.len() ==> (#[trigger] enc[k].1).len() <= usize::MAX
        }),
        ({
            let src = match spec_block_source(bytes, ext) { Some(f) => f, None => bytes };
            let file = spec_assemble(bytes, encode_utf8(ext), spec_block_source(bytes, ext) is Some, block_lens(src.len() as int), enc);
            spec_read(file) is Ok && decoded_blocks(spec_read(file)->Ok_0.5, is_dir_ext(ext), outs)
        }),
    ensures
        ({
            let src = match spec_block_source(bytes, ext) { Some(f) => f, None => bytes };
            let file = spec_assemble(bytes, encode_utf8(ext), spec_block_source(bytes, ext) is Some, block_lens(src.len() as int), enc);
            decoded_output(spec_read(file)->Ok_0.3, outs) == bytes
        }),
{
    let filtered = spec_block_source(bytes, ext) is Some;
    let src = match spec_block_source(bytes, ext) { Some(f) => f, None => bytes };
    let x = encode_utf8(ext);
    let lens = block_lens(src.len() as int);
    let dir = is_dir_ext(ext);
    lemma_read_assemble(bytes, ext, filtered, lens, enc);
    let blocked = spec_blocked(bytes, x, filtered, lens, enc);
    let stored = spec_stored(bytes, x);
    if blocked.len() <= stored.len() {
        lemma_blocks_lossless(src, dir, fast, enc, outs);
        if filtered {
            let (h, bpp, st, rows) = image::detect_spec(bytes).unwrap();
            image::lemma_unfilter_filter(bytes);
        }
    } else {
        let bs = seq![(RAW, bytes.len() as usize, bytes)];
        assert(block_ok_at(bs, dir, outs, 0));
        assert(concat(outs, 1) =~= concat(outs, 0) + outs[0]);
        assert(concat(outs, 1) =~= bytes);
    }
}

/// The blocks a list of references points at in `d`.
pub open spec fn refs_blocks(d: Seq<u8>, rs: Seq<(u8, usize, usize, usize)>) -> Seq<(u8, usize, Seq<u8>)> {
    Seq::new(rs.len(), |k: int| (rs[k].0, rs[k].1, ref_payload(d, rs[k])))
}

/// Reading references walks the file as reading blocks does, and each
/// reference points at the payload the block holds.
proof fn lemma_refs_parse(d: Seq<u8>, pos: int, i: int, n: usize, version: u8, last_len: usize,
    ar: Seq<(u8, usize, usize, usize)>, ab: Seq<(u8, usize, Seq<u8>)>)
    requires
        d.len() <= usize::MAX,
        ab == refs_blocks(d, ar),
    ensures
        (parse_blocks(d, pos, i, n, version, last_len, ab) is Ok) == (parse_refs(d, pos, i, n, version, last_len, ar) is Ok),
        parse_refs(d, pos, i, n, version, last_len, ar) is Ok ==> parse_blocks(d, pos, i, n, version, last_len, ab)->Ok_0
            == refs_blocks(d, parse_refs(d, pos, i, n, version, last_len, ar)->Ok_0),
    decreases n - i,
{
    if 0 <= i < n {
        match byte_at(d, pos) {
            None => {},
            Some((model, p1)) => {
                let ol: Option<(usize, int)> = if version >= 2 {
                    Some((if i == n - 1 { last_len } else { BLOCK_SIZE }, p1))
                } else {
                    var_at(d, p1, 0, 0)
                };
                match ol {
                    None => {},
                    Some((orig_len, p2)) => match var_at(d, p2, 0, 0) {
                        None => {},
                        Some((pay_len, p3)) => match take_at(d, p3, pay_len as int) {
                            None => {},
                            Some((payload, p4)) => {
                                let r = (model, orig_len, p3 as usize, pay_len);
                                assert(refs_blocks(d, ar.push(r)) =~= ab.push((model, orig_len, payload)));
                                lemma_refs_parse(d, p4, i + 1, n, version, last_len, ar.push(r), ab.push((model, orig_len, payload)));
                            },
                        },
                    },
                }
            },
        }
    }
}

proof fn lemma_body_refs(d: Seq<u8>, h: HeaderView)
    requires
        d.len() <= usize::MAX,
        h.mode == MODE_BLOCKS,
    ensures
        (parse_body(d, h) is Ok) == (parse_body_refs(d, h) is Ok),
        parse_body_refs(d, h) is Ok ==> parse_body(d, h)->Ok_0 == refs_blocks(d, parse_body_refs(d, h)->Ok_0),
{
    match var_at(d, h.pos, 0, 0) {
        None => {},
        Some((n, p1)) => {
            let ll: Option<(usize, int)> = if h.version >= 2 && n > 0 { var_at(d, p1, 0, 0) } else { Some((0, p1)) };
            match ll {
                None => {},
                Some((last_len, p2)) => {
                    assert(refs_blocks(d, Seq::empty()) =~= Seq::<(u8, usize, Seq<u8>)>::empty());
                    lemma_refs_parse(d, p2, 0, n, h.version, last_len, Seq::empty(), Seq::empty());
                },
            }
        },
    }
}

proof fn lemma_block_count_is(n: int, c: int)
    requires
        c >= 1,
        (c - 1) * BLOCK_SIZE < n <= c * BLOCK_SIZE,
    ensures
        block_count(n) == c,
{
    lemma_block_count(n);
}

/// The references of a stored file from block `m` on: one per block, each
/// pointing at the block's bytes after the header.
proof fn lemma_stored_refs_at(po: int, n: int, m: int)
    requires
        0 <= po,
        0 <= m,
        m * BLOCK_SIZE <= n,
    ensures
        stored_refs(po, n, m * BLOCK_SIZE).len() == block_count(n) - m,
        forall|t: int| 0 <= t < block_count(n) - m ==> #[trigger] stored_refs(po, n, m * BLOCK_SIZE)[t]
            == (RAW, (block_end(n, m + t) - (m + t) * BLOCK_SIZE) as usize, (po + (m + t) * BLOCK_SIZE) as usize,
                (block_end(n, m + t) - (m + t) * BLOCK_SIZE) as usize),
    decreases n - m * BLOCK_SIZE,
{
    let off = m * BLOCK_SIZE;
    let rs = stored_refs(po, n, off);
    if off >= n {
        if n > 0 {
            lemma_block_count_is(n, m);
        }
    } else {
        let len = if n - off < BLOCK_SIZE { n - off } else { BLOCK_SIZE as int };
        let e = (RAW, len as usize, (po + off) as usize, len as usize);
        assert((m + 1) * BLOCK_SIZE == off + BLOCK_SIZE);
        if len == BLOCK_SIZE {
            lemma_stored_refs_at(po, n, m + 1);
            lemma_block_count(n);
        } else {
            assert(stored_refs(po, n, off + len) =~= Seq::<(u8, usize, usize, usize)>::empty());
            lemma_block_count_is(n, m + 1);
        }
        let rest = stored_refs(po, n, off + len);
        assert(rs == seq![e] + rest);
        assert forall|t: int| 0 <= t < block_count(n) - m implies #[trigger] rs[t]
            == (RAW, (block_end(n, m + t) - (m + t) * BLOCK_SIZE) as usize, (po + (m + t) * BLOCK_SIZE) as usize,
                (block_end(n, m + t) - (m + t) * BLOCK_SIZE) as usize) by {
            if t > 0 {
                assert(rs[t] == rest[t - 1]);
                assert((m + 1) + (t - 1) == m + t);
            }
        }
    }
}

/// The references of `d` read the blocks of `src`: there is one per block,
/// and each decodes, with the bytes of its segment before it as history,
/// to its block of `src`.
pub open spec fn refs_decode(d: Seq<u8>, refs: Seq<(u8, usize, usize, usize)>, src: Seq<u8>, seg: int) -> bool {
    &&& refs.len() == block_count(src.len() as int)
    &&& forall|j: int| 0 <= j < refs.len() ==> #[trigger] block_reads(d, refs, src, seg, j)
}

/// Reference `j` decodes to block `j` of `src`.
pub open spec fn block_reads(d: Seq<u8>, refs: Seq<(u8, usize, usize, usize)>, src: Seq<u8>, seg: int, j: int) -> bool {
    let n = src.len() as int;
    block::decoded_ok(refs[j].0, ref_payload(d, refs[j]), refs[j].1,
        src.subrange(block::segment_floor(j * BLOCK_SIZE, seg), j * BLOCK_SIZE), src.subrange(j * BLOCK_SIZE, block_end(n, j)))
}


/// Block `j` of `n` bytes starts before the end.
proof fn lemma_block_start_inside(n: int, j: int)
    requires
        0 <= j < block_count(n),
    ensures
        j * BLOCK_SIZE < n,
        j * BLOCK_SIZE < block_end(n, j) <= n,
        block_end(n, j) - j * BLOCK_SIZE <= BLOCK_SIZE,
{
    lemma_block_count(n);
    vstd::arithmetic::mul::lemma_mul_inequality(j, block_count(n) - 1, BLOCK_SIZE as int);
}

#[verifier::rlimit(40)]
#[verifier::spinoff_prover]
proof fn lemma_lazy_blocked(bytes: Seq<u8>, src: Seq<u8>, x: Seq<u8>, filtered: bool, enc: Seq<(u8, Seq<u8>)>, seg: int, fast: bool)
    requires
        x.len() <= 255,
        bytes.len() <= usize::MAX,
        src.len() <= usize::MAX,
        seg >= 0,
        !filtered ==> src == bytes,
        enc.len() == block_count(src.len() as int),
        forall|k: int| 0 <= k < enc.len() ==> block::encoded_ok(src, k * BLOCK_SIZE, block_end(src.len() as int, k), seg, fast, #[trigger] enc[k]),
        forall|k: int| 0 <= k < enc.len() ==> (#[trigger] enc[k].1).len() <= usize::MAX,
        spec_blocked(bytes, x, filtered, block_lens(src.len() as int), enc).len() <= usize::MAX,
    ensures
        ({
            let file = spec_blocked(bytes, x, filtered, block_lens(src.len() as int), enc);
            let lazy = spec_read_lazy(file);
            &&& lazy is Ok
            &&& lazy->Ok_0.0 == text_of(x)
            &&& lazy->Ok_0.1 == bytes.len()
            &&& lazy->Ok_0.2 == spec_crc32(bytes)
            &&& lazy->Ok_0.3 == (if filtered { FILTER_PNG } else { FILTER_NONE })
            &&& lazy->Ok_0.4 == Seq::<u8>::empty()
            &&& !filtered ==> refs_decode(file, lazy->Ok_0.5, bytes, seg)
        }),
{
    let lens = block_lens(src.len() as int);
    let file = spec_blocked(bytes, x, filtered, lens, enc);
    let n = bytes.len() as int;
    lemma_read_blocked(bytes, x, filtered, lens, enc);
    let h = parse_header(file)->Ok_0;
    lemma_body_refs(file, h);
    let refs = parse_body_refs(file, h)->Ok_0;
    if !filtered {
        assert(refs_blocks(file, refs) == blocks_read_back(enc, lens));
        assert forall|j: int| 0 <= j < refs.len() implies #[trigger] block_reads(file, refs, bytes, seg, j) by {
            assert(refs_blocks(file, refs)[j] == blocks_read_back(enc, lens)[j]);
            lemma_block_start_inside(n, j);
            block::lemma_block_roundtrip(bytes, j * BLOCK_SIZE, block_end(n, j), seg, fast, enc[j]);
        }
    }
}

proof fn lemma_lazy_stored(bytes: Seq<u8>, x: Seq<u8>, seg: int)
    requires
        x.len() <= 255,
        bytes.len() <= usize::MAX,
        spec_stored(bytes, x).len() <= usize::MAX,
    ensures
        ({
            let file = spec_stored(bytes, x);
            let lazy = spec_read_lazy(file);
            &&& lazy is Ok
            &&& lazy->Ok_0.0 == text_of(x)
            &&& lazy->Ok_0.1 == bytes.len()
            &&& lazy->Ok_0.2 == spec_crc32(bytes)
            &&& lazy->Ok_0.3 == FILTER_NONE
            &&& lazy->Ok_0.4 == Seq::<u8>::empty()
            &&& refs_decode(file, lazy->Ok_0.5, bytes, seg)
        }),
{
    let file = spec_stored(bytes, x);
    let n = bytes.len() as int;
    lemma_read_stored(bytes, x);
    let h = parse_header(file)->Ok_0;
    lemma_stored_refs_at(h.pos, n, 0);
    let refs = stored_refs(h.pos, n, 0);
    assert(parse_body_refs(file, h) == Ok::<Seq<(u8, usize, usize, usize)>, FormatError>(refs));
    assert forall|j: int| 0 <= j < refs.len() implies #[trigger] block_reads(file, refs, bytes, seg, j) by {
        lemma_block_start_inside(n, j);
        assert(refs[j] == refs[0 + j]);
        assert(ref_payload(file, refs[j]) =~= bytes.subrange(j * BLOCK_SIZE, block_end(n, j)));
    }
}

/// Reading a packed file lazily gives the header fields that `assemble`
/// wrote (with no metadata) and one reference per block; where the file
/// holds no image filter, each reference decodes, with the bytes of its
/// segment before it as history, to its block of `bytes`.
pub proof fn lemma_lazy_assemble(bytes: Seq<u8>, ext: Seq<char>, fast: bool, enc: Seq<(u8, Seq<u8>)>)
    requires
        encode_utf8(ext).len() <= 255,
        bytes.len() <= usize::MAX,
        ({
            let src = match spec_block_source(bytes, ext) { Some(f) => f, None => bytes };
            &&& src.len() <= usize::MAX
            &&& enc.len() == block_count(src.len() as int)
            &&& forall|k: int| 0 <= k < enc.len() ==> block::encoded_ok(src, k * BLOCK_SIZE, block_end(src.len() as int, k), seg_bytes(is_dir_ext(ext)), fast, #[trigger] enc[k])
            &&& forall|k: int| 0 <= k < enc.len() ==> (#[trigger] enc[k].1).len() <= usize::MAX
            &&& spec_assemble(bytes, encode_utf8(ext), spec_block_source(bytes, ext) is Some, block_lens(src.len() as int), enc).len() <= usize::MAX
        }),
    ensures
        ({
            let src = match spec_block_source(bytes, ext) { Some(f) => f, None => bytes };
            let file = spec_assemble(bytes, encode_utf8(ext), spec_block_source(bytes, ext) is Some, block_lens(src.len() as int), enc);
            let lazy = spec_read_lazy(file);
            &&& lazy is Ok
            &&& lazy->Ok_0.0 == ext
            &&& lazy->Ok_0.1 == bytes.len()
            &&& lazy->Ok_0.2 == spec_crc32(bytes)
            &&& lazy->Ok_0.4 == Seq::<u8>::empty()
            &&& lazy->Ok_0.3 == FILTER_NONE ==> refs_decode(file, lazy->Ok_0.5, bytes, seg_bytes(is_dir_ext(ext)))
        }),
{
    let filtered = spec_block_source(bytes, ext) is Some;
    let src = match spec_block_source(bytes, ext) { Some(f) => f, None => bytes };
    let x = encode_utf8(ext);
    let lens = block_lens(src.len() as int);
    let seg = seg_bytes(is_dir_ext(ext));
    vstd::utf8::encode_utf8_valid_utf8(ext);
    vstd::utf8::encode_utf8_decode_utf8(ext);
    assert(text_of(x) == ext);
    let blocked = spec_blocked(bytes, x, filtered, lens, enc);
    let stored = spec_stored(bytes, x);
    if blocked.len() <= stored.len() {
        lemma_lazy_blocked(bytes, src, x, filtered, enc, seg, fast);
    } else {
        lemma_lazy_stored(bytes, x, seg);
    }
}


/// How many blocks share one LZ window: `SEGMENT_BLOCKS` for a directory
/// bundle, else 0 (no segments).
pub open spec fn seg_blocks_of(dir: bool) -> usize {
    if dir { SEGMENT_BLOCKS } else { 0 }
}

/// Every block of `src` that the cache holds is the right one.
pub open spec fn cache_holds(cache: Map<usize, Vec<u8>>, src: Seq<u8>) -> bool {
    forall|k: usize| #[trigger] cache.contains_key(k) && k < block_count(src.len() as int)
        ==> cache[k]@ == src.subrange(k * BLOCK_SIZE, block_end(src.len() as int, k as int))
}

/// A segment's first block, in bytes, is where its history starts.
proof fn lemma_seg_start_floor(dir: bool, j: int)
    requires
        j >= 0,
    ensures
        seg_start(seg_blocks_of(dir), j) * BLOCK_SIZE == block::segment_floor(j * BLOCK_SIZE, seg_bytes(dir)),
        seg_start(seg_blocks_of(dir), j) <= j,
{
    if dir {
        lemma_floor_matches(j);
        let q = j / SEGMENT_BLOCKS as int;
        vstd::arithmetic::div_mod::lemma_fundamental_div_mod(j, SEGMENT_BLOCKS as int);
        vstd::arithmetic::div_mod::lemma_mod_bound(j, SEGMENT_BLOCKS as int);
        vstd::arithmetic::mul::lemma_mul_is_associative(q, SEGMENT_BLOCKS as int, BLOCK_SIZE as int);
        assert(q * SEGMENT_BLOCKS <= j);
        vstd::arithmetic::mul::lemma_mul_inequality(q * SEGMENT_BLOCKS, j, BLOCK_SIZE as int);
    }
}

/// One block of a range read: where what came before it from the segment
/// start `from` is `src` from there, the block read is block `from + u` of
/// `src`.
proof fn lemma_entry_read(
    d: Seq<u8>,
    refs: Seq<(u8, usize, usize, usize)>,
    src: Seq<u8>,
    dir: bool,
    from: int,
    cache: Map<usize, Vec<u8>>,
    entries: Seq<Seq<u8>>,
    u: int,
)
    requires
        refs_decode(d, refs, src, seg_bytes(dir)),
        cache_holds(cache, src),
        range_entry_ok(d, refs, seg_blocks_of(dir), from, cache, entries, u),
        src.len() <= usize::MAX,
        0 <= from,
        seg_start(seg_blocks_of(dir), from) == from,
        0 <= u < entries.len(),
        from + entries.len() <= refs.len(),
        concat(entries, u) == src.subrange(from * BLOCK_SIZE, (from + u) * BLOCK_SIZE),
    ensures
        entries[u] == src.subrange((from + u) * BLOCK_SIZE, block_end(src.len() as int, from + u)),
{
    let n = src.len() as int;
    let sb = seg_blocks_of(dir);
    let j = from + u;
    lemma_block_start_inside(n, j);
    let done = concat(entries, u);
    lemma_seg_start_ordered(sb, from, j);
    lemma_seg_start_floor(dir, j);
    let s = seg_start(sb, j);
    let f = s * BLOCK_SIZE - from * BLOCK_SIZE;
    assert(from * BLOCK_SIZE <= s * BLOCK_SIZE) by {
        vstd::arithmetic::mul::lemma_mul_inequality(from, s, BLOCK_SIZE as int);
    }
    assert(s * BLOCK_SIZE <= j * BLOCK_SIZE) by {
        vstd::arithmetic::mul::lemma_mul_inequality(s, j, BLOCK_SIZE as int);
    }
    let want = src.subrange(j * BLOCK_SIZE, block_end(n, j));
    let k = j as usize;
    if cache.contains_key(k) {
        assert(cache.contains_key(k) && k < block_count(n));
        assert(cache[k]@ == want);
    } else {
        assert(done.skip(f) =~= src.subrange(block::segment_floor(j * BLOCK_SIZE, seg_bytes(dir)), j * BLOCK_SIZE));
        assert(block_reads(d, refs, src, seg_bytes(dir), j));
        lemma_decoded_unique(refs[j].0, ref_payload(d, refs[j]), refs[j].1, done.skip(f), entries[u], want);
    }
}

/// Where the references decode to the blocks of `src` and the cache holds
/// the right blocks, the blocks a range read gets from the segment start
/// `from` on are the blocks of `src`.
proof fn lemma_entries_read(
    d: Seq<u8>,
    refs: Seq<(u8, usize, usize, usize)>,
    src: Seq<u8>,
    dir: bool,
    from: int,
    cache: Map<usize, Vec<u8>>,
    entries: Seq<Seq<u8>>,
    t: int,
)
    requires
        refs_decode(d, refs, src, seg_bytes(dir)),
        cache_holds(cache, src),
        range_entries_ok(d, refs, seg_blocks_of(dir), from, cache, entries),
        src.len() <= usize::MAX,
        0 <= from,
        seg_start(seg_blocks_of(dir), from) == from,
        from < refs.len(),
        from + entries.len() <= refs.len(),
        0 <= t <= entries.len(),
    ensures
        concat(entries, t) == src.subrange(from * BLOCK_SIZE, block_end(src.len() as int, from + t - 1)),
    decreases t,
{
    let n = src.len() as int;
    if t == 0 {
        lemma_block_start_inside(n, from);
        assert(concat(entries, 0) =~= src.subrange(from * BLOCK_SIZE, block_end(n, from - 1)));
    } else {
        lemma_entries_read(d, refs, src, dir, from, cache, entries, t - 1);
        let u = t - 1;
        let j = from + u;
        lemma_block_start_inside(n, j);
        assert(block_end(n, j - 1) == j * BLOCK_SIZE);
        assert(range_entry_ok(d, refs, seg_blocks_of(dir), from, cache, entries, u));
        lemma_entry_read(d, refs, src, dir, from, cache, entries, u);
        assert(concat(entries, t) =~= src.subrange(from * BLOCK_SIZE, block_end(n, j)));
    }
}

/// A range read gives the original's bytes: where the references of a file
/// decode to the blocks of `src`, the cache holds only the right blocks and
/// the range lies inside `src`, a range read (as `read_range` does it)
/// returns `src[offset .. offset + len]` and leaves only right blocks in
/// the cache, so that reading the same range again gives the same bytes.
pub proof fn lemma_range_read(
    d: Seq<u8>,
    refs: Seq<(u8, usize, usize, usize)>,
    src: Seq<u8>,
    dir: bool,
    old_cache: Map<usize, Vec<u8>>,
    new_cache: Map<usize, Vec<u8>>,
    offset: usize,
    len: usize,
    r: Result<Vec<u8>, FormatError>,
)
    requires
        refs_decode(d, refs, src, seg_bytes(dir)),
        cache_holds(old_cache, src),
        src.len() <= usize::MAX,
        offset + len <= src.len(),
        range_read(d, refs, seg_blocks_of(dir), old_cache, new_cache, offset, len, r),
    ensures
        r is Ok,
        r->Ok_0@ == src.subrange(offset as int, offset + len),
        cache_holds(new_cache, src),
{
    let n = src.len() as int;
    let sb = seg_blocks_of(dir);
    if len == 0 {
        assert(r->Ok_0@ =~= src.subrange(offset as int, offset + len));
    } else {
        let first = (offset as int) / (BLOCK_SIZE as int);
        let last = (offset + len - 1) / (BLOCK_SIZE as int);
        lemma_block_count(n);
        vstd::arithmetic::div_mod::lemma_div_is_ordered(offset + len - 1, n - 1, BLOCK_SIZE as int);
        vstd::arithmetic::div_mod::lemma_fundamental_div_mod(n - 1, BLOCK_SIZE as int);
        vstd::arithmetic::div_mod::lemma_mod_bound(n - 1, BLOCK_SIZE as int);
        vstd::arithmetic::div_mod::lemma_fundamental_div_mod_converse(n - 1 + BLOCK_SIZE, BLOCK_SIZE as int, (n - 1) / (BLOCK_SIZE as int) + 1, (n - 1) % (BLOCK_SIZE as int));
        assert(last < refs.len());
        let from = seg_start(sb, first);
        let base = from * BLOCK_SIZE;
        let entries = choose|entries: Seq<Seq<u8>>| #![trigger range_entries_ok(d, refs, sb, from, old_cache, entries)]
            entries.len() == last - from + 1
            && range_entries_ok(d, refs, sb, from, old_cache, entries)
            && cache_after(old_cache, new_cache, from, entries)
            && match r {
                Ok(v) => offset + len - base <= concat(entries, entries.len() as int).len()
                    && v@ == concat(entries, entries.len() as int).subrange(offset - base, offset + len - base),
                Err(e) => offset + len - base > concat(entries, entries.len() as int).len() && e == FormatError::RangeBeyond,
            };
        vstd::arithmetic::div_mod::lemma_fundamental_div_mod(offset as int, BLOCK_SIZE as int);
        vstd::arithmetic::div_mod::lemma_fundamental_div_mod((offset + len - 1) as int, BLOCK_SIZE as int);
        vstd::arithmetic::div_mod::lemma_div_is_ordered(offset as int, offset + len - 1, BLOCK_SIZE as int);
        lemma_seg_start_floor(dir, first);
        lemma_seg_start_idem(sb, first);
        assert(from <= first);
        assert(base <= offset) by {
            vstd::arithmetic::mul::lemma_mul_inequality(from, first, BLOCK_SIZE as int);
        }
        lemma_entries_read(d, refs, src, dir, from, old_cache, entries, entries.len() as int);
        lemma_block_start_inside(n, last);
        let whole = concat(entries, entries.len() as int);
        assert(whole == src.subrange(base, block_end(n, last)));
        assert(offset + len <= block_end(n, last));
        assert(r->Ok_0@ =~= src.subrange(offset as int, offset + len));
        assert forall|k: usize| #[trigger] new_cache.contains_key(k) && k < block_count(n)
            implies new_cache[k]@ == src.subrange(k * BLOCK_SIZE, block_end(n, k as int)) by {
            if !old_cache.contains_key(k) {
                let t = k - from;
                assert(new_cache[(from + t) as usize]@ == entries[t]);
                lemma_entries_read(d, refs, src, dir, from, old_cache, entries, t);
                lemma_block_start_inside(n, k as int);
                assert(range_entry_ok(d, refs, sb, from, old_cache, entries, t));
                lemma_entry_read(d, refs, src, dir, from, old_cache, entries, t);
            }
        }
    }
}


proof fn lemma_parse_blocks_lengths(d: Seq<u8>, pos: int, i: int, n: usize, version: u8, last_len: usize, acc: Seq<(u8, usize, Seq<u8>)>)
    requires
        0 <= i <= n,
        acc.len() == i,
        version >= 2,
        parse_blocks(d, pos, i, n, version, last_len, acc) is Ok,
    ensures
        ({
            let r = parse_blocks(d, pos, i, n, version, last_len, acc)->Ok_0;
            &&& r.len() == n
            &&& forall|k: int| 0 <= k < i ==> #[trigger] r[k] == acc[k]
            &&& forall|k: int| i <= k < n ==> #[trigger] r[k].1 == (if k == n - 1 { last_len } else { BLOCK_SIZE })
        }),
    decreases n - i,
{
    if i < n {
        let (model, p1) = byte_at(d, pos)->Some_0;
        let orig_len = if i == n - 1 { last_len } else { BLOCK_SIZE };
        let (pay_len, p3) = var_at(d, p1, 0, 0)->Some_0;
        let (payload, p4) = take_at(d, p3, pay_len as int)->Some_0;
        let acc2 = acc.push((model, orig_len, payload));
        lemma_parse_blocks_lengths(d, p4, i + 1, n, version, last_len, acc2);
        let r = parse_blocks(d, pos, i, n, version, last_len, acc)->Ok_0;
        assert forall|k: int| 0 <= k < i implies #[trigger] r[k] == acc[k] by {
            assert(acc2[k] == acc[k]);
        }
        assert(r[i] == acc2[i]);
    }
}

proof fn lemma_parse_refs_lengths(d: Seq<u8>, pos: int, i: int, n: usize, version: u8, last_len: usize, acc: Seq<(u8, usize, usize, usize)>)
    requires
        0 <= i <= n,
        acc.len() == i,
        version >= 2,
        parse_refs(d, pos, i, n, version, last_len, acc) is Ok,
    ensures
        ({
            let r = parse_refs(d, pos, i, n, version, last_len, acc)->Ok_0;
            &&& r.len() == n
            &&& forall|k: int| 0 <= k < i ==> #[trigger] r[k] == acc[k]
            &&& forall|k: int| i <= k < n ==> #[trigger] r[k].1 == (if k == n - 1 { last_len } else { BLOCK_SIZE })
        }),
    decreases n - i,
{
    if i < n {
        let (model, p1) = byte_at(d, pos)->Some_0;
        let orig_len = if i == n - 1 { last_len } else { BLOCK_SIZE };
        let (pay_len, p3) = var_at(d, p1, 0, 0)->Some_0;
        let (payload, p4) = take_at(d, p3, pay_len as int)->Some_0;
        let acc2 = acc.push((model, orig_len, p3 as usize, pay_len));
        lemma_parse_refs_lengths(d, p4, i + 1, n, version, last_len, acc2);
        let r = parse_refs(d, pos, i, n, version, last_len, acc)->Ok_0;
        assert forall|k: int| 0 <= k < i implies #[trigger] r[k] == acc[k] by {
            assert(acc2[k] == acc[k]);
        }
        assert(r[i] == acc2[i]);
    }
}

/// Reading a blocked file of version 2 or later gives as many blocks as
/// the count that starts the body, every block but the last `BLOCK_SIZE`
/// bytes long and the last as long as the length stored after the count.
pub proof fn lemma_read_block_lengths(d: Seq<u8>)
    requires
        spec_read(d) is Ok,
        parse_header(d)->Ok_0.version >= 2,
        parse_header(d)->Ok_0.mode == MODE_BLOCKS,
    ensures
        ({
            let h = parse_header(d)->Ok_0;
            let bs = spec_read(d)->Ok_0.5;
            let count = var_at(d, h.pos, 0, 0);
            &&& count is Some
            &&& bs.len() == count->Some_0.0
            &&& forall|i: int| 0 <= i < bs.len() - 1 ==> #[trigger] bs[i].1 == BLOCK_SIZE
            &&& bs.len() > 0 ==> var_at(d, count->Some_0.1, 0, 0) is Some
                && bs[bs.len() - 1].1 == var_at(d, count->Some_0.1, 0, 0)->Some_0.0
        }),
{
    let h = parse_header(d)->Ok_0;
    let (n, p1) = var_at(d, h.pos, 0, 0)->Some_0;
    let ll: Option<(usize, int)> = if n > 0 { var_at(d, p1, 0, 0) } else { Some((0, p1)) };
    let (last_len, p2) = ll->Some_0;
    lemma_parse_blocks_lengths(d, p2, 0, n, h.version, last_len, Seq::empty());
}

/// Reading the references of a blocked file of version 2 or later gives as
/// many references as the count that starts the body, every block but the
/// last `BLOCK_SIZE` bytes long and the last as long as the length stored
/// after the count.
pub proof fn lemma_read_lazy_block_lengths(d: Seq<u8>)
    requires
        spec_read_lazy(d) is Ok,
        parse_header(d)->Ok_0.version >= 2,
        parse_header(d)->Ok_0.mode == MODE_BLOCKS,
    ensures
        ({
            let h = parse_header(d)->Ok_0;
            let rs = spec_read_lazy(d)->Ok_0.5;
            let count = var_at(d, h.pos, 0, 0);
            &&& count is Some
            &&& rs.len() == count->Some_0.0
            &&& forall|i: int| 0 <= i < rs.len() - 1 ==> #[trigger] rs[i].1 == BLOCK_SIZE
            &&& rs.len() > 0 ==> var_at(d, count->Some_0.1, 0, 0) is Some
                && rs[rs.len() - 1].1 == var_at(d, count->Some_0.1, 0, 0)->Some_0.0
        }),
{
    let h = parse_header(d)->Ok_0;
    let (n, p1) = var_at(d, h.pos, 0, 0)->Some_0;
    let ll: Option<(usize, int)> = if n > 0 { var_at(d, p1, 0, 0) } else { Some((0, p1)) };
    let (last_len, p2) = ll->Some_0;
    lemma_parse_refs_lengths(d, p2, 0, n, h.version, last_len, Seq::empty());
}

} // verus!
