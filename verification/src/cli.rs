//! The command line's own logic: command-name suggestions, the lossy-mode
//! decision, the labels and colours shown per model, and the small parsers
//! for what the clipboard hands over.
use vstd::prelude::*;
use vstd::utf8::encode_utf8;
use crate::block;
use crate::entropy::EntropyClass;
use crate::lossy::{self, starts};
use crate::text::{le32, lossy_string, text_of};

verus! {

/// The characters of `s`.
pub fn chars_of(s: &str) -> (v: Vec<char>)
    ensures
        v@ == s@,
{
    broadcast use vstd::string::group_string_axioms;
    let mut v: Vec<char> = Vec::new();
    for c in it: s.chars()
        invariant
            v@ == it.seq().take(it.index() as int),
    {
        v.push(c);
    }
    v
}


/// The smallest of three.
pub open spec fn min3(x: nat, y: nat, z: nat) -> nat {
    let m = if x <= y { x } else { y };
    if m <= z { m } else { z }
}

/// The edit distance between `a[..i]` and `b[..j]`: the fewest insertions,
/// deletions and substitutions of characters that turn one into the other.
pub open spec fn edit_distance(a: Seq<char>, b: Seq<char>, i: int, j: int) -> nat
    decreases (if i > 0 { i } else { 0 }) + (if j > 0 { j } else { 0 }),
{
    if i <= 0 {
        if j > 0 { j as nat } else { 0 }
    } else if j <= 0 {
        i as nat
    } else {
        let cost: nat = if a[i - 1] == b[j - 1] { 0 } else { 1 };
        min3(edit_distance(a, b, i - 1, j) + 1, edit_distance(a, b, i, j - 1) + 1, edit_distance(a, b, i - 1, j - 1) + cost)
    }
}

proof fn lemma_edit_distance_bound(a: Seq<char>, b: Seq<char>, i: int, j: int)
    requires
        i >= 0,
        j >= 0,
    ensures
        edit_distance(a, b, i, j) <= (if i >= j { i } else { j }),
    decreases i + j,
{
    if i > 0 && j > 0 {
        lemma_edit_distance_bound(a, b, i - 1, j - 1);
    }
}

/// The edit distance between `a` and `b`, counted in characters.
pub fn levenshtein(a: &str, b: &str) -> (d: usize)
    requires
        a@.len() < usize::MAX,
        b@.len() < usize::MAX,
    ensures
        d == edit_distance(a@, b@, a@.len() as int, b@.len() as int),
{
    let a = chars_of(a);
    let b = chars_of(b);
    let n = b.len();
    let mut prev: Vec<usize> = Vec::new();
    let mut j: usize = 0;
    while j <= n
        invariant
            j <= n + 1,
            n == b@.len(),
            n < usize::MAX,
            prev@.len() == j,
            forall|k: int| 0 <= k < j ==> #[trigger] prev@[k] == edit_distance(a@, b@, 0, k),
        decreases n + 1 - j,
    {
        prev.push(j);
        j = j + 1;
    }
    let mut curr: Vec<usize> = Vec::new();
    let mut j: usize = 0;
    while j <= n
        invariant
            j <= n + 1,
            n < usize::MAX,
            curr@.len() == j,
        decreases n + 1 - j,
    {
        curr.push(0);
        j = j + 1;
    }
    let mut i: usize = 1;
    while i <= a.len()
        invariant
            1 <= i <= a@.len() + 1,
            a@.len() < usize::MAX,
            n == b@.len(),
            n < usize::MAX,
            prev@.len() == n + 1,
            curr@.len() == n + 1,
            forall|k: int| 0 <= k <= n ==> #[trigger] prev@[k] == edit_distance(a@, b@, i - 1, k),
        decreases a@.len() + 1 - i,
    {
        curr.set(0, i);
        let mut j: usize = 1;
        while j <= n
            invariant
                1 <= i <= a@.len(),
                1 <= j <= n + 1,
                a@.len() < usize::MAX,
                n == b@.len(),
                n < usize::MAX,
                prev@.len() == n + 1,
                curr@.len() == n + 1,
                forall|k: int| 0 <= k <= n ==> #[trigger] prev@[k] == edit_distance(a@, b@, i - 1, k),
                forall|k: int| 0 <= k < j ==> #[trigger] curr@[k] == edit_distance(a@, b@, i as int, k),
            decreases n + 1 - j,
        {
            proof {
                lemma_edit_distance_bound(a@, b@, i - 1, j as int);
                lemma_edit_distance_bound(a@, b@, i as int, j - 1);
                lemma_edit_distance_bound(a@, b@, i - 1, j - 1);
            }
            let cost: usize = if a[i - 1] == b[j - 1] { 0 } else { 1 };
            let x = prev[j] + 1;
            let y = curr[j - 1] + 1;
            let z = prev[j - 1] + cost;
            let m = if x <= y { x } else { y };
            let m = if m <= z { m } else { z };
            curr.set(j, m);
            j = j + 1;
        }
        let tmp = prev;
        prev = curr;
        curr = tmp;
        i = i + 1;
    }
    prev[n]
}


/// The commands, in the order suggestions are ranked.
pub open spec fn commands() -> Seq<Seq<char>> {
    seq!["pack"@, "lift"@, "unpack"@, "inspect"@, "map"@, "explain"@, "verify"@, "update"@, "help"@]
}

/// The first command of `names` from `k` on at the smallest edit distance
/// from `input`, given the best so far (`best`, at distance `d`).
pub open spec fn nearest(input: Seq<char>, names: Seq<Seq<char>>, k: int, best: int, d: nat) -> (int, nat)
    decreases names.len() - k,
{
    if k < 0 || k >= names.len() {
        (best, d)
    } else {
        let dk = edit_distance(input, names[k], input.len() as int, names[k].len() as int);
        if dk < d { nearest(input, names, k + 1, k, dk) } else { nearest(input, names, k + 1, best, d) }
    }
}

/// The suggestion for a mistyped command: the nearest command, if it is at
/// most half its length (plus one) away.
pub open spec fn suggestion(input: Seq<char>) -> Option<Seq<char>> {
    let names = commands();
    let d0 = edit_distance(input, names[0], input.len() as int, names[0].len() as int);
    let (k, d) = nearest(input, names, 1, 0, d0);
    if d <= names[k].len() / 2 + 1 { Some(names[k]) } else { None }
}

/// The command nearest to `input` by edit distance (the first on ties), if
/// it is close enough to suggest.
pub fn closest(input: &str) -> (r: Option<&'static str>)
    requires
        input@.len() < usize::MAX,
    ensures
        match r {
            Some(c) => suggestion(input@) == Some(c@),
            None => suggestion(input@) is None,
        },
{
    let names: [&'static str; 9] = ["pack", "lift", "unpack", "inspect", "map", "explain", "verify", "update", "help"];
    let ghost spec_names = commands();
    assert(forall|k: int| 0 <= k < 9 ==> #[trigger] names@[k]@ == spec_names[k]);
    proof {
        reveal_strlit("pack");
        reveal_strlit("lift");
        reveal_strlit("unpack");
        reveal_strlit("inspect");
        reveal_strlit("map");
        reveal_strlit("explain");
        reveal_strlit("verify");
        reveal_strlit("update");
        reveal_strlit("help");
    }
    let mut best: usize = 0;
    let mut best_d = levenshtein(input, names[0]);
    let mut k: usize = 1;
    while k < 9
        invariant
            1 <= k <= 9,
            best < k,
            input@.len() < usize::MAX,
            spec_names == commands(),
            forall|k: int| 0 <= k < 9 ==> #[trigger] names@[k]@ == spec_names[k],
            forall|k: int| 0 <= k < 9 ==> (#[trigger] names@[k]@).len() < 8,
            nearest(input@, spec_names, 1, 0, edit_distance(input@, spec_names[0], input@.len() as int, spec_names[0].len() as int))
                == nearest(input@, spec_names, k as int, best as int, best_d as nat),
        decreases 9 - k,
    {
        let dk = levenshtein(input, names[k]);
        if dk < best_d {
            best = k;
            best_d = dk;
        }
        k = k + 1;
    }
    let c = names[best];
    assert(spec_names.len() == 9);
    assert(nearest(input@, spec_names, 9, best as int, best_d as nat) == (best as int, best_d as nat));
    assert(c@ == spec_names[best as int]);
    proof {
        vstd::utf8::is_ascii_chars_encode_utf8(c@);
    }
    assert(c.len() == c@.len());
    if best_d <= c.len() / 2 + 1 {
        Some(c)
    } else {
        None
    }
}

/// Packing options: the lossy bits, and whether lossy packing goes on
/// (losslessly) for compressed inputs or is limited to raw images.
pub struct LossyOpts {
    pub bits: Option<u8>,
    pub best_effort: bool,
    pub images_only: bool,
}

/// What lossy packing does with an input.
#[derive(Debug, Clone, Copy, PartialEq, Eq, Structural)]
pub enum Lossy {
    /// Drop the low bits.
    Quantize,
    /// Pack losslessly.
    Skip,
    /// Refuse: the input is already compressed.
    Refuse,
}

/// The lossy decision for `data`: with images only, quantize raw images and
/// skip the rest; else refuse (or, with best effort, skip) compressed
/// formats and quantize the rest.
pub open spec fn spec_lossy_decision(data: Seq<u8>, best_effort: bool, images_only: bool) -> Lossy {
    if images_only {
        if crate::image::is_ppm(data) { Lossy::Quantize } else { Lossy::Skip }
    } else if lossy::compressed_kind(data) is Some {
        if best_effort { Lossy::Skip } else { Lossy::Refuse }
    } else {
        Lossy::Quantize
    }
}

/// Decides what lossy packing does with `data`.
pub fn lossy_decision(data: &[u8], opts: &LossyOpts) -> (r: Lossy)
    ensures
        r == spec_lossy_decision(data@, opts.best_effort, opts.images_only),
{
    if opts.images_only {
        if lossy::raw_image_format(data).is_some() {
            Lossy::Quantize
        } else {
            Lossy::Skip
        }
    } else if lossy::compressed_format(data).is_some() {
        if opts.best_effort {
            Lossy::Skip
        } else {
            Lossy::Refuse
        }
    } else {
        Lossy::Quantize
    }
}


/// Lossy packing never drops bits of compressed data: outside images-only
/// mode, data that starts with the gzip signature `1F 8B`, or with any
/// other compressed format's, is refused, or skipped with best effort;
/// other data is quantized.
pub proof fn lemma_lossy_spares_compressed(data: Seq<u8>, best_effort: bool)
    ensures
        data.len() >= 2 && data[0] == 0x1F && data[1] == 0x8B
            ==> spec_lossy_decision(data, best_effort, false) == (if best_effort { Lossy::Skip } else { Lossy::Refuse }),
        spec_lossy_decision(data, best_effort, false) == Lossy::Quantize <==> lossy::compressed_kind(data) is None,
{
    lossy::lemma_compressed_signatures(data);
}

/// Why a model suits the data it won on, as `explain` tells it.
pub open spec fn reason_text(model: u8) -> Seq<char> {
    if model == block::RLE {
        "adjacent repeated bytes"@
    } else if model == block::ENTROPY {
        "skewed byte frequencies (canonical Huffman)"@
    } else if model == block::LZ {
        "repeated substrings"@
    } else if model == block::LZH {
        "LZ, then Huffman"@
    } else if model == block::BWTM {
        "Burrows-Wheeler + move-to-front + range coding"@
    } else if model == block::RANGE {
        "adaptive range coding, no stored table"@
    } else if model == block::PPM {
        "order-1 context (each byte from the last)"@
    } else if model == block::GEN {
        "formulas like constant fills and ramps"@
    } else if model == block::DELTA {
        "smooth, slowly-changing data"@
    } else if model == block::CSVT {
        "tabular data, columns, grouped"@
    } else if model == block::WORD {
        "repeated words, dictionary coded"@
    } else {
        "the fallback, stored as-is"@
    }
}

/// Why a model suits the data it won on.
pub fn reason(model: u8) -> (s: &'static str)
    ensures
        s@ == reason_text(model),
{
    match model {
        block::RLE => "adjacent repeated bytes",
        block::ENTROPY => "skewed byte frequencies (canonical Huffman)",
        block::LZ => "repeated substrings",
        block::LZH => "LZ, then Huffman",
        block::BWTM => "Burrows-Wheeler + move-to-front + range coding",
        block::RANGE => "adaptive range coding, no stored table",
        block::PPM => "order-1 context (each byte from the last)",
        block::GEN => "formulas like constant fills and ramps",
        block::DELTA => "smooth, slowly-changing data",
        block::CSVT => "tabular data, columns, grouped",
        block::WORD => "repeated words, dictionary coded",
        _ => "the fallback, stored as-is",
    }
}

/// The terminal colour (an SGR parameter) of each model on the map.
pub open spec fn model_color_code(model: u8) -> Seq<char> {
    if model == block::RLE {
        "38;5;105"@
    } else if model == block::ENTROPY {
        "38;5;44"@
    } else if model == block::LZ {
        "38;5;77"@
    } else if model == block::LZH {
        "38;5;75"@
    } else if model == block::LZR {
        "38;5;111"@
    } else if model == block::BWTM {
        "38;5;177"@
    } else if model == block::RANGE {
        "38;5;221"@
    } else if model == block::PPM {
        "38;5;215"@
    } else if model == block::GEN {
        "38;5;203"@
    } else if model == block::DELTA {
        "38;5;79"@
    } else if model == block::CSVT {
        "38;5;43"@
    } else if model == block::WORD {
        "38;5;169"@
    } else if model == block::SIGNAL {
        "38;5;209"@
    } else {
        "38;5;144"@
    }
}

/// The terminal colour of a model on the map.
pub fn model_color(model: u8) -> (s: &'static str)
    ensures
        s@ == model_color_code(model),
{
    match model {
        block::RLE => "38;5;105",
        block::ENTROPY => "38;5;44",
        block::LZ => "38;5;77",
        block::LZH => "38;5;75",
        block::LZR => "38;5;111",
        block::BWTM => "38;5;177",
        block::RANGE => "38;5;221",
        block::PPM => "38;5;215",
        block::GEN => "38;5;203",
        block::DELTA => "38;5;79",
        block::CSVT => "38;5;43",
        block::WORD => "38;5;169",
        block::SIGNAL => "38;5;209",
        _ => "38;5;144",
    }
}

/// The terminal colour of each entropy class on the heat map.
pub open spec fn class_color_code(class: EntropyClass) -> Seq<char> {
    match class {
        EntropyClass::Empty => "38;5;245"@,
        EntropyClass::VeryLow => "38;5;111"@,
        EntropyClass::Low => "38;5;80"@,
        EntropyClass::Medium => "38;5;221"@,
        EntropyClass::High => "38;5;215"@,
        EntropyClass::VeryHigh => "38;5;203"@,
    }
}

/// The terminal colour of an entropy class on the heat map.
pub fn color_for(class: EntropyClass) -> (s: &'static str)
    ensures
        s@ == class_color_code(class),
{
    match class {
        EntropyClass::Empty => "38;5;245",
        EntropyClass::VeryLow => "38;5;111",
        EntropyClass::Low => "38;5;80",
        EntropyClass::Medium => "38;5;221",
        EntropyClass::High => "38;5;215",
        EntropyClass::VeryHigh => "38;5;203",
    }
}

/// How many runs of equal bytes `d[..n]` holds.
pub open spec fn run_count(d: Seq<u8>, n: int) -> nat
    decreases n,
{
    if n <= 0 {
        0
    } else if n == 1 || d[n - 1] != d[n - 2] {
        run_count(d, n - 1) + 1
    } else {
        run_count(d, n - 1)
    }
}

/// The length of the run of equal bytes that ends at `d[n - 1]`.
pub open spec fn run_at(d: Seq<u8>, n: int) -> nat
    decreases n,
{
    if n <= 0 {
        0
    } else if n == 1 || d[n - 1] != d[n - 2] {
        1
    } else {
        run_at(d, n - 1) + 1
    }
}

/// The longest run of equal bytes in `d[..n]`.
pub open spec fn longest_run(d: Seq<u8>, n: int) -> nat
    decreases n,
{
    if n <= 0 {
        0
    } else {
        let l = longest_run(d, n - 1);
        if run_at(d, n) > l { run_at(d, n) } else { l }
    }
}

proof fn lemma_run_at_bound(d: Seq<u8>, n: int)
    requires
        n >= 0,
    ensures
        run_at(d, n) <= n,
        n >= 1 ==> run_at(d, n) >= 1,
    decreases n,
{
    if n > 1 {
        lemma_run_at_bound(d, n - 1);
    }
}

/// The number of runs of equal bytes in `data` and the longest one.
pub fn run_stats(data: &[u8]) -> (r: (usize, usize))
    ensures
        r == (run_count(data@, data@.len() as int) as usize, longest_run(data@, data@.len() as int) as usize),
{
    let n = data.len();
    if n == 0 {
        return (0, 0);
    }
    let mut count: usize = 1;
    let mut longest: usize = 1;
    let mut cur: usize = 1;
    let mut i: usize = 1;
    assert(run_count(data@, 0) == 0 && run_at(data@, 0) == 0 && longest_run(data@, 0) == 0);
    while i < n
        invariant
            1 <= i <= n,
            n == data@.len(),
            count == run_count(data@, i as int),
            cur == run_at(data@, i as int),
            count <= i,
            cur <= i,
            (if longest > cur { longest } else { cur }) == longest_run(data@, i as int),
            1 <= longest <= i,
        decreases n - i,
    {
        proof {
            lemma_run_at_bound(data@, i as int);
        }
        if data[i - 1] == data[i] {
            cur = cur + 1;
        } else {
            count = count + 1;
            longest = if longest > cur { longest } else { cur };
            cur = 1;
        }
        i = i + 1;
    }
    (count, if longest > cur { longest } else { cur })
}


/// The extension of an image by its signature: PNG, JPEG, GIF, WebP, BMP.
pub open spec fn image_kind(d: Seq<u8>) -> Option<Seq<char>> {
    if starts(d, seq![0x89u8, 80, 78, 71]) {
        Some("png"@)
    } else if starts(d, seq![0xFFu8, 0xD8, 0xFF]) {
        Some("jpg"@)
    } else if starts(d, seq![71u8, 73, 70, 56]) {
        Some("gif"@)
    } else if d.len() >= 12 && starts(d, seq![82u8, 73, 70, 70]) && d.subrange(8, 12) == seq![87u8, 69, 66, 80] {
        Some("webp"@)
    } else if starts(d, seq![66u8, 77]) {
        Some("bmp"@)
    } else {
        None
    }
}

/// The extension of the image in `data`, by its signature.
pub fn image_ext(data: &[u8]) -> (r: Option<String>)
    ensures
        match r {
            Some(e) => image_kind(data@) == Some(e@),
            None => image_kind(data@) is None,
        },
{
    if lossy::starts_with(data, &[0x89, 80, 78, 71]) {
        return Some("png".to_owned());
    }
    if lossy::starts_with(data, &[0xFF, 0xD8, 0xFF]) {
        return Some("jpg".to_owned());
    }
    if lossy::starts_with(data, &[71, 73, 70, 56]) {
        return Some("gif".to_owned());
    }
    if data.len() >= 12 && lossy::starts_with(data, &[82, 73, 70, 70]) && data[8] == 87 && data[9] == 69 && data[10] == 66 && data[11] == 80 {
        assert(data@.subrange(8, 12) =~= seq![87u8, 69, 66, 80]);
        return Some("webp".to_owned());
    }
    if lossy::starts_with(data, &[66, 77]) {
        return Some("bmp".to_owned());
    }
    assert(data@.len() >= 12 ==> (data@.subrange(8, 12) == seq![87u8, 69, 66, 80] ==> data@[8] == 87 && data@[9] == 69 && data@[10] == 66 && data@[11] == 80));
    None
}

/// The little-endian 16-bit number at `at`.
pub open spec fn le16_at(d: Seq<u8>, at: int) -> int {
    d[at] + 256 * d[at + 1]
}

/// The BMP file for a device-independent bitmap: the file header (`BM`,
/// the file size, zero, the pixel offset after the info header, the palette
/// and the colour masks, each number cut to 32 bits), then the bitmap.
pub open spec fn spec_dib_to_bmp(dib: Seq<u8>) -> Option<Seq<u8>> {
    if dib.len() < 40 {
        None
    } else {
        let bi_size = crate::image::le_at(dib, 0) as int;
        let bit_count = le16_at(dib, 14);
        let compression = crate::image::le_at(dib, 16);
        let clr_used = crate::image::le_at(dib, 32) as int;
        let palette = if bit_count <= 8 {
            (if clr_used != 0 { clr_used } else { vstd::arithmetic::power2::pow2(bit_count as nat) as int }) * 4
        } else {
            0
        };
        let masks = if compression == 3 && bi_size == 40 { 12int } else { 0 };
        let pixel_offset = 14 + bi_size + palette + masks;
        let file_size = 14 + dib.len();
        Some(seq![66u8, 77] + le32(file_size as u32) + le32(0) + le32(pixel_offset as u32) + dib)
    }
}

/// Wraps a device-independent bitmap (as the clipboard holds one) into a
/// BMP file.
pub fn dib_to_bmp(dib: &[u8]) -> (r: Option<Vec<u8>>)
    requires
        dib@.len() + 14 <= u64::MAX,
    ensures
        match r {
            Some(v) => spec_dib_to_bmp(dib@) == Some(v@),
            None => spec_dib_to_bmp(dib@) is None,
        },
{
    if dib.len() < 40 {
        return None;
    }
    let bi_size = crate::text::read_le32(dib[0], dib[1], dib[2], dib[3]) as u64;
    let bit_count: u16 = dib[14] as u16 + 256 * dib[15] as u16;
    let compression = crate::text::read_le32(dib[16], dib[17], dib[18], dib[19]);
    let clr_used = crate::text::read_le32(dib[32], dib[33], dib[34], dib[35]) as u64;
    let palette: u64 = if bit_count <= 8 {
        let n: u64 = if clr_used != 0 {
            clr_used
        } else {
            proof {
                lemma_pow2_small(bit_count as nat);
            }
            1u64 << (bit_count as u64)
        };
        n * 4
    } else {
        0
    };
    let masks: u64 = if compression == 3 && bi_size == 40 { 12 } else { 0 };
    let pixel_offset: u64 = 14 + bi_size + palette + masks;
    let file_size: u64 = 14 + dib.len() as u64;
    let mut out: Vec<u8> = Vec::new();
    out.push(66);
    out.push(77);
    let a = crate::text::le32_bytes(#[verifier::truncate] (file_size as u32));
    crate::slices::append(&mut out, &a);
    let z = crate::text::le32_bytes(0);
    crate::slices::append(&mut out, &z);
    let p = crate::text::le32_bytes(#[verifier::truncate] (pixel_offset as u32));
    crate::slices::append(&mut out, &p);
    crate::slices::append(&mut out, dib);
    assert(out@ =~= seq![66u8, 77] + le32(file_size as u32) + le32(0) + le32(pixel_offset as u32) + dib@);
    Some(out)
}

proof fn lemma_pow2_small(k: nat)
    requires
        k <= 8,
    ensures
        vstd::arithmetic::power2::pow2(k) <= 256,
        (1u64 << (k as u64)) == vstd::arithmetic::power2::pow2(k),
{
    vstd::arithmetic::power2::lemma2_to64();
    if k < 8 {
        vstd::arithmetic::power2::lemma_pow2_strictly_increases(k, 8);
    }
    vstd::bits::lemma_u64_shl_is_mul(1, k as u64);
}


/// The value of a hexadecimal digit.
pub open spec fn hex_value(c: u8) -> Option<u8> {
    if 48 <= c <= 57 {
        Some((c - 48) as u8)
    } else if 97 <= c <= 102 {
        Some((c - 87) as u8)
    } else if 65 <= c <= 70 {
        Some((c - 55) as u8)
    } else {
        None
    }
}

/// Two bytes read as a hexadecimal number the way `u8::from_str_radix`
/// reads them: two digits, or a plus sign and one digit.
pub open spec fn hex_pair(a: u8, b: u8) -> Option<u8> {
    if a == 43 {
        hex_value(b)
    } else {
        match (hex_value(a), hex_value(b)) {
            (Some(x), Some(y)) => Some((16 * x + y) as u8),
            _ => None,
        }
    }
}

/// A UTF-8 continuation byte.
pub open spec fn is_continuation(b: u8) -> bool {
    128 <= b < 192
}

/// `p[i..]` with each `%` followed by two hexadecimal digits replaced by
/// the byte they give.
pub open spec fn unescape(p: Seq<u8>, i: int) -> Seq<u8>
    decreases p.len() - i,
{
    if i < 0 || i >= p.len() {
        Seq::empty()
    } else if p[i] == 37 && i + 2 < p.len() && hex_pair(p[i + 1], p[i + 2]) is Some {
        seq![hex_pair(p[i + 1], p[i + 2]).unwrap()] + unescape(p, i + 3)
    } else {
        seq![p[i]] + unescape(p, i + 1)
    }
}

/// The text after each `%` met while unescaping `p[i..]` can be cut two
/// bytes on: the cut is not inside a character.
pub open spec fn unescape_cuts(p: Seq<u8>, i: int) -> bool
    decreases p.len() - i,
{
    if i < 0 || i >= p.len() {
        true
    } else if p[i] == 37 && i + 2 < p.len() {
        &&& (i + 3 == p.len() || !is_continuation(p[i + 3]))
        &&& if hex_pair(p[i + 1], p[i + 2]) is Some { unescape_cuts(p, i + 3) } else { unescape_cuts(p, i + 1) }
    } else {
        unescape_cuts(p, i + 1)
    }
}

/// The path of a `file://` URI: the prefix dropped, percent escapes
/// decoded.
pub open spec fn uri_path(u: Seq<u8>) -> Seq<u8> {
    if u.len() >= 7 && u.take(7) == seq![102u8, 105, 108, 101, 58, 47, 47] { u.skip(7) } else { u }
}

fn hex_digit(c: u8) -> (r: Option<u8>)
    ensures
        r == hex_value(c),
{
    if 48 <= c && c <= 57 {
        Some(c - 48)
    } else if 97 <= c && c <= 102 {
        Some(c - 87)
    } else if 65 <= c && c <= 70 {
        Some(c - 55)
    } else {
        None
    }
}

fn parse_hex_pair(a: u8, b: u8) -> (r: Option<u8>)
    ensures
        r == hex_pair(a, b),
{
    if a == 43 {
        return hex_digit(b);
    }
    match (hex_digit(a), hex_digit(b)) {
        (Some(x), Some(y)) => Some(16 * x + y),
        _ => None,
    }
}

/// Whether `decode_file_uri` can cut `uri` where it needs to: no escape
/// it meets is followed by the middle of a character.
pub fn uri_cuts_ok(uri: &str) -> (r: bool)
    ensures
        r == unescape_cuts(uri_path(encode_utf8(uri@)), 0),
{
    let u = uri.as_bytes();
    let start: usize = if lossy::starts_with(u, &[102, 105, 108, 101, 58, 47, 47]) { 7 } else { 0 };
    let p = &u[start..u.len()];
    let ghost ps = uri_path(u@);
    assert(p@ =~= ps);
    let mut i: usize = 0;
    while i < p.len()
        invariant
            p@ == ps,
            ps == uri_path(encode_utf8(uri@)),
            i <= p@.len(),
            unescape_cuts(ps, 0) == unescape_cuts(ps, i as int),
        decreases p@.len() - i,
    {
        if p[i] == 37 && p.len() > 2 && i < p.len() - 2 {
            if !(i + 3 == p.len() || !(128 <= p[i + 3] && p[i + 3] < 192)) {
                return false;
            }
            match parse_hex_pair(p[i + 1], p[i + 2]) {
                Some(_) => {
                    i = i + 3;
                    continue;
                },
                None => {},
            }
        }
        i = i + 1;
    }
    true
}

/// The path a `file://` URI names, its percent escapes decoded (as text;
/// bytes that are not UTF-8 become U+FFFD).
pub fn decode_file_uri(uri: &str) -> (r: String)
    requires
        unescape_cuts(uri_path(encode_utf8(uri@)), 0),
    ensures
        r@ == text_of(unescape(uri_path(encode_utf8(uri@)), 0)),
{
    let u = uri.as_bytes();
    let start: usize = if lossy::starts_with(u, &[102, 105, 108, 101, 58, 47, 47]) { 7 } else { 0 };
    let p = &u[start..u.len()];
    let ghost ps = uri_path(u@);
    assert(p@ =~= ps);
    let mut out: Vec<u8> = Vec::new();
    let mut i: usize = 0;
    while i < p.len()
        invariant
            p@ == ps,
            i <= p@.len(),
            unescape_cuts(ps, i as int),
            out@ + unescape(ps, i as int) == unescape(ps, 0),
        decreases p@.len() - i,
    {
        if p[i] == 37 && p.len() > 2 && i < p.len() - 2 {
            match parse_hex_pair(p[i + 1], p[i + 2]) {
                Some(b) => {
                    let ghost before = out@;
                    out.push(b);
                    assert(before + unescape(ps, i as int) =~= out@ + unescape(ps, i + 3));
                    i = i + 3;
                    continue;
                },
                None => {},
            }
        }
        let ghost before = out@;
        out.push(p[i]);
        assert(before + unescape(ps, i as int) =~= out@ + unescape(ps, i + 1));
        i = i + 1;
    }
    assert(out@ + unescape(ps, i as int) =~= out@);
    lossy_string(out.as_slice())
}


/// A character with the Unicode `White_Space` property, as
/// `char::is_whitespace` tells.
pub open spec fn is_space_char(c: char) -> bool {
    let v = c as u32;
    (0x09 <= v <= 0x0D) || v == 0x20 || v == 0x85 || v == 0xA0 || v == 0x1680 || (0x2000 <= v <= 0x200A)
        || v == 0x2028 || v == 0x2029 || v == 0x202F || v == 0x205F || v == 0x3000
}

fn space_char(c: char) -> (r: bool)
    ensures
        r == is_space_char(c),
{
    let v = c as u32;
    (0x09 <= v && v <= 0x0D) || v == 0x20 || v == 0x85 || v == 0xA0 || v == 0x1680 || (0x2000 <= v && v <= 0x200A)
        || v == 0x2028 || v == 0x2029 || v == 0x202F || v == 0x205F || v == 0x3000
}

/// The first index from `i` on that holds no white space.
pub open spec fn skip_spaces(s: Seq<char>, i: int) -> int
    decreases s.len() - i,
{
    if i < 0 || i >= s.len() || !is_space_char(s[i]) { i } else { skip_spaces(s, i + 1) }
}

/// The first index from `i` on that holds white space.
pub open spec fn word_stop(s: Seq<char>, i: int) -> int
    decreases s.len() - i,
{
    if i < 0 || i >= s.len() || is_space_char(s[i]) { i } else { word_stop(s, i + 1) }
}

/// The first word of `s` when it is an `http://` or `https://` link.
pub open spec fn url_in(s: Seq<char>) -> Option<Seq<char>> {
    let a = skip_spaces(s, 0);
    let w = s.subrange(a, word_stop(s, a));
    if a >= s.len() {
        None
    } else if (w.len() >= 7 && w.take(7) == seq!['h', 't', 't', 'p', ':', '/', '/'])
        || (w.len() >= 8 && w.take(8) == seq!['h', 't', 't', 'p', 's', ':', '/', '/']) {
        Some(w)
    } else {
        None
    }
}

/// The UTF-8 bytes of `c`.
fn utf8_of(c: char, out: &mut Vec<u8>)
    ensures
        final(out)@ == old(out)@ + vstd::utf8::encode_scalar(c as u32),
{
    let v = c as u32;
    if v <= 0x7F {
        out.push((v & 0x7F) as u8);
    } else if v <= 0x7FF {
        out.push(0xC0 | ((v >> 6) & 0x1F) as u8);
        out.push(0x80 | (v & 0x3F) as u8);
    } else if v <= 0xFFFF {
        out.push(0xE0 | ((v >> 12) & 0x0F) as u8);
        out.push(0x80 | ((v >> 6) & 0x3F) as u8);
        out.push(0x80 | (v & 0x3F) as u8);
    } else {
        out.push(0xF0 | ((v >> 18) & 0x7) as u8);
        out.push(0x80 | ((v >> 12) & 0x3F) as u8);
        out.push(0x80 | ((v >> 6) & 0x3F) as u8);
        out.push(0x80 | (v & 0x3F) as u8);
    }
    proof {
        vstd::utf8::char_is_scalar(c);
    }
}

/// The first word of `text`, when it is an `http://` or `https://` link.
pub fn first_url(text: &str) -> (r: Option<String>)
    ensures
        match r {
            Some(u) => url_in(text@) == Some(u@),
            None => url_in(text@) is None,
        },
{
    let cs = chars_of(text);
    let n = cs.len();
    let mut a: usize = 0;
    while a < n && space_char(cs[a])
        invariant
            a <= n,
            n == cs@.len(),
            skip_spaces(cs@, 0) == skip_spaces(cs@, a as int),
        decreases n - a,
    {
        a = a + 1;
    }
    if a >= n {
        return None;
    }
    let mut b: usize = a;
    while b < n && !space_char(cs[b])
        invariant
            a <= b <= n,
            n == cs@.len(),
            word_stop(cs@, a as int) == word_stop(cs@, b as int),
        decreases n - b,
    {
        b = b + 1;
    }
    let ghost w = cs@.subrange(a as int, b as int);
    let http = b - a >= 7 && cs[a] == 'h' && cs[a + 1] == 't' && cs[a + 2] == 't' && cs[a + 3] == 'p' && cs[a + 4] == ':'
        && cs[a + 5] == '/' && cs[a + 6] == '/';
    let https = b - a >= 8 && cs[a] == 'h' && cs[a + 1] == 't' && cs[a + 2] == 't' && cs[a + 3] == 'p' && cs[a + 4] == 's'
        && cs[a + 5] == ':' && cs[a + 6] == '/' && cs[a + 7] == '/';
    assert(http == (w.len() >= 7 && w.take(7) == seq!['h', 't', 't', 'p', ':', '/', '/'])) by {
        if w.len() >= 7 && w.take(7) == seq!['h', 't', 't', 'p', ':', '/', '/'] {
            assert(w.take(7)[0] == 'h' && w.take(7)[1] == 't' && w.take(7)[2] == 't' && w.take(7)[3] == 'p');
            assert(w.take(7)[4] == ':' && w.take(7)[5] == '/' && w.take(7)[6] == '/');
        }
        if http {
            assert(w.take(7) =~= seq!['h', 't', 't', 'p', ':', '/', '/']);
        }
    }
    assert(https == (w.len() >= 8 && w.take(8) == seq!['h', 't', 't', 'p', 's', ':', '/', '/'])) by {
        if w.len() >= 8 && w.take(8) == seq!['h', 't', 't', 'p', 's', ':', '/', '/'] {
            assert(w.take(8)[0] == 'h' && w.take(8)[1] == 't' && w.take(8)[2] == 't' && w.take(8)[3] == 'p');
            assert(w.take(8)[4] == 's' && w.take(8)[5] == ':' && w.take(8)[6] == '/' && w.take(8)[7] == '/');
        }
        if https {
            assert(w.take(8) =~= seq!['h', 't', 't', 'p', 's', ':', '/', '/']);
        }
    }
    if !(http || https) {
        return None;
    }
    let mut bytes: Vec<u8> = Vec::new();
    let mut k: usize = a;
    while k < b
        invariant
            a <= k <= b <= n,
            n == cs@.len(),
            w == cs@.subrange(a as int, b as int),
            bytes@ + encode_utf8(cs@.subrange(k as int, b as int)) == encode_utf8(w),
        decreases b - k,
    {
        let ghost before = bytes@;
        utf8_of(cs[k], &mut bytes);
        assert(cs@.subrange(k as int, b as int).drop_first() =~= cs@.subrange(k + 1, b as int));
        assert(before + encode_utf8(cs@.subrange(k as int, b as int)) =~= bytes@ + encode_utf8(cs@.subrange(k + 1, b as int)));
        k = k + 1;
    }
    assert(cs@.subrange(k as int, b as int) =~= Seq::<char>::empty());
    assert(bytes@ =~= encode_utf8(w));
    proof {
        vstd::utf8::encode_utf8_valid_utf8(w);
        vstd::utf8::encode_utf8_decode_utf8(w);
    }
    Some(lossy_string(bytes.as_slice()))
}

} // verus!
