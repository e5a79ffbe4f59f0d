//! The LZ token stream decoder. A stream is a sequence of groups: a flag
//! byte, then up to eight tokens; bit `k` of the flag says whether token `k`
//! is a literal byte (0) or a match (1), written as a varint distance and a
//! varint length less the minimum match length.
use vstd::prelude::*;
use crate::varint;

verus! {

pub const MIN_MATCH: usize = 3;

/// How far back a windowed decode keeps history, and how far back the
/// encoder looks.
pub const HISTORY: usize = 65536;

/// `out` extended by copying `len` bytes from `dist` back, one at a time (a
/// copy may overlap the bytes it writes).
pub open spec fn copy_match(out: Seq<u8>, dist: nat, len: nat) -> Seq<u8>
    decreases len,
{
    if len == 0 {
        out
    } else {
        copy_match(out.push(out[out.len() - dist]), dist, (len - 1) as nat)
    }
}

/// Whether bit `k` of `flag` is set.
pub open spec fn flag_bit(flag: u8, k: int) -> bool {
    flag & (1u8 << (k as u8)) != 0
}

/// The match length that a stored length `l0` stands for (adding the minimum
/// match length, wrapping at the width of `usize`).
pub open spec fn stored_len(l0: usize) -> usize {
    if l0 <= usize::MAX - 3 {
        (l0 + 3) as usize
    } else {
        (l0 - (usize::MAX - 3) - 1) as usize
    }
}

/// The decoder as a state machine: at `i` in `data`, at token `k` of a group
/// with flag `flag`, having produced `out`; it stops once `out` holds
/// `target` bytes or `data` is used up. A match whose distance is zero or
/// reaches before the start of `out` ends its group.
pub open spec fn dec(data: Seq<u8>, target: nat, i: int, k: int, flag: u8, out: Seq<u8>) -> Seq<u8>
    decreases data.len() - i,
{
    if i < 0 {
        out
    } else if k < 8 && out.len() < target && i < data.len() {
        if !flag_bit(flag, k) {
            dec(data, target, i + 1, k + 1, flag, out.push(data[i]))
        } else {
            let dist = varint::value_at(data, i);
            let i1 = varint::end_at(data, i);
            let l0 = varint::value_at(data, i1);
            let i2 = varint::end_at(data, i1);
            proof {
                varint::lemma_end_bounds(data, i, 0);
                varint::lemma_end_bounds(data, i1, 0);
            }
            if dist == 0 || dist > out.len() {
                dec(data, target, i2, 8, flag, out)
            } else {
                dec(data, target, i2, k + 1, flag, copy_match(out, dist as nat, stored_len(l0) as nat))
            }
        }
    } else if out.len() < target && i < data.len() {
        dec(data, target, i + 1, 0, data[i], out)
    } else {
        out
    }
}

/// What `decode` produces from `data`, decoding up to `count` bytes.
pub open spec fn spec_decode(data: Seq<u8>, count: nat) -> Seq<u8> {
    dec(data, count, 0, 8, 0, Seq::empty())
}

/// The history a windowed decode starts from: the last `HISTORY` bytes.
pub open spec fn seed_of(history: Seq<u8>) -> Seq<u8> {
    if history.len() <= HISTORY {
        history
    } else {
        history.subrange(history.len() - HISTORY, history.len() as int)
    }
}

/// What `decode_windowed` produces: the decoder starts from the seed and the
/// seed is dropped from its output.
pub open spec fn spec_decode_windowed(data: Seq<u8>, count: nat, history: Seq<u8>) -> Seq<u8> {
    let seed = seed_of(history);
    let full = dec(data, seed.len() + count, 0, 8, 0, seed);
    full.subrange(seed.len() as int, full.len() as int)
}

proof fn lemma_dec_extends(data: Seq<u8>, target: nat, i: int, k: int, flag: u8, out: Seq<u8>)
    ensures
        out.len() <= dec(data, target, i, k, flag, out).len(),
        dec(data, target, i, k, flag, out).subrange(0, out.len() as int) == out,
    decreases data.len() - i,
{
    if i >= 0 {
        if k < 8 && out.len() < target && i < data.len() {
            if !flag_bit(flag, k) {
                lemma_dec_extends(data, target, i + 1, k + 1, flag, out.push(data[i]));
                let r = dec(data, target, i + 1, k + 1, flag, out.push(data[i]));
                assert(r.subrange(0, out.len() as int) =~= r.subrange(0, out.len() as int + 1).subrange(0, out.len() as int));
            } else {
                let dist = varint::value_at(data, i);
                let i1 = varint::end_at(data, i);
                let l0 = varint::value_at(data, i1);
                let i2 = varint::end_at(data, i1);
                varint::lemma_end_bounds(data, i, 0);
                varint::lemma_end_bounds(data, i1, 0);
                if dist == 0 || dist > out.len() {
                    lemma_dec_extends(data, target, i2, 8, flag, out);
                } else {
                    let c = copy_match(out, dist as nat, stored_len(l0) as nat);
                    lemma_copy_extends(out, dist as nat, stored_len(l0) as nat);
                    lemma_dec_extends(data, target, i2, k + 1, flag, c);
                    let r = dec(data, target, i2, k + 1, flag, c);
                    assert(r.subrange(0, out.len() as int) =~= r.subrange(0, c.len() as int).subrange(0, out.len() as int));
                }
            }
        } else if out.len() < target && i < data.len() {
            lemma_dec_extends(data, target, i + 1, 0, data[i], out);
        } else {
            assert(out.subrange(0, out.len() as int) =~= out);
        }
    }
}

pub proof fn lemma_copy_extends(out: Seq<u8>, dist: nat, len: nat)
    ensures
        copy_match(out, dist, len).len() == out.len() + len,
        copy_match(out, dist, len).subrange(0, out.len() as int) == out,
    decreases len,
{
    if len > 0 {
        let o2 = out.push(out[out.len() - dist]);
        lemma_copy_extends(o2, dist, (len - 1) as nat);
        let r = copy_match(o2, dist, (len - 1) as nat);
        assert(r.subrange(0, out.len() as int) =~= r.subrange(0, o2.len() as int).subrange(0, out.len() as int));
    } else {
        assert(out.subrange(0, out.len() as int) =~= out);
    }
}

fn decode_into(data: &[u8], target: usize, out: &mut Vec<u8>)
    ensures
        final(out)@ == dec(data@, target as nat, 0, 8, 0, old(out)@),
{
    let ghost d = data@;
    let ghost out0 = old(out)@;
    let mut i: usize = 0;
    while out.len() < target && i < data.len()
        invariant
            d == data@,
            i <= d.len(),
            dec(d, target as nat, 0, 8, 0, out0) == dec(d, target as nat, i as int, 8, 0, out@),
        decreases d.len() - i,
    {
        let flag = data[i];
        i = i + 1;
        let mut k: usize = 0;
        let ghost i_start = i;
        assert(dec(d, target as nat, i - 1, 8, 0, out@) == dec(d, target as nat, i as int, 0, flag, out@));
        while k < 8
            invariant
                d == data@,
                0 < i_start <= i <= d.len(),
                k <= 8,
                dec(d, target as nat, 0, 8, 0, out0) == dec(d, target as nat, i as int, k as int, flag, out@),
            ensures
                0 < i_start <= i <= d.len(),
                k <= 8,
                dec(d, target as nat, 0, 8, 0, out0) == dec(d, target as nat, i as int, k as int, flag, out@),
                k < 8 ==> (out.len() >= target || i >= d.len()),
            decreases 8 - k,
        {
            if out.len() >= target || i >= data.len() {
                break;
            }
            if flag & (1u8 << (k as u8)) == 0 {
                out.push(data[i]);
                i = i + 1;
            } else {
                let ghost i0 = i as int;
                let dist = varint::read(data, &mut i);
                let ghost i1 = i as int;
                let l0 = varint::read(data, &mut i);
                proof {
                    varint::lemma_end_bounds(d, i0, 0);
                    varint::lemma_end_bounds(d, i1, 0);
                }
                let len = if l0 <= usize::MAX - MIN_MATCH {
                    l0 + MIN_MATCH
                } else {
                    l0 - (usize::MAX - MIN_MATCH) - 1
                };
                if dist == 0 || dist > out.len() {
                    assert(dec(d, target as nat, i0, k as int, flag, out@) == dec(d, target as nat, i as int, 8, flag, out@));
                    k = 8;
                    break;
                }
                let start = out.len() - dist;
                let ghost before = out@;
                let mut x: usize = 0;
                while x < len
                    invariant
                        x <= len,
                        start == before.len() - dist,
                        0 < dist <= before.len(),
                        copy_match(before, dist as nat, len as nat) == copy_match(out@, dist as nat, (len - x) as nat),
                        out@.len() == before.len() + x,
                    decreases len - x,
                {
                    assert(start + x < out.len());
                    let b = out[start + x];
                    out.push(b);
                    x = x + 1;
                }
            }
            k = k + 1;
        }
        if k < 8 {
            assert(dec(d, target as nat, i as int, k as int, flag, out@) == dec(d, target as nat, i as int, 8, flag, out@));
        }
        assert(dec(d, target as nat, i as int, 8, flag, out@) == dec(d, target as nat, i as int, 8, 0, out@));
    }
    assert(dec(d, target as nat, i as int, 8, 0, out@) == out@);
}

/// Decodes a token stream into up to `count` bytes (a final match may run
/// past `count`).
pub fn decode(data: &[u8], count: usize) -> (out: Vec<u8>)
    ensures
        out@ == spec_decode(data@, count as nat),
{
    let mut out: Vec<u8> = Vec::new();
    decode_into(data, count, &mut out);
    out
}

/// Decodes a token stream whose matches may reach back into `history`.
pub fn decode_windowed(data: &[u8], count: usize, history: &[u8]) -> (out: Vec<u8>)
    requires
        count <= usize::MAX - HISTORY,
    ensures
        out@ == spec_decode_windowed(data@, count as nat, history@),
{
    let seed = if history.len() <= HISTORY { history.len() } else { HISTORY };
    let mut out: Vec<u8> = Vec::new();
    out.extend_from_slice(&history[history.len() - seed..history.len()]);
    assert(out@ =~= seed_of(history@));
    decode_into(data, seed + count, &mut out);
    proof {
        lemma_dec_extends(data@, (seed + count) as nat, 0, 8, 0, seed_of(history@));
    }
    let rest = out.split_off(seed);
    rest
}


/// The longest match length `stats` counts.
pub const MAX_MATCH: usize = 258;
/// How far back `stats` looks for a match.
pub const WINDOW: usize = 4096;

/// How many bytes from `pos` equal those from `j`, counting from `k` and
/// stopping at `max`.
pub open spec fn common_len(b: Seq<u8>, j: int, pos: int, k: int, max: int) -> int
    decreases max - k,
{
    if k < max && b[j + k] == b[pos + k] { common_len(b, j, pos, k + 1, max) } else { k }
}

/// The room for a match at `pos`: to the end, at most `MAX_MATCH`.
pub open spec fn match_room(b: Seq<u8>, pos: int) -> int {
    if b.len() - pos < MAX_MATCH { b.len() - pos } else { MAX_MATCH as int }
}

/// The first longest match for `pos` among the starts from `j` to `pos`,
/// given the best so far: its distance and length.
pub open spec fn best_match(b: Seq<u8>, pos: int, j: int, best: (int, int)) -> (int, int)
    decreases pos - j,
{
    if j >= pos {
        best
    } else {
        let len = common_len(b, j, pos, 0, match_room(b, pos));
        best_match(b, pos, j + 1, if len > best.1 { (pos - j, len) } else { best })
    }
}

/// The start of the window before `pos`.
pub open spec fn window_from(pos: int) -> int {
    if pos > WINDOW { pos - WINDOW } else { 0 }
}

pub proof fn lemma_common_len_bounds(b: Seq<u8>, j: int, pos: int, k: int, max: int)
    requires
        k <= max,
    ensures
        k <= common_len(b, j, pos, k, max) <= max,
    decreases max - k,
{
    if k < max && b[j + k] == b[pos + k] {
        lemma_common_len_bounds(b, j, pos, k + 1, max);
    }
}

pub proof fn lemma_best_match_bounds(b: Seq<u8>, pos: int, j: int, best: (int, int))
    requires
        0 <= best.1 <= match_room(b, pos),
        match_room(b, pos) >= 0,
    ensures
        0 <= best_match(b, pos, j, best).1 <= match_room(b, pos),
    decreases pos - j,
{
    if j < pos {
        lemma_common_len_bounds(b, j, pos, 0, match_room(b, pos));
        let len = common_len(b, j, pos, 0, match_room(b, pos));
        lemma_best_match_bounds(b, pos, j + 1, if len > best.1 { (pos - j, len) } else { best });
    }
}

/// The longest match for `pos` in the `WINDOW` bytes before it, the
/// farthest start winning ties: distance and length, both 0 when nothing
/// matches.
pub fn longest_match(bytes: &[u8], pos: usize) -> (r: (usize, usize))
    requires
        pos <= bytes.len(),
    ensures
        (r.0 as int, r.1 as int) == best_match(bytes@, pos as int, window_from(pos as int), (0, 0)),
        r.1 <= match_room(bytes@, pos as int),
{
    let start = if pos > WINDOW { pos - WINDOW } else { 0 };
    let max_len = if bytes.len() - pos < MAX_MATCH { bytes.len() - pos } else { MAX_MATCH };
    let mut best_len: usize = 0;
    let mut best_dist: usize = 0;
    let mut j = start;
    while j < pos
        invariant
            start <= j <= pos,
            pos <= bytes@.len(),
            max_len == match_room(bytes@, pos as int),
            best_len <= max_len,
            best_dist <= pos,
            best_match(bytes@, pos as int, start as int, (0, 0))
                == best_match(bytes@, pos as int, j as int, (best_dist as int, best_len as int)),
        decreases pos - j,
    {
        let mut len: usize = 0;
        while len < max_len && bytes[j + len] == bytes[pos + len]
            invariant
                j < pos,
                pos <= bytes@.len(),
                max_len == match_room(bytes@, pos as int),
                pos + max_len <= bytes.len(),
                len <= max_len,
                common_len(bytes@, j as int, pos as int, 0, max_len as int) == common_len(bytes@, j as int, pos as int, len as int, max_len as int),
            decreases max_len - len,
        {
            len = len + 1;
        }
        if len > best_len {
            best_len = len;
            best_dist = pos - j;
        }
        j = j + 1;
    }
    proof {
        lemma_best_match_bounds(bytes@, pos as int, start as int, (0, 0));
    }
    (best_dist, best_len)
}

/// Counting a greedy parse from `i`: literals, matches and the bytes the
/// matches cover, added to `acc`.
pub open spec fn parse_counts(b: Seq<u8>, i: int, acc: (int, int, int)) -> (int, int, int)
    decreases b.len() - i,
{
    if i < 0 || i >= b.len() {
        acc
    } else {
        let len = best_match(b, i, window_from(i), (0, 0)).1;
        proof {
            lemma_best_match_bounds(b, i, window_from(i), (0, 0));
        }
        if len >= MIN_MATCH && len > 0 {
            parse_counts(b, i + len, (acc.0, acc.1 + 1, acc.2 + len))
        } else {
            parse_counts(b, i + 1, (acc.0 + 1, acc.1, acc.2))
        }
    }
}

/// How a greedy parse with the longest matches splits `bytes`: the number
/// of literals, of matches, and of bytes the matches cover.
pub fn stats(bytes: &[u8]) -> (r: (usize, usize, usize))
    ensures
        (r.0 as int, r.1 as int, r.2 as int) == parse_counts(bytes@, 0, (0, 0, 0)),
{
    let mut literals: usize = 0;
    let mut matches: usize = 0;
    let mut covered: usize = 0;
    let mut i: usize = 0;
    while i < bytes.len()
        invariant
            i <= bytes@.len(),
            literals + covered <= i,
            matches <= covered,
            parse_counts(bytes@, 0, (0, 0, 0)) == parse_counts(bytes@, i as int, (literals as int, matches as int, covered as int)),
        decreases bytes@.len() - i,
    {
        let (_, len) = longest_match(bytes, i);
        if len >= MIN_MATCH {
            matches = matches + 1;
            covered = covered + len;
            i = i + len;
        } else {
            literals = literals + 1;
            i = i + 1;
        }
    }
    (literals, matches, covered)
}

/// The length of the longest match at `pos`, as `longest_match` finds it.
pub open spec fn longest_at(b: Seq<u8>, pos: int) -> int {
    best_match(b, pos, window_from(pos), (0, 0)).1
}

proof fn lemma_longest_at_bounds(b: Seq<u8>, pos: int)
    requires
        0 <= pos < b.len(),
    ensures
        0 <= longest_at(b, pos) <= b.len() - pos,
        longest_at(b, pos) <= MAX_MATCH,
{
    lemma_best_match_bounds(b, pos, window_from(pos), (0, 0));
}

proof fn lemma_parse_counts_sum(b: Seq<u8>, i: int, acc: (int, int, int))
    requires
        0 <= i <= b.len(),
    ensures
        ({
            let r = parse_counts(b, i, acc);
            &&& r.0 + r.2 == acc.0 + acc.2 + b.len() - i
            &&& r.1 >= acc.1
            &&& MIN_MATCH * (r.1 - acc.1) <= r.2 - acc.2 <= MAX_MATCH * (r.1 - acc.1)
        }),
    decreases b.len() - i,
{
    if i < b.len() {
        lemma_longest_at_bounds(b, i);
        let len = longest_at(b, i);
        if len >= MIN_MATCH && len > 0 {
            lemma_parse_counts_sum(b, i + len, (acc.0, acc.1 + 1, acc.2 + len));
        } else {
            lemma_parse_counts_sum(b, i + 1, (acc.0 + 1, acc.1, acc.2));
        }
    }
}

proof fn lemma_parse_counts_match_found(b: Seq<u8>, i: int, acc: (int, int, int))
    requires
        0 <= i <= b.len(),
        parse_counts(b, i, acc).1 > acc.1,
    ensures
        exists|k: int| i <= k < b.len() && #[trigger] longest_at(b, k) >= MIN_MATCH,
    decreases b.len() - i,
{
    if i < b.len() {
        lemma_longest_at_bounds(b, i);
        let len = longest_at(b, i);
        if len >= MIN_MATCH && len > 0 {
            assert(longest_at(b, i) >= MIN_MATCH);
        } else {
            lemma_parse_counts_match_found(b, i + 1, (acc.0 + 1, acc.1, acc.2));
        }
    }
}

proof fn lemma_parse_counts_takes_match(b: Seq<u8>, i: int, k: int, acc: (int, int, int))
    requires
        0 <= i <= k < b.len(),
        longest_at(b, k) >= MIN_MATCH,
    ensures
        parse_counts(b, i, acc).1 > acc.1,
    decreases k - i,
{
    lemma_longest_at_bounds(b, i);
    let len = longest_at(b, i);
    if len >= MIN_MATCH && len > 0 {
        lemma_parse_counts_sum(b, i + len, (acc.0, acc.1 + 1, acc.2 + len));
    } else {
        lemma_parse_counts_takes_match(b, i + 1, k, (acc.0 + 1, acc.1, acc.2));
    }
}

/// What `stats` counts of a greedy parse: every byte once, as a literal or
/// inside a match of `MIN_MATCH` to `MAX_MATCH` bytes; and it counts a match
/// exactly when some position has a longest match of at least `MIN_MATCH`
/// bytes (the first such position is always reached, and a match is only
/// taken there).
pub proof fn lemma_stats_parse(b: Seq<u8>)
    ensures
        ({
            let r = parse_counts(b, 0, (0, 0, 0));
            &&& r.0 + r.2 == b.len()
            &&& MIN_MATCH * r.1 <= r.2 <= MAX_MATCH * r.1
            &&& r.1 > 0 <==> exists|k: int| 0 <= k < b.len() && #[trigger] longest_at(b, k) >= MIN_MATCH
        }),
{
    lemma_parse_counts_sum(b, 0, (0, 0, 0));
    if parse_counts(b, 0, (0, 0, 0)).1 > 0 {
        lemma_parse_counts_match_found(b, 0, (0, 0, 0));
    }
    if exists|k: int| 0 <= k < b.len() && #[trigger] longest_at(b, k) >= MIN_MATCH {
        let k = choose|k: int| 0 <= k < b.len() && #[trigger] longest_at(b, k) >= MIN_MATCH;
        lemma_parse_counts_takes_match(b, 0, k, (0, 0, 0));
    }
}

/// Encodes with the LZ token stream of `biglz`.
pub fn encode(bytes: &[u8]) -> (out: Vec<u8>)
    ensures
        ({
            let toks = crate::biglz::spec_tokens(bytes@, 0, crate::biglz::MAX_CHAIN as nat);
            &&& crate::biglz::apply(Seq::empty(), toks) == bytes@
            &&& crate::biglz::well_formed(Seq::empty(), toks)
            &&& out@ == crate::biglz::spec_serialize(toks)
        }),
{
    crate::biglz::encode(bytes)
}

} // verus!
