//! Runs that a rule can regenerate: a constant byte, or a ramp that adds the
//! same step (wrapping) each time; everything else is kept as literals.
use vstd::prelude::*;
use crate::slices;
use crate::varint;

verus! {

/// Runs shorter than this are left in the literals.
pub const MIN_RUN: usize = 4;

/// `b[k] - b[k - 1]`, wrapping.
pub open spec fn diff(b: Seq<u8>, k: int) -> u8 {
    b[k].wrapping_sub(b[k - 1])
}

/// How far the run that starts at `i` with step `step` extends, given that
/// its first `r` bytes follow the step.
pub open spec fn run_from(b: Seq<u8>, i: int, step: u8, r: int) -> int
    decreases b.len() - (i + r),
{
    if i + r < b.len() && i + r >= 1 && diff(b, i + r) == step {
        run_from(b, i, step, r + 1)
    } else {
        r
    }
}

/// The run at `i` (at least two bytes long; `i + 1 < b.len()`).
pub open spec fn run_at(b: Seq<u8>, i: int) -> int {
    run_from(b, i, diff(b, i + 1), 2)
}

/// The bytes of a literal segment.
pub open spec fn lit_seg(l: Seq<u8>) -> Seq<u8> {
    seq![0u8] + varint::encode(l.len() as usize) + l
}

/// The bytes of a run segment of `len` bytes from `start` by `step`.
pub open spec fn run_seg(start: u8, step: u8, len: int) -> Seq<u8> {
    if step == 0 {
        seq![1u8] + varint::encode(len as usize) + seq![start]
    } else {
        seq![2u8] + varint::encode(len as usize) + seq![start, step]
    }
}

/// The segments of `b` from `i` on, with the pending literal starting at
/// `ls`: their count and their bytes.
pub open spec fn segs(b: Seq<u8>, i: int, ls: int) -> (nat, Seq<u8>)
    decreases b.len() - i,
{
    if i >= b.len() {
        if ls < b.len() { (1, lit_seg(b.subrange(ls, b.len() as int))) } else { (0, Seq::empty()) }
    } else if i + 1 < b.len() && run_at(b, i) >= MIN_RUN {
        let r = run_at(b, i);
        let rest = if i < i + r <= b.len() { segs(b, i + r, i + r) } else { (0nat, Seq::<u8>::empty()) };
        let run = run_seg(b[i], diff(b, i + 1), r);
        if ls < i {
            (rest.0 + 2, lit_seg(b.subrange(ls, i)) + run + rest.1)
        } else {
            (rest.0 + 1, run + rest.1)
        }
    } else {
        segs(b, i + 1, ls)
    }
}

/// What `encode` writes: the number of segments, then each segment.
pub open spec fn spec_encode(b: Seq<u8>) -> Seq<u8> {
    let s = segs(b, 0, 0);
    varint::encode(s.0 as usize) + s.1
}

proof fn lemma_run_from(b: Seq<u8>, i: int, step: u8, r: int)
    requires
        0 <= i,
        2 <= r,
        i + r <= b.len(),
    ensures
        r <= run_from(b, i, step, r) <= b.len() - i,
    decreases b.len() - (i + r),
{
    if i + r < b.len() && diff(b, i + r) == step {
        lemma_run_from(b, i, step, r + 1);
    }
}

proof fn lemma_segs_count(b: Seq<u8>, i: int, ls: int)
    requires
        0 <= ls <= i <= b.len(),
    ensures
        segs(b, i, ls).0 <= b.len() - ls,
    decreases b.len() - i,
{
    if i < b.len() {
        if i + 1 < b.len() && run_at(b, i) >= MIN_RUN {
            lemma_run_from(b, i, diff(b, i + 1), 2);
            lemma_segs_count(b, i + run_at(b, i), i + run_at(b, i));
        } else {
            lemma_segs_count(b, i + 1, ls);
        }
    }
}

fn push_lit(body: &mut Vec<u8>, bytes: &[u8], ls: usize, i: usize)
    requires
        ls <= i <= bytes.len(),
    ensures
        final(body)@ == old(body)@ + lit_seg(bytes@.subrange(ls as int, i as int)),
{
    body.push(0);
    varint::write(body, i - ls);
    slices::append(body, &bytes[ls..i]);
    assert(final(body)@ =~= old(body)@ + lit_seg(bytes@.subrange(ls as int, i as int)));
}

fn push_run(body: &mut Vec<u8>, start: u8, step: u8, run: usize)
    ensures
        final(body)@ == old(body)@ + run_seg(start, step, run as int),
{
    if step == 0 {
        body.push(1);
        varint::write(body, run);
        body.push(start);
    } else {
        body.push(2);
        varint::write(body, run);
        body.push(start);
        body.push(step);
    }
    assert(final(body)@ =~= old(body)@ + run_seg(start, step, run as int));
}

fn run_length(bytes: &[u8], i: usize) -> (run: usize)
    requires
        i + 1 < bytes.len(),
    ensures
        run as int == run_at(bytes@, i as int),
        2 <= run <= bytes.len() - i,
{
    let n = bytes.len();
    let step = bytes[i + 1].wrapping_sub(bytes[i]);
    let mut run: usize = 2;
    while i + run < n && bytes[i + run].wrapping_sub(bytes[i + run - 1]) == step
        invariant
            n == bytes@.len(),
            i + 1 < n,
            2 <= run,
            i + run <= n,
            step == diff(bytes@, i as int + 1),
            run_from(bytes@, i as int, step, run as int) == run_at(bytes@, i as int),
        decreases n - i - run,
    {
        run = run + 1;
    }
    run
}

proof fn lemma_segs_run(b: Seq<u8>, i: int, ls: int)
    requires
        0 <= ls <= i,
        i + 1 < b.len(),
        run_at(b, i) >= MIN_RUN,
    ensures
        ({
            let r = run_at(b, i);
            let rest = segs(b, i + r, i + r);
            let run = run_seg(b[i], diff(b, i + 1), r);
            &&& i + r <= b.len()
            &&& ls < i ==> segs(b, i, ls) == (rest.0 + 2, lit_seg(b.subrange(ls, i)) + run + rest.1)
            &&& ls == i ==> segs(b, i, ls) == (rest.0 + 1, run + rest.1)
        }),
{
    lemma_run_from(b, i, diff(b, i + 1), 2);
}

/// Splits `bytes` into literal, constant and ramp segments (runs of at
/// least `MIN_RUN` bytes), scanning left to right and taking each run as
/// long as it goes.
pub fn encode(bytes: &[u8]) -> (out: Vec<u8>)
    ensures
        out@ == spec_encode(bytes@),
{
    let ghost b = bytes@;
    let n = bytes.len();
    let mut body: Vec<u8> = Vec::new();
    let mut count: usize = 0;
    let mut ls: usize = 0;
    let mut i: usize = 0;
    proof {
        lemma_segs_count(b, 0, 0);
    }
    while i < n
        invariant
            b == bytes@,
            n == b.len(),
            ls <= i <= n,
            segs(b, 0, 0).0 == count + segs(b, i as int, ls as int).0,
            segs(b, 0, 0).1 == body@ + segs(b, i as int, ls as int).1,
            segs(b, 0, 0).0 <= n,
        decreases n - i,
    {
        if i + 1 < n {
            let run = run_length(bytes, i);
            if run >= MIN_RUN {
                let ghost body0 = body@;
                proof {
                    lemma_segs_run(b, i as int, ls as int);
                    lemma_segs_count(b, (i + run) as int, (i + run) as int);
                }
                if ls < i {
                    push_lit(&mut body, bytes, ls, i);
                    count = count + 1;
                }
                let step = bytes[i + 1].wrapping_sub(bytes[i]);
                push_run(&mut body, bytes[i], step, run);
                count = count + 1;
                i = i + run;
                ls = i;
                assert(segs(b, 0, 0).1 =~= body@ + segs(b, i as int, ls as int).1);
                continue;
            }
        }
        i = i + 1;
    }
    if ls < n {
        push_lit(&mut body, bytes, ls, n);
        count = count + 1;
    }
    assert(segs(b, 0, 0).1 =~= body@);
    let mut out: Vec<u8> = Vec::new();
    varint::write(&mut out, count);
    slices::append(&mut out, body.as_slice());
    out
}

/// The `j`-th byte of a ramp from `start` by `step`.
pub open spec fn ramp_val(start: u8, step: u8, j: nat) -> u8
    decreases j,
{
    if j == 0 {
        start
    } else {
        ramp_val(start, step, (j - 1) as nat).wrapping_add(step)
    }
}

/// `len` bytes of a ramp.
pub open spec fn ramp(start: u8, step: u8, len: nat) -> Seq<u8> {
    Seq::new(len, |j: int| ramp_val(start, step, j as nat))
}

/// Where a literal of `len` bytes that starts at `p` ends: cut at the end of
/// `d`.
pub open spec fn lit_end(d: Seq<u8>, p: int, len: usize) -> int {
    if len > d.len() - p { d.len() as int } else { p + len }
}

/// Decoding `k` more segments at `pos` after `out`: a segment that starts
/// past the end, or an unknown kind, ends it; a constant or ramp whose bytes
/// are cut off adds nothing.
pub open spec fn dec_segs(d: Seq<u8>, pos: int, k: nat, out: Seq<u8>) -> Seq<u8>
    decreases k,
{
    if k == 0 || pos < 0 || pos >= d.len() {
        out
    } else {
        let kind = d[pos];
        let len = varint::value_at(d, pos + 1);
        let p2 = varint::end_at(d, pos + 1);
        if kind == 0 {
            let end = lit_end(d, p2, len);
            dec_segs(d, end, (k - 1) as nat, out + d.subrange(p2, end))
        } else if kind == 1 {
            if p2 < d.len() {
                dec_segs(d, p2 + 1, (k - 1) as nat, out + Seq::new(len as nat, |j: int| d[p2]))
            } else {
                dec_segs(d, p2, (k - 1) as nat, out)
            }
        } else if kind == 2 {
            if p2 + 1 < d.len() {
                dec_segs(d, p2 + 2, (k - 1) as nat, out + ramp(d[p2], d[p2 + 1], len as nat))
            } else {
                dec_segs(d, p2, (k - 1) as nat, out)
            }
        } else {
            out
        }
    }
}

/// What `decode` gives: the segments that the count at the start announces.
pub open spec fn spec_decode(d: Seq<u8>) -> Seq<u8> {
    dec_segs(d, varint::end_at(d, 0), varint::value_at(d, 0) as nat, Seq::empty())
}

fn push_repeat(out: &mut Vec<u8>, byte: u8, len: usize)
    ensures
        final(out)@ == old(out)@ + Seq::new(len as nat, |j: int| byte),
{
    let mut k: usize = 0;
    while k < len
        invariant
            k <= len,
            out@ == old(out)@ + Seq::new(k as nat, |j: int| byte),
        decreases len - k,
    {
        out.push(byte);
        k = k + 1;
        assert(out@ =~= old(out)@ + Seq::new(k as nat, |j: int| byte));
    }
}

fn push_ramp(out: &mut Vec<u8>, start: u8, step: u8, len: usize)
    ensures
        final(out)@ == old(out)@ + ramp(start, step, len as nat),
{
    let mut v = start;
    let mut k: usize = 0;
    while k < len
        invariant
            k <= len,
            v == ramp_val(start, step, k as nat),
            out@ == old(out)@ + ramp(start, step, k as nat),
        decreases len - k,
    {
        out.push(v);
        v = v.wrapping_add(step);
        k = k + 1;
        assert(out@ =~= old(out)@ + ramp(start, step, k as nat));
    }
}

/// Regenerates the bytes of every segment.
pub fn decode(data: &[u8]) -> (out: Vec<u8>)
    ensures
        out@ == spec_decode(data@),
{
    let ghost d = data@;
    let mut pos: usize = 0;
    let n_segs = varint::read(data, &mut pos);
    proof {
        varint::lemma_end_bounds(d, 0, 0);
    }
    let mut out: Vec<u8> = Vec::new();
    let mut k: usize = 0;
    while k < n_segs
        invariant_except_break
            d == data@,
            k <= n_segs,
            pos <= d.len(),
            spec_decode(d) == dec_segs(d, pos as int, (n_segs - k) as nat, out@),
        ensures
            spec_decode(d) == out@,
        decreases n_segs - k,
    {
        if pos >= data.len() {
            break;
        }
        let kind = data[pos];
        pos = pos + 1;
        let ghost p1 = pos as int;
        let len = varint::read(data, &mut pos);
        proof {
            varint::lemma_end_bounds(d, p1, 0);
        }
        if kind == 0 {
            let end = if len > data.len() - pos { data.len() } else { pos + len };
            slices::append(&mut out, &data[pos..end]);
            pos = end;
        } else if kind == 1 {
            if pos < data.len() {
                let byte = data[pos];
                pos = pos + 1;
                push_repeat(&mut out, byte, len);
            }
        } else if kind == 2 {
            if data.len() - pos >= 2 {
                let start = data[pos];
                let step = data[pos + 1];
                pos = pos + 2;
                push_ramp(&mut out, start, step, len);
            }
        } else {
            break;
        }
        k = k + 1;
    }
    out
}

proof fn lemma_run_diffs(b: Seq<u8>, i: int, step: u8, r: int)
    requires
        0 <= i,
        1 <= r,
        i + r <= b.len(),
    ensures
        forall|k: int| r <= k < run_from(b, i, step, r) ==> #[trigger] diff(b, i + k) == step,
        r <= run_from(b, i, step, r) <= b.len() - i,
    decreases b.len() - (i + r),
{
    if i + r < b.len() && diff(b, i + r) == step {
        lemma_run_diffs(b, i, step, r + 1);
    }
}

proof fn lemma_ramp_zero(s: u8, j: nat)
    ensures
        ramp_val(s, 0, j) == s,
    decreases j,
{
    if j > 0 {
        lemma_ramp_zero(s, (j - 1) as nat);
    }
}

/// The bytes of a run are the ramp from its first byte by its step.
proof fn lemma_run_bytes(b: Seq<u8>, i: int)
    requires
        0 <= i,
        i + 1 < b.len(),
    ensures
        b.subrange(i, i + run_at(b, i)) == ramp(b[i], diff(b, i + 1), run_at(b, i) as nat),
        diff(b, i + 1) == 0 ==> b.subrange(i, i + run_at(b, i)) == Seq::new(run_at(b, i) as nat, |j: int| b[i]),
{
    let step = diff(b, i + 1);
    let r = run_at(b, i);
    lemma_run_diffs(b, i, step, 2);
    assert forall|j: int| 0 <= j < r implies b[i + j] == #[trigger] ramp_val(b[i], step, j as nat) by {
        lemma_ramp_prefix(b, i, step, r, j);
    }
    assert(b.subrange(i, i + r) =~= ramp(b[i], step, r as nat));
    if step == 0 {
        assert forall|j: int| 0 <= j < r implies #[trigger] b.subrange(i, i + r)[j] == b[i] by {
            lemma_ramp_zero(b[i], j as nat);
        }
        assert(b.subrange(i, i + r) =~= Seq::new(r as nat, |j: int| b[i]));
    }
}

proof fn lemma_ramp_prefix(b: Seq<u8>, i: int, step: u8, r: int, j: int)
    requires
        0 <= i,
        0 <= j < r,
        i + r <= b.len(),
        step == diff(b, i + 1) || j <= 1,
        forall|k: int| 2 <= k < r ==> #[trigger] diff(b, i + k) == step,
        r >= 2 ==> diff(b, i + 1) == step,
    ensures
        b[i + j] == ramp_val(b[i], step, j as nat),
    decreases j,
{
    if j > 0 {
        lemma_ramp_prefix(b, i, step, r, j - 1);
        assert(diff(b, i + j) == step);
    }
}

proof fn lemma_dec_lit(pre: Seq<u8>, l: Seq<u8>, tail: Seq<u8>, k: nat, out: Seq<u8>)
    requires
        l.len() <= usize::MAX,
    ensures
        dec_segs(pre + lit_seg(l) + tail, pre.len() as int, k + 1, out)
            == dec_segs(pre + lit_seg(l) + tail, (pre.len() + lit_seg(l).len()) as int, k, out + l),
{
    let d = pre + lit_seg(l) + tail;
    varint::lemma_read_write(l.len() as usize, pre + seq![0u8], l + tail);
    assert(d =~= pre + seq![0u8] + varint::encode(l.len() as usize) + (l + tail));
    let p2: int = (pre.len() + 1 + varint::encode(l.len() as usize).len()) as int;
    assert(d.subrange(p2, p2 + l.len() as int) =~= l);
}

proof fn lemma_dec_run(pre: Seq<u8>, start: u8, step: u8, r: int, tail: Seq<u8>, k: nat, out: Seq<u8>)
    requires
        0 <= r <= usize::MAX,
    ensures
        dec_segs(pre + run_seg(start, step, r) + tail, pre.len() as int, k + 1, out)
            == dec_segs(pre + run_seg(start, step, r) + tail, (pre.len() + run_seg(start, step, r).len()) as int, k,
                out + (if step == 0 { Seq::new(r as nat, |j: int| start) } else { ramp(start, step, r as nat) })),
{
    let kind: u8 = if step == 0 { 1 } else { 2 };
    let after: Seq<u8> = if step == 0 { seq![start] } else { seq![start, step] };
    let d = pre + run_seg(start, step, r) + tail;
    varint::lemma_read_write(r as usize, pre + seq![kind], after + tail);
    assert(d =~= pre + seq![kind] + varint::encode(r as usize) + (after + tail));
}

/// Decoding the segments of `b` from `i` (pending literal at `ls`), placed
/// after `pre`, appends the bytes of `b` from `ls` on.
proof fn lemma_dec_segs(b: Seq<u8>, i: int, ls: int, pre: Seq<u8>, out: Seq<u8>)
    requires
        0 <= ls <= i <= b.len(),
        b.len() <= usize::MAX,
    ensures
        dec_segs(pre + segs(b, i, ls).1, pre.len() as int, segs(b, i, ls).0, out) == out + b.subrange(ls, b.len() as int),
    decreases b.len() - i,
{
    let sg = segs(b, i, ls);
    if i >= b.len() {
        if ls < b.len() {
            let l = b.subrange(ls, b.len() as int);
            lemma_dec_lit(pre, l, Seq::empty(), 0, out);
            assert(pre + sg.1 =~= pre + lit_seg(l) + Seq::<u8>::empty());
        } else {
            assert(b.subrange(ls, b.len() as int) =~= Seq::<u8>::empty());
            assert(out + Seq::<u8>::empty() =~= out);
        }
    } else if i + 1 < b.len() && run_at(b, i) >= MIN_RUN {
        lemma_segs_run(b, i, ls);
        lemma_run_bytes(b, i);
        let r = run_at(b, i);
        let step = diff(b, i + 1);
        let rest = segs(b, i + r, i + r);
        let run = run_seg(b[i], step, r);
        let vals: Seq<u8> = if step == 0 { Seq::new(r as nat, |j: int| b[i]) } else { ramp(b[i], step, r as nat) };
        assert(vals == b.subrange(i, i + r));
        if ls < i {
            let l = b.subrange(ls, i);
            let lit = lit_seg(l);
            assert(pre + sg.1 =~= pre + lit + (run + rest.1));
            lemma_dec_lit(pre, l, run + rest.1, rest.0 + 1, out);
            assert(pre + sg.1 =~= (pre + lit) + run + rest.1);
            lemma_dec_run(pre + lit, b[i], step, r, rest.1, rest.0, out + l);
            assert(pre + sg.1 =~= (pre + lit + run) + rest.1);
            lemma_dec_segs(b, i + r, i + r, pre + lit + run, out + l + vals);
            assert(out + l + vals + b.subrange(i + r, b.len() as int) =~= out + b.subrange(ls, b.len() as int));
        } else {
            assert(pre + sg.1 =~= pre + run + rest.1);
            lemma_dec_run(pre, b[i], step, r, rest.1, rest.0, out);
            assert(pre + sg.1 =~= (pre + run) + rest.1);
            lemma_dec_segs(b, i + r, i + r, pre + run, out + vals);
            assert(out + vals + b.subrange(i + r, b.len() as int) =~= out + b.subrange(ls, b.len() as int));
        }
    } else {
        lemma_dec_segs(b, i + 1, ls, pre, out);
    }
}

/// Decoding what `encode` wrote gives the bytes back.
pub proof fn lemma_decode_encode(b: Seq<u8>)
    requires
        b.len() <= usize::MAX,
    ensures
        spec_decode(spec_encode(b)) == b,
{
    let sg = segs(b, 0, 0);
    lemma_segs_count(b, 0, 0);
    varint::lemma_read_write(sg.0 as usize, Seq::empty(), sg.1);
    assert(spec_encode(b) =~= Seq::<u8>::empty() + varint::encode(sg.0 as usize) + sg.1);
    assert(spec_encode(b) =~= varint::encode(sg.0 as usize) + sg.1);
    lemma_dec_segs(b, 0, 0, varint::encode(sg.0 as usize), Seq::empty());
    assert(b.subrange(0, b.len() as int) =~= b);
}

/// The character of the digit `d` (below 16): `0`-`9`, then `A`-`F`.
pub open spec fn digit_char(d: int) -> char {
    if d < 10 { (48 + d) as char } else { (55 + d) as char }
}

/// The decimal digits of `v`, most significant first, without leading
/// zeros (a single `0` for zero).
pub open spec fn decimal(v: nat) -> Seq<char>
    decreases v,
{
    if v < 10 {
        seq![digit_char(v as int)]
    } else {
        decimal(v / 10).push(digit_char((v % 10) as int))
    }
}

/// Two upper-case hexadecimal digits of `b`.
pub open spec fn hex2(b: u8) -> Seq<char> {
    seq![digit_char(b as int / 16), digit_char(b as int % 16)]
}

/// `v` with its sign always shown.
pub open spec fn signed(v: i8) -> Seq<char> {
    if v >= 0 { seq!['+'] + decimal(v as nat) } else { seq!['-'] + decimal((-v) as nat) }
}

/// The text `describe` shows for a literal of `len` bytes.
pub open spec fn literal_text(len: usize) -> Seq<char> {
    "literal      × "@ + decimal(len as nat)
}

/// The text `describe` shows for a constant run.
pub open spec fn const_text(byte: u8, len: usize) -> Seq<char> {
    "const 0x"@ + hex2(byte) + "   × "@ + decimal(len as nat)
}

/// The text `describe` shows for a ramp (the step as a signed byte).
pub open spec fn ramp_text(start: u8, step: i8, len: usize) -> Seq<char> {
    "ramp 0x"@ + hex2(start) + " "@ + signed(step) + " × "@ + decimal(len as nat)
}

/// The one-character text of the digit `d` (below 16).
fn digit_str(d: u8) -> (s: &'static str)
    requires
        d < 16,
    ensures
        s@ == seq![digit_char(d as int)],
{
    proof {
        reveal_strlit("0");
        reveal_strlit("1");
        reveal_strlit("2");
        reveal_strlit("3");
        reveal_strlit("4");
        reveal_strlit("5");
        reveal_strlit("6");
        reveal_strlit("7");
        reveal_strlit("8");
        reveal_strlit("9");
        reveal_strlit("A");
        reveal_strlit("B");
        reveal_strlit("C");
        reveal_strlit("D");
        reveal_strlit("E");
        reveal_strlit("F");
    }
    match d {
        0 => "0",
        1 => "1",
        2 => "2",
        3 => "3",
        4 => "4",
        5 => "5",
        6 => "6",
        7 => "7",
        8 => "8",
        9 => "9",
        10 => "A",
        11 => "B",
        12 => "C",
        13 => "D",
        14 => "E",
        _ => "F",
    }
}

/// Appends the decimal digits of `v` to `s`.
fn push_decimal(s: &mut String, v: usize)
    ensures
        final(s)@ == old(s)@ + decimal(v as nat),
    decreases v,
{
    if v >= 10 {
        push_decimal(s, v / 10);
    }
    let ghost mid = s@;
    s.append(digit_str((v % 10) as u8));
    proof {
        if v >= 10 {
            assert(decimal(v as nat) == decimal((v / 10) as nat).push(digit_char((v % 10) as int)));
            assert(s@ =~= old(s)@ + decimal(v as nat));
        } else {
            assert(s@ =~= old(s)@ + decimal(v as nat));
        }
    }
}

/// Appends two upper-case hexadecimal digits of `b` to `s`.
fn push_hex2(s: &mut String, b: u8)
    ensures
        final(s)@ == old(s)@ + hex2(b),
{
    s.append(digit_str(b / 16));
    s.append(digit_str(b % 16));
    assert(s@ =~= old(s)@ + hex2(b));
}

/// Appends `v` with its sign always shown to `s`.
fn push_signed(s: &mut String, v: i8)
    ensures
        final(s)@ == old(s)@ + signed(v),
{
    proof {
        reveal_strlit("+");
        reveal_strlit("-");
    }
    if v >= 0 {
        s.append("+");
        push_decimal(s, v as usize);
    } else {
        s.append("-");
        let m: i16 = 0 - v as i16;
        push_decimal(s, m as usize);
    }
    assert(s@ =~= old(s)@ + signed(v));
}

/// The text `literal      × {len}`.
fn literal_line(len: usize) -> (s: String)
    ensures
        s@ == literal_text(len),
{
    let mut s = String::from_str("literal      × ");
    push_decimal(&mut s, len);
    s
}

/// The text `const 0x{byte:02X}   × {len}`.
fn const_line(byte: u8, len: usize) -> (s: String)
    ensures
        s@ == const_text(byte, len),
{
    let mut s = String::from_str("const 0x");
    push_hex2(&mut s, byte);
    s.append("   × ");
    push_decimal(&mut s, len);
    assert(s@ =~= const_text(byte, len));
    s
}

/// The text `ramp 0x{start:02X} {step:+} × {len}`.
fn ramp_line(start: u8, step: i8, len: usize) -> (s: String)
    ensures
        s@ == ramp_text(start, step, len),
{
    let mut s = String::from_str("ramp 0x");
    push_hex2(&mut s, start);
    s.append(" ");
    push_signed(&mut s, step);
    s.append(" × ");
    push_decimal(&mut s, len);
    assert(s@ =~= ramp_text(start, step, len));
    s
}

/// The lines for `k` more segments at `pos`: the same walk as `dec_segs`.
pub open spec fn describe_segs(d: Seq<u8>, pos: int, k: nat, lines: Seq<Seq<char>>) -> Seq<Seq<char>>
    decreases k,
{
    if k == 0 || pos < 0 || pos >= d.len() {
        lines
    } else {
        let kind = d[pos];
        let len = varint::value_at(d, pos + 1);
        let p2 = varint::end_at(d, pos + 1);
        if kind == 0 {
            describe_segs(d, lit_end(d, p2, len), (k - 1) as nat, lines.push(literal_text(len)))
        } else if kind == 1 {
            if p2 < d.len() {
                describe_segs(d, p2 + 1, (k - 1) as nat, lines.push(const_text(d[p2], len)))
            } else {
                describe_segs(d, p2, (k - 1) as nat, lines)
            }
        } else if kind == 2 {
            if p2 + 1 < d.len() {
                describe_segs(d, p2 + 2, (k - 1) as nat, lines.push(ramp_text(d[p2], d[p2 + 1] as i8, len)))
            } else {
                describe_segs(d, p2, (k - 1) as nat, lines)
            }
        } else {
            lines
        }
    }
}

/// The texts of the strings in `v`.
pub open spec fn texts(v: Seq<String>) -> Seq<Seq<char>> {
    v.map_values(|s: String| s@)
}

/// One line per segment, for showing how a payload regenerates its bytes.
pub fn describe(data: &[u8]) -> (out: Vec<String>)
    ensures
        texts(out@) == describe_segs(data@, varint::end_at(data@, 0), varint::value_at(data@, 0) as nat, Seq::empty()),
{
    let ghost d = data@;
    let mut pos: usize = 0;
    let n_segs = varint::read(data, &mut pos);
    proof {
        varint::lemma_end_bounds(d, 0, 0);
    }
    let ghost want = describe_segs(d, pos as int, n_segs as nat, Seq::empty());
    let mut out: Vec<String> = Vec::new();
    let mut k: usize = 0;
    assert(texts(out@) =~= Seq::<Seq<char>>::empty());
    while k < n_segs
        invariant_except_break
            d == data@,
            k <= n_segs,
            pos <= d.len(),
            want == describe_segs(d, pos as int, (n_segs - k) as nat, texts(out@)),
        ensures
            want == texts(out@),
        decreases n_segs - k,
    {
        if pos >= data.len() {
            break;
        }
        let kind = data[pos];
        pos = pos + 1;
        let ghost p1 = pos as int;
        let len = varint::read(data, &mut pos);
        proof {
            varint::lemma_end_bounds(d, p1, 0);
        }
        let ghost t0 = texts(out@);
        if kind == 0 {
            pos = if len > data.len() - pos { data.len() } else { pos + len };
            out.push(literal_line(len));
            assert(texts(out@) =~= t0.push(literal_text(len)));
        } else if kind == 1 {
            if pos < data.len() {
                let byte = data[pos];
                pos = pos + 1;
                out.push(const_line(byte, len));
                assert(texts(out@) =~= t0.push(const_text(byte, len)));
            }
        } else if kind == 2 {
            if data.len() - pos >= 2 {
                let start = data[pos];
                let step = data[pos + 1] as i8;
                pos = pos + 2;
                out.push(ramp_line(start, step, len));
                assert(texts(out@) =~= t0.push(ramp_text(start, step, len)));
            }
        } else {
            break;
        }
        k = k + 1;
    }
    out
}

} // verus!
