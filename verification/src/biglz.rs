//! The LZ match finder: a greedy parse with one step of lookahead over
//! hash chains of three-byte prefixes, and the token stream writer.
use vstd::prelude::*;
use crate::models::lz::{self, copy_match, dec, flag_bit, stored_len};
use crate::varint;

verus! {

pub const MIN_MATCH: usize = 3;
pub const MAX_MATCH: usize = 65536;
pub const HASH_SIZE: usize = 65536;
pub const MAX_CHAIN: usize = 128;

/// A literal byte, or a copy of `len` bytes from `dist` back.
pub enum Token {
    Lit(u8),
    Match { dist: usize, len: usize },
}

/// `out` after the tokens of `toks`.
pub open spec fn apply(out: Seq<u8>, toks: Seq<Token>) -> Seq<u8>
    decreases toks.len(),
{
    if toks.len() == 0 {
        out
    } else {
        let o2 = match toks[0] {
            Token::Lit(b) => out.push(b),
            Token::Match { dist, len } => copy_match(out, dist as nat, len as nat),
        };
        apply(o2, toks.subrange(1, toks.len() as int))
    }
}

/// Every match of `toks`, applied after `out`, copies between the minimum
/// and maximum match length from a distance inside what precedes it.
pub open spec fn well_formed(out: Seq<u8>, toks: Seq<Token>) -> bool
    decreases toks.len(),
{
    if toks.len() == 0 {
        true
    } else {
        match toks[0] {
            Token::Lit(b) => well_formed(out.push(b), toks.subrange(1, toks.len() as int)),
            Token::Match { dist, len } => {
                &&& 0 < dist <= out.len()
                &&& MIN_MATCH <= len <= MAX_MATCH
                &&& well_formed(copy_match(out, dist as nat, len as nat), toks.subrange(1, toks.len() as int))
            },
        }
    }
}

/// Every match of `toks` is at least the minimum match length long.
pub open spec fn lengths_ok(toks: Seq<Token>) -> bool {
    forall|i: int| 0 <= i < toks.len() ==> (#[trigger] toks[i] matches Token::Match { len, .. } ==> len >= MIN_MATCH)
}

/// The bytes a token is written as (after the group's flag byte).
pub open spec fn token_bytes(t: Token) -> Seq<u8> {
    match t {
        Token::Lit(b) => seq![b],
        Token::Match { dist, len } => varint::encode(dist) + varint::encode((len - MIN_MATCH) as usize),
    }
}

/// The bytes of the tokens of `g`, one after another.
pub open spec fn tokens_bytes(g: Seq<Token>) -> Seq<u8>
    decreases g.len(),
{
    if g.len() == 0 {
        Seq::empty()
    } else {
        token_bytes(g[0]) + tokens_bytes(g.subrange(1, g.len() as int))
    }
}

/// The flag byte of a group: bit `k` set where token `k` is a match.
pub open spec fn flag_of(g: Seq<Token>) -> u8
    decreases g.len(),
{
    if g.len() == 0 {
        0
    } else {
        let m: u8 = if g.last() is Match { 1 } else { 0 };
        flag_of(g.drop_last()) | ((m << ((g.len() - 1) as u8)) as u8)
    }
}

/// The stream for `toks`: groups of up to eight tokens, each a flag byte and
/// the group's tokens.
pub open spec fn spec_serialize(toks: Seq<Token>) -> Seq<u8>
    decreases toks.len(),
{
    if toks.len() == 0 {
        Seq::empty()
    } else {
        let n = if toks.len() < 8 { toks.len() } else { 8 };
        let g = toks.subrange(0, n as int);
        seq![flag_of(g)] + tokens_bytes(g) + spec_serialize(toks.subrange(n as int, toks.len() as int))
    }
}

proof fn lemma_flag_step(a: u8, m: u8, n: u8, k: u8)
    by (bit_vector)
    requires
        n < 8,
        k < 8,
        m <= 1,
        a >> n == 0,
    ensures
        (a | (m << n)) >> (n + 1) == 0,
        k < n ==> (((a | (m << n)) & (1u8 << k)) != 0 <==> (a & (1u8 << k)) != 0),
        ((a | (m << n)) & (1u8 << n)) != 0 <==> m == 1,
        n == 7 ==> true,
{
}

proof fn lemma_flag_of(g: Seq<Token>)
    requires
        g.len() <= 8,
    ensures
        g.len() < 8 ==> flag_of(g) >> (g.len() as u8) == 0,
        forall|k: int| 0 <= k < g.len() ==> (flag_bit(flag_of(g), k) <==> g[k] is Match),
    decreases g.len(),
{
    if g.len() > 0 {
        let p = g.drop_last();
        lemma_flag_of(p);
        let m: u8 = if g.last() is Match { 1 } else { 0 };
        let n = (g.len() - 1) as u8;
        assert(flag_of(p) >> n == 0);
        assert(flag_of(g) == flag_of(p) | ((m << n) as u8));
        assert(g.last() == g[n as int]);
        assert forall|k: int| 0 <= k < g.len() implies (flag_bit(flag_of(g), k) <==> g[k] is Match) by {
            lemma_flag_step(flag_of(p), m, n, k as u8);
            if k < n {
                assert(g[k] == p[k]);
                assert(flag_bit(flag_of(p), k) <==> p[k] is Match);
            }
        }
        lemma_flag_step(flag_of(p), m, n, 0);
    } else {
        crate::bits::lemma_zero_shift();
    }
}

proof fn lemma_tokens_bytes_split(g: Seq<Token>, k: int)
    requires
        0 <= k < g.len(),
    ensures
        tokens_bytes(g.subrange(k, g.len() as int)) == token_bytes(g[k]) + tokens_bytes(g.subrange(k + 1, g.len() as int)),
{
    let s = g.subrange(k, g.len() as int);
    assert(s.subrange(1, s.len() as int) =~= g.subrange(k + 1, g.len() as int));
}

pub proof fn lemma_apply_extends(out: Seq<u8>, toks: Seq<Token>)
    ensures
        out.len() <= apply(out, toks).len(),
        well_formed(out, toks) ==> out.len() + toks.len() <= apply(out, toks).len(),
        apply(out, toks).subrange(0, out.len() as int) == out,
    decreases toks.len(),
{
    if toks.len() > 0 {
        let o2 = match toks[0] {
            Token::Lit(b) => out.push(b),
            Token::Match { dist, len } => copy_match(out, dist as nat, len as nat),
        };
        if let Token::Match { dist, len } = toks[0] {
            lz::lemma_copy_extends(out, dist as nat, len as nat);
        }
        assert(o2.len() >= out.len());
        assert(o2.subrange(0, out.len() as int) =~= out) by {
            if let Token::Match { dist, len } = toks[0] {
                lz::lemma_copy_extends(out, dist as nat, len as nat);
            }
        }
        lemma_apply_extends(o2, toks.subrange(1, toks.len() as int));
        let r = apply(o2, toks.subrange(1, toks.len() as int));
        assert(r.subrange(0, out.len() as int) =~= r.subrange(0, o2.len() as int).subrange(0, out.len() as int));
        if let Token::Match { dist, len } = toks[0] {
            assert(o2.len() == out.len() + len);
        }
    } else {
        assert(out.subrange(0, out.len() as int) =~= out);
    }
}

/// One token of a group, decoded: where the decoder goes next.
#[verifier::rlimit(30)]
proof fn lemma_dec_step(
    data: Seq<u8>,
    target: nat,
    i: int,
    k: int,
    g: Seq<Token>,
    rest: Seq<Token>,
    out: Seq<u8>,
) -> (next: (int, Seq<u8>))
    requires
        0 <= i <= data.len(),
        0 <= k < g.len() <= 8,
        data.subrange(i, data.len() as int) == tokens_bytes(g.subrange(k, g.len() as int)) + spec_serialize(rest),
        well_formed(out, g.subrange(k, g.len() as int) + rest),
        target == apply(out, g.subrange(k, g.len() as int) + rest).len(),
    ensures
        i < next.0 <= data.len(),
        data.subrange(next.0, data.len() as int) == tokens_bytes(g.subrange(k + 1, g.len() as int)) + spec_serialize(rest),
        well_formed(next.1, g.subrange(k + 1, g.len() as int) + rest),
        apply(out, g.subrange(k, g.len() as int) + rest) == apply(next.1, g.subrange(k + 1, g.len() as int) + rest),
        dec(data, target, i, k, flag_of(g), out) == dec(data, target, next.0, k + 1, flag_of(g), next.1),
{
    let toks = g.subrange(k, g.len() as int) + rest;
    lemma_flag_of(g);
    lemma_tokens_bytes_split(g, k);
    let t = g[k];
    let tail = g.subrange(k + 1, g.len() as int) + rest;
    let after = tokens_bytes(g.subrange(k + 1, g.len() as int)) + spec_serialize(rest);
    assert(toks[0] == t);
    assert(toks.subrange(1, toks.len() as int) =~= tail);
    lemma_apply_extends(out, toks);
    let sub = data.subrange(i, data.len() as int);
    assert(sub =~= token_bytes(t) + after);
    match t {
        Token::Lit(b) => {
            assert(sub[0] == data[i]);
            assert(data[i] == b);
            assert(data.subrange(i + 1, data.len() as int) =~= sub.subrange(1, sub.len() as int));
            assert(sub.subrange(1, sub.len() as int) =~= after);
            (i + 1, out.push(b))
        },
        Token::Match { dist, len } => {
            let prefix = data.subrange(0, i);
            let e1 = varint::encode(dist);
            let e2 = varint::encode((len - MIN_MATCH) as usize);
            assert(data =~= prefix + sub);
            assert(data =~= prefix + e1 + (e2 + after));
            varint::lemma_read_write(dist, prefix, e2 + after);
            assert(data =~= (prefix + e1) + e2 + after);
            varint::lemma_read_write((len - MIN_MATCH) as usize, prefix + e1, after);
            varint::lemma_encode_nonempty(dist);
            let i2 = i + e1.len() + e2.len();
            assert(stored_len((len - MIN_MATCH) as usize) == len);
            let c = copy_match(out, dist as nat, len as nat);
            assert(data.subrange(i2, data.len() as int) =~= after);
            (i2, c)
        },
    }
}

/// The decoder, at the start of token `k` of the group `g` (with the stream
/// for `rest` after it), produces what the remaining tokens produce.
proof fn lemma_dec_tokens(
    data: Seq<u8>,
    target: nat,
    i: int,
    k: int,
    g: Seq<Token>,
    rest: Seq<Token>,
    out: Seq<u8>,
)
    requires
        0 <= i <= data.len(),
        0 <= k <= g.len() <= 8,
        g.len() < 8 ==> rest.len() == 0,
        data.subrange(i, data.len() as int) == tokens_bytes(g.subrange(k, g.len() as int)) + spec_serialize(rest),
        well_formed(out, g.subrange(k, g.len() as int) + rest),
        target == apply(out, g.subrange(k, g.len() as int) + rest).len(),
    ensures
        dec(data, target, i, k, flag_of(g), out) == apply(out, g.subrange(k, g.len() as int) + rest),
    decreases g.len() - k + rest.len(), if k == g.len() { 1int } else { 0int },
{
    if k < g.len() {
        lemma_apply_extends(out, g.subrange(k, g.len() as int) + rest);
        let next = lemma_dec_step(data, target, i, k, g, rest, out);
        lemma_dec_tokens(data, target, next.0, k + 1, g, rest, next.1);
    } else {
        assert(g.subrange(k, g.len() as int) =~= Seq::<Token>::empty());
        assert(g.subrange(k, g.len() as int) + rest =~= rest);
        if rest.len() == 0 {
            assert(dec(data, target, i, k, flag_of(g), out) == out);
        } else {
            let n = if rest.len() < 8 { rest.len() } else { 8 };
            let g2 = rest.subrange(0, n as int);
            let rest2 = rest.subrange(n as int, rest.len() as int);
            assert(g2.subrange(0, g2.len() as int) =~= g2);
            assert(g2.subrange(0, g2.len() as int) + rest2 =~= rest);
            lemma_apply_extends(out, rest);
            let sub = data.subrange(i, data.len() as int);
            assert(sub =~= seq![flag_of(g2)] + tokens_bytes(g2) + spec_serialize(rest2));
            assert(sub[0] == data[i]);
            assert(data.subrange(i + 1, data.len() as int) =~= sub.subrange(1, sub.len() as int));
            assert(sub.subrange(1, sub.len() as int) =~= tokens_bytes(g2) + spec_serialize(rest2));
            lemma_dec_tokens(data, target, i + 1, 0, g2, rest2, out);
        }
    }
}

/// Decoding the stream of well-formed tokens, seeded with the history they
/// were parsed against, gives back exactly what the tokens produce.
pub proof fn lemma_decode_serialize(seed: Seq<u8>, toks: Seq<Token>)
    requires
        well_formed(seed, toks),
    ensures
        dec(spec_serialize(toks), apply(seed, toks).len(), 0, 8, 0, seed) == apply(seed, toks),
{
    let data = spec_serialize(toks);
    let target = apply(seed, toks).len();
    let empty = Seq::<Token>::empty();
    lemma_apply_extends(seed, toks);
    if toks.len() == 0 {
    } else {
        let n = if toks.len() < 8 { toks.len() } else { 8 };
        let g = toks.subrange(0, n as int);
        let rest = toks.subrange(n as int, toks.len() as int);
        assert(g.subrange(0, g.len() as int) =~= g);
        assert(g.subrange(0, g.len() as int) + rest =~= toks);
        assert(data.subrange(1, data.len() as int) =~= tokens_bytes(g.subrange(0, g.len() as int)) + spec_serialize(rest));
        lemma_dec_tokens(data, target, 1, 0, g, rest, seed);
    }
}

proof fn lemma_tokens_bytes_push(g: Seq<Token>, t: Token)
    ensures
        tokens_bytes(g.push(t)) == tokens_bytes(g) + token_bytes(t),
    decreases g.len(),
{
    if g.len() == 0 {
        assert(g.push(t).subrange(1, 1) =~= Seq::<Token>::empty());
        assert(g.push(t)[0] == t);
        assert(tokens_bytes(Seq::<Token>::empty()) == Seq::<u8>::empty());
        assert(tokens_bytes(g.push(t)) == token_bytes(t) + tokens_bytes(Seq::<Token>::empty()));
        assert(tokens_bytes(g.push(t)) =~= token_bytes(t));
        assert(tokens_bytes(g) == Seq::<u8>::empty());
    } else {
        let tail = g.subrange(1, g.len() as int);
        assert(g.push(t).subrange(1, g.len() as int + 1) =~= tail.push(t));
        lemma_tokens_bytes_push(tail, t);
        assert(tokens_bytes(g.push(t)) =~= tokens_bytes(g) + token_bytes(t));
    }
}

proof fn lemma_or_zero(f: u8, k: u8)
    by (bit_vector)
    ensures
        f | ((0u8 << k) as u8) == f,
{
}

/// Writes the token stream for `tokens`.
pub fn serialize(tokens: &[Token]) -> (out: Vec<u8>)
    requires
        lengths_ok(tokens@),
    ensures
        out@ == spec_serialize(tokens@),
{
    let ghost toks = tokens@;
    let n = tokens.len();
    let mut out: Vec<u8> = Vec::new();
    let mut gs: usize = 0;
    assert(toks.subrange(0, n as int) =~= toks);
    while gs < n
        invariant
            toks == tokens@,
            n == toks.len(),
            gs <= n,
            lengths_ok(toks),
            out@ + spec_serialize(toks.subrange(gs as int, n as int)) == spec_serialize(toks),
        decreases n - gs,
    {
        let end = if n - gs < 8 { n } else { gs + 8 };
        let ghost g = toks.subrange(gs as int, end as int);
        let mut flag: u8 = 0;
        let mut k: usize = gs;
        while k < end
            invariant
                toks == tokens@,
                gs <= k <= end <= n,
                n == toks.len(),
                end - gs <= 8,
                g == toks.subrange(gs as int, end as int),
                flag == flag_of(g.subrange(0, k - gs)),
            decreases end - k,
        {
            let ghost gk = g.subrange(0, k - gs);
            assert(g.subrange(0, k - gs + 1).drop_last() =~= gk);
            assert(g.subrange(0, k - gs + 1).last() == tokens@[k as int]);
            match &tokens[k] {
                Token::Match { .. } => {
                    flag = flag | (1u8 << ((k - gs) as u8));
                },
                Token::Lit(_) => {
                    proof {
                        lemma_or_zero(flag, (k - gs) as u8);
                    }
                },
            }
            k = k + 1;
        }
        assert(g.subrange(0, end - gs) =~= g);
        let ghost base = out@;
        out.push(flag);
        let mut k: usize = gs;
        while k < end
            invariant
                toks == tokens@,
                lengths_ok(toks),
                n == toks.len(),
                gs <= k <= end <= n,
                g == toks.subrange(gs as int, end as int),
                out@ == base + seq![flag] + tokens_bytes(g.subrange(0, k - gs)),
            decreases end - k,
        {
            let ghost before = out@;
            proof {
                lemma_tokens_bytes_push(g.subrange(0, k - gs), toks[k as int]);
                assert(g.subrange(0, k - gs + 1) =~= g.subrange(0, k - gs).push(toks[k as int]));
            }
            match &tokens[k] {
                Token::Lit(b) => {
                    out.push(*b);
                    assert(out@ =~= before + token_bytes(toks[k as int]));
                },
                Token::Match { dist, len } => {
                    assert(toks[k as int] matches Token::Match { len, .. } ==> len >= MIN_MATCH);
                    varint::write(&mut out, *dist);
                    varint::write(&mut out, *len - MIN_MATCH);
                    assert(out@ =~= before + token_bytes(toks[k as int]));
                },
            }
            k = k + 1;
        }
        proof {
            let rest = toks.subrange(gs as int, n as int);
            let m = if rest.len() < 8 { rest.len() } else { 8 };
            assert(rest.subrange(0, m as int) =~= g);
            assert(rest.subrange(m as int, rest.len() as int) =~= toks.subrange(end as int, n as int));
            assert(spec_serialize(rest) == seq![flag_of(g)] + tokens_bytes(g) + spec_serialize(toks.subrange(end as int, n as int)));
        }
        assert(out@ + spec_serialize(toks.subrange(end as int, n as int)) =~= spec_serialize(toks));
        gs = end;
    }
    assert(toks.subrange(n as int, n as int) =~= Seq::<Token>::empty());
    assert(out@ =~= spec_serialize(toks));
    out
}

proof fn lemma_hash_bound(x: usize)
    by (bit_vector)
    ensures
        (x >> 13usize) & 0xFFFF < 0x10000,
{
}

/// The hash of the three bytes at `i`: their little-endian value times
/// 2654435761 (wrapping), bits 13 and up, cut to the table's size.
pub open spec fn hash_spec(b: Seq<u8>, i: int) -> usize {
    let v = (b[i] as usize) | ((b[i + 1] as usize) << 8usize) | ((b[i + 2] as usize) << 16usize);
    (v.wrapping_mul(2654435761) >> 13usize) & ((HASH_SIZE - 1) as usize)
}

fn hash3(b: &[u8], i: usize) -> (h: usize)
    requires
        i + 2 < b.len(),
    ensures
        h < HASH_SIZE,
        h == hash_spec(b@, i as int),
{
    let v = (b[i] as usize) | ((b[i + 1] as usize) << 8) | ((b[i + 2] as usize) << 16);
    let m = v.wrapping_mul(2654435761);
    proof {
        lemma_hash_bound(m);
    }
    (m >> 13) & (HASH_SIZE - 1)
}

/// The chain tables hold only positions below `bound`, and each chain link
/// goes to an earlier position.
pub open spec fn chains_ok(head: Seq<usize>, prev: Seq<usize>, bound: int) -> bool {
    &&& head.len() == HASH_SIZE
    &&& forall|h: int| 0 <= h < head.len() ==> (#[trigger] head[h] == usize::MAX || head[h] < bound)
    &&& forall|p: int| 0 <= p < prev.len() ==> (#[trigger] prev[p] == usize::MAX || prev[p] < p)
}

/// A match of `len` bytes at `i`, `dist` back, inside `bytes`.
pub open spec fn is_match(bytes: Seq<u8>, i: int, dist: int, len: int) -> bool {
    &&& 0 < dist <= i
    &&& i + len <= bytes.len()
    &&& forall|l: int| 0 <= l < len ==> #[trigger] bytes[i - dist + l] == bytes[i + l]
}

/// How many bytes from `l` on the bytes at `a` and at `i` agree, up to
/// `max_len`: where they first differ, or `max_len`.
pub open spec fn agree_len(bytes: Seq<u8>, a: int, i: int, max_len: int, l: int) -> int
    decreases max_len - l,
{
    if l < max_len && bytes[a + l] == bytes[i + l] {
        agree_len(bytes, a, i, max_len, l + 1)
    } else {
        l
    }
}

/// The longest match for `i` among the chain from `cand` on (at most
/// `left` links): the first candidate that agrees on more bytes than the
/// best so far replaces it.
pub open spec fn chain_best(bytes: Seq<u8>, i: int, prev: Seq<usize>, max_len: int, cand: usize, left: nat, best: (usize, usize))
    -> (usize, usize)
    decreases left,
{
    if cand == usize::MAX || left == 0 {
        best
    } else {
        let l = agree_len(bytes, cand as int, i, max_len, 0);
        let b2 = if l > best.1 { ((i - cand) as usize, l as usize) } else { best };
        chain_best(bytes, i, prev, max_len, prev[cand as int], (left - 1) as nat, b2)
    }
}

/// What `find_match` gives: nothing where fewer than three bytes are left;
/// else the best of the chain of the hash of the bytes at `i`, matches cut
/// at `MAX_MATCH` and at the end.
pub open spec fn match_spec(bytes: Seq<u8>, i: int, head: Seq<usize>, prev: Seq<usize>, max_chain: nat) -> (usize, usize) {
    let n = bytes.len() as int;
    if n - i >= MIN_MATCH {
        let max_len = if n - i < MAX_MATCH { n - i } else { MAX_MATCH as int };
        chain_best(bytes, i, prev, max_len, head[hash_spec(bytes, i) as int], max_chain, (0, 0))
    } else {
        (0, 0)
    }
}

proof fn lemma_agree_probe(bytes: Seq<u8>, a: int, i: int, max_len: int, l: int, probe: int)
    requires
        0 <= l <= probe < max_len,
        bytes[a + probe] != bytes[i + probe],
    ensures
        agree_len(bytes, a, i, max_len, l) <= probe,
    decreases probe - l,
{
    if l < probe && bytes[a + l] == bytes[i + l] {
        lemma_agree_probe(bytes, a, i, max_len, l + 1, probe);
    }
}

/// Walks the hash chain of position `i` (at most `max_chain` links) and
/// returns the longest match found, as (distance, length).
fn find_match(bytes: &[u8], i: usize, head: &[usize], prev: &[usize], max_chain: usize) -> (r: (usize, usize))
    requires
        i <= bytes.len(),
        prev.len() >= bytes.len(),
        chains_ok(head@, prev@, i as int),
    ensures
        r.1 <= MAX_MATCH,
        r.1 > 0 ==> is_match(bytes@, i as int, r.0 as int, r.1 as int),
        r == match_spec(bytes@, i as int, head@, prev@, max_chain as nat),
{
    let n = bytes.len();
    let mut best_len: usize = 0;
    let mut best_dist: usize = 0;
    if n - i >= MIN_MATCH {
        let h = hash3(bytes, i);
        let mut cand = head[h];
        let mut chain: usize = 0;
        let max_len = if n - i < MAX_MATCH { n - i } else { MAX_MATCH };
        let ghost goal = match_spec(bytes@, i as int, head@, prev@, max_chain as nat);
        while cand != usize::MAX && chain < max_chain
            invariant
                chain <= max_chain,
                goal == chain_best(bytes@, i as int, prev@, max_len as int, cand, (max_chain - chain) as nat, (best_dist, best_len)),
                n == bytes.len(),
                i + MIN_MATCH <= n,
                prev.len() >= n,
                chains_ok(head@, prev@, i as int),
                cand == usize::MAX || cand < i,
                3 <= max_len <= n - i,
                max_len <= MAX_MATCH,
                best_len <= max_len,
                best_len > 0 ==> is_match(bytes@, i as int, best_dist as int, best_len as int),
            decreases max_chain - chain,
        {
            let probe = if best_len < max_len - 1 { best_len } else { max_len - 1 };
            if bytes[cand + probe] == bytes[i + probe] {
                let mut l: usize = 0;
                while l < max_len && bytes[cand + l] == bytes[i + l]
                    invariant
                        n == bytes.len(),
                        cand < i,
                        max_len <= n - i,
                        l <= max_len,
                        forall|j: int| 0 <= j < l ==> #[trigger] bytes@[cand + j] == bytes@[i + j],
                        agree_len(bytes@, cand as int, i as int, max_len as int, 0)
                            == agree_len(bytes@, cand as int, i as int, max_len as int, l as int),
                    decreases max_len - l,
                {
                    l = l + 1;
                }
                if l > best_len {
                    best_len = l;
                    best_dist = i - cand;
                    assert forall|j: int| 0 <= j < best_len implies #[trigger] bytes@[i - best_dist + j] == bytes@[i + j] by {
                        assert(i - best_dist + j == cand + j);
                    }
                }
            } else {
                proof {
                    lemma_agree_probe(bytes@, cand as int, i as int, max_len as int, 0, probe as int);
                }
            }
            cand = prev[cand];
            chain = chain + 1;
        }
    }
    (best_dist, best_len)
}

/// Adds position `p` to its hash chain (if three bytes start there).
fn insert(bytes: &[u8], p: usize, head: &mut Vec<usize>, prev: &mut Vec<usize>)
    requires
        p < bytes.len(),
        old(prev).len() >= bytes.len(),
        chains_ok(old(head)@, old(prev)@, p as int),
    ensures
        final(prev).len() == old(prev).len(),
        chains_ok(final(head)@, final(prev)@, p + 1),
        bytes.len() - p >= MIN_MATCH ==> {
            let h = hash_spec(bytes@, p as int) as int;
            &&& final(head)@ == old(head)@.update(h, p)
            &&& final(prev)@ == old(prev)@.update(p as int, old(head)@[h])
        },
        bytes.len() - p < MIN_MATCH ==> final(head)@ == old(head)@ && final(prev)@ == old(prev)@,
{
    if bytes.len() - p >= MIN_MATCH {
        let h = hash3(bytes, p);
        let old_head = head[h];
        prev[p] = old_head;
        head[h] = p;
    }
}

proof fn lemma_copy_valid(s: Seq<u8>, i: int, dist: int, len: int, j: int)
    requires
        is_match(s, i, dist, len),
        i <= j <= i + len,
    ensures
        copy_match(s.subrange(0, j), dist as nat, (i + len - j) as nat) == s.subrange(0, i + len),
    decreases i + len - j,
{
    if j < i + len {
        let l = j - i;
        assert(s[i - dist + l] == s[i + l]);
        assert(s.subrange(0, j).push(s.subrange(0, j)[j - dist]) =~= s.subrange(0, j + 1));
        lemma_copy_valid(s, i, dist, len, j + 1);
    }
}

proof fn lemma_apply_push(out: Seq<u8>, toks: Seq<Token>, t: Token)
    ensures
        apply(out, toks.push(t)) == match t {
            Token::Lit(b) => apply(out, toks).push(b),
            Token::Match { dist, len } => copy_match(apply(out, toks), dist as nat, len as nat),
        },
        well_formed(out, toks.push(t)) == (well_formed(out, toks) && match t {
            Token::Lit(_) => true,
            Token::Match { dist, len } => 0 < dist <= apply(out, toks).len() && MIN_MATCH <= len <= MAX_MATCH,
        }),
    decreases toks.len(),
{
    if toks.len() > 0 {
        let o2 = match toks[0] {
            Token::Lit(b) => out.push(b),
            Token::Match { dist, len } => copy_match(out, dist as nat, len as nat),
        };
        let tail = toks.subrange(1, toks.len() as int);
        assert(toks.push(t)[0] == toks[0]);
        assert(toks.push(t).subrange(1, toks.len() as int + 1) =~= tail.push(t));
        lemma_apply_push(o2, tail, t);
    } else {
        let e = Seq::<Token>::empty();
        assert(toks.push(t)[0] == t);
        assert(toks.push(t).subrange(1, 1) =~= e);
        assert(toks =~= e);
        assert(apply(out, toks) == out);
        assert(well_formed(out, toks));
        match t {
            Token::Lit(b) => {
                assert(apply(out.push(b), e) == out.push(b));
                assert(well_formed(out.push(b), e));
            },
            Token::Match { dist, len } => {
                assert(apply(copy_match(out, dist as nat, len as nat), e) == copy_match(out, dist as nat, len as nat));
                assert(well_formed(copy_match(out, dist as nat, len as nat), e));
            },
        }
    }
}

/// The chain tables after `insert` adds position `p`.
pub open spec fn insert_spec(b: Seq<u8>, p: int, head: Seq<usize>, prev: Seq<usize>) -> (Seq<usize>, Seq<usize>) {
    if b.len() - p >= MIN_MATCH {
        let h = hash_spec(b, p) as int;
        (head.update(h, p as usize), prev.update(p, head[h]))
    } else {
        (head, prev)
    }
}

/// The chain tables after positions `from` to `to` (exclusive) are added.
pub open spec fn insert_range(b: Seq<u8>, from: int, to: int, head: Seq<usize>, prev: Seq<usize>) -> (Seq<usize>, Seq<usize>)
    decreases to - from,
{
    if from >= to {
        (head, prev)
    } else {
        let (h1, p1) = insert_spec(b, from, head, prev);
        insert_range(b, from + 1, to, h1, p1)
    }
}

pub proof fn lemma_agree_le(bytes: Seq<u8>, a: int, i: int, max_len: int, l: int)
    requires
        l <= max_len,
    ensures
        l <= agree_len(bytes, a, i, max_len, l) <= max_len,
    decreases max_len - l,
{
    if l < max_len && bytes[a + l] == bytes[i + l] {
        lemma_agree_le(bytes, a, i, max_len, l + 1);
    }
}

pub proof fn lemma_chain_best_le(bytes: Seq<u8>, i: int, prev: Seq<usize>, max_len: int, cand: usize, left: nat, best: (usize, usize))
    requires
        best.1 <= max_len,
    ensures
        chain_best(bytes, i, prev, max_len, cand, left, best).1 <= max_len,
    decreases left,
{
    if !(cand == usize::MAX || left == 0) {
        lemma_agree_le(bytes, cand as int, i, max_len, 0);
        let l = agree_len(bytes, cand as int, i, max_len, 0);
        let b2 = if l > best.1 { ((i - cand) as usize, l as usize) } else { best };
        lemma_chain_best_le(bytes, i, prev, max_len, prev[cand as int], (left - 1) as nat, b2);
    }
}

pub proof fn lemma_match_spec_le(bytes: Seq<u8>, i: int, head: Seq<usize>, prev: Seq<usize>, max_chain: nat)
    requires
        0 <= i <= bytes.len(),
    ensures
        match_spec(bytes, i, head, prev, max_chain).1 <= bytes.len() - i,
{
    let n = bytes.len() as int;
    if n - i >= MIN_MATCH {
        let max_len = if n - i < MAX_MATCH { n - i } else { MAX_MATCH as int };
        lemma_chain_best_le(bytes, i, prev, max_len, head[hash_spec(bytes, i) as int], max_chain, (0, 0));
    }
}

/// The tokens the parse makes from position `i` on, with the chain tables
/// `head` and `prev`: at each position the longest match of the chain
/// search (at most `max_chain` links); a literal when it is shorter than
/// `MIN_MATCH` or when the match at the next position is longer; else the
/// match, whose positions all join the chains.
pub open spec fn parse_from(b: Seq<u8>, i: int, head: Seq<usize>, prev: Seq<usize>, max_chain: nat) -> Seq<Token>
    decreases b.len() - i,
{
    if i < 0 || i >= b.len() {
        Seq::empty()
    } else {
        let (dist, len) = match_spec(b, i, head, prev, max_chain);
        let (h1, p1) = insert_spec(b, i, head, prev);
        if len < MIN_MATCH {
            seq![Token::Lit(b[i])] + parse_from(b, i + 1, h1, p1, max_chain)
        } else {
            let next_len = if i + 1 < b.len() { match_spec(b, i + 1, h1, p1, max_chain).1 } else { 0 };
            if next_len > len {
                seq![Token::Lit(b[i])] + parse_from(b, i + 1, h1, p1, max_chain)
            } else {
                proof {
                    lemma_match_spec_le(b, i, head, prev, max_chain);
                }
                let (h2, p2) = insert_range(b, i + 1, i + len, h1, p1);
                seq![Token::Match { dist, len }] + parse_from(b, i + len, h2, p2, max_chain)
            }
        }
    }
}

/// The tokens `tokens_chain` makes: the chains start empty, the positions
/// before `emit_start` join them, and the parse runs from there.
pub open spec fn spec_tokens(b: Seq<u8>, emit_start: int, max_chain: nat) -> Seq<Token> {
    let plen: nat = if b.len() > 1 { b.len() } else { 1 };
    let (h, p) = insert_range(b, 0, emit_start, Seq::new(HASH_SIZE as nat, |k: int| usize::MAX), Seq::new(plen, |k: int| usize::MAX));
    parse_from(b, emit_start, h, p, max_chain)
}

/// The tokens of a parse of `bytes`: the bytes before `emit_start` are
/// history only, and the tokens produce the rest.
pub fn tokens_chain(bytes: &[u8], emit_start: usize, max_chain: usize) -> (toks: Vec<Token>)
    requires
        emit_start <= bytes.len(),
    ensures
        apply(bytes@.subrange(0, emit_start as int), toks@) == bytes@,
        well_formed(bytes@.subrange(0, emit_start as int), toks@),
        lengths_ok(toks@),
        toks@ == spec_tokens(bytes@, emit_start as int, max_chain as nat),
{
    let n = bytes.len();
    let plen = if n > 1 { n } else { 1 };
    let mut head: Vec<usize> = vec![usize::MAX; HASH_SIZE];
    let mut prev: Vec<usize> = vec![usize::MAX; plen];
    let ghost s = bytes@;
    let ghost seed = s.subrange(0, emit_start as int);
    let ghost mc = max_chain as nat;
    assert(head@ =~= Seq::new(HASH_SIZE as nat, |k: int| usize::MAX));
    assert(prev@ =~= Seq::new(plen as nat, |k: int| usize::MAX));
    let ghost goal = spec_tokens(s, emit_start as int, mc);
    let mut tokens: Vec<Token> = Vec::new();
    let mut i: usize = 0;
    while i < emit_start
        invariant
            n == bytes.len(),
            s == bytes@,
            emit_start <= n,
            i <= emit_start,
            prev.len() >= n,
            chains_ok(head@, prev@, i as int),
            goal == parse_from(s, emit_start as int, insert_range(s, i as int, emit_start as int, head@, prev@).0,
                insert_range(s, i as int, emit_start as int, head@, prev@).1, mc),
            mc == max_chain as nat,
        decreases emit_start - i,
    {
        insert(bytes, i, &mut head, &mut prev);
        i = i + 1;
    }
    assert(seed =~= s.subrange(0, i as int));
    while i < n
        invariant
            n == bytes.len(),
            s == bytes@,
            emit_start <= i <= n,
            prev.len() >= n,
            chains_ok(head@, prev@, i as int),
            seed == s.subrange(0, emit_start as int),
            apply(seed, tokens@) == s.subrange(0, i as int),
            well_formed(seed, tokens@),
            lengths_ok(tokens@),
            goal == tokens@ + parse_from(s, i as int, head@, prev@, mc),
            mc == max_chain as nat,
        decreases n - i,
    {
        let ghost h0 = head@;
        let ghost p0 = prev@;
        let (dist, len) = find_match(bytes, i, head.as_slice(), prev.as_slice(), max_chain);
        insert(bytes, i, &mut head, &mut prev);
        let ghost before = tokens@;
        proof {
            lemma_match_spec_le(s, i as int, h0, p0, mc);
        }
        if len < MIN_MATCH {
            tokens.push(Token::Lit(bytes[i]));
            proof {
                lemma_apply_push(seed, before, Token::Lit(s[i as int]));
                assert(s.subrange(0, i as int).push(s[i as int]) =~= s.subrange(0, i as int + 1));
                assert(match_spec(s, i as int, h0, p0, mc) == (dist, len));
                assert(insert_spec(s, i as int, h0, p0) == (head@, prev@));
                assert(parse_from(s, i as int, h0, p0, mc) == seq![Token::Lit(s[i as int])] + parse_from(s, i as int + 1, head@, prev@, mc));
                assert(tokens@ + parse_from(s, i as int + 1, head@, prev@, mc) =~= before + parse_from(s, i as int, h0, p0, mc));
            }
            i = i + 1;
        } else {
            let next_len = if i + 1 < n {
                find_match(bytes, i + 1, head.as_slice(), prev.as_slice(), max_chain).1
            } else {
                0
            };
            if next_len > len {
                tokens.push(Token::Lit(bytes[i]));
                proof {
                    lemma_apply_push(seed, before, Token::Lit(s[i as int]));
                    assert(s.subrange(0, i as int).push(s[i as int]) =~= s.subrange(0, i as int + 1));
                    assert(tokens@ + parse_from(s, i as int + 1, head@, prev@, mc) =~= before + parse_from(s, i as int, h0, p0, mc));
                }
                i = i + 1;
            } else {
                tokens.push(Token::Match { dist, len });
                proof {
                    lemma_apply_push(seed, before, Token::Match { dist, len });
                    lemma_copy_valid(s, i as int, dist as int, len as int, i as int);
                }
                let end = i + len;
                let ghost h1 = head@;
                let ghost p1 = prev@;
                let mut j = i + 1;
                while j < end
                    invariant
                        n == bytes.len(),
                        s == bytes@,
                        i < j <= end <= n,
                        prev.len() >= n,
                        chains_ok(head@, prev@, j as int),
                        insert_range(s, i as int + 1, end as int, h1, p1) == insert_range(s, j as int, end as int, head@, prev@),
                    decreases end - j,
                {
                    insert(bytes, j, &mut head, &mut prev);
                    j = j + 1;
                }
                proof {
                    assert(tokens@ + parse_from(s, end as int, head@, prev@, mc) =~= before + parse_from(s, i as int, h0, p0, mc));
                }
                i = end;
            }
        }
    }
    assert(s.subrange(0, n as int) =~= s);
    assert(tokens@ + Seq::<Token>::empty() =~= tokens@);
    tokens
}

/// `tokens_chain` with the default chain limit.
pub fn tokens(bytes: &[u8], emit_start: usize) -> (toks: Vec<Token>)
    requires
        emit_start <= bytes.len(),
    ensures
        apply(bytes@.subrange(0, emit_start as int), toks@) == bytes@,
        well_formed(bytes@.subrange(0, emit_start as int), toks@),
        lengths_ok(toks@),
        toks@ == spec_tokens(bytes@, emit_start as int, MAX_CHAIN as nat),
{
    tokens_chain(bytes, emit_start, MAX_CHAIN)
}

/// The token stream of a parse of `bytes` after `emit_start`, with the bytes
/// before it as history.
pub fn encode_from(bytes: &[u8], emit_start: usize) -> (out: Vec<u8>)
    requires
        emit_start <= bytes.len(),
    ensures
        out@ == spec_serialize(spec_tokens(bytes@, emit_start as int, MAX_CHAIN as nat)),
        apply(bytes@.subrange(0, emit_start as int), spec_tokens(bytes@, emit_start as int, MAX_CHAIN as nat)) == bytes@,
        well_formed(bytes@.subrange(0, emit_start as int), spec_tokens(bytes@, emit_start as int, MAX_CHAIN as nat)),
        dec(out@, bytes@.len(), 0, 8, 0, bytes@.subrange(0, emit_start as int)) == bytes@,
{
    let t = tokens(bytes, emit_start);
    let out = serialize(t.as_slice());
    proof {
        lemma_decode_serialize(bytes@.subrange(0, emit_start as int), t@);
    }
    out
}

/// The token stream of a parse of all of `bytes`.
pub fn encode(bytes: &[u8]) -> (out: Vec<u8>)
    ensures
        out@ == spec_serialize(spec_tokens(bytes@, 0, MAX_CHAIN as nat)),
        apply(Seq::empty(), spec_tokens(bytes@, 0, MAX_CHAIN as nat)) == bytes@,
        well_formed(Seq::empty(), spec_tokens(bytes@, 0, MAX_CHAIN as nat)),
        lz::spec_decode(out@, bytes@.len()) == bytes@,
{
    let out = encode_from(bytes, 0);
    assert(bytes@.subrange(0, 0) =~= Seq::<u8>::empty());
    out
}

/// Decodes a token stream.
pub fn decode(data: &[u8], orig_len: usize) -> (out: Vec<u8>)
    ensures
        out@ == lz::spec_decode(data@, orig_len as nat),
{
    lz::decode(data, orig_len)
}

} // verus!
