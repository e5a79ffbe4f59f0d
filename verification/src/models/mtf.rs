//! Move-to-front: each byte becomes its position in a table of all byte
//! values, and then moves to the front of the table.
use vstd::prelude::*;

verus! {

/// The table before anything is coded: 0, 1, ..., 255.
pub open spec fn initial_table() -> Seq<u8> {
    Seq::new(256, |i: int| i as u8)
}

/// The table after the entry at `p` moves to the front.
pub open spec fn move_front(t: Seq<u8>, p: int) -> Seq<u8> {
    seq![t[p]] + t.remove(p)
}

/// The table after the bytes of `s` were coded.
pub open spec fn table_after(s: Seq<u8>) -> Seq<u8>
    decreases s.len(),
{
    if s.len() == 0 {
        initial_table()
    } else {
        let t = table_after(s.drop_last());
        move_front(t, t.index_of(s.last()))
    }
}

/// The code of each byte: its position in the table at that point.
pub open spec fn spec_forward(s: Seq<u8>) -> Seq<u8> {
    Seq::new(s.len(), |i: int| table_after(s.take(i)).index_of(s[i]) as u8)
}

/// The table after the codes of `c` were decoded.
pub open spec fn table_after_codes(c: Seq<u8>) -> Seq<u8>
    decreases c.len(),
{
    if c.len() == 0 {
        initial_table()
    } else {
        move_front(table_after_codes(c.drop_last()), c.last() as int)
    }
}

/// The byte of each code: the table entry at that position at that point.
pub open spec fn spec_inverse(c: Seq<u8>) -> Seq<u8> {
    Seq::new(c.len(), |i: int| table_after_codes(c.take(i))[c[i] as int])
}

/// Every byte value occurs exactly once in `t`.
pub open spec fn is_perm(t: Seq<u8>) -> bool {
    &&& t.len() == 256
    &&& forall|i: int, j: int| 0 <= i < j < 256 ==> t[i] != t[j]
    &&& forall|b: u8| t.contains(b)
}

proof fn lemma_initial_perm()
    ensures
        is_perm(initial_table()),
{
    let t = initial_table();
    assert forall|b: u8| t.contains(b) by {
        assert(t[b as int] == b);
    }
}

proof fn lemma_move_front_perm(t: Seq<u8>, p: int)
    requires
        is_perm(t),
        0 <= p < 256,
    ensures
        is_perm(move_front(t, p)),
{
    let m = move_front(t, p);
    assert forall|i: int, j: int| 0 <= i < j < 256 implies m[i] != m[j] by {
        if i == 0 {
            assert(m[j] == if j - 1 < p { t[j - 1] } else { t[j] });
        } else {
            assert(m[i] == if i - 1 < p { t[i - 1] } else { t[i] });
            assert(m[j] == if j - 1 < p { t[j - 1] } else { t[j] });
        }
    }
    assert forall|b: u8| m.contains(b) by {
        assert(t.contains(b));
        let k = choose|k: int| 0 <= k < t.len() && t[k] == b;
        if k == p {
            assert(m[0] == b);
        } else if k < p {
            assert(m[k + 1] == b);
        } else {
            assert(m[k] == b);
        }
    }
}

proof fn lemma_index_of_perm(t: Seq<u8>, b: u8)
    requires
        is_perm(t),
    ensures
        0 <= t.index_of(b) < 256,
        t[t.index_of(b)] == b,
{
    t.index_of_first_ensures(b);
}

proof fn lemma_table_perm(s: Seq<u8>)
    ensures
        is_perm(table_after(s)),
    decreases s.len(),
{
    if s.len() == 0 {
        lemma_initial_perm();
    } else {
        lemma_table_perm(s.drop_last());
        lemma_index_of_perm(table_after(s.drop_last()), s.last());
        lemma_move_front_perm(table_after(s.drop_last()), table_after(s.drop_last()).index_of(s.last()));
    }
}

proof fn lemma_codes_perm(c: Seq<u8>)
    ensures
        is_perm(table_after_codes(c)),
    decreases c.len(),
{
    if c.len() == 0 {
        lemma_initial_perm();
    } else {
        lemma_codes_perm(c.drop_last());
        lemma_move_front_perm(table_after_codes(c.drop_last()), c.last() as int);
    }
}

proof fn lemma_tables_agree(s: Seq<u8>)
    ensures
        table_after_codes(spec_forward(s)) == table_after(s),
    decreases s.len(),
{
    if s.len() > 0 {
        let f = spec_forward(s);
        let p = s.drop_last();
        assert(f.drop_last() =~= spec_forward(p)) by {
            assert forall|i: int| 0 <= i < p.len() implies #[trigger] p.take(i) == s.take(i) by {
                assert(p.take(i) =~= s.take(i));
            }
        }
        lemma_tables_agree(p);
        lemma_table_perm(p);
        lemma_index_of_perm(table_after(p), s.last());
        assert(s.take(s.len() - 1) =~= p);
    }
}

/// Decoding the codes of `s` gives `s` back.
pub proof fn lemma_inverse_forward(s: Seq<u8>)
    ensures
        spec_inverse(spec_forward(s)) == s,
{
    let f = spec_forward(s);
    assert forall|i: int| 0 <= i < s.len() implies #[trigger] spec_inverse(f)[i] == s[i] by {
        let p = s.take(i);
        assert(f.take(i) =~= spec_forward(p)) by {
            assert forall|k: int| 0 <= k < p.len() implies #[trigger] p.take(k) == s.take(k) by {
                assert(p.take(k) =~= s.take(k));
            }
        }
        lemma_tables_agree(p);
        lemma_table_perm(p);
        lemma_index_of_perm(table_after(p), s[i]);
    }
    assert(spec_inverse(f) =~= s);
}

proof fn lemma_index_of_at(t: Seq<u8>, p: int)
    requires
        is_perm(t),
        0 <= p < 256,
    ensures
        t.index_of(t[p]) == p,
{
    lemma_index_of_perm(t, t[p]);
}

proof fn lemma_tables_agree_codes(c: Seq<u8>)
    ensures
        table_after(spec_inverse(c)) == table_after_codes(c),
    decreases c.len(),
{
    if c.len() > 0 {
        let s = spec_inverse(c);
        let q = c.drop_last();
        assert(s.drop_last() =~= spec_inverse(q)) by {
            assert forall|i: int| 0 <= i < q.len() implies #[trigger] q.take(i) == c.take(i) by {
                assert(q.take(i) =~= c.take(i));
            }
        }
        lemma_tables_agree_codes(q);
        lemma_codes_perm(q);
        assert(c.take(c.len() - 1) =~= q);
        lemma_index_of_at(table_after_codes(q), c.last() as int);
    }
}

/// Coding the bytes that the codes `c` decode to gives `c` back.
pub proof fn lemma_forward_inverse(c: Seq<u8>)
    ensures
        spec_forward(spec_inverse(c)) == c,
{
    let s = spec_inverse(c);
    assert forall|i: int| 0 <= i < c.len() implies #[trigger] spec_forward(s)[i] == c[i] by {
        let q = c.take(i);
        assert(s.take(i) =~= spec_inverse(q)) by {
            assert forall|k: int| 0 <= k < q.len() implies #[trigger] q.take(k) == c.take(k) by {
                assert(q.take(k) =~= c.take(k));
            }
        }
        lemma_tables_agree_codes(q);
        lemma_codes_perm(q);
        lemma_index_of_at(table_after_codes(q), c[i] as int);
    }
    assert(spec_forward(s) =~= c);
}

fn initial() -> (t: Vec<u8>)
    ensures
        t@ == initial_table(),
{
    let mut t: Vec<u8> = Vec::new();
    let mut i: u32 = 0;
    while i < 256
        invariant
            i <= 256,
            t@ == Seq::new(i as nat, |k: int| k as u8),
        decreases 256 - i,
    {
        t.push(i as u8);
        i = i + 1;
        assert(t@ =~= Seq::new(i as nat, |k: int| k as u8));
    }
    t
}

/// Codes each byte by its table position.
pub fn forward(data: &[u8]) -> (out: Vec<u8>)
    ensures
        out@ == spec_forward(data@),
        spec_inverse(out@) == data@,
{
    let ghost s = data@;
    let mut table = initial();
    let mut out: Vec<u8> = Vec::new();
    let mut i: usize = 0;
    while i < data.len()
        invariant
            s == data@,
            i <= s.len(),
            table@ == table_after(s.take(i as int)),
            out@ == spec_forward(s).take(i as int),
        decreases s.len() - i,
    {
        let b = data[i];
        proof {
            lemma_table_perm(s.take(i as int));
            lemma_index_of_perm(table@, b);
            table@.index_of_first_ensures(b);
        }
        let mut pos: usize = 0;
        while table[pos] != b
            invariant
                table@ == table_after(s.take(i as int)),
                is_perm(table@),
                0 <= table@.index_of(b) < 256,
                pos <= table@.index_of(b),
                forall|k: int| 0 <= k < pos ==> table@[k] != b,
                table@.index_of_first(b) == Some(table@.index_of(b)),
            decreases 256 - pos,
        {
            proof {
                table@.index_of_first_ensures(b);
            }
            pos = pos + 1;
        }
        proof {
            table@.index_of_first_ensures(b);
        }
        assert(pos == table@.index_of(b));
        out.push(pos as u8);
        table.remove(pos);
        table.insert(0, b);
        assert(s.take(i as int + 1).drop_last() =~= s.take(i as int));
        assert(table@ =~= move_front(table_after(s.take(i as int)), pos as int));
        i = i + 1;
        assert(out@ =~= spec_forward(s).take(i as int));
    }
    assert(spec_forward(s).take(i as int) =~= spec_forward(s));
    proof {
        lemma_inverse_forward(s);
    }
    out
}

/// Turns codes back into bytes.
pub fn inverse(data: &[u8]) -> (out: Vec<u8>)
    ensures
        out@ == spec_inverse(data@),
        spec_forward(out@) == data@,
{
    let ghost c = data@;
    let mut table = initial();
    let mut out: Vec<u8> = Vec::new();
    let mut i: usize = 0;
    while i < data.len()
        invariant
            c == data@,
            i <= c.len(),
            table@ == table_after_codes(c.take(i as int)),
            out@ == spec_inverse(c).take(i as int),
        decreases c.len() - i,
    {
        let pos = data[i] as usize;
        proof {
            lemma_codes_perm(c.take(i as int));
        }
        let b = table[pos];
        out.push(b);
        table.remove(pos);
        table.insert(0, b);
        assert(c.take(i as int + 1).drop_last() =~= c.take(i as int));
        assert(table@ =~= move_front(table_after_codes(c.take(i as int)), pos as int));
        i = i + 1;
        assert(out@ =~= spec_inverse(c).take(i as int));
    }
    assert(spec_inverse(c).take(i as int) =~= spec_inverse(c));
    proof {
        lemma_forward_inverse(c);
    }
    out
}

} // verus!
