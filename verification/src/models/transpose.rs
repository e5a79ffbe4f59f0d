//! Column-major coding of comma-separated tables: every field of the first
//! column, then every field of the second, and so on, range coded.
use vstd::prelude::*;
use super::range;
use crate::slices;
use crate::varint;

verus! {

/// The pieces of `s` between the bytes equal to `sep` (one more piece than
/// there are separators).
pub open spec fn split(s: Seq<u8>, sep: u8) -> Seq<Seq<u8>>
    decreases s.len(),
{
    if s.len() == 0 {
        seq![Seq::empty()]
    } else {
        let p = split(s.drop_last(), sep);
        if s.last() == sep {
            p.push(Seq::empty())
        } else {
            p.update(p.len() - 1, p.last().push(s.last()))
        }
    }
}

pub proof fn lemma_split_nonempty(s: Seq<u8>, sep: u8)
    ensures
        split(s, sep).len() >= 1,
    decreases s.len(),
{
    if s.len() > 0 {
        lemma_split_nonempty(s.drop_last(), sep);
    }
}

/// The contents of each vector.
pub open spec fn views(v: Seq<Vec<u8>>) -> Seq<Seq<u8>> {
    v.map_values(|x: Vec<u8>| x@)
}

/// Column `col` of the first `r` rows, each field followed by a newline.
pub open spec fn col_bytes(grid: Seq<Seq<Seq<u8>>>, col: int, r: int) -> Seq<u8>
    decreases r,
{
    if r <= 0 {
        Seq::empty()
    } else {
        col_bytes(grid, col, r - 1) + grid[r - 1][col] + seq![10u8]
    }
}

/// The first `c` columns, one after the other.
pub open spec fn cols_bytes(grid: Seq<Seq<Seq<u8>>>, c: int) -> Seq<u8>
    decreases c,
{
    if c <= 0 {
        Seq::empty()
    } else {
        cols_bytes(grid, c - 1) + col_bytes(grid, c - 1, grid.len() as int)
    }
}

/// The rows of `b` without a final newline, each split at its commas.
pub open spec fn grid_of(b: Seq<u8>) -> Seq<Seq<Seq<u8>>> {
    let tnl = b.len() > 0 && b.last() == 10;
    let body = if tnl { b.drop_last() } else { b };
    split(body, 10).map_values(|r: Seq<u8>| split(r, 44))
}

/// What `transpose` makes of `b`: nothing for an empty input, a single row,
/// fewer than two columns or rows of different widths; otherwise the row
/// and column counts, whether the input ended in a newline, and the fields
/// column by column.
pub open spec fn spec_transpose(b: Seq<u8>) -> Option<Seq<u8>> {
    let grid = grid_of(b);
    if b.len() == 0 || grid.len() < 2 {
        None
    } else {
        let ncols = grid[0].len();
        if ncols < 2 || exists|i: int| 0 <= i < grid.len() && #[trigger] grid[i].len() != ncols {
            None
        } else {
            let tnl: u8 = if b.last() == 10 { 1 } else { 0 };
            Some(varint::encode(grid.len() as usize) + varint::encode(ncols as usize) + seq![tnl] + cols_bytes(grid, ncols as int))
        }
    }
}

fn split_bytes(s: &[u8], sep: u8) -> (pieces: Vec<Vec<u8>>)
    ensures
        views(pieces@) == split(s@, sep),
{
    let mut pieces: Vec<Vec<u8>> = Vec::new();
    let mut cur: Vec<u8> = Vec::new();
    let mut i: usize = 0;
    while i < s.len()
        invariant
            i <= s.len(),
            views(pieces@).push(cur@) == split(s@.take(i as int), sep),
        decreases s.len() - i,
    {
        let ghost t = s@.take(i as int + 1);
        assert(t.drop_last() =~= s@.take(i as int));
        proof {
            lemma_split_nonempty(s@.take(i as int), sep);
        }
        if s[i] == sep {
            let done = cur;
            pieces.push(done);
            cur = Vec::new();
            assert(views(pieces@).push(cur@) =~= split(t, sep));
        } else {
            let ghost c0 = cur@;
            cur.push(s[i]);
            assert(views(pieces@).push(cur@) =~= split(t, sep));
        }
        i = i + 1;
    }
    assert(s@.take(i as int) =~= s@);
    pieces.push(cur);
    pieces
}

fn append(out: &mut Vec<u8>, s: &Vec<u8>)
    ensures
        final(out)@ == old(out)@ + s@,
{
    out.extend_from_slice(s.as_slice());
}

fn transpose(bytes: &[u8]) -> (r: Option<Vec<u8>>)
    ensures
        match r {
            Some(t) => spec_transpose(bytes@) == Some(t@),
            None => spec_transpose(bytes@) == None::<Seq<u8>>,
        },
{
    if bytes.len() == 0 {
        return None;
    }
    let trailing_nl = bytes[bytes.len() - 1] == 10;
    let body = if trailing_nl { &bytes[0..bytes.len() - 1] } else { &bytes[0..bytes.len()] };
    assert(trailing_nl ==> body@ =~= bytes@.drop_last());
    assert(!trailing_nl ==> body@ =~= bytes@);
    let rows = split_bytes(body, 10);
    if rows.len() < 2 {
        return None;
    }
    let ghost rv = views(rows@);
    let mut grid: Vec<Vec<Vec<u8>>> = Vec::new();
    let mut k: usize = 0;
    while k < rows.len()
        invariant
            k <= rows@.len(),
            rv == views(rows@),
            grid@.len() == k,
            forall|j: int| 0 <= j < k ==> #[trigger] views(grid@[j]@) == split(rv[j], 44),
        decreases rows.len() - k,
    {
        let g = split_bytes(rows[k].as_slice(), 44);
        grid.push(g);
        k = k + 1;
    }
    let ghost gs = grid_of(bytes@);
    assert(gs.len() == grid@.len());
    assert forall|j: int| 0 <= j < grid@.len() implies #[trigger] views(grid@[j]@) == gs[j] by {
    }
    let ncols = grid[0].len();
    assert(views(grid@[0]@).len() == grid@[0]@.len());
    assert(ncols == gs[0].len());
    if ncols < 2 {
        return None;
    }
    let mut k: usize = 0;
    while k < grid.len()
        invariant
            k <= grid@.len(),
            gs == grid_of(bytes@),
            gs.len() >= 2,
            ncols >= 2,
            bytes@.len() > 0,
            ncols == gs[0].len(),
            gs.len() == grid@.len(),
            forall|j: int| 0 <= j < grid@.len() ==> #[trigger] views(grid@[j]@) == gs[j],
            forall|j: int| 0 <= j < k ==> #[trigger] gs[j].len() == ncols,
        decreases grid.len() - k,
    {
        assert(views(grid@[k as int]@).len() == grid@[k as int]@.len());
        if grid[k].len() != ncols {
            assert(gs[k as int].len() != ncols);
            assert(gs.len() >= 2 && ncols >= 2);
            assert(exists|j: int| 0 <= j < gs.len() && #[trigger] gs[j].len() != ncols);
            return None;
        }
        k = k + 1;
    }
    let mut out: Vec<u8> = Vec::new();
    varint::write(&mut out, rows.len());
    varint::write(&mut out, ncols);
    out.push(if trailing_nl { 1 } else { 0 });
    let ghost head = out@;
    let mut col: usize = 0;
    while col < ncols
        invariant
            col <= ncols,
            gs.len() >= 2,
            ncols == gs[0].len(),
            gs.len() == grid@.len(),
            forall|j: int| 0 <= j < grid@.len() ==> #[trigger] views(grid@[j]@) == gs[j],
            forall|j: int| 0 <= j < gs.len() ==> #[trigger] gs[j].len() == ncols,
            out@ == head + cols_bytes(gs, col as int),
        decreases ncols - col,
    {
        let ghost before = out@;
        let mut row: usize = 0;
        while row < grid.len()
            invariant
                col < ncols,
                row <= grid@.len(),
                gs.len() == grid@.len(),
                forall|j: int| 0 <= j < grid@.len() ==> #[trigger] views(grid@[j]@) == gs[j],
                forall|j: int| 0 <= j < gs.len() ==> #[trigger] gs[j].len() == ncols,
                out@ == before + col_bytes(gs, col as int, row as int),
            decreases grid.len() - row,
        {
            assert(views(grid@[row as int]@)[col as int] == grid@[row as int]@[col as int]@);
            append(&mut out, &grid[row][col]);
            out.push(10);
            row = row + 1;
            assert(out@ =~= before + col_bytes(gs, col as int, row as int));
        }
        col = col + 1;
        assert(out@ =~= head + cols_bytes(gs, col as int));
    }
    Some(out)
}

/// The end of the line that starts at `i`: the next newline, or the end.
pub open spec fn line_end(d: Seq<u8>, i: int) -> int
    decreases d.len() - i,
{
    if i < 0 || i >= d.len() || d[i] == 10 {
        if i < 0 { 0 } else if i > d.len() { d.len() as int } else { i }
    } else {
        line_end(d, i + 1)
    }
}

proof fn lemma_line_end(d: Seq<u8>, i: int)
    requires
        0 <= i <= d.len(),
    ensures
        i <= line_end(d, i) <= d.len(),
        line_end(d, i) < d.len() ==> d[line_end(d, i)] == 10,
        forall|k: int| i <= k < line_end(d, i) ==> d[k] != 10,
    decreases d.len() - i,
{
    if i < d.len() && d[i] != 10 {
        lemma_line_end(d, i + 1);
    }
}

/// Up to `want` lines of `d` from `i` on; a position just past the end
/// still gives one empty line.
pub open spec fn fields_from(d: Seq<u8>, i: int, want: nat) -> Seq<Seq<u8>>
    decreases want,
{
    if want == 0 || i < 0 || i > d.len() {
        Seq::empty()
    } else {
        let j = line_end(d, i);
        seq![d.subrange(i, j)] + fields_from(d, j + 1, (want - 1) as nat)
    }
}

/// The field at `idx`, or nothing past the last one.
pub open spec fn field_or_empty(f: Seq<Seq<u8>>, idx: int) -> Seq<u8> {
    if 0 <= idx < f.len() { f[idx] } else { Seq::empty() }
}

/// Row `row` up to column `c`: the fields joined by commas (index
/// `col * nrows + row`, wrapping as `usize` arithmetic does).
pub open spec fn row_bytes(f: Seq<Seq<u8>>, nrows: usize, row: usize, c: int) -> Seq<u8>
    decreases c,
{
    if c <= 0 {
        Seq::empty()
    } else {
        let col = (c - 1) as usize;
        let sep: Seq<u8> = if c - 1 > 0 { seq![44u8] } else { Seq::empty() };
        row_bytes(f, nrows, row, c - 1) + sep + field_or_empty(f, col.wrapping_mul(nrows).wrapping_add(row) as int)
    }
}

/// The first `r` rows, each ended by a newline but for the last, which has
/// one only when `tnl`.
pub open spec fn rows_bytes(f: Seq<Seq<u8>>, nrows: usize, ncols: usize, tnl: bool, r: int) -> Seq<u8>
    decreases r,
{
    if r <= 0 {
        Seq::empty()
    } else {
        let nl: Seq<u8> = if r < nrows || tnl { seq![10u8] } else { Seq::empty() };
        rows_bytes(f, nrows, ncols, tnl, r - 1) + row_bytes(f, nrows, (r - 1) as usize, ncols as int) + nl
    }
}

/// What `untranspose` rebuilds from `d`: the row and column counts, the
/// newline flag, the fields, then the rows joined again.
pub open spec fn spec_untranspose(d: Seq<u8>) -> Seq<u8> {
    let nrows = varint::value_at(d, 0);
    let p1 = varint::end_at(d, 0);
    let ncols = varint::value_at(d, p1);
    let p2 = varint::end_at(d, p1);
    let tnl = p2 < d.len() && d[p2] != 0;
    let f = fields_from(d, p2 + 1, nrows.wrapping_mul(ncols) as nat);
    rows_bytes(f, nrows, ncols, tnl, nrows as int)
}

fn untranspose(data: &[u8]) -> (out: Vec<u8>)
    ensures
        out@ == spec_untranspose(data@),
{
    let ghost d = data@;
    let mut pos: usize = 0;
    let nrows = varint::read(data, &mut pos);
    proof {
        varint::lemma_end_bounds(d, 0, 0);
    }
    let ghost p1 = pos as int;
    let ncols = varint::read(data, &mut pos);
    proof {
        varint::lemma_end_bounds(d, p1, 0);
    }
    let trailing_nl = pos < data.len() && data[pos] != 0;
    let ghost p0 = pos as int + 1;
    let want = nrows.wrapping_mul(ncols);
    let mut fields: Vec<Vec<u8>> = Vec::new();
    let mut more = pos < data.len();
    let mut i: usize = if more { pos + 1 } else { pos };
    while more && fields.len() < want
        invariant
            d == data@,
            fields@.len() <= want,
            i <= d.len(),
            more ==> i as int == p0 || (0 < i && d[i - 1] == 10),
            fields_from(d, p0, want as nat) == views(fields@) + (if more {
                fields_from(d, i as int, (want - fields@.len()) as nat)
            } else {
                Seq::empty()
            }),
        decreases d.len() + 1 - i, (if more { 1int } else { 0int }),
    {
        let start = i;
        proof {
            lemma_line_end(d, i as int);
        }
        while i < data.len() && data[i] != 10
            invariant
                start <= i <= d.len(),
                d == data@,
                line_end(d, start as int) == line_end(d, i as int),
            decreases d.len() - i,
        {
            i = i + 1;
        }
        let f = slices::copy(&data[start..i]);
        assert(f@ == d.subrange(start as int, line_end(d, start as int)));
        let ghost before = fields@;
        fields.push(f);
        assert(views(fields@) =~= views(before).push(f@));
        if i < data.len() {
            i = i + 1;
        } else {
            more = false;
            assert(fields_from(d, i as int + 1, (want - fields@.len()) as nat) =~= Seq::<Seq<u8>>::empty());
        }
        assert(views(fields@) + (if more {
            fields_from(d, i as int, (want - fields@.len()) as nat)
        } else {
            Seq::empty()
        }) =~= views(before) + fields_from(d, start as int, (want - before.len()) as nat));
    }
    let ghost fv = fields_from(d, p0, want as nat);
    assert(fv =~= views(fields@)) by {
        if more {
            assert(fields_from(d, i as int, (want - fields@.len()) as nat) =~= Seq::<Seq<u8>>::empty());
        }
    }
    let mut out: Vec<u8> = Vec::new();
    let mut row: usize = 0;
    while row < nrows
        invariant
            row <= nrows,
            fv == views(fields@),
            out@ == rows_bytes(fv, nrows, ncols, trailing_nl, row as int),
        decreases nrows - row,
    {
        let ghost before = out@;
        let mut col: usize = 0;
        while col < ncols
            invariant
                col <= ncols,
                row < nrows,
                fv == views(fields@),
                out@ == before + row_bytes(fv, nrows, row, col as int),
            decreases ncols - col,
        {
            if col > 0 {
                out.push(44);
            }
            let idx = col.wrapping_mul(nrows).wrapping_add(row);
            if idx < fields.len() {
                append(&mut out, &fields[idx]);
            }
            col = col + 1;
            assert(out@ =~= before + row_bytes(fv, nrows, row, col as int));
        }
        if row + 1 < nrows || trailing_nl {
            out.push(10);
        }
        row = row + 1;
        assert(out@ =~= rows_bytes(fv, nrows, ncols, trailing_nl, row as int));
    }
    out
}

/// The transposed table of `b`, where there is one, fits in memory.
pub open spec fn table_fits(b: Seq<u8>) -> bool {
    match spec_transpose(b) {
        Some(t) => t.len() <= usize::MAX,
        None => true,
    }
}

/// What `encode` gives: a 1, the length of the transposed table and its
/// range coding when `b` is a table; otherwise a 0 and `b` itself.
pub open spec fn spec_encode(b: Seq<u8>) -> Seq<u8> {
    match spec_transpose(b) {
        Some(t) => seq![1u8] + varint::encode(t.len() as usize) + range::spec_encode(t),
        None => seq![0u8] + b,
    }
}

/// What `decode` gives: nothing for no data, the rest after a 0, otherwise
/// the rebuilt table.
pub open spec fn spec_decode(d: Seq<u8>) -> Seq<u8> {
    if d.len() == 0 {
        Seq::empty()
    } else if d[0] == 0 {
        d.skip(1)
    } else {
        let n = varint::value_at(d, 1);
        let p = varint::end_at(d, 1);
        spec_untranspose(range::spec_decode(d.skip(p), n as nat))
    }
}

/// Transposes a table and range codes it; anything else is stored.
pub fn encode(bytes: &[u8]) -> (out: Vec<u8>)
    ensures
        out@ == spec_encode(bytes@),
        table_fits(bytes@),
{
    match transpose(bytes) {
        Some(t) => {
            let mut out: Vec<u8> = vec![1u8];
            varint::write(&mut out, t.len());
            let coded = range::encode(t.as_slice());
            append(&mut out, &coded);
            out
        },
        None => {
            let mut out: Vec<u8> = vec![0u8];
            out.extend_from_slice(bytes);
            out
        },
    }
}

/// Decodes what `encode` wrote; the original length is not needed.
pub fn decode(data: &[u8], _orig_len: usize) -> (out: Vec<u8>)
    ensures
        out@ == spec_decode(data@),
{
    if data.len() == 0 {
        return Vec::new();
    }
    if data[0] == 0 {
        let rest = slices::copy(&data[1..data.len()]);
        return rest;
    }
    let mut pos: usize = 1;
    let t_len = varint::read(data, &mut pos);
    proof {
        varint::lemma_end_bounds(data@, 1, 0);
    }
    let rest = &data[pos..data.len()];
    assert(rest@ =~= data@.skip(pos as int));
    let t = range::decode(rest, t_len);
    untranspose(t.as_slice())
}

} // verus!
