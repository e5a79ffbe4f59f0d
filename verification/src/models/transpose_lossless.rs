//! The column-major table coding gives its input back.
use vstd::prelude::*;
use super::{range, range_lossless};
use super::transpose::{self, split, col_bytes, cols_bytes, grid_of, spec_transpose, line_end, fields_from, row_bytes, rows_bytes, spec_untranspose};
use crate::varint;

verus! {

/// The pieces joined again, `sep` between each two.
pub open spec fn join(ps: Seq<Seq<u8>>, sep: u8) -> Seq<u8>
    decreases ps.len(),
{
    if ps.len() == 0 {
        Seq::empty()
    } else if ps.len() == 1 {
        ps[0]
    } else {
        join(ps.drop_last(), sep) + seq![sep] + ps.last()
    }
}

/// Each field followed by a newline, in order.
pub open spec fn lines(fs: Seq<Seq<u8>>) -> Seq<u8>
    decreases fs.len(),
{
    if fs.len() == 0 {
        Seq::empty()
    } else {
        fs[0] + seq![10u8] + lines(fs.skip(1))
    }
}

/// Column `col` of the first `r` rows.
pub open spec fn column_of(grid: Seq<Seq<Seq<u8>>>, col: int, r: int) -> Seq<Seq<u8>>
    decreases r,
{
    if r <= 0 {
        Seq::empty()
    } else {
        column_of(grid, col, r - 1).push(grid[r - 1][col])
    }
}

/// The fields of the first `c` columns, column by column.
pub open spec fn flat(grid: Seq<Seq<Seq<u8>>>, c: int) -> Seq<Seq<u8>>
    decreases c,
{
    if c <= 0 {
        Seq::empty()
    } else {
        flat(grid, c - 1) + column_of(grid, c - 1, grid.len() as int)
    }
}

/// No field holds a newline.
pub open spec fn clean(fs: Seq<Seq<u8>>) -> bool {
    forall|k: int, j: int| 0 <= k < fs.len() && 0 <= j < fs[k].len() ==> #[trigger] fs[k][j] != 10
}

/// Joining the pieces of `s` gives `s`.
pub proof fn lemma_join_split(s: Seq<u8>, sep: u8)
    ensures
        join(split(s, sep), sep) == s,
    decreases s.len(),
{
    if s.len() > 0 {
        let init = s.drop_last();
        let p = split(init, sep);
        lemma_join_split(init, sep);
        transpose::lemma_split_nonempty(init, sep);
        if s.last() == sep {
            let q = p.push(Seq::<u8>::empty());
            assert(q.drop_last() =~= p);
            assert(s =~= join(p, sep) + seq![sep] + q.last());
        } else {
            let q = p.update(p.len() - 1, p.last().push(s.last()));
            if p.len() == 1 {
                assert(s =~= q[0]);
            } else {
                assert(q.drop_last() =~= p.drop_last());
                assert(join(p, sep) == join(p.drop_last(), sep) + seq![sep] + p.last());
                assert(q.last() == p.last().push(s.last()));
                assert(join(q, sep) == join(q.drop_last(), sep) + seq![sep] + q.last());
                assert(init == join(p.drop_last(), sep) + seq![sep] + p.last());
                assert(s =~= init.push(s.last()));
                assert(s =~= join(p.drop_last(), sep) + seq![sep] + q.last());
            }
        }
    }
}

/// No piece holds the separator, nor a byte that `s` does not hold.
pub proof fn lemma_split_avoids(s: Seq<u8>, sep: u8, v: u8)
    requires
        v == sep || forall|k: int| 0 <= k < s.len() ==> s[k] != v,
    ensures
        forall|i: int, j: int| 0 <= i < split(s, sep).len() && 0 <= j < split(s, sep)[i].len() ==> #[trigger] split(s, sep)[i][j] != v,
    decreases s.len(),
{
    if s.len() > 0 {
        let init = s.drop_last();
        let p = split(init, sep);
        assert(v == sep || forall|k: int| 0 <= k < init.len() ==> init[k] != v) by {
            if v != sep {
                assert forall|k: int| 0 <= k < init.len() implies init[k] != v by {
                    assert(init[k] == s[k]);
                }
            }
        }
        lemma_split_avoids(init, sep, v);
        transpose::lemma_split_nonempty(init, sep);
        let q = split(s, sep);
        assert forall|i: int, j: int| 0 <= i < q.len() && 0 <= j < q[i].len() implies #[trigger] q[i][j] != v by {
            if s.last() == sep {
                if i < p.len() {
                    assert(q[i] == p[i]);
                    assert(p[i][j] != v);
                }
            } else {
                if i < p.len() - 1 {
                    assert(q[i] == p[i]);
                    assert(p[i][j] != v);
                } else if j < p.last().len() {
                    assert(q[i][j] == p[p.len() - 1][j]);
                    assert(p[p.len() - 1][j] != v);
                } else {
                    assert(q[i][j] == s[s.len() - 1]);
                }
            }
        }
    }
}

proof fn lemma_lines_append(a: Seq<Seq<u8>>, b: Seq<Seq<u8>>)
    ensures
        lines(a + b) == lines(a) + lines(b),
    decreases a.len(),
{
    if a.len() == 0 {
        assert(a + b =~= b);
    } else {
        lemma_lines_append(a.skip(1), b);
        assert((a + b).skip(1) =~= a.skip(1) + b);
        assert((a + b)[0] == a[0]);
    }
}

proof fn lemma_col_lines(grid: Seq<Seq<Seq<u8>>>, col: int, r: int)
    ensures
        col_bytes(grid, col, r) == lines(column_of(grid, col, r)),
    decreases r,
{
    if r > 0 {
        lemma_col_lines(grid, col, r - 1);
        let x = grid[r - 1][col];
        lemma_lines_append(column_of(grid, col, r - 1), seq![x]);
        assert(column_of(grid, col, r - 1).push(x) =~= column_of(grid, col, r - 1) + seq![x]);
        assert(seq![x].skip(1) =~= Seq::<Seq<u8>>::empty());
        assert(lines(Seq::<Seq<u8>>::empty()) == Seq::<u8>::empty());
        assert(lines(seq![x]) == x + seq![10u8] + lines(seq![x].skip(1)));
        assert(lines(seq![x]) =~= x + seq![10u8]);
    }
}

proof fn lemma_cols_lines(grid: Seq<Seq<Seq<u8>>>, c: int)
    ensures
        cols_bytes(grid, c) == lines(flat(grid, c)),
    decreases c,
{
    if c > 0 {
        lemma_cols_lines(grid, c - 1);
        lemma_col_lines(grid, c - 1, grid.len() as int);
        lemma_lines_append(flat(grid, c - 1), column_of(grid, c - 1, grid.len() as int));
    }
}

proof fn lemma_column(grid: Seq<Seq<Seq<u8>>>, col: int, r: int)
    requires
        0 <= r,
    ensures
        column_of(grid, col, r).len() == r,
        forall|row: int| 0 <= row < r ==> #[trigger] column_of(grid, col, r)[row] == grid[row][col],
    decreases r,
{
    if r > 0 {
        lemma_column(grid, col, r - 1);
    }
}

proof fn lemma_flat(grid: Seq<Seq<Seq<u8>>>, c: int)
    requires
        0 <= c,
    ensures
        flat(grid, c).len() == c * grid.len(),
        forall|col: int, row: int| 0 <= col < c && 0 <= row < grid.len() ==> #[trigger] flat(grid, c)[col * grid.len() + row] == grid[row][col],
    decreases c,
{
    let n = grid.len() as int;
    if c > 0 {
        lemma_flat(grid, c - 1);
        lemma_column(grid, c - 1, n);
        assert((c - 1) * n + n == c * n) by (nonlinear_arith);
        assert(flat(grid, c) == flat(grid, c - 1) + column_of(grid, c - 1, n));
        assert(flat(grid, c).len() == (c - 1) * n + n);
        assert forall|col: int, row: int| 0 <= col < c && 0 <= row < n implies #[trigger] flat(grid, c)[col * n + row] == grid[row][col] by {
            if col < c - 1 {
                assert(col * n + row < (c - 1) * n) by (nonlinear_arith)
                    requires
                        col < c - 1,
                        0 <= row < n,
                ;
                assert(col * n + row >= 0) by (nonlinear_arith)
                    requires
                        col >= 0,
                        row >= 0,
                        n >= 0,
                ;
            } else {
                assert(col * n + row - (c - 1) * n == row);
            }
        }
    } else {
        assert(c * n == 0) by (nonlinear_arith)
            requires
                c == 0,
        ;
    }
}

proof fn lemma_flat_clean(grid: Seq<Seq<Seq<u8>>>, c: int)
    requires
        forall|row: int, col: int, j: int| 0 <= row < grid.len() && 0 <= col < grid[row].len() && 0 <= j < grid[row][col].len()
            ==> #[trigger] grid[row][col][j] != 10,
        forall|row: int| 0 <= row < grid.len() ==> c <= #[trigger] grid[row].len(),
    ensures
        clean(flat(grid, c)),
    decreases c,
{
    if c > 0 {
        lemma_flat_clean(grid, c - 1);
        lemma_column(grid, c - 1, grid.len() as int);
        lemma_flat(grid, c - 1);
        let a = flat(grid, c - 1);
        let b = column_of(grid, c - 1, grid.len() as int);
        assert forall|k: int, j: int| 0 <= k < (a + b).len() && 0 <= j < (a + b)[k].len() implies #[trigger] (a + b)[k][j] != 10 by {
            if k < a.len() {
                assert((a + b)[k] == a[k]);
            } else {
                assert((a + b)[k] == b[k - a.len()]);
                assert(b[k - a.len()] == grid[k - a.len()][c - 1]);
            }
        }
    }
}

proof fn lemma_line_end_at(d: Seq<u8>, i: int, m: int)
    requires
        0 <= i,
        0 <= m,
        i + m < d.len(),
        forall|k: int| i <= k < i + m ==> d[k] != 10,
        d[i + m] == 10,
    ensures
        line_end(d, i) == i + m,
    decreases m,
{
    if m > 0 {
        lemma_line_end_at(d, i + 1, m - 1);
    }
}

/// Reading lines back from where `lines(fs)` was written gives `fs`.
proof fn lemma_fields_lines(d: Seq<u8>, i: int, fs: Seq<Seq<u8>>)
    requires
        0 <= i,
        i + lines(fs).len() <= d.len(),
        d.subrange(i, i + lines(fs).len()) == lines(fs),
        clean(fs),
    ensures
        fields_from(d, i, fs.len()) == fs,
    decreases fs.len(),
{
    if fs.len() > 0 {
        let m = fs[0].len() as int;
        let rest = fs.skip(1);
        let l = lines(fs);
        assert(l == fs[0] + seq![10u8] + lines(rest));
        assert forall|k: int| i <= k < i + m implies d[k] != 10 by {
            assert(d[k] == d.subrange(i, i + l.len())[k - i]);
            assert(l[k - i] == fs[0][k - i]);
            assert(fs[0][k - i] != 10);
        }
        assert(d[i + m] == d.subrange(i, i + l.len())[m]);
        lemma_line_end_at(d, i, m);
        assert(d.subrange(i, i + m) =~= fs[0]) by {
            assert forall|k: int| 0 <= k < m implies d.subrange(i, i + m)[k] == fs[0][k] by {
                assert(d[i + k] == d.subrange(i, i + l.len())[k]);
            }
        }
        assert(clean(rest)) by {
            assert forall|k: int, j: int| 0 <= k < rest.len() && 0 <= j < rest[k].len() implies #[trigger] rest[k][j] != 10 by {
                assert(rest[k] == fs[k + 1]);
            }
        }
        let i2 = i + m + 1;
        assert(d.subrange(i2, i2 + lines(rest).len()) =~= lines(rest)) by {
            assert forall|k: int| 0 <= k < lines(rest).len() implies d.subrange(i2, i2 + lines(rest).len())[k] == lines(rest)[k] by {
                assert(d[i2 + k] == d.subrange(i, i + l.len())[m + 1 + k]);
            }
        }
        lemma_fields_lines(d, i2, rest);
        assert(fs =~= seq![fs[0]] + rest);
    }
}

/// Row `row` rebuilt from the column-major fields is its fields joined by
/// commas.
proof fn lemma_row(grid: Seq<Seq<Seq<u8>>>, ncols: int, row: int, c: int)
    requires
        0 <= row < grid.len(),
        1 <= c <= ncols,
        grid.len() * ncols <= usize::MAX,
        grid[row].len() == ncols,
    ensures
        row_bytes(flat(grid, ncols), grid.len() as usize, row as usize, c) == join(grid[row].take(c), 44),
    decreases c,
{
    let n = grid.len() as int;
    let f = flat(grid, ncols);
    lemma_flat(grid, ncols);
    let col = c - 1;
    assert(col * n + row < n * ncols) by (nonlinear_arith)
        requires
            0 <= col < ncols,
            0 <= row < n,
    ;
    assert(col * n >= 0) by (nonlinear_arith)
        requires
            col >= 0,
            n >= 0,
    ;
    let cu = col as usize;
    let nu = n as usize;
    assert(col <= col * n) by (nonlinear_arith)
        requires
            col >= 0,
            n >= 1,
    ;
    assert(n <= n * ncols) by (nonlinear_arith)
        requires
            ncols >= 1,
            n >= 0,
    ;
    assert(cu as nat * nu as nat == col * n);
    assert(cu.wrapping_mul(nu) == col * n) by {
        vstd::arithmetic::div_mod::lemma_small_mod((col * n) as nat, (usize::MAX - usize::MIN + 1) as nat);
    }
    assert(cu.wrapping_mul(nu).wrapping_add(row as usize) == col * n + row);
    assert(f[col * n + row] == grid[row][col]);
    if c > 1 {
        lemma_row(grid, ncols, row, c - 1);
        assert(grid[row].take(c).drop_last() =~= grid[row].take(c - 1));
    } else {
        assert(row_bytes(f, nu, row as usize, 0) == Seq::<u8>::empty());
    }
}

/// The rows rebuilt so far: the first `r` row texts joined by newlines,
/// with a newline after the last unless it is the final row without one.
proof fn lemma_rows(grid: Seq<Seq<Seq<u8>>>, rows: Seq<Seq<u8>>, ncols: int, tnl: bool, r: int)
    requires
        1 <= r <= grid.len(),
        grid.len() == rows.len(),
        ncols >= 1,
        grid.len() * ncols <= usize::MAX,
        forall|i: int| 0 <= i < grid.len() ==> (#[trigger] grid[i]).len() == ncols,
        forall|i: int| 0 <= i < grid.len() ==> join(#[trigger] grid[i], 44) == rows[i],
    ensures
        rows_bytes(flat(grid, ncols), grid.len() as usize, ncols as usize, tnl, r)
            == join(rows.take(r), 10) + (if r < grid.len() || tnl { seq![10u8] } else { Seq::<u8>::empty() }),
    decreases r,
{
    let f = flat(grid, ncols);
    let n = grid.len() as int;
    assert(ncols <= usize::MAX && n <= usize::MAX) by (nonlinear_arith)
        requires
            n * ncols <= usize::MAX,
            n >= 1,
            ncols >= 1,
    ;
    lemma_row(grid, ncols, r - 1, ncols);
    assert(grid[r - 1].take(ncols) =~= grid[r - 1]);
    let nl: Seq<u8> = if r < n || tnl { seq![10u8] } else { Seq::<u8>::empty() };
    let here = row_bytes(f, n as usize, (r - 1) as usize, ncols);
    assert(here == rows[r - 1]);
    assert(rows_bytes(f, n as usize, ncols as usize, tnl, r)
        == rows_bytes(f, n as usize, ncols as usize, tnl, r - 1) + here + nl);
    if r > 1 {
        lemma_rows(grid, rows, ncols, tnl, r - 1);
        assert(rows.take(r).drop_last() =~= rows.take(r - 1));
        assert(join(rows.take(r), 10) == join(rows.take(r - 1), 10) + seq![10u8] + rows[r - 1]);
        assert(rows_bytes(f, n as usize, ncols as usize, tnl, r - 1) == join(rows.take(r - 1), 10) + seq![10u8]);
    } else {
        assert(rows_bytes(f, n as usize, ncols as usize, tnl, 0) == Seq::<u8>::empty());
        assert(join(rows.take(1), 10) == rows[0]);
    }
    assert(rows_bytes(f, n as usize, ncols as usize, tnl, r) =~= join(rows.take(r), 10) + nl);
}

/// Rebuilding the table from its transposed form gives the input back.
proof fn lemma_untranspose(b: Seq<u8>, t: Seq<u8>)
    requires
        spec_transpose(b) == Some(t),
        t.len() <= usize::MAX,
    ensures
        spec_untranspose(t) == b,
{
    let grid = grid_of(b);
    let tnl = b.len() > 0 && b.last() == 10;
    let body = if tnl { b.drop_last() } else { b };
    let rows = split(body, 10);
    let n = grid.len() as int;
    let ncols = grid[0].len() as int;
    assert(forall|i: int| 0 <= i < n ==> #[trigger] grid[i] == split(rows[i], 44));
    assert(forall|i: int| 0 <= i < n ==> (#[trigger] grid[i]).len() == ncols);
    let tb: u8 = if b.last() == 10 { 1 } else { 0 };
    let cols = cols_bytes(grid, ncols);
    let vr = varint::encode(n as usize);
    let vc = varint::encode(ncols as usize);
    assert(t == vr + vc + seq![tb] + cols);
    // The fields hold neither separator.
    lemma_split_avoids(body, 10, 10);
    assert forall|row: int, col: int, j: int| 0 <= row < grid.len() && 0 <= col < grid[row].len() && 0 <= j < grid[row][col].len()
        implies #[trigger] grid[row][col][j] != 10 by {
        assert forall|k: int| 0 <= k < rows[row].len() implies rows[row][k] != 10 by {
            assert(split(body, 10)[row][k] != 10);
        }
        lemma_split_avoids(rows[row], 44, 10);
    }
    lemma_flat_clean(grid, ncols);
    lemma_cols_lines(grid, ncols);
    lemma_flat(grid, ncols);
    let f = flat(grid, ncols);
    // n * ncols fields, each followed by a newline, fit in `t`.
    assert(lines(f).len() >= f.len()) by {
        lemma_lines_len(f);
    }
    assert(n * ncols <= usize::MAX) by (nonlinear_arith)
        requires
            f.len() == ncols * n,
            lines(f).len() >= f.len(),
            t.len() == vr.len() + vc.len() + 1 + lines(f).len(),
            t.len() <= usize::MAX,
    ;
    assert(n <= usize::MAX && ncols <= usize::MAX) by (nonlinear_arith)
        requires
            n * ncols <= usize::MAX,
            n >= 2,
            ncols >= 2,
    ;
    // The header reads back.
    varint::lemma_read_write(n as usize, Seq::empty(), vc + seq![tb] + cols);
    assert(Seq::<u8>::empty() + vr + (vc + seq![tb] + cols) =~= t);
    varint::lemma_read_write(ncols as usize, vr, seq![tb] + cols);
    assert(vr + vc + (seq![tb] + cols) =~= t);
    let p2: int = (vr.len() + vc.len()) as int;
    assert(t[p2] == tb);
    let nu = n as usize;
    let cu = ncols as usize;
    assert(nu.wrapping_mul(cu) == n * ncols) by {
        vstd::arithmetic::div_mod::lemma_small_mod((n * ncols) as nat, (usize::MAX + 1) as nat);
    }
    // The fields read back.
    assert(t.subrange(p2 + 1, p2 + 1 + lines(f).len() as int) =~= lines(f));
    lemma_fields_lines(t, p2 + 1, f);
    assert(f.len() == n * ncols) by (nonlinear_arith)
        requires
            f.len() == ncols * n,
    ;
    // The rows are rebuilt.
    assert forall|i: int| 0 <= i < n implies join(#[trigger] grid[i], 44) == rows[i] by {
        lemma_join_split(rows[i], 44);
    }
    lemma_rows(grid, rows, ncols, tnl, n);
    assert(rows.take(n) =~= rows);
    lemma_join_split(body, 10);
    if tnl {
        assert(b =~= body + seq![10u8]);
    }
}

proof fn lemma_lines_len(fs: Seq<Seq<u8>>)
    ensures
        lines(fs).len() >= fs.len(),
    decreases fs.len(),
{
    if fs.len() > 0 {
        lemma_lines_len(fs.skip(1));
    }
}

/// Decoding the table coding of `b` gives `b` back, where its transposed
/// table fits in memory.
pub proof fn lemma_decode_encode(b: Seq<u8>)
    requires
        transpose::table_fits(b),
    ensures
        transpose::spec_decode(transpose::spec_encode(b)) == b,
{
    match spec_transpose(b) {
        Some(t) => {
            let v = varint::encode(t.len() as usize);
            let c = range::spec_encode(t);
            let d = seq![1u8] + v + c;
            assert(transpose::spec_encode(b) == d);
            varint::lemma_read_write(t.len() as usize, seq![1u8], c);
            assert(d.skip(1 + v.len() as int) =~= c);
            range_lossless::lemma_decode_encode(t);
            lemma_untranspose(b, t);
        },
        None => {
            assert((seq![0u8] + b).skip(1) =~= b);
        },
    }
}

} // verus!
