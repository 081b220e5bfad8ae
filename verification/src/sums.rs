//! Sums over rows and over the strict upper triangle of a square matrix of
//! edge multiplicities, together with the lemmas that track how those sums
//! change under the matrix edits the graph performs (growing by a zero
//! row/column, updating one cell, deleting a row and column).

use vstd::prelude::*;

verus! {

/// Sum of the entries `row[lo..hi]`, as a mathematical integer.
pub open spec fn row_sum(row: Seq<usize>, lo: int, hi: int) -> int
    decreases hi - lo,
{
    if lo >= hi {
        0
    } else {
        row_sum(row, lo, hi - 1) + row[hi - 1]
    }
}

/// Sum of the strict upper triangle of the first `k` rows of `m`:
/// the sum over `r < k` of the entries `m[r][r+1..m.len()]`.
pub open spec fn tri_sum(m: Seq<Seq<usize>>, k: int) -> int
    decreases k,
{
    if k <= 0 {
        0
    } else {
        tri_sum(m, k - 1) + row_sum(m[k - 1], k, m.len() as int)
    }
}

/// Sum of column `c` over the first `k` rows of `m`.
pub open spec fn col_sum(m: Seq<Seq<usize>>, c: int, k: int) -> int
    decreases k,
{
    if k <= 0 {
        0
    } else {
        col_sum(m, c, k - 1) + m[k - 1][c]
    }
}

/// The matrix `m` with row `i` and column `i` removed.
pub open spec fn mat_delete(m: Seq<Seq<usize>>, i: int) -> Seq<Seq<usize>> {
    m.remove(i).map_values(|r: Seq<usize>| r.remove(i))
}

/// A cell of the matrix with row and column `i` deleted, read back in the
/// original matrix.
pub proof fn lemma_mat_delete_cell(m: Seq<Seq<usize>>, i: int, a: int, b: int)
    requires
        0 <= i < m.len(),
        forall|r: int| 0 <= r < m.len() ==> (#[trigger] m[r]).len() == m.len(),
        0 <= a < m.len() - 1,
        0 <= b < m.len() - 1,
    ensures
        mat_delete(m, i)[a][b] == m[if a < i {
            a
        } else {
            a + 1
        }][if b < i {
            b
        } else {
            b + 1
        }],
{
    m.remove_ensures(i);
    let sa = if a < i {
        a
    } else {
        a + 1
    };
    assert(m.remove(i)[a] == m[sa]);
    m[sa].remove_ensures(i);
}

pub proof fn lemma_row_sum_nonneg(row: Seq<usize>, lo: int, hi: int)
    ensures
        row_sum(row, lo, hi) >= 0,
    decreases hi - lo,
{
    if lo < hi {
        lemma_row_sum_nonneg(row, lo, hi - 1);
    }
}

pub proof fn lemma_row_sum_split(row: Seq<usize>, lo: int, mid: int, hi: int)
    requires
        lo <= mid <= hi,
    ensures
        row_sum(row, lo, hi) == row_sum(row, lo, mid) + row_sum(row, mid, hi),
    decreases hi - mid,
{
    if mid < hi {
        lemma_row_sum_split(row, lo, mid, hi - 1);
    }
}

pub proof fn lemma_row_sum_elem(row: Seq<usize>, lo: int, b: int, hi: int)
    requires
        lo <= b < hi,
    ensures
        row_sum(row, lo, hi) >= row[b],
{
    lemma_row_sum_split(row, lo, b, hi);
    lemma_row_sum_split(row, b, b + 1, hi);
    assert(row_sum(row, b, b) == 0);
    assert(row_sum(row, b, b + 1) == row[b]);
    lemma_row_sum_nonneg(row, lo, b);
    lemma_row_sum_nonneg(row, b + 1, hi);
}

pub proof fn lemma_row_sum_two_elems(row: Seq<usize>, lo: int, a: int, b: int, hi: int)
    requires
        lo <= a < b < hi,
    ensures
        row_sum(row, lo, hi) >= row[a] + row[b],
{
    lemma_row_sum_split(row, lo, b, hi);
    lemma_row_sum_elem(row, lo, a, b);
    lemma_row_sum_elem(row, b, b, hi);
}

pub proof fn lemma_tri_sum_nonneg(m: Seq<Seq<usize>>, k: int)
    ensures
        tri_sum(m, k) >= 0,
    decreases k,
{
    if k > 0 {
        lemma_tri_sum_nonneg(m, k - 1);
        lemma_row_sum_nonneg(m[k - 1], k, m.len() as int);
    }
}

/// The triangle sum dominates the upper part of any single row it covers.
pub proof fn lemma_tri_sum_row(m: Seq<Seq<usize>>, r: int, k: int)
    requires
        0 <= r < k,
    ensures
        tri_sum(m, k) >= tri_sum(m, r) + row_sum(m[r], r + 1, m.len() as int),
    decreases k,
{
    if r == k - 1 {
    } else {
        lemma_tri_sum_row(m, r, k - 1);
        lemma_row_sum_nonneg(m[k - 1], k, m.len() as int);
    }
}

/// A single strict-upper-triangle cell is at most the triangle sum.
pub proof fn lemma_cell_le_tri(m: Seq<Seq<usize>>, a: int, b: int)
    requires
        0 <= a < b < m.len(),
    ensures
        m[a][b] <= tri_sum(m, m.len() as int),
{
    lemma_tri_sum_row(m, a, m.len() as int);
    lemma_row_sum_elem(m[a], a + 1, b, m.len() as int);
    lemma_tri_sum_nonneg(m, a);
}

/// Two distinct strict-upper-triangle cells together are at most the
/// triangle sum.
pub proof fn lemma_two_cells_le_tri(m: Seq<Seq<usize>>, a1: int, b1: int, a2: int, b2: int)
    requires
        0 <= a1 < b1 < m.len(),
        0 <= a2 < b2 < m.len(),
        (a1, b1) != (a2, b2),
    ensures
        m[a1][b1] + m[a2][b2] <= tri_sum(m, m.len() as int),
{
    let n = m.len() as int;
    if a1 == a2 {
        lemma_tri_sum_row(m, a1, n);
        lemma_tri_sum_nonneg(m, a1);
        if b1 < b2 {
            lemma_row_sum_two_elems(m[a1], a1 + 1, b1, b2, n);
        } else {
            lemma_row_sum_two_elems(m[a1], a1 + 1, b2, b1, n);
        }
    } else {
        let (lo_r, lo_c, hi_r, hi_c) = if a1 < a2 {
            (a1, b1, a2, b2)
        } else {
            (a2, b2, a1, b1)
        };
        lemma_tri_sum_row(m, hi_r, n);
        lemma_tri_sum_row(m, lo_r, hi_r);
        lemma_tri_sum_nonneg(m, lo_r);
        lemma_row_sum_elem(m[lo_r], lo_r + 1, lo_c, n);
        lemma_row_sum_elem(m[hi_r], hi_r + 1, hi_c, n);
    }
}

/// A column prefix above the diagonal never exceeds the triangle sum of the
/// rows it crosses.
pub proof fn lemma_col_sum_le_tri(m: Seq<Seq<usize>>, i: int, k: int)
    requires
        0 <= k <= i < m.len(),
    ensures
        col_sum(m, i, k) <= tri_sum(m, k),
    decreases k,
{
    if k > 0 {
        lemma_col_sum_le_tri(m, i, k - 1);
        lemma_row_sum_elem(m[k - 1], k, i, m.len() as int);
    }
}

/// In a symmetric square matrix with a zero diagonal, the whole weight
/// incident to one node is at most the triangle sum.
pub proof fn lemma_row_total_le_tri(m: Seq<Seq<usize>>, i: int)
    requires
        0 <= i < m.len(),
        forall|a: int, b: int|
            0 <= a < m.len() && 0 <= b < m.len() ==> #[trigger] m[a][b] == m[b][a],
        m[i][i] == 0,
    ensures
        row_sum(m[i], 0, m.len() as int) <= tri_sum(m, m.len() as int),
{
    let n = m.len() as int;
    lemma_row_sum_split(m[i], 0, i, n);
    lemma_row_sum_split(m[i], i, i + 1, n);
    assert(row_sum(m[i], i, i + 1) == row_sum(m[i], i, i) + m[i][i]);
    lemma_col_sum_row_sum(m, i, i);
    lemma_col_sum_le_tri(m, i, i);
    lemma_tri_sum_row(m, i, n);
}

/// A prefix of a row sum never exceeds the whole.
pub proof fn lemma_row_sum_prefix(row: Seq<usize>, lo: int, j: int, hi: int)
    requires
        lo <= j <= hi,
    ensures
        row_sum(row, lo, j) <= row_sum(row, lo, hi),
{
    lemma_row_sum_split(row, lo, j, hi);
    lemma_row_sum_nonneg(row, j, hi);
}

/// A prefix of the triangle sum never exceeds the whole.
pub proof fn lemma_tri_sum_prefix(m: Seq<Seq<usize>>, k1: int, k2: int)
    requires
        k1 <= k2,
    ensures
        tri_sum(m, k1) <= tri_sum(m, k2),
    decreases k2 - k1,
{
    if k1 < k2 {
        lemma_tri_sum_prefix(m, k1, k2 - 1);
        lemma_row_sum_nonneg(m[k2 - 1], k2, m.len() as int);
    }
}

/// Appending an entry to a row leaves the sum over an unchanged range alone.
pub proof fn lemma_row_sum_push(row: Seq<usize>, v: usize, lo: int, hi: int)
    requires
        0 <= lo,
        hi <= row.len(),
    ensures
        row_sum(row.push(v), lo, hi) == row_sum(row, lo, hi),
    decreases hi - lo,
{
    if lo < hi {
        lemma_row_sum_push(row, v, lo, hi - 1);
        assert(row.push(v)[hi - 1] == row[hi - 1]);
    }
}

/// Updating one entry of a row changes its sum by the difference, when the
/// entry lies in the summed range, and not at all otherwise.
pub proof fn lemma_row_sum_update(row: Seq<usize>, b: int, v: usize, lo: int, hi: int)
    requires
        0 <= lo,
        0 <= b < row.len(),
        hi <= row.len(),
    ensures
        row_sum(row.update(b, v), lo, hi) == row_sum(row, lo, hi) + (if lo <= b < hi {
            v - row[b]
        } else {
            0
        }),
    decreases hi - lo,
{
    if lo < hi {
        lemma_row_sum_update(row, b, v, lo, hi - 1);
        if b == hi - 1 {
            assert(row.update(b, v)[hi - 1] == v);
        } else {
            assert(row.update(b, v)[hi - 1] == row[hi - 1]);
        }
    }
}

/// Updating the cell `(a, b)` of a square matrix changes the triangle sum of
/// the first `k` rows by the difference when the cell lies in the covered
/// strict upper triangle, and not at all otherwise.
pub proof fn lemma_tri_update_partial(m: Seq<Seq<usize>>, a: int, b: int, v: usize, k: int)
    requires
        0 <= a < m.len(),
        0 <= b < m.len(),
        (m[a]).len() == m.len(),
        0 <= k <= m.len(),
    ensures
        tri_sum(m.update(a, m[a].update(b, v)), k) == tri_sum(m, k) + (if a < k && a < b {
            v - m[a][b]
        } else {
            0
        }),
    decreases k,
{
    let m2 = m.update(a, m[a].update(b, v));
    let n = m.len() as int;
    if k > 0 {
        lemma_tri_update_partial(m, a, b, v, k - 1);
        if k - 1 == a {
            assert(m2[k - 1] == m[a].update(b, v));
            lemma_row_sum_update(m[a], b, v, a + 1, n);
        } else {
            assert(m2[k - 1] == m[k - 1]);
        }
    }
}

/// Updating the cell `(a, b)` of a square matrix changes the full triangle
/// sum by the difference when `a < b`, and not at all when `b <= a`.
pub proof fn lemma_tri_update(m: Seq<Seq<usize>>, a: int, b: int, v: usize)
    requires
        0 <= a < m.len(),
        0 <= b < m.len(),
        (m[a]).len() == m.len(),
    ensures
        tri_sum(m.update(a, m[a].update(b, v)), m.len() as int) == tri_sum(m, m.len() as int) + (
        if a < b {
            v - m[a][b]
        } else {
            0
        }),
{
    lemma_tri_update_partial(m, a, b, v, m.len() as int);
}

/// Growing a square matrix by one zero column (and any extra row) keeps the
/// partial triangle sums of the original rows.
pub proof fn lemma_tri_grow_partial(m1: Seq<Seq<usize>>, m2: Seq<Seq<usize>>, k: int)
    requires
        m2.len() == m1.len() + 1,
        forall|r: int|
            0 <= r < m1.len() ==> (#[trigger] m1[r]).len() == m1.len() && m2[r] == m1[r].push(0),
        0 <= k <= m1.len(),
    ensures
        tri_sum(m2, k) == tri_sum(m1, k),
    decreases k,
{
    let n = m1.len() as int;
    if k > 0 {
        lemma_tri_grow_partial(m1, m2, k - 1);
        lemma_row_sum_push(m1[k - 1], 0, k, n);
        assert(m2[k - 1][n] == 0);
        assert(row_sum(m2[k - 1], k, n + 1) == row_sum(m2[k - 1], k, n) + m2[k - 1][n]);
    }
}

/// Growing a square matrix by one zero column and one final row keeps the
/// full triangle sum (the final row contributes nothing to the strict upper
/// triangle).
pub proof fn lemma_tri_grow(m1: Seq<Seq<usize>>, m2: Seq<Seq<usize>>)
    requires
        m2.len() == m1.len() + 1,
        forall|r: int|
            0 <= r < m1.len() ==> (#[trigger] m1[r]).len() == m1.len() && m2[r] == m1[r].push(0),
    ensures
        tri_sum(m2, m2.len() as int) == tri_sum(m1, m1.len() as int),
{
    let n = m1.len() as int;
    lemma_tri_grow_partial(m1, m2, n);
    assert(row_sum(m2[n], n + 1, n + 1) == 0);
}

/// Removing a row entry at or below the summed range shifts the range up by
/// one.
pub proof fn lemma_row_sum_remove_low(row: Seq<usize>, i: int, lo: int, hi: int)
    requires
        0 <= i <= lo <= hi <= row.len() - 1,
    ensures
        row_sum(row.remove(i), lo, hi) == row_sum(row, lo + 1, hi + 1),
    decreases hi - lo,
{
    row.remove_ensures(i);
    if lo < hi {
        lemma_row_sum_remove_low(row, i, lo, hi - 1);
        assert(row.remove(i)[hi - 1] == row[hi]);
    }
}

/// Removing a row entry above the summed range leaves the sum unchanged.
pub proof fn lemma_row_sum_remove_high(row: Seq<usize>, i: int, lo: int, hi: int)
    requires
        0 <= lo,
        lo <= hi <= i < row.len(),
    ensures
        row_sum(row.remove(i), lo, hi) == row_sum(row, lo, hi),
    decreases hi - lo,
{
    row.remove_ensures(i);
    if lo < hi {
        lemma_row_sum_remove_high(row, i, lo, hi - 1);
        assert(row.remove(i)[hi - 1] == row[hi - 1]);
    }
}

/// Removing a row entry inside the summed range drops exactly that entry
/// from the sum.
pub proof fn lemma_row_sum_remove_mid(row: Seq<usize>, i: int, lo: int, hi: int)
    requires
        0 <= lo <= i < hi <= row.len(),
    ensures
        row_sum(row.remove(i), lo, hi - 1) == row_sum(row, lo, hi) - row[i],
    decreases hi - i,
{
    row.remove_ensures(i);
    if hi - 1 == i {
        lemma_row_sum_remove_high(row, i, lo, i);
        assert(row_sum(row, lo, hi) == row_sum(row, lo, i) + row[i]);
    } else {
        lemma_row_sum_remove_mid(row, i, lo, hi - 1);
        assert(row.remove(i)[hi - 2] == row[hi - 1]);
    }
}

/// In a symmetric matrix a column prefix-sum equals the matching row
/// prefix-sum.
pub proof fn lemma_col_sum_row_sum(m: Seq<Seq<usize>>, c: int, k: int)
    requires
        0 <= c < m.len(),
        0 <= k <= m.len(),
        forall|a: int, b: int|
            0 <= a < m.len() && 0 <= b < m.len() ==> #[trigger] m[a][b] == m[b][a],
    ensures
        col_sum(m, c, k) == row_sum(m[c], 0, k),
    decreases k,
{
    if k > 0 {
        lemma_col_sum_row_sum(m, c, k - 1);
        assert(m[k - 1][c] == m[c][k - 1]);
    }
}

/// Deleting row and column `i`: the partial triangle sums of the rows before
/// `i` lose exactly the column-`i` entries of those rows.
pub proof fn lemma_tri_delete_low(m: Seq<Seq<usize>>, i: int, k: int)
    requires
        0 <= i < m.len(),
        forall|r: int| 0 <= r < m.len() ==> (#[trigger] m[r]).len() == m.len(),
        0 <= k <= i,
    ensures
        tri_sum(mat_delete(m, i), k) == tri_sum(m, k) - col_sum(m, i, k),
    decreases k,
{
    let d = mat_delete(m, i);
    let n = m.len() as int;
    m.remove_ensures(i);
    if k > 0 {
        lemma_tri_delete_low(m, i, k - 1);
        assert(m.remove(i)[k - 1] == m[k - 1]);
        assert(d[k - 1] == m[k - 1].remove(i));
        lemma_row_sum_remove_mid(m[k - 1], i, k, n);
    }
}

/// Deleting row and column `i`: the partial triangle sums through row `k` of
/// the smaller matrix, for `k` at or past `i`, lose the whole column above
/// `i` and the whole row right of `i`.
pub proof fn lemma_tri_delete_high(m: Seq<Seq<usize>>, i: int, k: int)
    requires
        0 <= i <= k <= m.len() - 1,
        forall|r: int| 0 <= r < m.len() ==> (#[trigger] m[r]).len() == m.len(),
    ensures
        tri_sum(mat_delete(m, i), k) == tri_sum(m, k + 1) - col_sum(m, i, i) - row_sum(
            m[i],
            i + 1,
            m.len() as int,
        ),
    decreases k,
{
    let d = mat_delete(m, i);
    let n = m.len() as int;
    m.remove_ensures(i);
    if k == i {
        lemma_tri_delete_low(m, i, i);
        assert(tri_sum(m, i + 1) == tri_sum(m, i) + row_sum(m[i], i + 1, n));
    } else {
        lemma_tri_delete_high(m, i, k - 1);
        assert(m.remove(i)[k - 1] == m[k]);
        assert(d[k - 1] == m[k].remove(i));
        lemma_row_sum_remove_low(m[k], i, k, n - 1);
    }
}

/// Deleting row and column `i` from a symmetric square matrix with a zero
/// diagonal removes exactly the weight incident to node `i` from the
/// triangle sum.
pub proof fn lemma_tri_delete(m: Seq<Seq<usize>>, i: int)
    requires
        0 <= i < m.len(),
        forall|r: int| 0 <= r < m.len() ==> (#[trigger] m[r]).len() == m.len(),
        forall|a: int, b: int|
            0 <= a < m.len() && 0 <= b < m.len() ==> #[trigger] m[a][b] == m[b][a],
        m[i][i] == 0,
    ensures
        tri_sum(mat_delete(m, i), m.len() - 1) == tri_sum(m, m.len() as int) - row_sum(
            m[i],
            0,
            m.len() as int,
        ),
{
    let n = m.len() as int;
    lemma_tri_delete_high(m, i, n - 1);
    assert(tri_sum(m, n) == tri_sum(m, (n - 1) + 1));
    lemma_col_sum_row_sum(m, i, i);
    lemma_row_sum_split(m[i], 0, i, n);
    lemma_row_sum_split(m[i], i, i + 1, n);
    assert(row_sum(m[i], i, i + 1) == row_sum(m[i], i, i) + m[i][i]);
    assert(row_sum(m[i], i, i) == 0);
}

/// Two rows that agree on a range have the same sum over it.
pub proof fn lemma_row_sum_congruent(r1: Seq<usize>, r2: Seq<usize>, lo: int, hi: int)
    requires
        forall|b: int| lo <= b < hi ==> r1[b] == r2[b],
    ensures
        row_sum(r1, lo, hi) == row_sum(r2, lo, hi),
    decreases hi - lo,
{
    if lo < hi {
        lemma_row_sum_congruent(r1, r2, lo, hi - 1);
    }
}

/// A matrix `f` that agrees with the square matrix `m` except for one extra
/// final row and column has the triangle sum of `m` plus the sum of the new
/// column (the new row lies below the diagonal and contributes nothing).
pub proof fn lemma_tri_fill_partial(f: Seq<Seq<usize>>, m: Seq<Seq<usize>>, k: int)
    requires
        f.len() == m.len() + 1,
        forall|x: int, y: int|
            0 <= x < m.len() && 0 <= y < m.len() ==> #[trigger] f[x][y] == m[x][y],
        0 <= k <= m.len(),
    ensures
        tri_sum(f, k) == tri_sum(m, k) + col_sum(f, m.len() as int, k),
    decreases k,
{
    let n = m.len() as int;
    if k > 0 {
        lemma_tri_fill_partial(f, m, k - 1);
        lemma_row_sum_congruent(f[k - 1], m[k - 1], k, n);
        assert(row_sum(f[k - 1], k, n + 1) == row_sum(f[k - 1], k, n) + f[k - 1][n]);
    }
}

/// The full-triangle version of `lemma_tri_fill_partial`.
pub proof fn lemma_tri_fill(f: Seq<Seq<usize>>, m: Seq<Seq<usize>>)
    requires
        f.len() == m.len() + 1,
        forall|x: int, y: int|
            0 <= x < m.len() && 0 <= y < m.len() ==> #[trigger] f[x][y] == m[x][y],
    ensures
        tri_sum(f, f.len() as int) == tri_sum(m, m.len() as int) + col_sum(f, m.len() as int, m.len() as int),
{
    let n = m.len() as int;
    lemma_tri_fill_partial(f, m, n);
    assert(row_sum(f[n], n + 1, n + 1) == 0);
}

/// A column each of whose entries is the sum of the matching entries of two
/// columns of `m` sums to the two column sums together.
pub proof fn lemma_col_sum_pair(f: Seq<Seq<usize>>, m: Seq<Seq<usize>>, c: int, i: int, j: int, k: int)
    requires
        forall|x: int| 0 <= x < k ==> #[trigger] f[x][c] == m[x][i] + m[x][j],
        0 <= k,
    ensures
        col_sum(f, c, k) == col_sum(m, i, k) + col_sum(m, j, k),
    decreases k,
{
    if k > 0 {
        lemma_col_sum_pair(f, m, c, i, j, k - 1);
    }
}

} // verus!
