//! Rank of an integer matrix by fraction-free row reduction.
use vstd::prelude::*;

use crate::row_space::{has_row_rank, lemma_rank_is_row_space_dimension};
use crate::sums::in_i32;

verus! {

/// The rows of a matrix of vectors, as sequences.
pub open spec fn rows_view(m: Seq<Vec<i32>>) -> Seq<Seq<i32>> {
    m.map_values(|v: Vec<i32>| v@)
}

/// The number of columns: the length of the first row, or zero.
pub open spec fn col_count(m: Seq<Seq<i32>>) -> int {
    if m.len() == 0 {
        0
    } else {
        m[0].len() as int
    }
}

/// Every row is at least as long as the first one.
pub open spec fn rows_cover(m: Seq<Seq<i32>>) -> bool {
    forall|i: int| 0 <= i < m.len() ==> #[trigger] m[i].len() >= col_count(m)
}

/// The matrix as integers, each row cut to its first `cols` entries.
pub open spec fn int_matrix(m: Seq<Seq<i32>>, cols: int) -> Seq<Seq<int>> {
    Seq::new(m.len(), |i: int| Seq::new(cols as nat, |j: int| m[i][j] as int))
}

/// The first row at or after `from` with a nonzero entry in column `c`, or the row count.
pub open spec fn pivot_row(m: Seq<Seq<int>>, from: int, c: int) -> int
    decreases m.len() - from,
{
    if from < 0 || from >= m.len() {
        m.len() as int
    } else if m[from][c] != 0 {
        from
    } else {
        pivot_row(m, from + 1, c)
    }
}

/// Rows `a` and `b` exchanged.
pub open spec fn swap_rows(m: Seq<Seq<int>>, a: int, b: int) -> Seq<Seq<int>> {
    m.update(a, m[b]).update(b, m[a])
}

/// Column `c` cleared in every row but `r`: each row `i` with a nonzero entry
/// there becomes `m[r][c] * row i - m[i][c] * row r`.
pub open spec fn eliminate(m: Seq<Seq<int>>, r: int, c: int) -> Seq<Seq<int>> {
    Seq::new(
        m.len(),
        |i: int|
            if i == r || m[i][c] == 0 {
                m[i]
            } else {
                Seq::new(m[i].len(), |j: int| m[i][j] * m[r][c] - m[i][c] * m[r][j])
            },
    )
}

/// The number of pivots that row reduction finds, having already placed `r`
/// pivots and reached column `c`.
pub open spec fn rank_from(m: Seq<Seq<int>>, cols: int, r: int, c: int) -> int
    decreases cols - c,
{
    if r >= m.len() || c >= cols || r < 0 || c < 0 {
        r
    } else {
        let p = pivot_row(m, r, c);
        if p >= m.len() {
            rank_from(m, cols, r, c + 1)
        } else {
            rank_from(eliminate(swap_rows(m, r, p), r, c), cols, r + 1, c + 1)
        }
    }
}

/// Every product and difference of one elimination step fits in an `i32`.
pub open spec fn step_fits(m: Seq<Seq<int>>, r: int, c: int, cols: int) -> bool {
    forall|i: int, j: int|
        0 <= i < m.len() && i != r && m[i][c] != 0 && 0 <= j < cols ==> {
            &&& in_i32(#[trigger] m[i][j] * m[r][c])
            &&& in_i32(m[i][c] * m[r][j])
            &&& in_i32(m[i][j] * m[r][c] - m[i][c] * m[r][j])
        }
}

/// Every step of the row reduction from row `r` and column `c` on stays within `i32`.
pub open spec fn fits_from(m: Seq<Seq<int>>, cols: int, r: int, c: int) -> bool
    decreases cols - c,
{
    if r >= m.len() || c >= cols || r < 0 || c < 0 {
        true
    } else {
        let p = pivot_row(m, r, c);
        if p >= m.len() {
            fits_from(m, cols, r, c + 1)
        } else {
            let s = swap_rows(m, r, p);
            step_fits(s, r, c, cols) && fits_from(eliminate(s, r, c), cols, r + 1, c + 1)
        }
    }
}

/// The rank that row reduction computes; zero for a matrix without rows or columns.
pub open spec fn elimination_rank(m: Seq<Seq<i32>>) -> int {
    if m.len() == 0 || col_count(m) == 0 {
        0
    } else {
        rank_from(int_matrix(m, col_count(m)), col_count(m), 0, 0)
    }
}

/// Row reduction of `m` never leaves the `i32` range.
pub open spec fn elimination_fits(m: Seq<Seq<i32>>) -> bool {
    m.len() == 0 || col_count(m) == 0 || fits_from(int_matrix(m, col_count(m)), col_count(m), 0, 0)
}

/// The rows of `m` as integer sequences.
pub open spec fn int_rows(m: Seq<Vec<i32>>) -> Seq<Seq<int>> {
    Seq::new(m.len(), |i: int| Seq::new(m[i]@.len(), |j: int| m[i]@[j] as int))
}

proof fn lemma_pivot_row_found(m: Seq<Seq<int>>, from: int, c: int, p: int)
    requires
        0 <= from <= p < m.len(),
        m[p][c] != 0,
        forall|q: int| from <= q < p ==> m[q][c] == 0,
    ensures
        pivot_row(m, from, c) == p,
    decreases p - from,
{
    if from < p {
        lemma_pivot_row_found(m, from + 1, c, p);
    }
}

proof fn lemma_pivot_row_none(m: Seq<Seq<int>>, from: int, c: int)
    requires
        0 <= from <= m.len(),
        forall|q: int| from <= q < m.len() ==> m[q][c] == 0,
    ensures
        pivot_row(m, from, c) == m.len(),
    decreases m.len() - from,
{
    if from < m.len() {
        lemma_pivot_row_none(m, from + 1, c);
    }
}

pub proof fn lemma_pivot_row_none_zero(m: Seq<Seq<int>>, from: int, c: int)
    requires
        0 <= from,
        pivot_row(m, from, c) >= m.len(),
    ensures
        forall|q: int| from <= q < m.len() ==> m[q][c] == 0,
    decreases m.len() - from,
{
    if from < m.len() {
        lemma_pivot_row_none_zero(m, from + 1, c);
    }
}

proof fn lemma_rank_from_at_least(m: Seq<Seq<int>>, cols: int, r: int, c: int)
    requires
        0 <= r,
    ensures
        rank_from(m, cols, r, c) >= r,
    decreases cols - c,
{
    if r >= m.len() || c >= cols || c < 0 {
    } else {
        let p = pivot_row(m, r, c);
        if p >= m.len() {
            lemma_rank_from_at_least(m, cols, r, c + 1);
        } else {
            lemma_rank_from_at_least(eliminate(swap_rows(m, r, p), r, c), cols, r + 1, c + 1);
        }
    }
}

proof fn lemma_rank_from_zero_columns(m: Seq<Seq<int>>, cols: int, c: int)
    requires
        0 <= c,
        forall|i: int, j: int| 0 <= i < m.len() && c <= j < cols ==> m[i][j] == 0,
    ensures
        rank_from(m, cols, 0, c) == 0,
    decreases cols - c,
{
    if 0 < m.len() && c < cols {
        lemma_pivot_row_none(m, 0, c);
        lemma_rank_from_zero_columns(m, cols, c + 1);
    }
}

proof fn lemma_rank_from_nonzero_entry(m: Seq<Seq<int>>, cols: int, c: int, i0: int, j0: int)
    requires
        0 <= c <= j0 < cols,
        0 <= i0 < m.len(),
        m[i0][j0] != 0,
    ensures
        rank_from(m, cols, 0, c) >= 1,
    decreases j0 - c,
{
    let p = pivot_row(m, 0, c);
    if p >= m.len() {
        lemma_pivot_row_none_zero(m, 0, c);
        assert(c != j0);
        lemma_rank_from_nonzero_entry(m, cols, c + 1, i0, j0);
    } else {
        lemma_rank_from_at_least(eliminate(swap_rows(m, 0, p), 0, c), cols, 1, c + 1);
    }
}

/// Row reduction finds no pivot exactly when every entry of the matrix is zero.
pub proof fn lemma_rank_zero_iff_zero_matrix(m: Seq<Seq<i32>>)
    requires
        rows_cover(m),
    ensures
        elimination_rank(m) == 0 <==> forall|i: int, j: int|
            0 <= i < m.len() && 0 <= j < col_count(m) ==> #[trigger] m[i][j] == 0,
{
    let cols = col_count(m);
    let mi = int_matrix(m, cols);
    if m.len() == 0 || cols == 0 {
    } else if forall|i: int, j: int| 0 <= i < m.len() && 0 <= j < cols ==> #[trigger] m[i][j] == 0 {
        lemma_rank_from_zero_columns(mi, cols, 0);
    } else {
        let (i0, j0) = choose|i: int, j: int| 0 <= i < m.len() && 0 <= j < cols && #[trigger] m[i][j] != 0;
        lemma_rank_from_nonzero_entry(mi, cols, 0, i0, j0);
    }
}

proof fn lemma_rank_from_diagonal(m: Seq<Seq<int>>, cols: int, r: int)
    requires
        0 <= r,
        forall|i: int| 0 <= i < m.len() ==> #[trigger] m[i].len() == cols,
        forall|i: int, j: int| 0 <= i < m.len() && 0 <= j < cols ==> (#[trigger] m[i][j] != 0 <==> i == j),
    ensures
        rank_from(m, cols, r, r) == if m.len() < cols {
            if r < m.len() { m.len() as int } else { r }
        } else {
            if r < cols { cols } else { r }
        },
    decreases cols - r,
{
    if r < m.len() && r < cols {
        lemma_pivot_row_found(m, r, r, r);
        assert(swap_rows(m, r, r) =~= m);
        assert forall|i: int| 0 <= i < m.len() implies #[trigger] eliminate(m, r, r)[i] == m[i] by {
            if i != r {
                assert(m[i][r] == 0);
            }
        }
        assert(eliminate(m, r, r) =~= m);
        lemma_rank_from_diagonal(m, cols, r + 1);
    }
}

/// A matrix whose nonzero entries are exactly those on its diagonal has full
/// rank: the smaller of its row and column counts.
pub proof fn lemma_rank_of_diagonal(m: Seq<Seq<i32>>)
    requires
        rows_cover(m),
        forall|i: int, j: int|
            0 <= i < m.len() && 0 <= j < col_count(m) ==> (#[trigger] m[i][j] != 0 <==> i == j),
    ensures
        elimination_rank(m) == if m.len() < col_count(m) {
            m.len() as int
        } else {
            col_count(m)
        },
{
    let cols = col_count(m);
    if m.len() > 0 && cols > 0 {
        let mi = int_matrix(m, cols);
        assert forall|i: int, j: int| 0 <= i < mi.len() && 0 <= j < cols implies (#[trigger] mi[i][j] != 0 <==> i == j) by {
            assert(mi[i][j] == m[i][j] as int);
        }
        lemma_rank_from_diagonal(mi, cols, 0);
    }
}

/// Compute the rank of an integer matrix using row reduction: the dimension of its
/// row space over the rationals.
pub fn matrix_rank(matrix: &[Vec<i32>]) -> (rank: usize)
    requires
        rows_cover(rows_view(matrix@)),
        elimination_fits(rows_view(matrix@)),
    ensures
        rank == elimination_rank(rows_view(matrix@)),
        rank <= matrix@.len(),
        rank <= col_count(rows_view(matrix@)),
        has_row_rank(rows_view(matrix@), rank as int),
{
    let ghost mv = rows_view(matrix@);
    proof {
        lemma_rank_is_row_space_dimension(mv);
    }
    if matrix.len() == 0 || matrix[0].len() == 0 {
        return 0;
    }
    let rows = matrix.len();
    let cols = matrix[0].len();
    assert(mv[0].len() == cols);
    let mut m: Vec<Vec<i32>> = Vec::new();
    for i in 0..rows
        invariant
            rows == matrix@.len(),
            cols == col_count(mv),
            mv == rows_view(matrix@),
            rows_cover(mv),
            m.len() == i,
            forall|q: int| 0 <= q < i ==> (#[trigger] m@[q]@).len() == cols,
            forall|q: int, j: int| 0 <= q < i && 0 <= j < cols ==> #[trigger] m@[q]@[j] == mv[q][j],
    {
        assert(mv[i as int] == matrix@[i as int]@);
        assert(mv[i as int].len() >= cols);
        let mut row: Vec<i32> = Vec::new();
        for j in 0..cols
            invariant
                row.len() == j,
                j <= cols,
                i < rows,
                rows == matrix@.len(),
                mv == rows_view(matrix@),
                matrix@[i as int]@.len() >= cols,
                forall|jj: int| 0 <= jj < j ==> row@[jj] == mv[i as int][jj],
        {
            row.push(matrix[i][j]);
        }
        m.push(row);
    }
    let ghost m0 = int_matrix(mv, cols as int);
    assert(int_rows(m@) =~= m0) by {
        assert forall|q: int| 0 <= q < rows implies int_rows(m@)[q] =~= m0[q] by {
            assert(m@[q]@.len() == cols);
        }
    }
    let mut rank: usize = 0;
    let mut pivot_col: usize = 0;
    while rank < rows && pivot_col < cols
        invariant
            m.len() == rows,
            forall|q: int| 0 <= q < rows ==> (#[trigger] m@[q]@).len() == cols,
            rank <= rows,
            rank <= pivot_col <= cols,
            rank_from(int_rows(m@), cols as int, rank as int, pivot_col as int) == rank_from(m0, cols as int, 0, 0),
            fits_from(int_rows(m@), cols as int, rank as int, pivot_col as int),
        decreases cols - pivot_col,
    {
        let ghost cur = int_rows(m@);
        let mut p = rank;
        while p < rows && m[p][pivot_col] == 0
            invariant
                m.len() == rows,
                cur == int_rows(m@),
                forall|q: int| 0 <= q < rows ==> (#[trigger] m@[q]@).len() == cols,
                pivot_col < cols,
                rank <= p <= rows,
                forall|q: int| rank <= q < p ==> cur[q][pivot_col as int] == 0,
            decreases rows - p,
        {
            p = p + 1;
        }
        if p == rows {
            proof {
                lemma_pivot_row_none(cur, rank as int, pivot_col as int);
            }
            pivot_col = pivot_col + 1;
        } else {
            proof {
                lemma_pivot_row_found(cur, rank as int, pivot_col as int, p as int);
            }
            if p != rank {
                let row_r = m[rank].clone();
                let row_p = m[p].clone();
                assert(row_r@ =~= m@[rank as int]@);
                assert(row_p@ =~= m@[p as int]@);
                m.set(rank, row_p);
                m.set(p, row_r);
            }
            let ghost s = swap_rows(cur, rank as int, p as int);
            assert(int_rows(m@) =~= s);
            let pivot_val = m[rank][pivot_col];
            for i in 0..rows
                invariant
                    m.len() == rows,
                    rank < rows,
                    pivot_col < cols,
                    forall|q: int| 0 <= q < rows ==> (#[trigger] m@[q]@).len() == cols,
                    s.len() == rows,
                    forall|q: int| 0 <= q < rows ==> (#[trigger] s[q]).len() == cols,
                    step_fits(s, rank as int, pivot_col as int, cols as int),
                    pivot_val == s[rank as int][pivot_col as int],
                    forall|q: int| 0 <= q < rows ==> #[trigger] int_rows(m@)[q] == if q < i {
                        eliminate(s, rank as int, pivot_col as int)[q]
                    } else {
                        s[q]
                    },
            {
                assert(int_rows(m@)[i as int] == s[i as int]);
                assert(int_rows(m@)[rank as int] == s[rank as int]);
                if i != rank && m[i][pivot_col] != 0 {
                    let factor = m[i][pivot_col];
                    let mut new_row: Vec<i32> = Vec::new();
                    for j in 0..cols
                        invariant
                            m.len() == rows,
                            i < rows,
                            i != rank,
                            rank < rows,
                            pivot_col < cols,
                            forall|q: int| 0 <= q < rows ==> (#[trigger] m@[q]@).len() == cols,
                            s.len() == rows,
                            forall|q: int| 0 <= q < rows ==> (#[trigger] s[q]).len() == cols,
                            step_fits(s, rank as int, pivot_col as int, cols as int),
                            pivot_val == s[rank as int][pivot_col as int],
                            factor == s[i as int][pivot_col as int],
                            factor != 0,
                            int_rows(m@)[i as int] == s[i as int],
                            int_rows(m@)[rank as int] == s[rank as int],
                            new_row.len() == j,
                            forall|jj: int| 0 <= jj < j ==> new_row@[jj] == s[i as int][jj] * pivot_val
                                - factor * s[rank as int][jj],
                    {
                        assert(m@[i as int]@[j as int] == s[i as int][j as int]);
                        assert(m@[rank as int]@[j as int] == s[rank as int][j as int]);
                        assert(in_i32(s[i as int][j as int] * s[rank as int][pivot_col as int]));
                        let v = m[i][j] * pivot_val - factor * m[rank][j];
                        new_row.push(v);
                    }
                    let ghost before = int_rows(m@);
                    m.set(i, new_row);
                    proof {
                        assert forall|q: int| 0 <= q < rows implies #[trigger] int_rows(m@)[q] == if q < i + 1 {
                            eliminate(s, rank as int, pivot_col as int)[q]
                        } else {
                            s[q]
                        } by {
                            if q == i {
                                assert(int_rows(m@)[q] =~= eliminate(s, rank as int, pivot_col as int)[q]);
                            } else {
                                assert(int_rows(m@)[q] == before[q]);
                            }
                        }
                    }
                } else {
                    proof {
                        assert forall|q: int| 0 <= q < rows implies #[trigger] int_rows(m@)[q] == if q < i + 1 {
                            eliminate(s, rank as int, pivot_col as int)[q]
                        } else {
                            s[q]
                        } by {
                            if q == i {
                                assert(eliminate(s, rank as int, pivot_col as int)[q] == s[q]);
                            }
                        }
                    }
                }
            }
            assert(int_rows(m@) =~= eliminate(s, rank as int, pivot_col as int));
            rank = rank + 1;
            pivot_col = pivot_col + 1;
        }
    }
    rank
}

} // verus!
