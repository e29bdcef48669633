//! What row reduction says of the null space and the image of a matrix: the null
//! space has the number of columns less the rank as dimension, the image has the rank.
use vstd::prelude::*;

use crate::rank::{col_count, elimination_rank, eliminate, int_matrix, pivot_row, rank_from, swap_rows};
use crate::row_space::{
    comb, combines, echelon, in_rational_span, independent, lemma_range_sum_single, lemma_range_sum_zero,
    is_combination, lemma_reduced_combines, lemma_reduced_echelon, pivot_at, pivot_cols, reduced, zero_combination,
};
use crate::sums::{lemma_range_sum_add, lemma_range_sum_ext, lemma_range_sum_scale, lemma_range_sum_swap, range_sum};

verus! {

/// The columns without a pivot, after those in `fs`, in the order row reduction meets them.
pub open spec fn free_cols(m: Seq<Seq<int>>, cols: int, r: int, c: int, fs: Seq<int>) -> Seq<int>
    decreases cols - c,
{
    if r < 0 || c < 0 || c >= cols {
        fs
    } else if r >= m.len() {
        free_cols(m, cols, r, c + 1, fs.push(c))
    } else {
        let p = pivot_row(m, r, c);
        if p >= m.len() {
            free_cols(m, cols, r, c + 1, fs.push(c))
        } else {
            free_cols(eliminate(swap_rows(m, r, p), r, c), cols, r + 1, c + 1, fs)
        }
    }
}

/// The values of `s` are increasing and lie in `0..c`.
pub open spec fn increasing_below(s: Seq<int>, c: int) -> bool {
    &&& forall|l: int| 0 <= l < s.len() ==> 0 <= #[trigger] s[l] < c
    &&& forall|a: int, b: int| 0 <= a < b < s.len() ==> #[trigger] s[a] < #[trigger] s[b]
}

/// `pcs` and `fs` split the columns `0..c` between them.
pub open spec fn splits(pcs: Seq<int>, fs: Seq<int>, c: int) -> bool {
    &&& increasing_below(pcs, c)
    &&& increasing_below(fs, c)
    &&& pcs.len() + fs.len() == c
    &&& forall|a: int, b: int| 0 <= a < pcs.len() && 0 <= b < fs.len() ==> #[trigger] pcs[a] != #[trigger] fs[b]
    &&& forall|j: int| 0 <= j < c ==> pcs.contains(j) || fs.contains(j)
}

proof fn lemma_splits_push(pcs: Seq<int>, fs: Seq<int>, c: int, to_pivots: bool)
    requires
        splits(pcs, fs, c),
    ensures
        to_pivots ==> splits(pcs.push(c), fs, c + 1),
        !to_pivots ==> splits(pcs, fs.push(c), c + 1),
{
    if to_pivots {
        let p2 = pcs.push(c);
        assert forall|j: int| 0 <= j < c + 1 implies p2.contains(j) || fs.contains(j) by {
            if j == c {
                assert(p2[pcs.len() as int] == c);
            } else if pcs.contains(j) {
                let a = choose|a: int| 0 <= a < pcs.len() && pcs[a] == j;
                assert(p2[a] == j);
            }
        }
    } else {
        let f2 = fs.push(c);
        assert forall|j: int| 0 <= j < c + 1 implies pcs.contains(j) || f2.contains(j) by {
            if j == c {
                assert(f2[fs.len() as int] == c);
            } else if fs.contains(j) {
                let a = choose|a: int| 0 <= a < fs.len() && fs[a] == j;
                assert(f2[a] == j);
            }
        }
    }
}

/// Row reduction splits the columns into pivot columns and free columns.
pub proof fn lemma_columns_split(m: Seq<Seq<int>>, cols: int, r: int, c: int, pcs: Seq<int>, fs: Seq<int>)
    requires
        0 <= r,
        0 <= c <= cols,
        splits(pcs, fs, c),
    ensures
        splits(pivot_cols(m, cols, r, c, pcs), free_cols(m, cols, r, c, fs), cols),
    decreases cols - c,
{
    if c >= cols {
    } else if r >= m.len() {
        lemma_splits_push(pcs, fs, c, false);
        lemma_columns_split(m, cols, r, c + 1, pcs, fs.push(c));
    } else {
        let p = pivot_row(m, r, c);
        if p >= m.len() {
            lemma_splits_push(pcs, fs, c, false);
            lemma_columns_split(m, cols, r, c + 1, pcs, fs.push(c));
        } else {
            lemma_splits_push(pcs, fs, c, true);
            lemma_columns_split(eliminate(swap_rows(m, r, p), r, c), cols, r + 1, c + 1, pcs.push(c), fs);
        }
    }
}

proof fn lemma_splits_drop(pcs: Seq<int>, fs: Seq<int>, c: int)
    requires
        c > 0,
        splits(pcs, fs, c),
    ensures
        pcs.len() > 0 && pcs.last() == c - 1 && splits(pcs.drop_last(), fs, c - 1) || fs.len() > 0 && fs.last()
            == c - 1 && splits(pcs, fs.drop_last(), c - 1),
{
    if pcs.contains(c - 1) {
        let a = choose|a: int| 0 <= a < pcs.len() && pcs[a] == c - 1;
        if a < pcs.len() - 1 {
            assert(pcs[a] < pcs[pcs.len() - 1]);
        }
        let p2 = pcs.drop_last();
        assert forall|l: int| 0 <= l < p2.len() implies 0 <= #[trigger] p2[l] < c - 1 by {
            assert(pcs[l] < pcs[a]);
        }
        assert forall|j: int| 0 <= j < c - 1 implies p2.contains(j) || fs.contains(j) by {
            if pcs.contains(j) {
                let b = choose|b: int| 0 <= b < pcs.len() && pcs[b] == j;
                assert(p2[b] == j);
            }
        }
        assert forall|l: int| 0 <= l < fs.len() implies 0 <= #[trigger] fs[l] < c - 1 by {
            assert(pcs[a] != fs[l]);
        }
    } else {
        assert(fs.contains(c - 1));
        let a = choose|a: int| 0 <= a < fs.len() && fs[a] == c - 1;
        if a < fs.len() - 1 {
            assert(fs[a] < fs[fs.len() - 1]);
        }
        let f2 = fs.drop_last();
        assert forall|l: int| 0 <= l < f2.len() implies 0 <= #[trigger] f2[l] < c - 1 by {
            assert(fs[l] < fs[a]);
        }
        assert forall|j: int| 0 <= j < c - 1 implies pcs.contains(j) || f2.contains(j) by {
            if fs.contains(j) {
                let b = choose|b: int| 0 <= b < fs.len() && fs[b] == j;
                assert(f2[b] == j);
            }
        }
        assert forall|l: int| 0 <= l < pcs.len() implies 0 <= #[trigger] pcs[l] < c - 1 by {
            assert(pcs[l] != fs[a]);
        }
    }
}

/// A sum over the columns is the sum over the pivot columns plus the sum over the free ones.
pub proof fn lemma_split_sum(pcs: Seq<int>, fs: Seq<int>, c: int, g: spec_fn(int) -> int)
    requires
        0 <= c,
        splits(pcs, fs, c),
    ensures
        range_sum(g, c as nat) == range_sum(|l: int| g(pcs[l]), pcs.len()) + range_sum(
            |q: int| g(fs[q]),
            fs.len(),
        ),
    decreases c,
{
    if c == 0 {
    } else {
        lemma_splits_drop(pcs, fs, c);
        if pcs.len() > 0 && pcs.last() == c - 1 && splits(pcs.drop_last(), fs, c - 1) {
            let p2 = pcs.drop_last();
            lemma_split_sum(p2, fs, c - 1, g);
            lemma_range_sum_ext(|l: int| g(p2[l]), |l: int| g(pcs[l]), p2.len());
        } else {
            let f2 = fs.drop_last();
            lemma_split_sum(pcs, f2, c - 1, g);
            lemma_range_sum_ext(|q: int| g(f2[q]), |q: int| g(fs[q]), f2.len());
        }
    }
}

/// The product of the pivots of the first `k` rows, leaving out that of row `skip`.
pub open spec fn pivot_product(f: Seq<Seq<int>>, pcs: Seq<int>, k: int, skip: int) -> int
    decreases k,
{
    if k <= 0 {
        1
    } else {
        pivot_product(f, pcs, k - 1, skip) * (if k - 1 == skip {
            1
        } else {
            f[k - 1][pcs[k - 1]]
        })
    }
}

proof fn lemma_pivot_product_no_skip(f: Seq<Seq<int>>, pcs: Seq<int>, k: int, skip: int)
    requires
        skip < 0 || skip >= k,
    ensures
        pivot_product(f, pcs, k, skip) == pivot_product(f, pcs, k, -1),
    decreases k,
{
    if k > 0 {
        lemma_pivot_product_no_skip(f, pcs, k - 1, skip);
    }
}

/// The product of all pivots is nonzero, and is the pivot of row `i` times the others.
proof fn lemma_pivot_product(f: Seq<Seq<int>>, pcs: Seq<int>, k: int, i: int)
    requires
        0 <= i < k,
        forall|l: int| 0 <= l < k ==> #[trigger] f[l][pcs[l]] != 0,
    ensures
        pivot_product(f, pcs, k, -1) == f[i][pcs[i]] * pivot_product(f, pcs, k, i),
        pivot_product(f, pcs, k, -1) != 0,
    decreases k,
{
    let a = f[i][pcs[i]];
    if k - 1 == i {
        lemma_pivot_product_no_skip(f, pcs, k - 1, i);
        if k - 1 > 0 {
            lemma_pivot_product(f, pcs, k - 1, 0);
        }
        let p = pivot_product(f, pcs, k - 1, -1);
        assert(p != 0);
        assert(p * a == a * (p * 1)) by (nonlinear_arith);
        assert(p * a != 0) by (nonlinear_arith)
            requires
                p != 0,
                a != 0,
        ;
    } else {
        lemma_pivot_product(f, pcs, k - 1, i);
        let b = f[k - 1][pcs[k - 1]];
        let p = pivot_product(f, pcs, k - 1, -1);
        let q = pivot_product(f, pcs, k - 1, i);
        assert(b != 0);
        assert(p * b == a * (q * b)) by (nonlinear_arith)
            requires
                p == a * q,
        ;
        assert(p * b != 0) by (nonlinear_arith)
            requires
                p != 0,
                b != 0,
        ;
    }
}

/// Entry `i` of the product of a matrix with the vector `x`: the row times `x`.
pub open spec fn dot(row: Seq<int>, x: Seq<int>, cols: int) -> int {
    range_sum(|j: int| row[j] * x[j], cols as nat)
}

/// `x` is in the null space of `m`: `m x = 0`.
pub open spec fn in_null_space(x: Seq<int>, m: Seq<Seq<int>>, cols: int) -> bool {
    x.len() == cols && forall|i: int| 0 <= i < m.len() ==> #[trigger] dot(m[i], x, cols) == 0
}

/// `kb` is a basis of the null space of `m` over the rationals: its vectors lie in
/// it, are independent, and span every vector of it.
pub open spec fn is_null_space_basis(kb: Seq<Seq<int>>, m: Seq<Seq<int>>, cols: int) -> bool {
    &&& forall|q: int| 0 <= q < kb.len() ==> #[trigger] in_null_space(kb[q], m, cols)
    &&& independent(kb, cols)
    &&& forall|x: Seq<int>| #[trigger] in_null_space(x, m, cols) ==> in_rational_span(x, kb, cols)
}

/// `d` is the dimension of the null space, over the rationals, of `m` taken as a
/// map from vectors of length `cols`.
pub open spec fn has_nullity(m: Seq<Seq<i32>>, cols: int, d: int) -> bool {
    exists|kb: Seq<Seq<int>>| kb.len() == d && #[trigger] is_null_space_basis(kb, int_matrix(m, cols), cols)
}

/// Where each row of `a`, times `mu`, combines rows of `b`, a vector that `b` sends to
/// zero is sent to zero by `mu` times each row of `a`.
proof fn lemma_combines_null(
    a: Seq<Seq<int>>,
    b: Seq<Seq<int>>,
    l: Seq<Seq<int>>,
    mu: int,
    cols: int,
    x: Seq<int>,
)
    requires
        0 <= cols,
        combines(a, b, l, mu, cols),
        forall|q: int| 0 <= q < b.len() ==> #[trigger] dot(b[q], x, cols) == 0,
    ensures
        forall|i: int| 0 <= i < a.len() ==> mu * #[trigger] dot(a[i], x, cols) == 0,
{
    let nb = b.len();
    assert forall|i: int| 0 <= i < a.len() implies mu * #[trigger] dot(a[i], x, cols) == 0 by {
        let t1 = |j: int| a[i][j] * x[j];
        let t2 = |j: int| comb(l[i], b, j) * x[j];
        assert forall|j: int| 0 <= j < cols implies #[trigger] t2(j) == t1(j) * mu by {
            assert(mu * a[i][j] == comb(l[i], b, j));
            assert((mu * a[i][j]) * x[j] == (a[i][j] * x[j]) * mu) by (nonlinear_arith);
        }
        lemma_range_sum_scale(t2, t1, mu, cols as nat);
        assert(t1 =~= (|j: int| a[i][j] * x[j]));
        let ff = |q: int, j: int| l[i][q] * b[q][j] * x[j];
        assert forall|j: int| 0 <= j < cols implies #[trigger] t2(j) == range_sum(|q: int| ff(q, j), nb) by {
            let g = |q: int| l[i][q] * b[q][j];
            lemma_range_sum_scale(|q: int| ff(q, j), g, x[j], nb);
            assert(g =~= (|q: int| l[i][q] * b[q][j]));
        }
        lemma_range_sum_ext(t2, |j: int| range_sum(|q: int| ff(q, j), nb), cols as nat);
        lemma_range_sum_swap(ff, cols as nat, nb);
        let outer = |q: int| range_sum(|j: int| ff(q, j), cols as nat);
        assert forall|q: int| 0 <= q < nb implies #[trigger] outer(q) == 0 by {
            let h = |j: int| b[q][j] * x[j];
            assert forall|j: int| 0 <= j < cols implies #[trigger] ff(q, j) == h(j) * l[i][q] by {
                assert(l[i][q] * b[q][j] * x[j] == (b[q][j] * x[j]) * l[i][q]) by (nonlinear_arith);
            }
            lemma_range_sum_scale(|j: int| ff(q, j), h, l[i][q], cols as nat);
            assert(h =~= (|j: int| b[q][j] * x[j]));
            assert(dot(b[q], x, cols) == 0);
        }
        lemma_range_sum_zero(outer, nb);
        assert(mu * range_sum(t1, cols as nat) == range_sum(t1, cols as nat) * mu) by (nonlinear_arith);
    }
}

/// The pivot part of null vector for the free column `fc`, at column `j`: what the
/// row with its pivot at `j` needs there.
pub open spec fn pivot_term(f: Seq<Seq<int>>, pcs: Seq<int>, rk: int, fc: int, j: int) -> int {
    range_sum(pivot_term_parts(f, pcs, rk, fc, j), rk as nat)
}

/// The summands of `pivot_term`, one for each pivot row.
pub open spec fn pivot_term_parts(f: Seq<Seq<int>>, pcs: Seq<int>, rk: int, fc: int, j: int) -> spec_fn(int) -> int {
    |l: int| if pcs[l] == j { f[l][fc] * pivot_product(f, pcs, rk, l) } else { 0 }
}

/// The null vector of the reduced matrix for the free column `fs[q]`: the product of
/// the pivots there, and in each pivot column what cancels it.
pub open spec fn null_vector(f: Seq<Seq<int>>, pcs: Seq<int>, fs: Seq<int>, rk: int, cols: int, q: int) -> Seq<int> {
    Seq::new(
        cols as nat,
        |j: int|
            (if j == fs[q] {
                pivot_product(f, pcs, rk, -1)
            } else {
                0
            }) - pivot_term(f, pcs, rk, fs[q], j),
    )
}

proof fn lemma_pivot_term_zero(f: Seq<Seq<int>>, pcs: Seq<int>, rk: int, fc: int, j: int)
    requires
        0 <= rk <= pcs.len(),
        forall|l: int| 0 <= l < rk ==> #[trigger] pcs[l] != j,
    ensures
        pivot_term(f, pcs, rk, fc, j) == 0,
{
    let t = pivot_term_parts(f, pcs, rk, fc, j);
    assert forall|l: int| 0 <= l < rk implies #[trigger] t(l) == 0 by {}
    lemma_range_sum_zero(t, rk as nat);
}

proof fn lemma_pivot_term_at(f: Seq<Seq<int>>, pcs: Seq<int>, rk: int, fc: int, i: int)
    requires
        0 <= i < rk == pcs.len(),
        forall|a: int, b: int| 0 <= a < b < pcs.len() ==> #[trigger] pcs[a] < #[trigger] pcs[b],
    ensures
        pivot_term(f, pcs, rk, fc, pcs[i]) == f[i][fc] * pivot_product(f, pcs, rk, i),
{
    let j = pcs[i];
    let t = pivot_term_parts(f, pcs, rk, fc, j);
    assert forall|l: int| 0 <= l < rk && l != i implies #[trigger] t(l) == 0 by {
        if l < i {
            assert(pcs[l] < pcs[i]);
        } else {
            assert(pcs[i] < pcs[l]);
        }
    }
    lemma_range_sum_single(t, rk as nat, i);
}

/// What row reduction leaves: `f` in echelon form with pivot columns `pcs` and free
/// columns `fs`.
pub open spec fn reduced_shape(f: Seq<Seq<int>>, pcs: Seq<int>, fs: Seq<int>, rk: int, cols: int) -> bool {
    &&& 0 <= rk <= f.len()
    &&& forall|i: int| 0 <= i < f.len() ==> #[trigger] f[i].len() == cols
    &&& echelon(f, pcs, rk, cols)
    &&& splits(pcs, fs, cols)
}

proof fn lemma_pivots_nonzero(f: Seq<Seq<int>>, pcs: Seq<int>, fs: Seq<int>, rk: int, cols: int)
    requires
        reduced_shape(f, pcs, fs, rk, cols),
    ensures
        forall|l: int| 0 <= l < rk ==> #[trigger] f[l][pcs[l]] != 0,
        pivot_product(f, pcs, rk, -1) != 0,
{
    assert forall|l: int| 0 <= l < rk implies #[trigger] f[l][pcs[l]] != 0 by {
        assert(pivot_at(f, l, pcs[l]));
    }
    if rk > 0 {
        lemma_pivot_product(f, pcs, rk, 0);
    }
}

proof fn lemma_null_vector_entries(f: Seq<Seq<int>>, pcs: Seq<int>, fs: Seq<int>, rk: int, cols: int, q: int)
    requires
        reduced_shape(f, pcs, fs, rk, cols),
        0 <= q < fs.len(),
    ensures
        null_vector(f, pcs, fs, rk, cols, q).len() == cols,
        null_vector(f, pcs, fs, rk, cols, q)[fs[q]] == pivot_product(f, pcs, rk, -1),
        forall|b: int|
            0 <= b < fs.len() && b != q ==> #[trigger] null_vector(f, pcs, fs, rk, cols, q)[fs[b]] == 0,
        forall|i: int|
            0 <= i < rk ==> #[trigger] null_vector(f, pcs, fs, rk, cols, q)[pcs[i]] == -(f[i][fs[q]]
                * pivot_product(f, pcs, rk, i)),
{
    let v = null_vector(f, pcs, fs, rk, cols, q);
    assert forall|l: int| 0 <= l < rk implies #[trigger] pcs[l] != fs[q] by {}
    lemma_pivot_term_zero(f, pcs, rk, fs[q], fs[q]);
    assert forall|b: int| 0 <= b < fs.len() && b != q implies #[trigger] v[fs[b]] == 0 by {
        assert forall|l: int| 0 <= l < rk implies #[trigger] pcs[l] != fs[b] by {}
        lemma_pivot_term_zero(f, pcs, rk, fs[q], fs[b]);
        if b < q {
            assert(fs[b] < fs[q]);
        } else {
            assert(fs[q] < fs[b]);
        }
    }
    assert forall|i: int| 0 <= i < rk implies #[trigger] v[pcs[i]] == -(f[i][fs[q]] * pivot_product(f, pcs, rk, i)) by {
        lemma_pivot_term_at(f, pcs, rk, fs[q], i);
        assert(pcs[i] != fs[q]);
    }
}

/// Each null vector is sent to zero by the reduced matrix.
proof fn lemma_null_vector_kernel(f: Seq<Seq<int>>, pcs: Seq<int>, fs: Seq<int>, rk: int, cols: int, q: int)
    requires
        reduced_shape(f, pcs, fs, rk, cols),
        0 <= q < fs.len(),
    ensures
        forall|i: int| 0 <= i < f.len() ==> #[trigger] dot(f[i], null_vector(f, pcs, fs, rk, cols, q), cols) == 0,
{
    let v = null_vector(f, pcs, fs, rk, cols, q);
    let pp = pivot_product(f, pcs, rk, -1);
    let fc = fs[q];
    lemma_null_vector_entries(f, pcs, fs, rk, cols, q);
    lemma_pivots_nonzero(f, pcs, fs, rk, cols);
    assert forall|i: int| 0 <= i < f.len() implies #[trigger] dot(f[i], v, cols) == 0 by {
        let t = |j: int| f[i][j] * v[j];
        if i >= rk {
            assert forall|j: int| 0 <= j < cols implies #[trigger] t(j) == 0 by {
                assert(f[i][j] == 0);
            }
            lemma_range_sum_zero(t, cols as nat);
        } else {
            let pc = pcs[i];
            let ta = |j: int| if j == fc { f[i][fc] * pp } else { 0 };
            let tb = |j: int| if j == pc { f[i][pc] * v[pc] } else { 0 };
            assert(pc != fc);
            assert(v[fc] == pp);
            assert forall|j: int| 0 <= j < cols implies #[trigger] t(j) == ta(j) + tb(j) by {
                if j == fc {
                    assert(t(j) == f[i][fc] * pp);
                    assert(tb(j) == 0);
                    assert(ta(j) == f[i][fc] * pp);
                } else if j == pc {
                    assert(t(j) == f[i][pc] * v[pc]);
                    assert(ta(j) == 0);
                    assert(tb(j) == f[i][pc] * v[pc]);
                } else {
                    assert(ta(j) == 0);
                    assert(tb(j) == 0);
                    if pcs.contains(j) {
                        let l = choose|l: int| 0 <= l < pcs.len() && pcs[l] == j;
                        assert(l != i);
                        assert(pivot_at(f, l, pcs[l]));
                        assert(f[i][pcs[l]] == 0);
                        assert(f[i][j] == 0);
                        assert(t(j) == 0);
                    } else {
                        assert forall|l: int| 0 <= l < rk implies #[trigger] pcs[l] != j by {}
                        lemma_pivot_term_zero(f, pcs, rk, fc, j);
                        let x = f[i][j];
                        let z = v[j];
                        assert(z == 0);
                        assert(x * z == 0) by (nonlinear_arith)
                            requires
                                z == 0,
                        ;
                        assert(t(j) == 0);
                    }
                }
            }
            lemma_range_sum_add(t, ta, tb, cols as nat);
            lemma_range_sum_single(ta, cols as nat, fc);
            lemma_range_sum_single(tb, cols as nat, pc);
            lemma_pivot_product(f, pcs, rk, i);
            let a = f[i][fc];
            let b = f[i][pc];
            let e = pivot_product(f, pcs, rk, i);
            assert(a * pp + b * (-(a * e)) == 0) by (nonlinear_arith)
                requires
                    pp == b * e,
            ;
        }
    }
}

/// The null vectors, one for each free column.
pub open spec fn null_basis(f: Seq<Seq<int>>, pcs: Seq<int>, fs: Seq<int>, rk: int, cols: int) -> Seq<Seq<int>> {
    Seq::new(fs.len(), |q: int| null_vector(f, pcs, fs, rk, cols, q))
}

/// The entries of `x` in the free columns.
pub open spec fn free_values(x: Seq<int>, fs: Seq<int>) -> Seq<int> {
    Seq::new(fs.len(), |q: int| x[fs[q]])
}

proof fn lemma_null_basis_independent(f: Seq<Seq<int>>, pcs: Seq<int>, fs: Seq<int>, rk: int, cols: int)
    requires
        reduced_shape(f, pcs, fs, rk, cols),
    ensures
        independent(null_basis(f, pcs, fs, rk, cols), cols),
{
    let kb = null_basis(f, pcs, fs, rk, cols);
    let pp = pivot_product(f, pcs, rk, -1);
    lemma_pivots_nonzero(f, pcs, fs, rk, cols);
    assert forall|lam: Seq<int>| #[trigger] zero_combination(lam, kb, cols) implies forall|i: int|
        0 <= i < kb.len() ==> lam[i] == 0 by {
        assert forall|i: int| 0 <= i < kb.len() implies lam[i] == 0 by {
            let t = |q: int| lam[q] * kb[q][fs[i]];
            assert forall|q: int| 0 <= q < kb.len() && q != i implies #[trigger] t(q) == 0 by {
                lemma_null_vector_entries(f, pcs, fs, rk, cols, q);
            }
            lemma_null_vector_entries(f, pcs, fs, rk, cols, i);
            lemma_range_sum_single(t, kb.len(), i);
            assert(t =~= (|q: int| lam[q] * kb[q][fs[i]]));
            assert(comb(lam, kb, fs[i]) == 0);
            let a = lam[i];
            assert(a == 0) by (nonlinear_arith)
                requires
                    a * pp == 0,
                    pp != 0,
            ;
        }
    }
}

/// The product of the pivots times a null vector of the reduced matrix is the
/// combination of the null vectors with its free entries.
proof fn lemma_null_basis_spans(f: Seq<Seq<int>>, pcs: Seq<int>, fs: Seq<int>, rk: int, cols: int, x: Seq<int>)
    requires
        reduced_shape(f, pcs, fs, rk, cols),
        x.len() == cols,
        forall|i: int| 0 <= i < f.len() ==> #[trigger] dot(f[i], x, cols) == 0,
    ensures
        is_combination(x, free_values(x, fs), null_basis(f, pcs, fs, rk, cols), pivot_product(f, pcs, rk, -1), cols),
{
    let kb = null_basis(f, pcs, fs, rk, cols);
    let lam = free_values(x, fs);
    let pp = pivot_product(f, pcs, rk, -1);
    lemma_pivots_nonzero(f, pcs, fs, rk, cols);
    assert forall|j: int| 0 <= j < cols implies pp * x[j] == #[trigger] comb(lam, kb, j) by {
        let t = |q: int| lam[q] * kb[q][j];
        assert(t =~= (|q: int| lam[q] * kb[q][j]));
        if fs.contains(j) {
            let q0 = choose|q0: int| 0 <= q0 < fs.len() && fs[q0] == j;
            assert forall|q: int| 0 <= q < kb.len() && q != q0 implies #[trigger] t(q) == 0 by {
                lemma_null_vector_entries(f, pcs, fs, rk, cols, q);
            }
            lemma_null_vector_entries(f, pcs, fs, rk, cols, q0);
            lemma_range_sum_single(t, kb.len(), q0);
            assert(pp * x[j] == x[j] * pp) by (nonlinear_arith);
        } else {
            assert(pcs.contains(j));
            let i = choose|i: int| 0 <= i < pcs.len() && pcs[i] == j;
            let e = pivot_product(f, pcs, rk, i);
            lemma_pivot_product(f, pcs, rk, i);
            let g = |c: int| f[i][c] * x[c];
            assert(g =~= (|c: int| f[i][c] * x[c]));
            assert(dot(f[i], x, cols) == 0);
            lemma_split_sum(pcs, fs, cols, g);
            let gp = |l: int| g(pcs[l]);
            assert forall|l: int| 0 <= l < pcs.len() && l != i implies #[trigger] gp(l) == 0 by {
                assert(pivot_at(f, l, pcs[l]));
                assert(f[i][pcs[l]] == 0);
            }
            lemma_range_sum_single(gp, pcs.len(), i);
            let gf = |q: int| g(fs[q]);
            // range_sum(gf) == -(f[i][j] * x[j])
            assert forall|q: int| 0 <= q < kb.len() implies #[trigger] t(q) == gf(q) * (-e) by {
                lemma_null_vector_entries(f, pcs, fs, rk, cols, q);
                assert(kb[q][j] == -(f[i][fs[q]] * e));
                let xa = x[fs[q]];
                let fa = f[i][fs[q]];
                assert(xa * (-(fa * e)) == (fa * xa) * (-e)) by (nonlinear_arith);
            }
            lemma_range_sum_scale(t, gf, -e, kb.len());
            let s = range_sum(gf, fs.len());
            let b = f[i][j];
            assert(s * (-e) == pp * x[j]) by (nonlinear_arith)
                requires
                    s == -(b * x[j]),
                    pp == b * e,
            ;
        }
    }
}

/// The null space of a matrix with `cols` columns has dimension `cols` less the rank
/// that row reduction computes: the vectors built from the free columns of the reduced
/// matrix are a basis of it.
pub proof fn lemma_null_space_dimension(m: Seq<Seq<i32>>, cols: int)
    requires
        0 <= cols,
        m.len() > 0 ==> col_count(m) == cols,
    ensures
        elimination_rank(m) <= cols,
        has_nullity(m, cols, cols - elimination_rank(m)),
{
    let mi = int_matrix(m, cols);
    assert forall|i: int| 0 <= i < mi.len() implies #[trigger] mi[i].len() == cols by {}
    assert(echelon(mi, Seq::<int>::empty(), 0, 0));
    lemma_reduced_echelon(mi, cols, 0, 0, Seq::<int>::empty());
    lemma_reduced_combines(mi, cols, 0, 0);
    lemma_columns_split(mi, cols, 0, 0, Seq::<int>::empty(), Seq::<int>::empty());
    let f = reduced(mi, cols, 0, 0);
    let pcs = pivot_cols(mi, cols, 0, 0, Seq::<int>::empty());
    let fs = free_cols(mi, cols, 0, 0, Seq::<int>::empty());
    let rk = rank_from(mi, cols, 0, 0);
    assert(elimination_rank(m) == rk);
    assert(reduced_shape(f, pcs, fs, rk, cols));
    let kb = null_basis(f, pcs, fs, rk, cols);
    let lf = choose|l: Seq<Seq<int>>| l.len() == mi.len() && #[trigger] combines(f, mi, l, 1, cols);
    let (lb, mu) = choose|l: Seq<Seq<int>>, mu: int|
        mu != 0 && l.len() == mi.len() && #[trigger] combines(mi, f, l, mu, cols);
    assert forall|q: int| 0 <= q < kb.len() implies #[trigger] in_null_space(kb[q], mi, cols) by {
        let v = kb[q];
        lemma_null_vector_entries(f, pcs, fs, rk, cols, q);
        lemma_null_vector_kernel(f, pcs, fs, rk, cols, q);
        lemma_combines_null(mi, f, lb, mu, cols, v);
        assert forall|i: int| 0 <= i < mi.len() implies #[trigger] dot(mi[i], v, cols) == 0 by {
            let d = dot(mi[i], v, cols);
            assert(d == 0) by (nonlinear_arith)
                requires
                    mu * d == 0,
                    mu != 0,
            ;
        }
    }
    lemma_null_basis_independent(f, pcs, fs, rk, cols);
    assert forall|x: Seq<int>| #[trigger] in_null_space(x, mi, cols) implies in_rational_span(x, kb, cols) by {
        lemma_combines_null(f, mi, lf, 1, cols, x);
        lemma_null_basis_spans(f, pcs, fs, rk, cols, x);
        lemma_pivots_nonzero(f, pcs, fs, rk, cols);
    }
    assert(is_null_space_basis(kb, mi, cols));
}

/// The matrix `m` applied to the vector `y`.
pub open spec fn apply_matrix(m: Seq<Seq<int>>, y: Seq<int>, cols: int) -> Seq<int> {
    Seq::new(m.len(), |i: int| dot(m[i], y, cols))
}

/// `v` is in the image of `m`: `m y = v` for some `y` of length `cols`.
pub open spec fn in_image(v: Seq<int>, m: Seq<Seq<int>>, cols: int) -> bool {
    exists|y: Seq<int>| y.len() == cols && #[trigger] apply_matrix(m, y, cols) == v
}

/// `ib` is a basis of the image of `m` over the rationals: its vectors lie in it, are
/// independent, and span every vector of it.
pub open spec fn is_image_basis(ib: Seq<Seq<int>>, m: Seq<Seq<int>>, cols: int) -> bool {
    &&& forall|l: int| 0 <= l < ib.len() ==> #[trigger] in_image(ib[l], m, cols)
    &&& independent(ib, m.len() as int)
    &&& forall|v: Seq<int>| #[trigger] in_image(v, m, cols) ==> in_rational_span(v, ib, m.len() as int)
}

/// `d` is the dimension, over the rationals, of the image of `m` taken as a map from
/// vectors of length `cols`.
pub open spec fn has_image_rank(m: Seq<Seq<i32>>, cols: int, d: int) -> bool {
    exists|ib: Seq<Seq<int>>| ib.len() == d && #[trigger] is_image_basis(ib, int_matrix(m, cols), cols)
}

/// Column `c` of `m`.
pub open spec fn column(m: Seq<Seq<int>>, c: int) -> Seq<int> {
    Seq::new(m.len(), |i: int| m[i][c])
}

/// The vector with a one at `c` and zeros elsewhere.
pub open spec fn unit(cols: int, c: int) -> Seq<int> {
    Seq::new(cols as nat, |j: int| if j == c { 1int } else { 0int })
}

/// The vector with `lam[l]` in the pivot column `pcs[l]` and zeros elsewhere.
pub open spec fn on_pivots(pcs: Seq<int>, lam: Seq<int>, cols: int) -> Seq<int> {
    Seq::new(cols as nat, |j: int| range_sum(|l: int| if pcs[l] == j { lam[l] } else { 0 }, pcs.len()))
}

proof fn lemma_on_pivots_entries(pcs: Seq<int>, fs: Seq<int>, lam: Seq<int>, cols: int)
    requires
        splits(pcs, fs, cols),
    ensures
        on_pivots(pcs, lam, cols).len() == cols,
        forall|q: int| 0 <= q < fs.len() ==> #[trigger] on_pivots(pcs, lam, cols)[fs[q]] == 0,
        forall|l: int| 0 <= l < pcs.len() ==> #[trigger] on_pivots(pcs, lam, cols)[pcs[l]] == lam[l],
{
    let y = on_pivots(pcs, lam, cols);
    assert forall|q: int| 0 <= q < fs.len() implies #[trigger] y[fs[q]] == 0 by {
        let t = |l: int| if pcs[l] == fs[q] { lam[l] } else { 0 };
        assert forall|l: int| 0 <= l < pcs.len() implies #[trigger] t(l) == 0 by {}
        lemma_range_sum_zero(t, pcs.len());
        assert(t =~= (|l: int| if pcs[l] == fs[q] { lam[l] } else { 0 }));
    }
    assert forall|l: int| 0 <= l < pcs.len() implies #[trigger] y[pcs[l]] == lam[l] by {
        let t = |a: int| if pcs[a] == pcs[l] { lam[a] } else { 0 };
        assert forall|a: int| 0 <= a < pcs.len() && a != l implies #[trigger] t(a) == 0 by {
            if a < l {
                assert(pcs[a] < pcs[l]);
            } else {
                assert(pcs[l] < pcs[a]);
            }
        }
        lemma_range_sum_single(t, pcs.len(), l);
        assert(t =~= (|a: int| if pcs[a] == pcs[l] { lam[a] } else { 0 }));
    }
}

/// A vector that is zero in the free columns meets a row only in the pivot columns.
proof fn lemma_dot_on_pivots(r: Seq<int>, y: Seq<int>, pcs: Seq<int>, fs: Seq<int>, cols: int)
    requires
        0 <= cols,
        splits(pcs, fs, cols),
        forall|q: int| 0 <= q < fs.len() ==> #[trigger] y[fs[q]] == 0,
    ensures
        dot(r, y, cols) == range_sum(|l: int| r[pcs[l]] * y[pcs[l]], pcs.len()),
{
    let g = |j: int| r[j] * y[j];
    lemma_split_sum(pcs, fs, cols, g);
    let gf = |q: int| g(fs[q]);
    assert forall|q: int| 0 <= q < fs.len() implies #[trigger] gf(q) == 0 by {}
    lemma_range_sum_zero(gf, fs.len());
    assert(g =~= (|j: int| r[j] * y[j]));
    lemma_range_sum_ext(|l: int| g(pcs[l]), |l: int| r[pcs[l]] * y[pcs[l]], pcs.len());
}

proof fn lemma_null_comb_at_free(f: Seq<Seq<int>>, pcs: Seq<int>, fs: Seq<int>, rk: int, cols: int, c: Seq<int>, q0: int)
    requires
        reduced_shape(f, pcs, fs, rk, cols),
        0 <= q0 < fs.len(),
    ensures
        comb(c, null_basis(f, pcs, fs, rk, cols), fs[q0]) == c[q0] * pivot_product(f, pcs, rk, -1),
{
    let kb = null_basis(f, pcs, fs, rk, cols);
    let t = |q: int| c[q] * kb[q][fs[q0]];
    assert forall|q: int| 0 <= q < kb.len() && q != q0 implies #[trigger] t(q) == 0 by {
        lemma_null_vector_entries(f, pcs, fs, rk, cols, q);
    }
    lemma_null_vector_entries(f, pcs, fs, rk, cols, q0);
    lemma_range_sum_single(t, kb.len(), q0);
    assert(t =~= (|q: int| c[q] * kb[q][fs[q0]]));
}

/// The image of a matrix with `cols` columns has dimension the rank that row
/// reduction computes: the columns of the matrix in which the reduction placed its
/// pivots are a basis of it.
pub proof fn lemma_image_dimension(m: Seq<Seq<i32>>, cols: int)
    requires
        0 <= cols,
        m.len() > 0 ==> col_count(m) == cols,
    ensures
        has_image_rank(m, cols, elimination_rank(m)),
{
    let mi = int_matrix(m, cols);
    let n = mi.len() as int;
    assert forall|i: int| 0 <= i < mi.len() implies #[trigger] mi[i].len() == cols by {}
    assert(echelon(mi, Seq::<int>::empty(), 0, 0));
    lemma_reduced_echelon(mi, cols, 0, 0, Seq::<int>::empty());
    lemma_reduced_combines(mi, cols, 0, 0);
    lemma_columns_split(mi, cols, 0, 0, Seq::<int>::empty(), Seq::<int>::empty());
    let f = reduced(mi, cols, 0, 0);
    let pcs = pivot_cols(mi, cols, 0, 0, Seq::<int>::empty());
    let fs = free_cols(mi, cols, 0, 0, Seq::<int>::empty());
    let rk = rank_from(mi, cols, 0, 0);
    assert(elimination_rank(m) == rk);
    assert(reduced_shape(f, pcs, fs, rk, cols));
    lemma_pivots_nonzero(f, pcs, fs, rk, cols);
    let pp = pivot_product(f, pcs, rk, -1);
    let ib = Seq::new(rk as nat, |l: int| column(mi, pcs[l]));
    let lf = choose|l: Seq<Seq<int>>| l.len() == mi.len() && #[trigger] combines(f, mi, l, 1, cols);
    let (lb, mu) = choose|l: Seq<Seq<int>>, mu: int|
        mu != 0 && l.len() == mi.len() && #[trigger] combines(mi, f, l, mu, cols);
    // the pivot columns lie in the image
    assert forall|l: int| 0 <= l < ib.len() implies #[trigger] in_image(ib[l], mi, cols) by {
        let e = unit(cols, pcs[l]);
        assert forall|i: int| 0 <= i < n implies #[trigger] dot(mi[i], e, cols) == mi[i][pcs[l]] by {
            let t = |j: int| mi[i][j] * e[j];
            assert forall|j: int| 0 <= j < cols && j != pcs[l] implies #[trigger] t(j) == 0 by {}
            lemma_range_sum_single(t, cols as nat, pcs[l]);
            assert(t =~= (|j: int| mi[i][j] * e[j]));
        }
        assert(apply_matrix(mi, e, cols) =~= ib[l]);
    }
    // they are independent
    assert forall|lam: Seq<int>| #[trigger] zero_combination(lam, ib, n) implies forall|l: int|
        0 <= l < ib.len() ==> lam[l] == 0 by {
        let y = on_pivots(pcs, lam, cols);
        lemma_on_pivots_entries(pcs, fs, lam, cols);
        assert forall|i: int| 0 <= i < n implies #[trigger] dot(mi[i], y, cols) == 0 by {
            lemma_dot_on_pivots(mi[i], y, pcs, fs, cols);
            assert forall|l: int| 0 <= l < rk implies #[trigger] (mi[i][pcs[l]] * y[pcs[l]]) == lam[l] * ib[l][i] by {
                assert(ib[l][i] == mi[i][pcs[l]]);
                assert(y[pcs[l]] == lam[l]);
                assert(mi[i][pcs[l]] * lam[l] == lam[l] * mi[i][pcs[l]]) by (nonlinear_arith);
            }
            lemma_range_sum_ext(
                |l: int| mi[i][pcs[l]] * y[pcs[l]],
                |l: int| lam[l] * ib[l][i],
                rk as nat,
            );
            assert(comb(lam, ib, i) == 0);
        }
        lemma_combines_null(f, mi, lf, 1, cols, y);
        assert forall|l: int| 0 <= l < ib.len() implies lam[l] == 0 by {
            assert(1 * dot(f[l], y, cols) == 0);
            lemma_dot_on_pivots(f[l], y, pcs, fs, cols);
            let t = |a: int| f[l][pcs[a]] * y[pcs[a]];
            assert forall|a: int| 0 <= a < rk && a != l implies #[trigger] t(a) == 0 by {
                assert(pivot_at(f, a, pcs[a]));
            }
            lemma_range_sum_single(t, rk as nat, l);
            let b = f[l][pcs[l]];
            let x = lam[l];
            assert(x == 0) by (nonlinear_arith)
                requires
                    b * x == 0,
                    b != 0,
            ;
        }
    }
    // they span the image
    let kb = null_basis(f, pcs, fs, rk, cols);
    assert forall|v: Seq<int>| #[trigger] in_image(v, mi, cols) implies in_rational_span(v, ib, n) by {
        let y = choose|y: Seq<int>| y.len() == cols && #[trigger] apply_matrix(mi, y, cols) == v;
        let c = free_values(y, fs);
        let u = Seq::new(cols as nat, |j: int| comb(c, kb, j));
        let w = Seq::new(cols as nat, |j: int| pp * y[j] - u[j]);
        let lam = Seq::new(rk as nat, |l: int| w[pcs[l]]);
        assert forall|q: int| 0 <= q < fs.len() implies #[trigger] w[fs[q]] == 0 by {
            lemma_null_comb_at_free(f, pcs, fs, rk, cols, c, q);
            assert(0 <= fs[q] < cols);
            assert(c[q] == y[fs[q]]);
            assert(u[fs[q]] == comb(c, kb, fs[q]));
            assert(pp * y[fs[q]] == y[fs[q]] * pp) by (nonlinear_arith);
        }
        assert forall|i: int| 0 <= i < n implies pp * v[i] == #[trigger] comb(lam, ib, i) by {
            // mi[i] sends each null vector to zero, hence u too
            assert forall|q: int| 0 <= q < kb.len() implies #[trigger] dot(kb[q], mi[i], cols) == 0 by {
                lemma_null_vector_entries(f, pcs, fs, rk, cols, q);
                lemma_null_vector_kernel(f, pcs, fs, rk, cols, q);
                lemma_combines_null(mi, f, lb, mu, cols, kb[q]);
                let d = dot(mi[i], kb[q], cols);
                assert(d == 0) by (nonlinear_arith)
                    requires
                        mu * d == 0,
                        mu != 0,
                ;
                lemma_range_sum_ext(|j: int| kb[q][j] * mi[i][j], |j: int| mi[i][j] * kb[q][j], cols as nat);
            }
            assert(combines(seq![u], kb, seq![c], 1, cols));
            lemma_combines_null(seq![u], kb, seq![c], 1, cols, mi[i]);
            assert(seq![u][0] == u);
            assert(1 * dot(u, mi[i], cols) == 0);
            lemma_range_sum_ext(|j: int| u[j] * mi[i][j], |j: int| mi[i][j] * u[j], cols as nat);
            // mi[i] . w = pp * (mi[i] . y) - mi[i] . u
            let t = |j: int| mi[i][j] * w[j];
            let ta = |j: int| (mi[i][j] * y[j]) * pp;
            let tb = |j: int| (mi[i][j] * u[j]) * (-1);
            assert forall|j: int| 0 <= j < cols implies #[trigger] t(j) == ta(j) + tb(j) by {
                let a = mi[i][j];
                assert(a * (pp * y[j] - u[j]) == (a * y[j]) * pp + (a * u[j]) * (-1)) by (nonlinear_arith);
            }
            lemma_range_sum_add(t, ta, tb, cols as nat);
            lemma_range_sum_scale(ta, |j: int| mi[i][j] * y[j], pp, cols as nat);
            lemma_range_sum_scale(tb, |j: int| mi[i][j] * u[j], -1, cols as nat);
            assert(v[i] == dot(mi[i], y, cols));
            assert(t =~= (|j: int| mi[i][j] * w[j]));
            // mi[i] . w meets only the pivot columns
            lemma_dot_on_pivots(mi[i], w, pcs, fs, cols);
            assert forall|l: int| 0 <= l < rk implies #[trigger] (mi[i][pcs[l]] * w[pcs[l]]) == lam[l] * ib[l][i] by {
                assert(ib[l][i] == mi[i][pcs[l]]);
                assert(mi[i][pcs[l]] * w[pcs[l]] == w[pcs[l]] * mi[i][pcs[l]]) by (nonlinear_arith);
            }
            lemma_range_sum_ext(
                |l: int| mi[i][pcs[l]] * w[pcs[l]],
                |l: int| lam[l] * ib[l][i],
                rk as nat,
            );
            assert(pp * v[i] == v[i] * pp) by (nonlinear_arith);
        }
        assert(is_combination(v, lam, ib, pp, n));
    }
    assert(is_image_basis(ib, mi, cols));
}

/// The index that skipping `p` gives to the position `l`.
pub open spec fn skip_index(l: int, p: int) -> int {
    if l < p {
        l
    } else {
        l + 1
    }
}

/// A sum over `0..n` is the term at `p` plus the sum over the other positions.
proof fn lemma_range_sum_skip(g: spec_fn(int) -> int, n: nat, p: int)
    requires
        0 <= p < n,
    ensures
        range_sum(g, n) == range_sum(|l: int| g(skip_index(l, p)), (n - 1) as nat) + g(p),
    decreases n,
{
    let h = |l: int| g(skip_index(l, p));
    if p == n - 1 {
        lemma_range_sum_ext(h, g, (n - 1) as nat);
    } else {
        lemma_range_sum_skip(g, (n - 1) as nat, p);
        assert(h(n - 2) == g(n - 1));
    }
}

/// Vectors of length `e` that are independent number at most `e`.
pub proof fn lemma_independent_at_most_length(vs: Seq<Seq<int>>, e: int)
    requires
        0 <= e,
        independent(vs, e),
    ensures
        vs.len() <= e,
    decreases e,
{
    let n = vs.len() as int;
    if e == 0 {
        if n > 0 {
            let lam = Seq::new(n as nat, |l: int| if l == 0 { 1int } else { 0int });
            assert(zero_combination(lam, vs, 0));
            assert(lam[0] == 0);
        }
    } else if forall|l: int| 0 <= l < n ==> #[trigger] vs[l][e - 1] == 0 {
        assert forall|lam: Seq<int>| #[trigger] zero_combination(lam, vs, e - 1) implies forall|i: int|
            0 <= i < vs.len() ==> lam[i] == 0 by {
            let t = |l: int| lam[l] * vs[l][e - 1];
            assert forall|l: int| 0 <= l < n implies #[trigger] t(l) == 0 by {}
            lemma_range_sum_zero(t, n as nat);
            assert(t =~= (|l: int| lam[l] * vs[l][e - 1]));
            assert(zero_combination(lam, vs, e));
        }
        lemma_independent_at_most_length(vs, e - 1);
    } else {
        let p = choose|l: int| 0 <= l < n && #[trigger] vs[l][e - 1] != 0;
        let a = vs[p][e - 1];
        let ws = Seq::new(
            (n - 1) as nat,
            |l: int| Seq::new(e as nat, |j: int| a * vs[skip_index(l, p)][j] - vs[skip_index(l, p)][e - 1] * vs[p][j]),
        );
        assert forall|lam: Seq<int>| #[trigger] zero_combination(lam, ws, e - 1) implies forall|i: int|
            0 <= i < ws.len() ==> lam[i] == 0 by {
            let s = range_sum(|l: int| lam[l] * vs[skip_index(l, p)][e - 1], (n - 1) as nat);
            let mu = Seq::new(
                n as nat,
                |l: int| if l == p { -s } else { a * lam[if l < p { l } else { l - 1 }] },
            );
            assert forall|j: int| 0 <= j < e implies #[trigger] comb(mu, vs, j) == 0 by {
                let g = |l: int| mu[l] * vs[l][j];
                lemma_range_sum_skip(g, n as nat, p);
                assert(g =~= (|l: int| mu[l] * vs[l][j]));
                // the sum over the other positions
                let h = |l: int| g(skip_index(l, p));
                let h1 = |l: int| lam[l] * vs[skip_index(l, p)][j];
                let h2 = |l: int| lam[l] * vs[skip_index(l, p)][e - 1];
                assert forall|l: int| 0 <= l < n - 1 implies #[trigger] h(l) == h1(l) * a by {
                    assert(mu[skip_index(l, p)] == a * lam[l]);
                    assert(a * lam[l] * vs[skip_index(l, p)][j] == lam[l] * vs[skip_index(l, p)][j] * a)
                        by (nonlinear_arith);
                }
                lemma_range_sum_scale(h, h1, a, (n - 1) as nat);
                // the combination of ws at column j
                let cw = |l: int| lam[l] * ws[l][j];
                let cb = |l: int| h2(l) * (-vs[p][j]);
                let ca = |l: int| h1(l) * a;
                assert forall|l: int| 0 <= l < n - 1 implies #[trigger] cw(l) == ca(l) + cb(l) by {
                    let x = lam[l];
                    let y = vs[skip_index(l, p)][j];
                    let z = vs[skip_index(l, p)][e - 1];
                    assert(x * (a * y - z * vs[p][j]) == (x * y) * a + (x * z) * (-vs[p][j])) by (nonlinear_arith);
                }
                lemma_range_sum_add(cw, ca, cb, (n - 1) as nat);
                lemma_range_sum_scale(ca, h1, a, (n - 1) as nat);
                lemma_range_sum_scale(cb, h2, -vs[p][j], (n - 1) as nat);
                assert(h2 =~= (|l: int| lam[l] * vs[skip_index(l, p)][e - 1]));
                if j < e - 1 {
                    assert(comb(lam, ws, j) == 0);
                } else {
                    let cl = |l: int| lam[l] * ws[l][e - 1];
                    assert forall|l: int| 0 <= l < n - 1 implies #[trigger] cl(l) == 0 by {
                        let z = vs[skip_index(l, p)][e - 1];
                        assert(a * z - z * a == 0) by (nonlinear_arith);
                    }
                    lemma_range_sum_zero(cl, (n - 1) as nat);
                    assert(cl =~= (|l: int| lam[l] * ws[l][e - 1]));
                }
                assert(cw =~= (|l: int| lam[l] * ws[l][j]));
                assert(-s * vs[p][j] == s * (-vs[p][j])) by (nonlinear_arith);
            }
            assert(zero_combination(mu, vs, e));
            assert forall|i: int| 0 <= i < ws.len() implies lam[i] == 0 by {
                let l = skip_index(i, p);
                assert(mu[l] == 0);
                assert(mu[l] == a * lam[i]);
                let x = lam[i];
                assert(x == 0) by (nonlinear_arith)
                    requires
                        a * x == 0,
                        a != 0,
                ;
            }
        }
        lemma_independent_at_most_length(ws, e - 1);
    }
}

/// Independent vectors that each lie in the span of `kb` number at most as many as
/// the vectors of `kb`.
pub proof fn lemma_independent_in_span(ib: Seq<Seq<int>>, kb: Seq<Seq<int>>, cols: int)
    requires
        0 <= cols,
        independent(ib, cols),
        forall|l: int| 0 <= l < ib.len() ==> #[trigger] in_rational_span(ib[l], kb, cols),
    ensures
        ib.len() <= kb.len(),
{
    let r = ib.len() as int;
    let d = kb.len() as int;
    let pairs = Seq::new(
        r as nat,
        |l: int| choose|mu: int, lam: Seq<int>| mu != 0 && #[trigger] is_combination(ib[l], lam, kb, mu, cols),
    );
    assert forall|l: int| 0 <= l < r implies #[trigger] pairs[l].0 != 0 && is_combination(
        ib[l],
        pairs[l].1,
        kb,
        pairs[l].0,
        cols,
    ) by {
        assert(in_rational_span(ib[l], kb, cols));
    }
    let cs = Seq::new(r as nat, |l: int| Seq::new(d as nat, |q: int| pairs[l].1[q]));
    assert forall|a: Seq<int>| #[trigger] zero_combination(a, cs, d) implies forall|l: int|
        0 <= l < cs.len() ==> a[l] == 0 by {
        let b = Seq::new(r as nat, |l: int| a[l] * pairs[l].0);
        assert forall|j: int| 0 <= j < cols implies #[trigger] comb(b, ib, j) == 0 by {
            // sum_l a_l mu_l ib[l][j] = sum_l a_l sum_q cs[l][q] kb[q][j] = sum_q (sum_l a_l cs[l][q]) kb[q][j]
            let ff = |q: int, l: int| a[l] * cs[l][q] * kb[q][j];
            let t = |l: int| b[l] * ib[l][j];
            assert forall|l: int| 0 <= l < r implies #[trigger] t(l) == range_sum(|q: int| ff(q, l), d as nat) by {
                let mu = pairs[l].0;
                assert(is_combination(ib[l], pairs[l].1, kb, mu, cols));
                assert(mu * ib[l][j] == comb(pairs[l].1, kb, j));
                let g = |q: int| cs[l][q] * kb[q][j];
                lemma_range_sum_ext(|q: int| pairs[l].1[q] * kb[q][j], g, d as nat);
                assert forall|q: int| 0 <= q < d implies #[trigger] ff(q, l) == g(q) * a[l] by {
                    assert(a[l] * cs[l][q] * kb[q][j] == (cs[l][q] * kb[q][j]) * a[l]) by (nonlinear_arith);
                }
                lemma_range_sum_scale(|q: int| ff(q, l), g, a[l], d as nat);
                assert(g =~= (|q: int| cs[l][q] * kb[q][j]));
                assert(a[l] * mu * ib[l][j] == (mu * ib[l][j]) * a[l]) by (nonlinear_arith);
            }
            lemma_range_sum_ext(t, |l: int| range_sum(|q: int| ff(q, l), d as nat), r as nat);
            lemma_range_sum_swap(ff, r as nat, d as nat);
            let outer = |q: int| range_sum(|l: int| ff(q, l), r as nat);
            assert forall|q: int| 0 <= q < d implies #[trigger] outer(q) == 0 by {
                let h = |l: int| a[l] * cs[l][q];
                assert forall|l: int| 0 <= l < r implies #[trigger] ff(q, l) == h(l) * kb[q][j] by {}
                lemma_range_sum_scale(|l: int| ff(q, l), h, kb[q][j], r as nat);
                assert(h =~= (|l: int| a[l] * cs[l][q]));
                assert(comb(a, cs, q) == 0);
            }
            lemma_range_sum_zero(outer, d as nat);
            assert(t =~= (|l: int| b[l] * ib[l][j]));
        }
        assert(zero_combination(b, ib, cols));
        assert forall|l: int| 0 <= l < cs.len() implies a[l] == 0 by {
            assert(b[l] == 0);
            let x = a[l];
            let mu = pairs[l].0;
            assert(x == 0) by (nonlinear_arith)
                requires
                    x * mu == 0,
                    mu != 0,
            ;
        }
    }
    lemma_independent_at_most_length(cs, d);
}

/// Entry `(i, c)` of the product of `a` (with `n` columns) and `b`.
pub open spec fn product_entry(a: Seq<Seq<i32>>, b: Seq<Seq<i32>>, n: int, i: int, c: int) -> int {
    range_sum(|j: int| a[i][j] as int * b[j][c] as int, n as nat)
}

/// The product of `a` (with `n` columns) and `b` (with `n` rows and `cb` columns) is zero.
pub open spec fn product_is_zero(a: Seq<Seq<i32>>, b: Seq<Seq<i32>>, n: int, cb: int) -> bool {
    forall|i: int, c: int| 0 <= i < a.len() && 0 <= c < cb ==> #[trigger] product_entry(a, b, n, i, c) == 0
}

/// Where `a b = 0`, the image of `b` lies in the null space of `a`, so the rank of `b`
/// is at most the nullity of `a`: the `n` columns of `a` less its rank.
pub proof fn lemma_rank_within_nullity(a: Seq<Seq<i32>>, b: Seq<Seq<i32>>, n: int, cb: int)
    requires
        0 <= n,
        0 <= cb,
        a.len() > 0 ==> col_count(a) == n,
        b.len() == n,
        b.len() > 0 ==> col_count(b) == cb,
        product_is_zero(a, b, n, cb),
    ensures
        elimination_rank(a) <= n,
        elimination_rank(b) <= n - elimination_rank(a),
{
    let ai = int_matrix(a, n);
    let bi = int_matrix(b, cb);
    lemma_image_dimension(b, cb);
    lemma_null_space_dimension(a, n);
    let ib = choose|ib: Seq<Seq<int>>| ib.len() == elimination_rank(b) && #[trigger] is_image_basis(ib, bi, cb);
    let kb = choose|kb: Seq<Seq<int>>|
        kb.len() == n - elimination_rank(a) && #[trigger] is_null_space_basis(kb, ai, n);
    assert forall|l: int| 0 <= l < ib.len() implies #[trigger] in_rational_span(ib[l], kb, n) by {
        let v = ib[l];
        assert(in_image(v, bi, cb));
        let y = choose|y: Seq<int>| y.len() == cb && #[trigger] apply_matrix(bi, y, cb) == v;
        assert forall|i: int| 0 <= i < ai.len() implies #[trigger] dot(ai[i], v, n) == 0 by {
            let ff = |c: int, j: int| ai[i][j] * bi[j][c] * y[c];
            let t = |j: int| ai[i][j] * v[j];
            assert forall|j: int| 0 <= j < n implies #[trigger] t(j) == range_sum(|c: int| ff(c, j), cb as nat) by {
                let g = |c: int| bi[j][c] * y[c];
                assert(v[j] == dot(bi[j], y, cb));
                assert(g =~= (|c: int| bi[j][c] * y[c]));
                assert forall|c: int| 0 <= c < cb implies #[trigger] ff(c, j) == g(c) * ai[i][j] by {
                    assert(ai[i][j] * bi[j][c] * y[c] == (bi[j][c] * y[c]) * ai[i][j]) by (nonlinear_arith);
                }
                lemma_range_sum_scale(|c: int| ff(c, j), g, ai[i][j], cb as nat);
                assert(ai[i][j] * v[j] == v[j] * ai[i][j]) by (nonlinear_arith);
            }
            lemma_range_sum_ext(t, |j: int| range_sum(|c: int| ff(c, j), cb as nat), n as nat);
            lemma_range_sum_swap(ff, n as nat, cb as nat);
            let outer = |c: int| range_sum(|j: int| ff(c, j), n as nat);
            assert forall|c: int| 0 <= c < cb implies #[trigger] outer(c) == 0 by {
                let h = |j: int| a[i][j] as int * b[j][c] as int;
                assert forall|j: int| 0 <= j < n implies #[trigger] ff(c, j) == h(j) * y[c] by {
                    assert(ai[i][j] == a[i][j] as int);
                    assert(bi[j][c] == b[j][c] as int);
                }
                lemma_range_sum_scale(|j: int| ff(c, j), h, y[c], n as nat);
                assert(product_entry(a, b, n, i, c) == 0);
                assert(h =~= (|j: int| a[i][j] as int * b[j][c] as int));
            }
            lemma_range_sum_zero(outer, cb as nat);
            assert(t =~= (|j: int| ai[i][j] * v[j]));
        }
        assert(in_null_space(v, ai, n));
    }
    lemma_independent_in_span(ib, kb, n);
}

} // verus!
