//! What row reduction computes: the dimension of the row space over the rationals.
use vstd::prelude::*;

use crate::rank::{
    col_count, elimination_rank, eliminate, int_matrix, lemma_pivot_row_none_zero, pivot_row, rank_from, rows_cover,
    swap_rows,
};
use crate::sums::{lemma_range_sum_add, lemma_range_sum_ext, lemma_range_sum_scale, lemma_range_sum_swap, range_sum};

verus! {

/// Entry `j` of the combination of the rows of `b` with the coefficients `l`.
pub open spec fn comb(l: Seq<int>, b: Seq<Seq<int>>, j: int) -> int {
    range_sum(|q: int| l[q] * b[q][j], b.len())
}

/// Every row of `a`, times `mu`, is the combination of the rows of `b` with the
/// matching row of coefficients in `l` (on the first `cols` columns).
pub open spec fn combines(a: Seq<Seq<int>>, b: Seq<Seq<int>>, l: Seq<Seq<int>>, mu: int, cols: int) -> bool {
    forall|i: int, j: int| 0 <= i < a.len() && 0 <= j < cols ==> mu * a[i][j] == #[trigger] comb(l[i], b, j)
}

/// The combination `lam` of the rows is zero on the first `cols` columns.
pub open spec fn zero_combination(lam: Seq<int>, rows: Seq<Seq<int>>, cols: int) -> bool {
    lam.len() == rows.len() && forall|j: int| 0 <= j < cols ==> #[trigger] comb(lam, rows, j) == 0
}

/// The rows are linearly independent: only the trivial combination vanishes.
pub open spec fn independent(rows: Seq<Seq<int>>, cols: int) -> bool {
    forall|lam: Seq<int>|
        #[trigger] zero_combination(lam, rows, cols) ==> forall|i: int| 0 <= i < rows.len() ==> lam[i] == 0
}

/// `mu` times `v` is the combination `lam` of the rows (on the first `cols` columns).
pub open spec fn is_combination(v: Seq<int>, lam: Seq<int>, rows: Seq<Seq<int>>, mu: int, cols: int) -> bool {
    forall|j: int| 0 <= j < cols ==> mu * v[j] == #[trigger] comb(lam, rows, j)
}

/// `v` is an integer combination of the rows.
pub open spec fn in_integer_span(v: Seq<int>, rows: Seq<Seq<int>>, cols: int) -> bool {
    exists|lam: Seq<int>| #[trigger] is_combination(v, lam, rows, 1, cols)
}

/// `v` is a rational combination of the rows: some nonzero multiple of it is an
/// integer combination.
pub open spec fn in_rational_span(v: Seq<int>, rows: Seq<Seq<int>>, cols: int) -> bool {
    exists|mu: int, lam: Seq<int>| mu != 0 && #[trigger] is_combination(v, lam, rows, mu, cols)
}

/// `basis` is a basis of the row space of `m` over the rationals: its rows are
/// independent, lie in the row space of `m`, and span every row of `m`.
pub open spec fn is_row_basis(basis: Seq<Seq<int>>, m: Seq<Seq<int>>, cols: int) -> bool {
    &&& independent(basis, cols)
    &&& forall|k: int| 0 <= k < basis.len() ==> #[trigger] in_integer_span(basis[k], m, cols)
    &&& forall|i: int| 0 <= i < m.len() ==> #[trigger] in_rational_span(m[i], basis, cols)
}

/// The coefficient vector a * e_i + b * e_r of length n.
pub open spec fn two_units(n: int, i: int, a: int, r: int, b: int) -> Seq<int> {
    Seq::new(n as nat, |q: int| (if q == i { a } else { 0 }) + (if q == r { b } else { 0 }))
}

/// A range sum with a single nonzero term is that term.
pub proof fn lemma_range_sum_single(f: spec_fn(int) -> int, n: nat, i: int)
    requires
        0 <= i < n,
        forall|q: int| 0 <= q < n && q != i ==> #[trigger] f(q) == 0,
    ensures
        range_sum(f, n) == f(i),
    decreases n,
{
    if n - 1 > i {
        lemma_range_sum_single(f, (n - 1) as nat, i);
    } else {
        lemma_range_sum_zero(f, (n - 1) as nat);
    }
}

/// A range sum of zeros is zero.
pub proof fn lemma_range_sum_zero(f: spec_fn(int) -> int, n: nat)
    requires
        forall|q: int| 0 <= q < n ==> #[trigger] f(q) == 0,
    ensures
        range_sum(f, n) == 0,
    decreases n,
{
    if n > 0 {
        lemma_range_sum_zero(f, (n - 1) as nat);
    }
}

/// Terms from `k` on that vanish add nothing.
pub proof fn lemma_range_sum_prefix(f: spec_fn(int) -> int, k: nat, n: nat)
    requires
        k <= n,
        forall|q: int| k <= q < n ==> #[trigger] f(q) == 0,
    ensures
        range_sum(f, n) == range_sum(f, k),
    decreases n,
{
    if n > k {
        lemma_range_sum_prefix(f, k, (n - 1) as nat);
    }
}

/// Combining with a * e_i + b * e_r gives a * row i + b * row r.
proof fn lemma_comb_two_units(m: Seq<Seq<int>>, i: int, a: int, r: int, b: int, j: int)
    requires
        0 <= i < m.len(),
        0 <= r < m.len(),
    ensures
        comb(two_units(m.len() as int, i, a, r, b), m, j) == a * m[i][j] + b * m[r][j],
{
    let n = m.len();
    let l = two_units(n as int, i, a, r, b);
    let f = |q: int| l[q] * m[q][j];
    let fa = |q: int| if q == i { a * m[i][j] } else { 0 };
    let fb = |q: int| if q == r { b * m[r][j] } else { 0 };
    assert forall|q: int| 0 <= q < n implies #[trigger] f(q) == fa(q) + fb(q) by {
        let x = m[q][j];
        let ca = if q == i { a } else { 0 };
        let cb = if q == r { b } else { 0 };
        assert((ca + cb) * x == ca * x + cb * x) by (nonlinear_arith);
    }
    lemma_range_sum_add(f, fa, fb, n);
    lemma_range_sum_single(fa, n, i);
    lemma_range_sum_single(fb, n, r);
}

/// The coefficient matrix of a composition of two combinations.
pub open spec fn compose(l1: Seq<Seq<int>>, l2: Seq<Seq<int>>, nb: int, nc: int) -> Seq<Seq<int>> {
    Seq::new(l1.len(), |i: int| Seq::new(nc as nat, |q: int| range_sum(|p: int| l1[i][p] * l2[p][q], nb as nat)))
}

/// Combinations compose: rows of `a` from rows of `b`, and rows of `b` from rows of `c`,
/// give rows of `a` from rows of `c`, with the product of the factors.
proof fn lemma_combines_compose(
    a: Seq<Seq<int>>,
    b: Seq<Seq<int>>,
    c: Seq<Seq<int>>,
    l1: Seq<Seq<int>>,
    l2: Seq<Seq<int>>,
    mu1: int,
    mu2: int,
    cols: int,
)
    requires
        combines(a, b, l1, mu1, cols),
        combines(b, c, l2, mu2, cols),
        l1.len() == a.len(),
    ensures
        combines(a, c, compose(l1, l2, b.len() as int, c.len() as int), mu1 * mu2, cols),
{
    let nb = b.len();
    let nc = c.len();
    let l = compose(l1, l2, nb as int, nc as int);
    assert forall|i: int, j: int| 0 <= i < a.len() && 0 <= j < cols implies (mu1 * mu2) * a[i][j] == #[trigger] comb(
        l[i],
        c,
        j,
    ) by {
        // mu2 * (mu1 * a[i][j]) = mu2 * sum_p l1[i][p] * b[p][j] = sum_p l1[i][p] * (mu2 * b[p][j])
        let t1 = |p: int| l1[i][p] * b[p][j];
        let t2 = |p: int| l1[i][p] * comb(l2[p], c, j);
        assert(mu1 * a[i][j] == comb(l1[i], b, j));
        assert forall|p: int| 0 <= p < nb implies #[trigger] t2(p) == t1(p) * mu2 by {
            assert(mu2 * b[p][j] == comb(l2[p], c, j));
            assert(l1[i][p] * (mu2 * b[p][j]) == (l1[i][p] * b[p][j]) * mu2) by (nonlinear_arith);
        }
        lemma_range_sum_scale(t2, t1, mu2, nb);
        assert(t1 =~= |q: int| l1[i][q] * b[q][j]);
        // sum_p l1[i][p] * sum_q l2[p][q] c[q][j] = sum_p sum_q l1[i][p] l2[p][q] c[q][j]
        let ff = |q: int, p: int| l1[i][p] * l2[p][q] * c[q][j];
        let inner = |p: int| range_sum(|q: int| ff(q, p), nc);
        assert forall|p: int| 0 <= p < nb implies #[trigger] inner(p) == t2(p) by {
            let g = |q: int| l2[p][q] * c[q][j];
            assert forall|q: int| 0 <= q < nc implies #[trigger] ff(q, p) == g(q) * l1[i][p] by {
                assert(l1[i][p] * l2[p][q] * c[q][j] == (l2[p][q] * c[q][j]) * l1[i][p]) by (nonlinear_arith);
            }
            lemma_range_sum_scale(|q: int| ff(q, p), g, l1[i][p], nc);
            assert(g =~= |q: int| l2[p][q] * c[q][j]);
            assert(range_sum(g, nc) == comb(l2[p], c, j));
            assert(range_sum(g, nc) * l1[i][p] == l1[i][p] * range_sum(g, nc)) by (nonlinear_arith);
        }
        lemma_range_sum_ext(inner, t2, nb);
        // exchange the sums
        lemma_range_sum_swap(ff, nb, nc);
        let outer = |q: int| range_sum(|p: int| ff(q, p), nb);
        // sum_q (sum_p l1[i][p] l2[p][q]) c[q][j]
        let target = |q: int| l[i][q] * c[q][j];
        assert forall|q: int| 0 <= q < nc implies #[trigger] outer(q) == target(q) by {
            let h = |p: int| l1[i][p] * l2[p][q];
            assert forall|p: int| 0 <= p < nb implies #[trigger] ff(q, p) == h(p) * c[q][j] by {}
            lemma_range_sum_scale(|p: int| ff(q, p), h, c[q][j], nb);
            assert(l[i][q] == range_sum(h, nb)) by {
                assert(h =~= |p: int| l1[i][p] * l2[p][q]);
            }
        }
        lemma_range_sum_ext(outer, target, nc);
        assert(target =~= |q: int| l[i][q] * c[q][j]);
        assert((mu1 * mu2) * a[i][j] == mu2 * (mu1 * a[i][j])) by (nonlinear_arith);
        assert(mu2 * comb(l1[i], b, j) == range_sum(t1, nb) * mu2) by (nonlinear_arith)
            requires
                comb(l1[i], b, j) == range_sum(t1, nb),
        ;
    }
}

/// The row that the swap of rows `r` and `p` puts at `i`.
pub open spec fn swap_index(i: int, r: int, p: int) -> int {
    if i == r {
        p
    } else if i == p {
        r
    } else {
        i
    }
}

/// The coefficients that pick, for each row, the row that a swap moves there.
pub open spec fn swap_coeffs(n: int, r: int, p: int) -> Seq<Seq<int>> {
    Seq::new(n as nat, |i: int| two_units(n, swap_index(i, r, p), 1, swap_index(i, r, p), 0))
}

/// Swapping two rows keeps the rows of each matrix combinations of the other's.
proof fn lemma_swap_combines(m: Seq<Seq<int>>, r: int, p: int, cols: int)
    requires
        0 <= r < m.len(),
        0 <= p < m.len(),
    ensures
        combines(swap_rows(m, r, p), m, swap_coeffs(m.len() as int, r, p), 1, cols),
        combines(m, swap_rows(m, r, p), swap_coeffs(m.len() as int, r, p), 1, cols),
{
    let s = swap_rows(m, r, p);
    let n = m.len() as int;
    let l = swap_coeffs(n, r, p);
    assert forall|i: int, j: int| 0 <= i < n && 0 <= j < cols implies 1 * s[i][j] == #[trigger] comb(l[i], m, j) by {
        let k = swap_index(i, r, p);
        lemma_comb_two_units(m, k, 1, k, 0, j);
    }
    assert forall|i: int, j: int| 0 <= i < n && 0 <= j < cols implies 1 * m[i][j] == #[trigger] comb(l[i], s, j) by {
        let k = swap_index(i, r, p);
        lemma_comb_two_units(s, k, 1, k, 0, j);
    }
}

/// The coefficients of one elimination step, new rows from old.
pub open spec fn elim_forward(s: Seq<Seq<int>>, r: int, c: int) -> Seq<Seq<int>> {
    Seq::new(
        s.len(),
        |i: int|
            if i == r || s[i][c] == 0 {
                two_units(s.len() as int, i, 1, r, 0)
            } else {
                two_units(s.len() as int, i, s[r][c], r, -s[i][c])
            },
    )
}

/// The coefficients of one elimination step, pivot times old rows from new.
pub open spec fn elim_backward(s: Seq<Seq<int>>, r: int, c: int) -> Seq<Seq<int>> {
    Seq::new(
        s.len(),
        |i: int|
            if i == r || s[i][c] == 0 {
                two_units(s.len() as int, i, s[r][c], r, 0)
            } else {
                two_units(s.len() as int, i, 1, r, s[i][c])
            },
    )
}

/// One elimination step keeps the rows of each matrix combinations of the other's:
/// new rows are integer combinations of old ones, and the pivot times each old row
/// is an integer combination of new ones.
proof fn lemma_eliminate_combines(s: Seq<Seq<int>>, r: int, c: int, cols: int)
    requires
        0 <= r < s.len(),
        forall|i: int| 0 <= i < s.len() ==> #[trigger] s[i].len() == cols,
    ensures
        combines(eliminate(s, r, c), s, elim_forward(s, r, c), 1, cols),
        combines(s, eliminate(s, r, c), elim_backward(s, r, c), s[r][c], cols),
{
    let e = eliminate(s, r, c);
    let n = s.len() as int;
    let pv = s[r][c];
    assert forall|i: int, j: int| 0 <= i < n && 0 <= j < cols implies 1 * e[i][j] == #[trigger] comb(
        elim_forward(s, r, c)[i],
        s,
        j,
    ) by {
        if i == r || s[i][c] == 0 {
            lemma_comb_two_units(s, i, 1, r, 0, j);
        } else {
            lemma_comb_two_units(s, i, pv, r, -s[i][c], j);
            assert(s[i][j] * pv - s[i][c] * s[r][j] == pv * s[i][j] + (-s[i][c]) * s[r][j]) by (nonlinear_arith);
        }
    }
    assert forall|i: int, j: int| 0 <= i < n && 0 <= j < cols implies pv * s[i][j] == #[trigger] comb(
        elim_backward(s, r, c)[i],
        e,
        j,
    ) by {
        assert(e[r] == s[r]);
        if i == r || s[i][c] == 0 {
            lemma_comb_two_units(e, i, pv, r, 0, j);
        } else {
            lemma_comb_two_units(e, i, 1, r, s[i][c], j);
            assert(1 * (s[i][j] * pv - s[i][c] * s[r][j]) + s[i][c] * s[r][j] == pv * s[i][j]) by (nonlinear_arith);
        }
    }
}

/// The matrix that row reduction leaves, having placed `r` pivots and reached column `c`.
pub open spec fn reduced(m: Seq<Seq<int>>, cols: int, r: int, c: int) -> Seq<Seq<int>>
    decreases cols - c,
{
    if r >= m.len() || c >= cols || r < 0 || c < 0 {
        m
    } else {
        let p = pivot_row(m, r, c);
        if p >= m.len() {
            reduced(m, cols, r, c + 1)
        } else {
            reduced(eliminate(swap_rows(m, r, p), r, c), cols, r + 1, c + 1)
        }
    }
}

pub proof fn lemma_pivot_row_props(m: Seq<Seq<int>>, from: int, c: int)
    requires
        0 <= from,
        pivot_row(m, from, c) < m.len(),
    ensures
        from <= pivot_row(m, from, c),
        m[pivot_row(m, from, c)][c] != 0,
    decreases m.len() - from,
{
    if from < m.len() && m[from][c] == 0 {
        lemma_pivot_row_props(m, from + 1, c);
    }
}

/// Row reduction keeps the row space: the reduced rows are integer combinations of
/// the rows, and a nonzero multiple of each row is an integer combination of the
/// reduced rows.
pub proof fn lemma_reduced_combines(m: Seq<Seq<int>>, cols: int, r: int, c: int)
    requires
        0 <= r,
        forall|i: int| 0 <= i < m.len() ==> #[trigger] m[i].len() == cols,
    ensures
        reduced(m, cols, r, c).len() == m.len(),
        forall|i: int| 0 <= i < m.len() ==> #[trigger] reduced(m, cols, r, c)[i].len() == cols,
        exists|l: Seq<Seq<int>>| l.len() == m.len() && #[trigger] combines(reduced(m, cols, r, c), m, l, 1, cols),
        exists|l: Seq<Seq<int>>, mu: int|
            mu != 0 && l.len() == m.len() && #[trigger] combines(m, reduced(m, cols, r, c), l, mu, cols),
    decreases cols - c,
{
    let n = m.len() as int;
    if r >= m.len() || c >= cols || c < 0 {
        let id = Seq::new(n as nat, |i: int| two_units(n, i, 1, i, 0));
        assert forall|i: int, j: int| 0 <= i < n && 0 <= j < cols implies 1 * m[i][j] == #[trigger] comb(id[i], m, j) by {
            lemma_comb_two_units(m, i, 1, i, 0, j);
        }
        assert(reduced(m, cols, r, c) == m);
        assert(combines(m, m, id, 1, cols));
        assert(id.len() == m.len());
        assert(combines(reduced(m, cols, r, c), m, id, 1, cols));
        assert(combines(m, reduced(m, cols, r, c), id, 1, cols));
    } else {
        let p = pivot_row(m, r, c);
        if p >= m.len() {
            lemma_reduced_combines(m, cols, r, c + 1);
            assert(reduced(m, cols, r, c) == reduced(m, cols, r, c + 1));
        } else {
            lemma_pivot_row_props(m, r, c);
            let s = swap_rows(m, r, p);
            let e = eliminate(s, r, c);
            let f = reduced(e, cols, r + 1, c + 1);
            assert(f == reduced(m, cols, r, c));
            assert forall|i: int| 0 <= i < n implies #[trigger] s[i].len() == cols by {}
            assert forall|i: int| 0 <= i < n implies #[trigger] e[i].len() == cols by {}
            lemma_swap_combines(m, r, p, cols);
            lemma_eliminate_combines(s, r, c, cols);
            lemma_reduced_combines(e, cols, r + 1, c + 1);
            let lf = choose|l: Seq<Seq<int>>| l.len() == e.len() && #[trigger] combines(f, e, l, 1, cols);
            let (lb, mu) = choose|l: Seq<Seq<int>>, mu: int| mu != 0 && l.len() == e.len() && #[trigger] combines(e, f, l, mu, cols);
            let pv = s[r][c];
            // forward: f from e, e from s, s from m
            lemma_combines_compose(f, e, s, lf, elim_forward(s, r, c), 1int, 1int, cols);
            let l1 = compose(lf, elim_forward(s, r, c), n, n);
            lemma_combines_compose(f, s, m, l1, swap_coeffs(n, r, p), 1int, 1int, cols);
            let l2 = compose(l1, swap_coeffs(n, r, p), n, n);
            assert(combines(f, m, l2, 1, cols));
            assert(l2.len() == m.len());
            // backward: m from s, s from e, e from f
            lemma_combines_compose(m, s, e, swap_coeffs(n, r, p), elim_backward(s, r, c), 1, pv, cols);
            let k1 = compose(swap_coeffs(n, r, p), elim_backward(s, r, c), n, n);
            lemma_combines_compose(m, e, f, k1, lb, 1 * pv, mu, cols);
            let k2 = compose(k1, lb, n, n);
            assert(1 * pv * mu != 0) by (nonlinear_arith)
                requires
                    pv != 0,
                    mu != 0,
            ;
            assert(combines(m, f, k2, 1 * pv * mu, cols));
            assert(k2.len() == m.len());
        }
    }
}

/// The columns in which row reduction places its pivots, after those in `pcs`.
pub open spec fn pivot_cols(m: Seq<Seq<int>>, cols: int, r: int, c: int, pcs: Seq<int>) -> Seq<int>
    decreases cols - c,
{
    if r >= m.len() || c >= cols || r < 0 || c < 0 {
        pcs
    } else {
        let p = pivot_row(m, r, c);
        if p >= m.len() {
            pivot_cols(m, cols, r, c + 1, pcs)
        } else {
            pivot_cols(eliminate(swap_rows(m, r, p), r, c), cols, r + 1, c + 1, pcs.push(c))
        }
    }
}

/// Row `i` has the only nonzero entry of column `pc`.
pub open spec fn pivot_at(m: Seq<Seq<int>>, i: int, pc: int) -> bool {
    &&& m[i][pc] != 0
    &&& forall|j: int| 0 <= j < m.len() && j != i ==> #[trigger] m[j][pc] == 0
}

/// The first `r` rows have pivots in the columns `pcs`, all before column `c`, and
/// the other rows are zero before column `c`.
pub open spec fn echelon(m: Seq<Seq<int>>, pcs: Seq<int>, r: int, c: int) -> bool {
    &&& pcs.len() == r
    &&& forall|i: int| 0 <= i < r ==> 0 <= #[trigger] pcs[i] < c && pivot_at(m, i, pcs[i])
    &&& forall|j: int, col: int| r <= j < m.len() && 0 <= col < c ==> #[trigger] m[j][col] == 0
}

/// Row reduction ends in echelon form: a pivot in each of the first `rank_from` rows,
/// and zero rows after them.
pub proof fn lemma_reduced_echelon(m: Seq<Seq<int>>, cols: int, r: int, c: int, pcs: Seq<int>)
    requires
        0 <= r <= m.len(),
        0 <= c <= cols,
        forall|i: int| 0 <= i < m.len() ==> #[trigger] m[i].len() == cols,
        echelon(m, pcs, r, c),
    ensures
        rank_from(m, cols, r, c) <= m.len(),
        echelon(reduced(m, cols, r, c), pivot_cols(m, cols, r, c, pcs), rank_from(m, cols, r, c), cols),
    decreases cols - c,
{
    if r >= m.len() || c >= cols {
    } else {
        let p = pivot_row(m, r, c);
        if p >= m.len() {
            lemma_pivot_row_none_zero(m, r, c);
            lemma_reduced_echelon(m, cols, r, c + 1, pcs);
        } else {
            lemma_pivot_row_props(m, r, c);
            let s = swap_rows(m, r, p);
            let e = eliminate(s, r, c);
            let pv = s[r][c];
            let npcs = pcs.push(c);
            assert forall|i: int| 0 <= i < m.len() implies #[trigger] s[i] == m[swap_index(i, r, p)] by {}
            assert forall|i: int| 0 <= i < m.len() implies #[trigger] e[i].len() == cols by {
                assert(s[i] == m[swap_index(i, r, p)]);
            }
            assert(pv != 0);
            // the rows from r on are zero before column c
            assert forall|j: int, col: int| r <= j < m.len() && 0 <= col < c implies #[trigger] s[j][col] == 0 by {
                assert(s[j] == m[swap_index(j, r, p)]);
            }
            // earlier pivots stay pivots
            assert forall|i: int| 0 <= i < r implies 0 <= #[trigger] npcs[i] < c + 1 && pivot_at(e, i, npcs[i]) by {
                let pc = pcs[i];
                assert(npcs[i] == pc);
                assert(s[i] == m[i]);
                assert(pivot_at(m, i, pc));
                assert(s[r][pc] == 0);
                let a = s[i][pc];
                assert(a != 0);
                assert(a * pv != 0) by (nonlinear_arith)
                    requires
                        a != 0,
                        pv != 0,
                ;
                assert(e[i][pc] != 0);
                assert forall|j: int| 0 <= j < e.len() && j != i implies #[trigger] e[j][pc] == 0 by {
                    assert(s[j] == m[swap_index(j, r, p)]);
                    assert(swap_index(j, r, p) != i);
                    assert(s[j][pc] == 0);
                    if j != r && s[j][c] != 0 {
                        assert(e[j][pc] == s[j][pc] * pv - s[j][c] * s[r][pc]);
                    }
                }
            }
            // the new pivot
            assert(npcs[r] == c);
            assert(e[r][c] == pv);
            assert forall|j: int| 0 <= j < e.len() && j != r implies #[trigger] e[j][c] == 0 by {
                if s[j][c] != 0 {
                    assert(e[j][c] == s[j][c] * pv - s[j][c] * pv);
                }
            }
            assert(pivot_at(e, r, c));
            assert forall|i: int| 0 <= i < r + 1 implies 0 <= #[trigger] npcs[i] < c + 1 && pivot_at(e, i, npcs[i]) by {}
            // later rows are zero up to column c
            assert forall|j: int, col: int| r + 1 <= j < e.len() && 0 <= col < c + 1 implies #[trigger] e[j][col] == 0 by {
                if col < c {
                    assert(s[j][col] == 0);
                    assert(s[r][col] == 0);
                    if s[j][c] != 0 {
                        assert(e[j][col] == s[j][col] * pv - s[j][c] * s[r][col]);
                    }
                } else {
                    assert(e[j][c] == 0);
                }
            }
            assert(echelon(e, npcs, r + 1, c + 1));
            lemma_reduced_echelon(e, cols, r + 1, c + 1, npcs);
        }
    }
}

/// `d` is the dimension of the row space of `m` over the rationals: some `d` rows
/// form a basis of it.
pub open spec fn has_row_rank(m: Seq<Seq<i32>>, d: int) -> bool {
    exists|basis: Seq<Seq<int>>|
        basis.len() == d && #[trigger] is_row_basis(basis, int_matrix(m, col_count(m)), col_count(m))
}

/// The rank that row reduction computes is the dimension of the row space over the
/// rationals: the reduced rows that carry a pivot are independent, are integer
/// combinations of the rows of the matrix, and span each of them.
pub proof fn lemma_rank_is_row_space_dimension(m: Seq<Seq<i32>>)
    requires
        rows_cover(m),
    ensures
        has_row_rank(m, elimination_rank(m)),
{
    let cols = col_count(m);
    let mi = int_matrix(m, cols);
    let n = m.len() as int;
    if n == 0 || cols == 0 {
        let basis = Seq::<Seq<int>>::empty();
        assert forall|i: int| 0 <= i < mi.len() implies #[trigger] in_rational_span(mi[i], basis, cols) by {
            assert(is_combination(mi[i], Seq::<int>::empty(), basis, 1, cols));
        }
        assert(is_row_basis(basis, mi, cols));
    } else {
        assert forall|i: int| 0 <= i < n implies #[trigger] mi[i].len() == cols by {}
        assert(echelon(mi, Seq::<int>::empty(), 0, 0));
        lemma_reduced_echelon(mi, cols, 0, 0, Seq::<int>::empty());
        lemma_reduced_combines(mi, cols, 0, 0);
        let f = reduced(mi, cols, 0, 0);
        let pcs = pivot_cols(mi, cols, 0, 0, Seq::<int>::empty());
        let rk = rank_from(mi, cols, 0, 0);
        assert(elimination_rank(m) == rk);
        let basis = f.take(rk);
        // independent, by the pivot columns
        assert forall|lam: Seq<int>| #[trigger] zero_combination(lam, basis, cols) implies forall|i: int|
            0 <= i < basis.len() ==> lam[i] == 0 by {
            assert forall|i: int| 0 <= i < basis.len() implies lam[i] == 0 by {
                let pc = pcs[i];
                assert(pivot_at(f, i, pc));
                let g = |q: int| lam[q] * basis[q][pc];
                assert forall|q: int| 0 <= q < rk && q != i implies #[trigger] g(q) == 0 by {
                    assert(basis[q] == f[q]);
                    assert(f[q][pc] == 0);
                }
                lemma_range_sum_single(g, rk as nat, i);
                assert(comb(lam, basis, pc) == 0);
                assert(g =~= (|q: int| lam[q] * basis[q][pc]));
                let a = lam[i];
                let b = f[i][pc];
                assert(basis[i] == f[i]);
                assert(a == 0) by (nonlinear_arith)
                    requires
                        a * b == 0,
                        b != 0,
                ;
            }
        }
        // each basis row is an integer combination of the rows
        let lf = choose|l: Seq<Seq<int>>| l.len() == mi.len() && #[trigger] combines(f, mi, l, 1, cols);
        assert forall|k: int| 0 <= k < basis.len() implies #[trigger] in_integer_span(basis[k], mi, cols) by {
            assert forall|j: int| 0 <= j < cols implies 1 * basis[k][j] == #[trigger] comb(lf[k], mi, j) by {
                assert(basis[k] == f[k]);
            }
            assert(is_combination(basis[k], lf[k], mi, 1, cols));
        }
        // each row is a rational combination of the basis rows
        let (lb, mu) = choose|l: Seq<Seq<int>>, mu: int|
            mu != 0 && l.len() == mi.len() && #[trigger] combines(mi, f, l, mu, cols);
        assert forall|i: int| 0 <= i < mi.len() implies #[trigger] in_rational_span(mi[i], basis, cols) by {
            let lam = Seq::new(rk as nat, |q: int| lb[i][q]);
            assert forall|j: int| 0 <= j < cols implies mu * mi[i][j] == #[trigger] comb(lam, basis, j) by {
                let h = |q: int| lb[i][q] * f[q][j];
                assert(mu * mi[i][j] == comb(lb[i], f, j));
                assert(h =~= (|q: int| lb[i][q] * f[q][j]));
                assert forall|q: int| rk <= q < n implies #[trigger] h(q) == 0 by {
                    assert(f[q][j] == 0);
                }
                lemma_range_sum_prefix(h, rk as nat, n as nat);
                let h2 = |q: int| lam[q] * basis[q][j];
                assert forall|q: int| 0 <= q < rk implies #[trigger] h(q) == h2(q) by {
                    assert(basis[q] == f[q]);
                }
                lemma_range_sum_ext(h, h2, rk as nat);
                assert(h2 =~= (|q: int| lam[q] * basis[q][j]));
            }
            assert(is_combination(mi[i], lam, basis, mu, cols));
        }
        assert(is_row_basis(basis, mi, cols));
    }
}

} // verus!
