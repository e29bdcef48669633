//! Smith normal form of an integer matrix: a diagonal matrix, each diagonal entry
//! dividing the next, reached from the matrix by invertible integer row and column
//! operations.
use vstd::prelude::*;

use crate::rank::{rows_view, swap_rows};

verus! {

/// `v` has `n` rows of length `m`.
pub open spec fn shaped(v: Seq<Seq<int>>, n: int, m: int) -> bool {
    v.len() == n && forall|i: int| 0 <= i < n ==> #[trigger] v[i].len() == m
}

/// Columns `a` and `b` exchanged.
pub open spec fn swap_cols(v: Seq<Seq<int>>, a: int, b: int) -> Seq<Seq<int>> {
    Seq::new(v.len(), |i: int| v[i].update(a, v[i][b]).update(b, v[i][a]))
}

/// Row `dst` plus `q` times row `src`.
pub open spec fn add_row(v: Seq<Seq<int>>, src: int, dst: int, q: int) -> Seq<Seq<int>> {
    v.update(dst, Seq::new(v[dst].len(), |j: int| v[dst][j] + q * v[src][j]))
}

/// Column `dst` plus `q` times column `src`.
pub open spec fn add_col(v: Seq<Seq<int>>, src: int, dst: int, q: int) -> Seq<Seq<int>> {
    Seq::new(v.len(), |i: int| v[i].update(dst, v[i][dst] + q * v[i][src]))
}

/// Row `a` negated.
pub open spec fn negate_row(v: Seq<Seq<int>>, a: int) -> Seq<Seq<int>> {
    v.update(a, Seq::new(v[a].len(), |j: int| -v[a][j]))
}

/// An invertible integer row or column operation.
pub enum MatrixOp {
    /// Exchange two rows.
    SwapRows(int, int),
    /// Exchange two columns.
    SwapCols(int, int),
    /// Add a multiple of the first row to the second.
    AddRow(int, int, int),
    /// Add a multiple of the first column to the second.
    AddCol(int, int, int),
    /// Negate a row.
    NegateRow(int),
}

/// The operation acts on an `n` by `m` matrix, and adds a multiple of a row or column
/// to another one only.
pub open spec fn valid_op(op: MatrixOp, n: int, m: int) -> bool {
    match op {
        MatrixOp::SwapRows(a, b) => 0 <= a < n && 0 <= b < n,
        MatrixOp::SwapCols(a, b) => 0 <= a < m && 0 <= b < m,
        MatrixOp::AddRow(s, d, _) => 0 <= s < n && 0 <= d < n && s != d,
        MatrixOp::AddCol(s, d, _) => 0 <= s < m && 0 <= d < m && s != d,
        MatrixOp::NegateRow(a) => 0 <= a < n,
    }
}

/// The matrix after the operation.
pub open spec fn apply_op(v: Seq<Seq<int>>, op: MatrixOp) -> Seq<Seq<int>> {
    match op {
        MatrixOp::SwapRows(a, b) => swap_rows(v, a, b),
        MatrixOp::SwapCols(a, b) => swap_cols(v, a, b),
        MatrixOp::AddRow(s, d, q) => add_row(v, s, d, q),
        MatrixOp::AddCol(s, d, q) => add_col(v, s, d, q),
        MatrixOp::NegateRow(a) => negate_row(v, a),
    }
}

/// The operations applied in turn.
pub open spec fn apply_ops(v: Seq<Seq<int>>, ops: Seq<MatrixOp>) -> Seq<Seq<int>>
    decreases ops.len(),
{
    if ops.len() == 0 {
        v
    } else {
        apply_op(apply_ops(v, ops.drop_last()), ops.last())
    }
}

/// Every operation acts on an `n` by `m` matrix.
pub open spec fn valid_ops(ops: Seq<MatrixOp>, n: int, m: int) -> bool {
    forall|i: int| 0 <= i < ops.len() ==> valid_op(#[trigger] ops[i], n, m)
}

/// `b` is reached from `a` by invertible integer row and column operations.
pub open spec fn equivalent(a: Seq<Seq<int>>, b: Seq<Seq<int>>, n: int, m: int) -> bool {
    exists|ops: Seq<MatrixOp>| valid_ops(ops, n, m) && #[trigger] apply_ops(a, ops) == b
}

/// The entries of a matrix of `i32`, as integers.
pub open spec fn int_entries(m: Seq<Seq<i32>>) -> Seq<Seq<int>> {
    Seq::new(m.len(), |i: int| Seq::new(m[i].len(), |j: int| m[i][j] as int))
}

/// `d` divides `x`.
pub open spec fn divides(d: int, x: int) -> bool {
    exists|k: int| x == #[trigger] (k * d)
}

/// `d` is in Smith normal form: diagonal, with nonnegative diagonal entries each
/// dividing the next.
pub open spec fn is_smith_form(d: Seq<Seq<int>>, n: int, m: int) -> bool {
    &&& shaped(d, n, m)
    &&& forall|i: int, j: int| 0 <= i < n && 0 <= j < m && i != j ==> #[trigger] d[i][j] == 0
    &&& forall|i: int| 0 <= i < n && i < m ==> #[trigger] d[i][i] >= 0
    &&& forall|i: int| 0 <= i && i + 1 < n && i + 1 < m ==> divides(#[trigger] d[i][i], d[i + 1][i + 1])
}

proof fn lemma_apply_ops_push(v: Seq<Seq<int>>, ops: Seq<MatrixOp>, op: MatrixOp, n: int, m: int)
    requires
        valid_ops(ops, n, m),
        valid_op(op, n, m),
    ensures
        apply_ops(v, ops.push(op)) == apply_op(apply_ops(v, ops), op),
        valid_ops(ops.push(op), n, m),
{
    assert(ops.push(op).drop_last() =~= ops);
    assert forall|i: int| 0 <= i < ops.push(op).len() implies valid_op(#[trigger] ops.push(op)[i], n, m) by {
        if i < ops.len() {
            assert(ops.push(op)[i] == ops[i]);
        }
    }
}

/// The entries of a matrix of `i64`, as integers.
pub open spec fn mat_view(a: Seq<Vec<i64>>) -> Seq<Seq<int>> {
    Seq::new(a.len(), |i: int| Seq::new(a[i]@.len(), |j: int| a[i]@[j] as int))
}

fn ex_swap_rows(a: &mut Vec<Vec<i64>>, i: usize, j: usize, m: usize)
    requires
        i < old(a).len(),
        j < old(a).len(),
        rows_have_len(old(a)@, m as int),
    ensures
        final(a)@.len() == old(a)@.len(),
        rows_have_len(final(a)@, m as int),
        mat_view(final(a)@) == swap_rows(mat_view(old(a)@), i as int, j as int),
{
    let ghost v = mat_view(a@);
    let ri = a[i].clone();
    let rj = a[j].clone();
    assert(ri@ =~= a@[i as int]@);
    assert(rj@ =~= a@[j as int]@);
    a.set(i, rj);
    a.set(j, ri);
    assert(mat_view(a@) =~= swap_rows(v, i as int, j as int));
}

/// Every row of `a` has length `m`.
pub open spec fn rows_have_len(a: Seq<Vec<i64>>, m: int) -> bool {
    forall|i: int| 0 <= i < a.len() ==> (#[trigger] a[i])@.len() == m
}

fn ex_swap_cols(a: &mut Vec<Vec<i64>>, x: usize, y: usize, m: usize)
    requires
        x < m,
        y < m,
        rows_have_len(old(a)@, m as int),
    ensures
        final(a)@.len() == old(a)@.len(),
        rows_have_len(final(a)@, m as int),
        mat_view(final(a)@) == swap_cols(mat_view(old(a)@), x as int, y as int),
{
    let ghost v = mat_view(a@);
    let n = a.len();
    for i in 0..n
        invariant
            n == a.len(),
            x < m,
            y < m,
            rows_have_len(a@, m as int),
            v.len() == n,
            forall|r: int| 0 <= r < n ==> #[trigger] v[r].len() == m,
            forall|r: int| 0 <= r < n ==> #[trigger] mat_view(a@)[r] == if r < i {
                swap_cols(v, x as int, y as int)[r]
            } else {
                v[r]
            },
    {
        assert(mat_view(a@)[i as int] == v[i as int]);
        let mut row = a[i].clone();
        assert(row@ =~= a@[i as int]@);
        let vx = row[x];
        let vy = row[y];
        row.set(x, vy);
        row.set(y, vx);
        let ghost before = a@;
        a.set(i, row);
        assert forall|r: int| 0 <= r < n implies #[trigger] mat_view(a@)[r] == if r < i + 1 {
            swap_cols(v, x as int, y as int)[r]
        } else {
            v[r]
        } by {
            if r == i {
                assert(mat_view(a@)[r] =~= swap_cols(v, x as int, y as int)[r]);
            } else {
                assert(a@[r] == before[r]);
                assert(mat_view(a@)[r] =~= mat_view(before)[r]);
            }
        }
    }
    assert(mat_view(a@) =~= swap_cols(v, x as int, y as int));
}

fn ex_add_row(a: &mut Vec<Vec<i64>>, src: usize, dst: usize, q: i128, m: usize) -> (ok: bool)
    requires
        src < old(a).len(),
        dst < old(a).len(),
        src != dst,
        rows_have_len(old(a)@, m as int),
        -0x8000_0000_0000_0000 <= q <= 0x8000_0000_0000_0000,
    ensures
        final(a)@.len() == old(a)@.len(),
        rows_have_len(final(a)@, m as int),
        ok ==> mat_view(final(a)@) == add_row(mat_view(old(a)@), src as int, dst as int, q as int),
{
    let ghost v = mat_view(a@);
    let mut row: Vec<i64> = Vec::new();
    for j in 0..m
        invariant
            src < a.len(),
            dst < a.len(),
            rows_have_len(a@, m as int),
            v == mat_view(a@),
            -0x8000_0000_0000_0000 <= q <= 0x8000_0000_0000_0000,
            row.len() == j,
            forall|c: int| 0 <= c < j ==> row@[c] as int == v[dst as int][c] + q * v[src as int][c],
    {
        let x = a[src][j] as i128;
        let y = a[dst][j] as i128;
        assert(-0x8000_0000_0000_0000 <= x <= 0x7fff_ffff_ffff_ffff);
        assert(-0x4000_0000_0000_0000_0000_0000_0000_0000 <= q * x <= 0x4000_0000_0000_0000_0000_0000_0000_0000)
            by (nonlinear_arith)
            requires
                -0x8000_0000_0000_0000 <= q <= 0x8000_0000_0000_0000,
                -0x8000_0000_0000_0000 <= x <= 0x7fff_ffff_ffff_ffff,
        ;
        let w = y + q * x;
        if w < -0x8000_0000_0000_0000i128 || w > 0x7fff_ffff_ffff_ffffi128 {
            return false;
        }
        row.push(w as i64);
    }
    let ghost before = a@;
    a.set(dst, row);
    assert forall|r: int| 0 <= r < a.len() implies #[trigger] mat_view(a@)[r] =~= add_row(v, src as int, dst as int, q as int)[r] by {
        assert(before[dst as int]@.len() == m);
        if r != dst {
            assert(a@[r] == before[r]);
        }
    }
    assert(mat_view(a@) =~= add_row(v, src as int, dst as int, q as int));
    true
}

fn ex_add_col(a: &mut Vec<Vec<i64>>, src: usize, dst: usize, q: i128, m: usize) -> (ok: bool)
    requires
        src < m,
        dst < m,
        src != dst,
        rows_have_len(old(a)@, m as int),
        -0x8000_0000_0000_0000 <= q <= 0x8000_0000_0000_0000,
    ensures
        final(a)@.len() == old(a)@.len(),
        rows_have_len(final(a)@, m as int),
        ok ==> mat_view(final(a)@) == add_col(mat_view(old(a)@), src as int, dst as int, q as int),
{
    let ghost v = mat_view(a@);
    let n = a.len();
    for i in 0..n
        invariant
            n == a.len(),
            n == old(a)@.len(),
            src < m,
            dst < m,
            rows_have_len(a@, m as int),
            -0x8000_0000_0000_0000 <= q <= 0x8000_0000_0000_0000,
            v.len() == n,
            forall|r: int| 0 <= r < n ==> #[trigger] v[r].len() == m,
            forall|r: int| 0 <= r < n ==> #[trigger] mat_view(a@)[r] == if r < i {
                add_col(v, src as int, dst as int, q as int)[r]
            } else {
                v[r]
            },
    {
        assert(mat_view(a@)[i as int] == v[i as int]);
        let mut row = a[i].clone();
        assert(row@ =~= a@[i as int]@);
        let x = row[src] as i128;
        let y = row[dst] as i128;
        assert(-0x4000_0000_0000_0000_0000_0000_0000_0000 <= q * x <= 0x4000_0000_0000_0000_0000_0000_0000_0000)
            by (nonlinear_arith)
            requires
                -0x8000_0000_0000_0000 <= q <= 0x8000_0000_0000_0000,
                -0x8000_0000_0000_0000 <= x <= 0x7fff_ffff_ffff_ffff,
        ;
        let w = y + q * x;
        if w < -0x8000_0000_0000_0000i128 || w > 0x7fff_ffff_ffff_ffffi128 {
            return false;
        }
        row.set(dst, w as i64);
        let ghost before = a@;
        a.set(i, row);
        assert forall|r: int| 0 <= r < n implies #[trigger] mat_view(a@)[r] == if r < i + 1 {
            add_col(v, src as int, dst as int, q as int)[r]
        } else {
            v[r]
        } by {
            if r == i {
                assert(mat_view(a@)[r] =~= add_col(v, src as int, dst as int, q as int)[r]);
            } else {
                assert(a@[r] == before[r]);
                assert(mat_view(a@)[r] =~= mat_view(before)[r]);
            }
        }
    }
    assert(mat_view(a@) =~= add_col(v, src as int, dst as int, q as int));
    true
}

fn ex_negate_row(a: &mut Vec<Vec<i64>>, r: usize, m: usize) -> (ok: bool)
    requires
        r < old(a).len(),
        rows_have_len(old(a)@, m as int),
    ensures
        final(a)@.len() == old(a)@.len(),
        rows_have_len(final(a)@, m as int),
        ok ==> mat_view(final(a)@) == negate_row(mat_view(old(a)@), r as int),
{
    let ghost v = mat_view(a@);
    let mut row: Vec<i64> = Vec::new();
    for j in 0..m
        invariant
            r < a.len(),
            rows_have_len(a@, m as int),
            v == mat_view(a@),
            row.len() == j,
            forall|c: int| 0 <= c < j ==> row@[c] as int == -v[r as int][c],
    {
        let x = a[r][j];
        if x == i64::MIN {
            return false;
        }
        row.push(-x);
    }
    let ghost before = a@;
    a.set(r, row);
    assert forall|k: int| 0 <= k < a.len() implies #[trigger] mat_view(a@)[k] =~= negate_row(v, r as int)[k] by {
        assert(before[r as int]@.len() == m);
        if k != r {
            assert(a@[k] == before[k]);
        }
    }
    assert(mat_view(a@) =~= negate_row(v, r as int));
    true
}

proof fn lemma_divides_combination(d: int, x: int, y: int, q: int)
    requires
        divides(d, x),
        divides(d, y),
    ensures
        divides(d, x + q * y),
        divides(d, -x),
{
    let k1 = choose|k: int| x == #[trigger] (k * d);
    let k2 = choose|k: int| y == #[trigger] (k * d);
    assert(x + q * y == (k1 + q * k2) * d) by (nonlinear_arith)
        requires
            x == k1 * d,
            y == k2 * d,
    ;
    assert(-x == (-k1) * d) by (nonlinear_arith)
        requires
            x == k1 * d,
    ;
}

/// The first `t` rows and columns are done: zero off the diagonal, positive on it, each
/// diagonal entry dividing the next, and the last one dividing every entry after them.
pub open spec fn settled(v: Seq<Seq<int>>, n: int, m: int, t: int) -> bool {
    &&& forall|i: int, j: int| 0 <= i < n && 0 <= j < m && (i < t || j < t) && i != j ==> #[trigger] v[i][j] == 0
    &&& forall|i: int| 0 <= i < t ==> #[trigger] v[i][i] > 0
    &&& forall|i: int| 0 <= i && i + 1 < t ==> divides(#[trigger] v[i][i], v[i + 1][i + 1])
    &&& t > 0 ==> forall|i: int, j: int| t <= i < n && t <= j < m ==> divides(v[t - 1][t - 1], #[trigger] v[i][j])
}

/// The operation touches only rows and columns from `t` on.
pub open spec fn op_from(op: MatrixOp, t: int) -> bool {
    match op {
        MatrixOp::SwapRows(a, b) => t <= a && t <= b,
        MatrixOp::SwapCols(a, b) => t <= a && t <= b,
        MatrixOp::AddRow(s, d, _) => t <= s && t <= d,
        MatrixOp::AddCol(s, d, _) => t <= s && t <= d,
        MatrixOp::NegateRow(a) => t <= a,
    }
}

/// An operation on the rows and columns from `t` on keeps the first `t` settled.
proof fn lemma_op_keeps_settled(v: Seq<Seq<int>>, op: MatrixOp, n: int, m: int, t: int)
    requires
        0 <= t <= n,
        t <= m,
        shaped(v, n, m),
        valid_op(op, n, m),
        op_from(op, t),
        settled(v, n, m, t),
    ensures
        shaped(apply_op(v, op), n, m),
        settled(apply_op(v, op), n, m, t),
{
    let w = apply_op(v, op);
    match op {
        MatrixOp::SwapRows(a, b) => {
            assert forall|i: int| 0 <= i < n implies #[trigger] w[i] == v[if i == b { a } else if i == a { b } else { i }] by {}
        },
        MatrixOp::SwapCols(a, b) => {
            assert forall|i: int, j: int| 0 <= i < n && 0 <= j < m implies #[trigger] w[i][j] == v[i][if j == b { a } else if j == a { b } else { j }] by {}
        },
        MatrixOp::AddRow(src, dst, q) => {
            assert forall|i: int, j: int| 0 <= i < n && 0 <= j < m implies #[trigger] w[i][j] == if i == dst { v[dst][j] + q * v[src][j] } else { v[i][j] } by {}
            if t > 0 {
                assert forall|i: int, j: int| t <= i < n && t <= j < m implies divides(v[t - 1][t - 1], #[trigger] w[i][j]) by {
                    if i == dst {
                        lemma_divides_combination(v[t - 1][t - 1], v[dst][j], v[src][j], q);
                    }
                }
            }
            assert forall|i: int, j: int| 0 <= i < n && 0 <= j < m && (i < t || j < t) && i != j implies #[trigger] w[i][j] == 0 by {
                if i == dst {
                    assert(v[dst][j] == 0);
                    assert(v[src][j] == 0);
                }
            }
        },
        MatrixOp::AddCol(src, dst, q) => {
            assert forall|i: int, j: int| 0 <= i < n && 0 <= j < m implies #[trigger] w[i][j] == if j == dst { v[i][dst] + q * v[i][src] } else { v[i][j] } by {}
            if t > 0 {
                assert forall|i: int, j: int| t <= i < n && t <= j < m implies divides(v[t - 1][t - 1], #[trigger] w[i][j]) by {
                    if j == dst {
                        lemma_divides_combination(v[t - 1][t - 1], v[i][dst], v[i][src], q);
                    }
                }
            }
            assert forall|i: int, j: int| 0 <= i < n && 0 <= j < m && (i < t || j < t) && i != j implies #[trigger] w[i][j] == 0 by {
                if j == dst {
                    assert(v[i][dst] == 0);
                    assert(v[i][src] == 0);
                }
            }
        },
        MatrixOp::NegateRow(a) => {
            assert forall|i: int, j: int| 0 <= i < n && 0 <= j < m implies #[trigger] w[i][j] == if i == a { -v[a][j] } else { v[i][j] } by {}
            if t > 0 {
                assert forall|i: int, j: int| t <= i < n && t <= j < m implies divides(v[t - 1][t - 1], #[trigger] w[i][j]) by {
                    if i == a {
                        lemma_divides_combination(v[t - 1][t - 1], v[a][j], v[a][j], 0);
                    }
                }
            }
        },
    }
}

/// The absolute value.
pub open spec fn magnitude(x: int) -> int {
    if x < 0 {
        -x
    } else {
        x
    }
}

/// The quotient of `x` by `p` rounded toward zero: what it leaves, `x - q p`, is smaller
/// than `p` in magnitude, and zero exactly when `p` divides `x`.
fn quotient(x: i64, p: i64) -> (q: i128)
    requires
        p != 0,
    ensures
        -0x8000_0000_0000_0000 <= q <= 0x8000_0000_0000_0000,
        magnitude(x - q * p) < magnitude(p as int),
        x - q * p == 0 <==> divides(p as int, x as int),
{
    let xi = x as i128;
    let pi = p as i128;
    let ax: u128 = if xi < 0 { (-xi) as u128 } else { xi as u128 };
    let ap: u128 = if pi < 0 { (-pi) as u128 } else { pi as u128 };
    let uq = ax / ap;
    proof {
        vstd::arithmetic::div_mod::lemma_fundamental_div_mod(ax as int, ap as int);
        vstd::arithmetic::div_mod::lemma_mod_pos_bound(ax as int, ap as int);
        assert(uq <= ax) by (nonlinear_arith)
            requires
                ax == ap * uq + ax % ap,
                ap >= 1,
                ax % ap >= 0,
                uq >= 0,
        ;
    }
    let q: i128 = if (xi < 0) == (pi < 0) { uq as i128 } else { -(uq as i128) };
    proof {
        let r = (ax % ap) as int;
        let xx = x as int;
        let pp = p as int;
        assert(ax as int == ap as int * uq as int + r);
        assert(xx - q * pp == if xx < 0 { -r } else { r }) by (nonlinear_arith)
            requires
                ax as int == ap as int * uq as int + r,
                ax as int == magnitude(xx),
                ap as int == magnitude(pp),
                q == if (xx < 0) == (pp < 0) { uq as int } else { -(uq as int) },
                pp != 0,
        ;
        if xx - q * pp == 0 {
            assert(xx == q * pp);
            assert(divides(pp, xx));
        }
        if divides(pp, xx) {
            let k = choose|k: int| xx == #[trigger] (k * pp);
            assert(xx - q * pp == (k - q) * pp) by (nonlinear_arith)
                requires
                    xx == k * pp,
            ;
            assert((k - q) * pp == 0) by (nonlinear_arith)
                requires
                    magnitude((k - q) * pp) < magnitude(pp),
                    pp != 0,
            ;
        }
    }
    q
}

/// An entry at or after row `t` and column `t` that is not zero.
fn find_nonzero(a: &Vec<Vec<i64>>, t: usize, m: usize) -> (r: Option<(usize, usize)>)
    requires
        rows_have_len(a@, m as int),
    ensures
        r matches Some((i, j)) ==> t <= i < a.len() && t <= j < m && mat_view(a@)[i as int][j as int] != 0,
        r is None ==> forall|i: int, j: int|
            t <= i < a.len() && t <= j < m ==> #[trigger] mat_view(a@)[i][j] == 0,
{
    let n = a.len();
    let mut i = t;
    while i < n
        invariant
            n == a.len(),
            t <= i,
            rows_have_len(a@, m as int),
            forall|r: int, j: int| t <= r < i && t <= j < m ==> #[trigger] mat_view(a@)[r][j] == 0,
        decreases n - i,
    {
        let mut j = t;
        while j < m
            invariant
                n == a.len(),
                t <= i < n,
                t <= j,
                rows_have_len(a@, m as int),
                forall|r: int, c: int| t <= r < i && t <= c < m ==> #[trigger] mat_view(a@)[r][c] == 0,
                forall|c: int| t <= c < j ==> #[trigger] mat_view(a@)[i as int][c] == 0,
            decreases m - j,
        {
            if a[i][j] != 0 {
                return Some((i, j));
            }
            j = j + 1;
        }
        i = i + 1;
    }
    None
}

/// A row after `t` with a nonzero entry in column `t`.
fn find_in_column(a: &Vec<Vec<i64>>, t: usize, m: usize) -> (r: Option<usize>)
    requires
        t < m,
        rows_have_len(a@, m as int),
    ensures
        r matches Some(i) ==> t < i < a.len() && mat_view(a@)[i as int][t as int] != 0,
        r is None ==> forall|i: int| t < i < a.len() ==> #[trigger] mat_view(a@)[i][t as int] == 0,
{
    let n = a.len();
    let mut i = t + 1;
    while i < n
        invariant
            n == a.len(),
            t < m,
            t + 1 <= i,
            rows_have_len(a@, m as int),
            forall|r: int| t < r < i ==> #[trigger] mat_view(a@)[r][t as int] == 0,
        decreases n - i,
    {
        if a[i][t] != 0 {
            return Some(i);
        }
        i = i + 1;
    }
    None
}

/// A column after `t` with a nonzero entry in row `t`.
fn find_in_row(a: &Vec<Vec<i64>>, t: usize, m: usize) -> (r: Option<usize>)
    requires
        t < a.len(),
        rows_have_len(a@, m as int),
    ensures
        r matches Some(j) ==> t < j < m && mat_view(a@)[t as int][j as int] != 0,
        r is None ==> forall|j: int| t < j < m ==> #[trigger] mat_view(a@)[t as int][j] == 0,
{
    let mut j = t + 1;
    while j < m
        invariant
            t < a.len(),
            t + 1 <= j,
            rows_have_len(a@, m as int),
            forall|c: int| t < c < j ==> #[trigger] mat_view(a@)[t as int][c] == 0,
        decreases m - j,
    {
        if a[t][j] != 0 {
            return Some(j);
        }
        j = j + 1;
    }
    None
}

/// An entry after row `t` and column `t` that `p` does not divide.
fn find_undivided(a: &Vec<Vec<i64>>, t: usize, m: usize, p: i64) -> (r: Option<(usize, usize)>)
    requires
        t < m,
        p != 0,
        rows_have_len(a@, m as int),
    ensures
        r matches Some((i, j)) ==> t < i < a.len() && t < j < m && !divides(p as int, mat_view(a@)[i as int][j as int]),
        r is None ==> forall|i: int, j: int|
            t < i < a.len() && t < j < m ==> divides(p as int, #[trigger] mat_view(a@)[i][j]),
{
    let n = a.len();
    let mut i = t + 1;
    while i < n
        invariant
            n == a.len(),
            t < i,
            t < m,
            p != 0,
            rows_have_len(a@, m as int),
            forall|r: int, c: int| t < r < i && t < c < m ==> divides(p as int, #[trigger] mat_view(a@)[r][c]),
        decreases n - i,
    {
        let mut j = t + 1;
        while j < m
            invariant
                n == a.len(),
                t < i < n,
                t < j,
                p != 0,
                rows_have_len(a@, m as int),
                forall|r: int, c: int| t < r < i && t < c < m ==> divides(p as int, #[trigger] mat_view(a@)[r][c]),
                forall|c: int| t < c < j ==> divides(p as int, #[trigger] mat_view(a@)[i as int][c]),
            decreases m - j,
        {
            let x = a[i][j];
            let q = quotient(x, p);
            let rem = x as i128 - q * (p as i128);
            if rem != 0 {
                return Some((i, j));
            }
            j = j + 1;
        }
        i = i + 1;
    }
    None
}

/// The matrix `a` is the start `a0` after the operations `ops`, with its first `t`
/// rows and columns settled.
pub open spec fn tracks(a: Seq<Vec<i64>>, a0: Seq<Seq<int>>, ops: Seq<MatrixOp>, n: int, m: int, t: int) -> bool {
    &&& a.len() == n
    &&& rows_have_len(a, m)
    &&& shaped(mat_view(a), n, m)
    &&& mat_view(a) == apply_ops(a0, ops)
    &&& valid_ops(ops, n, m)
    &&& settled(mat_view(a), n, m, t)
}

proof fn lemma_step(a0: Seq<Seq<int>>, ops: Seq<MatrixOp>, op: MatrixOp, n: int, m: int, t: int)
    requires
        0 <= t <= n,
        t <= m,
        valid_ops(ops, n, m),
        valid_op(op, n, m),
        op_from(op, t),
        shaped(apply_ops(a0, ops), n, m),
        settled(apply_ops(a0, ops), n, m, t),
    ensures
        apply_ops(a0, ops.push(op)) == apply_op(apply_ops(a0, ops), op),
        valid_ops(ops.push(op), n, m),
        shaped(apply_ops(a0, ops.push(op)), n, m),
        settled(apply_ops(a0, ops.push(op)), n, m, t),
{
    lemma_apply_ops_push(a0, ops, op, n, m);
    lemma_op_keeps_settled(apply_ops(a0, ops), op, n, m, t);
}

proof fn lemma_rows_shaped(a: Seq<Vec<i64>>, n: int, m: int)
    requires
        a.len() == n,
        rows_have_len(a, m),
    ensures
        shaped(mat_view(a), n, m),
{
    assert forall|i: int| 0 <= i < n implies #[trigger] mat_view(a)[i].len() == m by {
        assert(a[i]@.len() == m);
    }
}

/// With row and column `t` cleared but for a positive pivot that divides every later
/// entry, the first `t + 1` rows and columns are settled.
proof fn lemma_settle_next(v: Seq<Seq<int>>, n: int, m: int, t: int)
    requires
        0 <= t < n,
        t < m,
        shaped(v, n, m),
        settled(v, n, m, t),
        v[t][t] > 0,
        forall|i: int| t < i < n ==> #[trigger] v[i][t] == 0,
        forall|j: int| t < j < m ==> #[trigger] v[t][j] == 0,
        forall|i: int, j: int| t < i < n && t < j < m ==> divides(v[t][t], #[trigger] v[i][j]),
    ensures
        settled(v, n, m, t + 1),
{
    assert forall|i: int, j: int| 0 <= i < n && 0 <= j < m && (i < t + 1 || j < t + 1) && i != j implies #[trigger] v[i][j] == 0 by {
        if i < t || j < t {
        } else if i == t {
            assert(v[t][j] == 0);
        } else {
            assert(v[i][t] == 0);
        }
    }
    assert forall|i: int| 0 <= i && i + 1 < t + 1 implies divides(#[trigger] v[i][i], v[i + 1][i + 1]) by {
        if i + 1 == t {
            assert(divides(v[t - 1][t - 1], v[t][t]));
        }
    }
}

proof fn lemma_divides_negated(p: int, x: int)
    requires
        divides(p, x),
    ensures
        divides(-p, x),
{
    let k = choose|k: int| x == #[trigger] (k * p);
    assert(x == (-k) * (-p)) by (nonlinear_arith)
        requires
            x == k * p,
    ;
}

proof fn lemma_divides_zero(p: int)
    ensures
        divides(p, 0),
{
    assert(0 == 0 * p);
}

/// The smaller of two integers.
pub open spec fn smaller(a: int, b: int) -> int {
    if a < b {
        a
    } else {
        b
    }
}

/// The diagonal of the Smith normal form of an integer matrix with rows of length
/// `m`, reduced by row and column operations on `i64` entries: `None` where an entry
/// would leave the `i64` range on the way.
pub fn smith_diagonal(matrix: &Vec<Vec<i32>>, m: usize) -> (r: Option<Vec<i64>>)
    requires
        forall|i: int| 0 <= i < matrix.len() ==> (#[trigger] matrix@[i])@.len() == m,
    ensures
        r matches Some(ds) ==> exists|d: Seq<Seq<int>>|
            #[trigger] is_smith_form(d, matrix.len() as int, m as int) && equivalent(
                int_entries(rows_view(matrix@)),
                d,
                matrix.len() as int,
                m as int,
            ) && ds@.len() == smaller(matrix.len() as int, m as int) && forall|i: int|
                0 <= i < ds@.len() ==> ds@[i] as int == d[i][i],
{
    let n = matrix.len();
    let mut a: Vec<Vec<i64>> = Vec::new();
    for i in 0..n
        invariant
            n == matrix.len(),
            forall|r: int| 0 <= r < n ==> (#[trigger] matrix@[r])@.len() == m,
            a.len() == i,
            forall|r: int| 0 <= r < i ==> (#[trigger] a@[r])@.len() == m,
            forall|r: int, c: int| 0 <= r < i && 0 <= c < m ==> #[trigger] a@[r]@[c] as int == matrix@[r]@[c] as int,
    {
        let mut row: Vec<i64> = Vec::new();
        for j in 0..m
            invariant
                i < n,
                n == matrix.len(),
                matrix@[i as int]@.len() == m,
                row.len() == j,
                forall|c: int| 0 <= c < j ==> #[trigger] row@[c] as int == matrix@[i as int]@[c] as int,
        {
            row.push(matrix[i][j] as i64);
        }
        a.push(row);
    }
    let ghost a0 = mat_view(a@);
    assert(a0 =~= int_entries(rows_view(matrix@))) by {
        assert forall|r: int| 0 <= r < n implies #[trigger] a0[r] =~= int_entries(rows_view(matrix@))[r] by {}
    }
    let ghost mut ops = Seq::<MatrixOp>::empty();
    proof {
        lemma_rows_shaped(a@, n as int, m as int);
    }
    let s = if n < m { n } else { m };
    let mut t: usize = 0;
    let mut done = false;
    while t < s && !done
        invariant
            n == matrix.len(),
            s == smaller(n as int, m as int),
            t <= s,
            a0 == int_entries(rows_view(matrix@)),
            tracks(a@, a0, ops, n as int, m as int, t as int),
            done ==> forall|i: int, j: int| t <= i < n && t <= j < m ==> #[trigger] mat_view(a@)[i][j] == 0,
        decreases s - t + (if done { 0int } else { 1int }),
    {
        match find_nonzero(&a, t, m) {
            None => {
                done = true;
            },
            Some((pi, pj)) => {
                let ghost tt = t as int;
                proof {
                    lemma_step(a0, ops, MatrixOp::SwapRows(tt, pi as int), n as int, m as int, tt);
                }
                ex_swap_rows(&mut a, t, pi, m);
                proof {
                    ops = ops.push(MatrixOp::SwapRows(tt, pi as int));
                    lemma_step(a0, ops, MatrixOp::SwapCols(tt, pj as int), n as int, m as int, tt);
                }
                ex_swap_cols(&mut a, t, pj, m);
                proof {
                    ops = ops.push(MatrixOp::SwapCols(tt, pj as int));
                }
                assert(mat_view(a@)[tt][tt] != 0);
                let mut finished = false;
                while !finished
                    invariant
                        n == matrix.len(),
                        s == smaller(n as int, m as int),
                        t < s,
                        tt == t,
                        tracks(a@, a0, ops, n as int, m as int, tt),
                        mat_view(a@)[tt][tt] != 0,
                        finished ==> forall|i: int| tt < i < n ==> #[trigger] mat_view(a@)[i][tt] == 0,
                        finished ==> forall|j: int| tt < j < m ==> #[trigger] mat_view(a@)[tt][j] == 0,
                        finished ==> forall|i: int, j: int|
                            tt < i < n && tt < j < m ==> divides(mat_view(a@)[tt][tt], #[trigger] mat_view(a@)[i][j]),
                    decreases magnitude(mat_view(a@)[tt][tt]) + (if finished { 0int } else { 1int }),
                {
                    let p = a[t][t];
                    assert(p as int == mat_view(a@)[tt][tt]);
                    // make every entry below the pivot smaller than it
                    let mut i = t + 1;
                    while i < n
                        invariant
                            n == matrix.len(),
                            s == smaller(n as int, m as int),
                            t < s,
                            tt == t,
                            t < i,
                            tracks(a@, a0, ops, n as int, m as int, tt),
                            p != 0,
                            mat_view(a@)[tt][tt] == p,
                            forall|r: int| tt < r < i ==> magnitude(#[trigger] mat_view(a@)[r][tt]) < magnitude(p as int),
                        decreases n - i,
                    {
                        let x = a[i][t];
                        let q = quotient(x, p);
                        let op = Ghost(MatrixOp::AddRow(tt, i as int, -q as int));
                        proof {
                            lemma_step(a0, ops, op@, n as int, m as int, tt);
                        }
                        let ghost before = mat_view(a@);
                        if !ex_add_row(&mut a, t, i, -q, m) {
                            return None;
                        }
                        proof {
                            ops = ops.push(op@);
                            assert(before[i as int][tt] == x as int);
                            assert(mat_view(a@)[i as int][tt] == before[i as int][tt] + (-q) * before[tt][tt]);
                            assert((-q) * (p as int) == -(q * p)) by (nonlinear_arith);
                            assert(mat_view(a@)[i as int][tt] == x - q * p);
                            assert forall|r: int| tt <= r < n && r != i implies #[trigger] mat_view(a@)[r] == before[r] by {}
                        }
                        i = i + 1;
                    }
                    // make every entry right of the pivot smaller than it
                    let mut j = t + 1;
                    while j < m
                        invariant
                            n == matrix.len(),
                            s == smaller(n as int, m as int),
                            t < s,
                            tt == t,
                            t < j,
                            tracks(a@, a0, ops, n as int, m as int, tt),
                            p != 0,
                            mat_view(a@)[tt][tt] == p,
                            forall|r: int| tt < r < n ==> magnitude(#[trigger] mat_view(a@)[r][tt]) < magnitude(p as int),
                            forall|c: int| tt < c < j ==> magnitude(#[trigger] mat_view(a@)[tt][c]) < magnitude(p as int),
                        decreases m - j,
                    {
                        let x = a[t][j];
                        let q = quotient(x, p);
                        let op = Ghost(MatrixOp::AddCol(tt, j as int, -q as int));
                        proof {
                            lemma_step(a0, ops, op@, n as int, m as int, tt);
                        }
                        let ghost before = mat_view(a@);
                        if !ex_add_col(&mut a, t, j, -q, m) {
                            return None;
                        }
                        proof {
                            ops = ops.push(op@);
                            assert(before[tt][j as int] == x as int);
                            assert(mat_view(a@)[tt][j as int] == before[tt][j as int] + (-q) * before[tt][tt]);
                            assert((-q) * (p as int) == -(q * p)) by (nonlinear_arith);
                            assert(mat_view(a@)[tt][j as int] == x - q * p);
                            assert forall|r: int| 0 <= r < n implies #[trigger] mat_view(a@)[r][tt] == before[r][tt] by {}
                            assert forall|c: int| tt <= c < m && c != j implies #[trigger] mat_view(a@)[tt][c] == before[tt][c] by {}
                        }
                        j = j + 1;
                    }
                    match find_in_column(&a, t, m) {
                        Some(r) => {
                            let op = Ghost(MatrixOp::SwapRows(tt, r as int));
                            proof {
                                lemma_step(a0, ops, op@, n as int, m as int, tt);
                            }
                            ex_swap_rows(&mut a, t, r, m);
                            proof {
                                ops = ops.push(op@);
                            }
                        },
                        None => match find_in_row(&a, t, m) {
                            Some(c) => {
                                let op = Ghost(MatrixOp::SwapCols(tt, c as int));
                                proof {
                                    lemma_step(a0, ops, op@, n as int, m as int, tt);
                                }
                                ex_swap_cols(&mut a, t, c, m);
                                proof {
                                    ops = ops.push(op@);
                                }
                            },
                            None => match find_undivided(&a, t, m, p) {
                                Some((r, c)) => {
                                    let ghost v1 = mat_view(a@);
                                    let op1 = Ghost(MatrixOp::AddRow(r as int, tt, 1));
                                    proof {
                                        lemma_step(a0, ops, op1@, n as int, m as int, tt);
                                    }
                                    if !ex_add_row(&mut a, r, t, 1, m) {
                                        return None;
                                    }
                                    proof {
                                        ops = ops.push(op1@);
                                        assert(v1[r as int][tt] == 0);
                                        assert(mat_view(a@)[tt][tt] == p);
                                        assert(mat_view(a@)[tt][c as int] == v1[r as int][c as int]);
                                    }
                                    let x = a[t][c];
                                    let q = quotient(x, p);
                                    let ghost v2 = mat_view(a@);
                                    let op2 = Ghost(MatrixOp::AddCol(tt, c as int, -q as int));
                                    proof {
                                        lemma_step(a0, ops, op2@, n as int, m as int, tt);
                                    }
                                    if !ex_add_col(&mut a, t, c, -q, m) {
                                        return None;
                                    }
                                    proof {
                                        ops = ops.push(op2@);
                                        assert(v2[tt][c as int] == x as int);
                                        assert(v2[tt][tt] == p as int);
                                        assert(mat_view(a@)[tt][c as int] == v2[tt][c as int] + (-q) * v2[tt][tt]);
                                        assert((-q) * (p as int) == -(q * p)) by (nonlinear_arith);
                                        assert(mat_view(a@)[tt][c as int] == x - q * p);
                                    }
                                    let op3 = Ghost(MatrixOp::SwapCols(tt, c as int));
                                    proof {
                                        lemma_step(a0, ops, op3@, n as int, m as int, tt);
                                    }
                                    ex_swap_cols(&mut a, t, c, m);
                                    proof {
                                        ops = ops.push(op3@);
                                    }
                                },
                                None => {
                                    finished = true;
                                },
                            },
                        },
                    }
                }
                if a[t][t] < 0 {
                    let ghost v1 = mat_view(a@);
                    let op = Ghost(MatrixOp::NegateRow(tt));
                    proof {
                        lemma_step(a0, ops, op@, n as int, m as int, tt);
                    }
                    if !ex_negate_row(&mut a, t, m) {
                        return None;
                    }
                    proof {
                        ops = ops.push(op@);
                        let v = mat_view(a@);
                        assert forall|i: int| tt < i < n implies #[trigger] v[i][tt] == 0 by {
                            assert(v[i] == v1[i]);
                        }
                        assert forall|i: int, j: int| tt < i < n && tt < j < m implies divides(v[tt][tt], #[trigger] v[i][j]) by {
                            assert(v[i] == v1[i]);
                            assert(divides(v1[tt][tt], v1[i][j]));
                            lemma_divides_negated(v1[tt][tt], v1[i][j]);
                        }
                    }
                }
                proof {
                    lemma_settle_next(mat_view(a@), n as int, m as int, tt);
                }
                t = t + 1;
            },
        }
    }
    let ghost d = mat_view(a@);
    proof {
        assert forall|i: int, j: int| 0 <= i < n && 0 <= j < m && i != j implies #[trigger] d[i][j] == 0 by {
            if i < t || j < t {
            } else {
                assert(done);
            }
        }
        assert forall|i: int| 0 <= i && i + 1 < n && i + 1 < m implies divides(#[trigger] d[i][i], d[i + 1][i + 1]) by {
            if i + 1 >= t {
                assert(done);
                assert(d[i + 1][i + 1] == 0);
                lemma_divides_zero(d[i][i]);
            }
        }
        assert forall|i: int| 0 <= i < n && i < m implies #[trigger] d[i][i] >= 0 by {
            if i >= t {
                assert(done);
            }
        }
        assert(is_smith_form(d, n as int, m as int));
        assert(equivalent(a0, d, n as int, m as int));
    }
    let mut ds: Vec<i64> = Vec::new();
    for i in 0..s
        invariant
            s == smaller(n as int, m as int),
            d == mat_view(a@),
            a.len() == n,
            rows_have_len(a@, m as int),
            ds.len() == i,
            forall|k: int| 0 <= k < i ==> ds@[k] as int == d[k][k],
    {
        ds.push(a[i][i]);
    }
    Some(ds)
}

} // verus!
