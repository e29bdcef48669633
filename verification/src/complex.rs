//! Cochain complexes C^0 -> C^1 -> C^2 -> ... with their coboundary maps.
use vstd::prelude::*;

use crate::cochain::{add_fits, lemma_degree_field, scale_fits, scaled_map, sum_map, Cochain};
use crate::sums::{
    coeff, identity, in_i32, lemma_map_sum_remove, lemma_range_sum_add, lemma_range_sum_scale,
    lemma_sum_below_as_range, map_terms, lemma_map_sum_sign, lemma_map_sum_single,
    lemma_map_sum_split, lemma_map_sum_zero_on_entries, lemma_map_sum_zero_terms,
    lemma_prefix_sum_ge, lemma_prefix_sum_le, lemma_seq_sum_matches_map_sum, lemma_seq_sum_split,
    lemma_take_step, lists_entries, map_sum, negative, positive, range_sum, seq_sum,
};

verus! {

/// What a coboundary entry `(t2, d)` of a basis element with coefficient `c`
/// adds at the target index `t`, passed through `g`.
pub open spec fn entry_term(t: usize, c: i32, g: spec_fn(int) -> int) -> spec_fn(usize, i32) -> int {
    |t2: usize, d: i32|
        if t2 == t {
            g(c * d)
        } else {
            0
        }
}

/// What the basis element `b` with coefficient `c` adds at the target index `t`
/// through the coboundary columns `cols` (column `b` lists `(target, coefficient)` pairs).
pub open spec fn column_term(cols: Seq<Seq<(usize, i32)>>, t: usize, g: spec_fn(int) -> int) -> spec_fn(
    usize,
    i32,
) -> int {
    |b: usize, c: i32|
        if b < cols.len() {
            seq_sum(cols[b as int], entry_term(t, c, g))
        } else {
            0
        }
}

/// The coboundary data of nested vectors, as nested sequences.
pub open spec fn cob_view(c: Seq<Vec<Vec<(usize, i32)>>>) -> Seq<Seq<Seq<(usize, i32)>>> {
    Seq::new(c.len(), |k: int| Seq::new(c[k]@.len(), |b: int| c[k]@[b]@))
}

/// The part, through `g`, of the whole contribution at `t` of the basis element
/// `b` with coefficient `c`.
pub open spec fn block_part(cols: Seq<Seq<(usize, i32)>>, t: usize, g: spec_fn(int) -> int) -> spec_fn(
    usize,
    i32,
) -> int {
    |b: usize, c: i32| g(column_term(cols, t, identity())(b, c))
}

/// A whole contribution is its positive part plus its negative part.
proof fn lemma_block_parts(cols: Seq<Seq<(usize, i32)>>, t: usize)
    ensures
        forall|b: usize, c: i32| #[trigger] column_term(cols, t, identity())(b, c) == block_part(cols, t, positive())(b, c)
            + block_part(cols, t, negative())(b, c),
        forall|b: usize, c: i32| #[trigger] block_part(cols, t, positive())(b, c) >= 0,
        forall|b: usize, c: i32| #[trigger] block_part(cols, t, negative())(b, c) <= 0,
{
}

/// While the coboundary of `x` is accumulated along the listing `xs`, having
/// added the terms of the first `ii` basis elements and the first `jj` entries of
/// the next one's column, the running sum at `t` fits in an `i32`, and so does
/// the next entry's product.
proof fn lemma_running_sum_fits(
    c: CochainComplex,
    k: int,
    xs: Seq<(usize, i32)>,
    x: Map<usize, i32>,
    t: usize,
    ii: int,
    jj: int,
)
    requires
        0 <= k < c.max_deg(),
        k < c.cob().len(),
        c.coboundary_fits(x, k),
        lists_entries(xs, x),
        0 <= ii < xs.len(),
        xs[ii].0 < c.cob()[k].len(),
        0 <= jj <= c.cob()[k][xs[ii].0 as int].len(),
        t < c.dim(k + 1),
    ensures
        in_i32(seq_sum(xs.take(ii), column_term(c.cob()[k], t, identity())) + seq_sum(
            c.cob()[k][xs[ii].0 as int].take(jj),
            entry_term(t, xs[ii].1, identity()),
        )),
        jj < c.cob()[k][xs[ii].0 as int].len() && c.cob()[k][xs[ii].0 as int][jj].0 == t ==> in_i32(
            xs[ii].1 * c.cob()[k][xs[ii].0 as int][jj].1,
        ),
{
    let cols = c.cob()[k];
    let b = xs[ii].0;
    let cb = xs[ii].1;
    let fi = column_term(cols, t, identity());
    let fp = block_part(cols, t, positive());
    let fnn = block_part(cols, t, negative());
    lemma_block_parts(cols, t);
    assert(x.contains_key(xs[ii].0) && x[xs[ii].0] == xs[ii].1);
    assert forall|i: int| 0 <= i < xs.len() implies #[trigger] fp(xs[i].0, xs[i].1) >= 0 && fnn(xs[i].0, xs[i].1) <= 0 by {}
    lemma_seq_sum_split(xs.take(ii), fi, fp, fnn);
    lemma_take_step(xs, fp, ii);
    lemma_take_step(xs, fnn, ii);
    lemma_prefix_sum_le(xs, fp, ii);
    lemma_prefix_sum_le(xs, fp, ii + 1);
    lemma_prefix_sum_ge(xs, fnn, ii);
    lemma_prefix_sum_ge(xs, fnn, ii + 1);
    lemma_seq_sum_matches_map_sum(xs, x, fp);
    lemma_seq_sum_matches_map_sum(xs, x, fnn);
    lemma_map_sum_remove(x, fp, b);
    lemma_map_sum_remove(x, fnn, b);
    let inner = seq_sum(cols[b as int].take(jj), entry_term(t, x[b], identity()));
    assert(map_sum(x.remove(b), fp) + inner <= i32::MAX);
    assert(map_sum(x.remove(b), fnn) + inner >= i32::MIN);
}

/// A cochain complex C^0 -> C^1 -> C^2 -> ...
///
/// The coboundary d: C^k -> C^{k+1} is the adjoint of the boundary operator.
#[derive(Debug, Clone)]
pub struct CochainComplex {
    /// Maximum degree.
    pub max_degree: usize,
    /// Dimension of each C^k.
    pub dimensions: Vec<usize>,
    /// Coboundary matrices d_k: C^k -> C^{k+1}.
    /// Stored as d[k][i] = list of (j, coeff) meaning d(e_i^k) contributes coeff * e_j^{k+1}.
    pub(crate) coboundary: Vec<Vec<Vec<(usize, i32)>>>,
}

/// The maximum degree and dimensions that contracts see are the fields.
pub(crate) proof fn lemma_complex_fields(c: &CochainComplex)
    ensures
        c.max_deg() == c.max_degree,
        c.dims() == c.dimensions@,
{
}

impl CochainComplex {
    /// The maximum degree, as contracts see it.
    pub closed spec fn max_deg(&self) -> usize {
        self.max_degree
    }

    /// The dimensions, as contracts see them.
    pub closed spec fn dims(&self) -> Seq<usize> {
        self.dimensions@
    }

    /// The coboundary data: `cob()[k][i]` lists the `(j, coeff)` pairs of d(e_i^k).
    pub closed spec fn cob(&self) -> Seq<Seq<Seq<(usize, i32)>>> {
        cob_view(self.coboundary@)
    }

    /// Dimension of C^k, zero beyond the listed dimensions.
    pub open spec fn dim(&self, k: int) -> int {
        if 0 <= k < self.dims().len() {
            self.dims()[k] as int
        } else {
            0
        }
    }

    /// Sum, through `g`, of all terms that the coboundary of `x` (of degree `k`)
    /// receives at the target index `t`.
    pub open spec fn image_sum(&self, x: Map<usize, i32>, k: int, t: usize, g: spec_fn(int) -> int) -> int {
        if 0 <= k < self.max_deg() && k < self.cob().len() {
            map_sum(x, column_term(self.cob()[k], t, g))
        } else {
            0
        }
    }

    /// The coefficients of the coboundary of the degree-`k` cochain `x`: zero from
    /// the maximum degree on, otherwise the summed terms at each target below dim(k+1).
    pub open spec fn coboundary_image(&self, x: Map<usize, i32>, k: int) -> Map<usize, i32> {
        Map::new(
            |t: usize| t < self.dim(k + 1) && self.image_sum(x, k, t, identity()) != 0,
            |t: usize| self.image_sum(x, k, t, identity()) as i32,
        )
    }

    /// Whatever order the basis elements of `x` are taken in, every product and every
    /// running sum at each target fits in an `i32`. Before a column is walked, any
    /// set of the other basis elements may have been added, so the bound is the sum
    /// of their positive (negative) whole contributions plus each prefix of the column.
    pub open spec fn coboundary_fits(&self, x: Map<usize, i32>, k: int) -> bool {
        0 <= k < self.max_deg() && k < self.cob().len() ==> forall|t: usize, b: usize, j: int|
            t < self.dim(k + 1) && x.contains_key(b) && b < self.cob()[k].len() && 0 <= j
                <= self.cob()[k][b as int].len() ==> {
                &&& map_sum(x.remove(b), block_part(self.cob()[k], t, positive())) + #[trigger] seq_sum(
                    self.cob()[k][b as int].take(j),
                    entry_term(t, x[b], identity()),
                ) <= i32::MAX
                &&& map_sum(x.remove(b), block_part(self.cob()[k], t, negative())) + seq_sum(
                    self.cob()[k][b as int].take(j),
                    entry_term(t, x[b], identity()),
                ) >= i32::MIN
                &&& j < self.cob()[k][b as int].len() && self.cob()[k][b as int][j].0 == t ==> in_i32(
                    x[b] * self.cob()[k][b as int][j].1,
                )
            }
    }

    /// The total coefficient that d_k gives the target `t` in the image of the basis element `b`.
    pub open spec fn weight(&self, k: int, b: int, t: int) -> int {
        if 0 <= k < self.max_deg() && k < self.cob().len() && 0 <= b < self.cob()[k].len() && 0 <= t
            <= usize::MAX {
            seq_sum(self.cob()[k][b], entry_term(t as usize, 1, identity()))
        } else {
            0
        }
    }

    /// The coefficient of e_u in d_{k+1}(d_k(e_b)) before any reduction:
    /// the sum over s below dim(k+1) of weight(k, b, s) * weight(k+1, s, u).
    pub open spec fn composite_weight(&self, k: int, b: int, u: int) -> int {
        range_sum(|s: int| self.weight(k, b, s) * self.weight(k + 1, s, u), self.dim(k + 1) as nat)
    }

    /// The summed coefficient that column `c` of the coboundary data of degree `k`
    /// gives the row `r`: every pair (r, d) listed in the column contributes d.
    pub open spec fn column_weight(&self, k: int, r: usize, c: int) -> int {
        if 0 <= k < self.cob().len() && 0 <= c < self.cob()[k].len() {
            seq_sum(self.cob()[k][c], entry_term(r, 1, identity()))
        } else {
            0
        }
    }

    /// Entry (r, c) of the dense matrix of d_k.
    pub open spec fn matrix_entry(&self, k: int, r: usize, c: int) -> i32 {
        self.column_weight(k, r, c) as i32
    }

    /// Every running sum of every entry of the dense matrix of d_k fits in an `i32`.
    pub open spec fn matrix_fits(&self, k: int) -> bool {
        forall|r: usize, c: int, j: int|
            r < self.dim(k + 1) && 0 <= c < self.dim(k) && 0 <= k < self.cob().len() && c < self.cob()[k].len()
                && 0 <= j <= self.cob()[k][c].len() ==> #[trigger] in_i32(
                seq_sum(self.cob()[k][c].take(j), entry_term(r, 1, identity())),
            )
    }

    /// The dense matrix of d_k: dim(k+1) rows and dim(k) columns.
    pub open spec fn matrix_spec(&self, k: int) -> Seq<Seq<i32>> {
        Seq::new(
            self.dim(k + 1) as nat,
            |r: int| Seq::new(self.dim(k) as nat, |c: int| self.matrix_entry(k, r as usize, c)),
        )
    }

    /// Apply the coboundary operator d_k to a cochain of degree k.
    pub fn apply_coboundary(&self, cochain: &Cochain) -> (r: Cochain)
        requires
            cochain.wf(),
            cochain.deg() < usize::MAX,
            self.coboundary_fits(cochain@, cochain.deg() as int),
        ensures
            r.wf(),
            r.deg() == cochain.deg() + 1,
            r@ == self.coboundary_image(cochain@, cochain.deg() as int),
    {
        proof {
            lemma_degree_field(cochain);
        }
        let k = cochain.degree;
        let ghost x = cochain@;
        if k >= self.max_degree {
            let r = Cochain::zero(k + 1);
            assert(r@ =~= self.coboundary_image(x, k as int));
            return r;
        }
        let target_dim = if k + 1 < self.dimensions.len() {
            self.dimensions[k + 1]
        } else {
            0
        };
        let mut result_coeffs: Vec<i32> = Vec::new();
        for i in 0..target_dim
            invariant
                result_coeffs.len() == i,
                forall|t: int| 0 <= t < i ==> result_coeffs@[t] == 0,
        {
            result_coeffs.push(0);
        }
        let ghost cols = self.cob()[k as int];
        if k < self.coboundary.len() {
            let entries = cochain.entry_list();
            let ghost xs = entries@;
            for ii in 0..entries.len()
                invariant
                    entries@ == xs,
                    lists_entries(xs, x),
                    k < self.coboundary.len(),
                    k < self.max_degree,
                    cols == self.cob()[k as int],
                    target_dim == self.dim(k + 1),
                    result_coeffs.len() == target_dim,
                    self.coboundary_fits(x, k as int),
                    forall|t: usize| t < target_dim ==> #[trigger] result_coeffs@[t as int] as int
                        == seq_sum(xs.take(ii as int), column_term(cols, t, identity())),
            {
                let (b, c) = entries[ii];
                proof {
                    assert forall|t: usize| t < target_dim implies seq_sum(xs.take(ii + 1), column_term(cols, t, identity()))
                        == seq_sum(xs.take(ii as int), column_term(cols, t, identity())) + column_term(cols, t, identity())(b, c) by {
                        lemma_take_step(xs, column_term(cols, t, identity()), ii as int);
                    }
                }
                if b < self.coboundary[k].len() {
                    let col = &self.coboundary[k][b];
                    assert(col@ == cols[b as int]);
                    for jj in 0..col.len()
                        invariant
                            entries@ == xs,
                            lists_entries(xs, x),
                            0 <= ii < xs.len(),
                            xs[ii as int] == (b, c),
                            b < cols.len(),
                            col@ == cols[b as int],
                            k < self.coboundary.len(),
                            k < self.max_degree,
                            cols == self.cob()[k as int],
                            target_dim == self.dim(k + 1),
                            result_coeffs.len() == target_dim,
                            self.coboundary_fits(x, k as int),
                            forall|t: usize| t < target_dim ==> #[trigger] result_coeffs@[t as int] as int
                                == seq_sum(xs.take(ii as int), column_term(cols, t, identity()))
                                + seq_sum(col@.take(jj as int), entry_term(t, c, identity())),
                    {
                        let (t, d) = col[jj];
                        proof {
                            assert forall|t2: usize| t2 < target_dim implies seq_sum(col@.take(jj + 1), entry_term(t2, c, identity()))
                                == seq_sum(col@.take(jj as int), entry_term(t2, c, identity())) + entry_term(t2, c, identity())(t, d) by {
                                lemma_take_step(col@, entry_term(t2, c, identity()), jj as int);
                            }
                        }
                        if t < target_dim {
                            proof {
                                lemma_running_sum_fits(*self, k as int, xs, x, t, ii as int, jj as int);
                                lemma_running_sum_fits(*self, k as int, xs, x, t, ii as int, jj + 1);
                            }
                            let updated = result_coeffs[t] + c * d;
                            result_coeffs.set(t, updated);
                        }
                    }
                    assert(col@.take(col@.len() as int) =~= col@);
                }
            }
            assert(xs.take(xs.len() as int) =~= xs);
            proof {
                assert forall|t: usize| t < target_dim implies #[trigger] result_coeffs@[t as int] as int
                    == self.image_sum(x, k as int, t, identity()) by {
                    lemma_seq_sum_matches_map_sum(xs, x, column_term(cols, t, identity()));
                }
            }
        }
        let mut result = Cochain::zero(k + 1);
        for i in 0..target_dim
            invariant
                result_coeffs.len() == target_dim,
                target_dim == self.dim(k + 1),
                k < self.max_degree,
                forall|t: usize| t < target_dim ==> #[trigger] result_coeffs@[t as int] as int
                    == self.image_sum(x, k as int, t, identity()),
                result.wf(),
                result.deg() == k + 1,
                result@ == Map::new(
                    |t: usize| t < i && result_coeffs@[t as int] != 0,
                    |t: usize| result_coeffs@[t as int],
                ),
        {
            let c = result_coeffs[i];
            if c != 0 {
                result.set_coeff(i, c);
            }
            assert(result@ =~= Map::new(
                |t: usize| t < i + 1 && result_coeffs@[t as int] != 0,
                |t: usize| result_coeffs@[t as int],
            ));
        }
        assert(result@ =~= self.coboundary_image(x, k as int));
        result
    }

    /// Get the coboundary matrix d_k as a dense matrix.
    pub fn coboundary_matrix(&self, k: usize) -> (mat: Vec<Vec<i32>>)
        requires
            k < usize::MAX,
            self.matrix_fits(k as int),
        ensures
            mat@.len() == self.dim(k + 1),
            forall|r: int| 0 <= r < mat@.len() ==> #[trigger] mat@[r]@ == self.matrix_spec(k as int)[r],
    {
        let rows = if k + 1 < self.dimensions.len() {
            self.dimensions[k + 1]
        } else {
            0
        };
        let cols = if k < self.dimensions.len() {
            self.dimensions[k]
        } else {
            0
        };
        let ghost cob = self.cob();
        let mut mat: Vec<Vec<i32>> = Vec::new();
        for r in 0..rows
            invariant
                mat.len() == r,
                forall|i: int| 0 <= i < r ==> #[trigger] mat@[i]@ == Seq::new(cols as nat, |c: int| 0i32),
        {
            let mut row: Vec<i32> = Vec::new();
            for c in 0..cols
                invariant
                    row.len() == c,
                    forall|j: int| 0 <= j < c ==> row@[j] == 0,
            {
                row.push(0);
            }
            assert(row@ =~= Seq::new(cols as nat, |c: int| 0i32));
            mat.push(row);
        }
        if k < self.coboundary.len() {
            let ncols = self.coboundary[k].len();
            for col in 0..ncols
                invariant
                    k < self.coboundary.len(),
                    ncols == cob[k as int].len(),
                    cob == self.cob(),
                    rows == self.dim(k + 1),
                    cols == self.dim(k as int),
                    mat.len() == rows,
                    forall|i: int| 0 <= i < rows ==> (#[trigger] mat@[i]@).len() == cols,
                    self.matrix_fits(k as int),
                    forall|i: int, j: int| 0 <= i < rows && 0 <= j < cols ==> #[trigger] mat@[i]@[j] as int
                        == if j < col {
                            self.column_weight(k as int, i as usize, j)
                        } else {
                            0
                        },
            {
                let entries = &self.coboundary[k][col];
                assert(entries@ == cob[k as int][col as int]);
                for q in 0..entries.len()
                    invariant
                        k < self.coboundary.len(),
                        col < ncols,
                        ncols == cob[k as int].len(),
                        entries@ == cob[k as int][col as int],
                        rows == self.dim(k + 1),
                        cols == self.dim(k as int),
                        mat.len() == rows,
                        forall|i: int| 0 <= i < rows ==> (#[trigger] mat@[i]@).len() == cols,
                        cob == self.cob(),
                        self.matrix_fits(k as int),
                        forall|i: int, j: int| 0 <= i < rows && 0 <= j < cols ==> #[trigger] mat@[i]@[j] as int
                            == if j < col {
                                self.column_weight(k as int, i as usize, j)
                            } else if j == col {
                                seq_sum(entries@.take(q as int), entry_term(i as usize, 1, identity()))
                            } else {
                                0
                            },
                {
                    let (row, val) = entries[q];
                    proof {
                        assert forall|i: usize| seq_sum(entries@.take(q + 1), entry_term(i, 1, identity()))
                            == seq_sum(entries@.take(q as int), entry_term(i, 1, identity())) + if i == row {
                            val as int
                        } else {
                            0
                        } by {
                            lemma_take_step(entries@, entry_term(i, 1, identity()), q as int);
                        }
                    }
                    if row < rows && col < cols {
                        proof {
                            assert(in_i32(seq_sum(cob[k as int][col as int].take(q + 1), entry_term(row, 1, identity()))));
                        }
                        let updated = mat[row][col] + val;
                        mat[row].set(col, updated);
                    }
                    proof {
                        if !(row < rows && col < cols) {
                            assert forall|i: int, j: int| 0 <= i < rows && 0 <= j < cols implies #[trigger] mat@[i]@[j] as int
                                == if j < col {
                                    self.column_weight(k as int, i as usize, j)
                                } else if j == col {
                                    seq_sum(entries@.take(q + 1), entry_term(i as usize, 1, identity()))
                                } else {
                                    0
                                } by {
                                if j == col {
                                    assert((i as usize) != row);
                                }
                            }
                        }
                    }
                }
                assert(entries@.take(entries@.len() as int) =~= entries@);
            }
        }
        proof {
            assert forall|r: int| 0 <= r < mat@.len() implies #[trigger] mat@[r]@ == self.matrix_spec(k as int)[r] by {
                assert(mat@[r]@ =~= self.matrix_spec(k as int)[r]);
            }
        }
        mat
    }

    /// Create a new cochain complex with given dimensions and coboundary matrices.
    pub fn new(dimensions: Vec<usize>, coboundary: Vec<Vec<Vec<(usize, i32)>>>) -> (c: Self)
        ensures
            c.max_deg() == if dimensions.len() == 0 {
                0
            } else {
                dimensions.len() - 1
            },
            c.dims() == dimensions@,
            c.cob() == cob_view(coboundary@),
    {
        let max_degree = dimensions.len().saturating_sub(1);
        CochainComplex { max_degree, dimensions, coboundary }
    }

    /// Create a trivial complex with no coboundaries (all d = 0).
    pub fn trivial(dimensions: Vec<usize>) -> (c: Self)
        ensures
            c.max_deg() == if dimensions.len() == 0 {
                0
            } else {
                dimensions.len() - 1
            },
            c.dims() == dimensions@,
            c.cob() == Seq::new(c.max_deg() as nat, |k: int| Seq::<Seq<(usize, i32)>>::empty()),
    {
        let max_degree = dimensions.len().saturating_sub(1);
        let mut coboundary: Vec<Vec<Vec<(usize, i32)>>> = Vec::new();
        for k in 0..max_degree
            invariant
                coboundary.len() == k,
                forall|i: int| 0 <= i < k ==> coboundary@[i]@.len() == 0,
        {
            coboundary.push(Vec::new());
        }
        let c = CochainComplex { max_degree, dimensions, coboundary };
        assert forall|k: int| 0 <= k < c.cob().len() implies c.cob()[k] =~= Seq::<Seq<(usize, i32)>>::empty() by {
            assert(c.coboundary@[k]@.len() == 0);
        }
        assert(c.cob() =~= Seq::new(c.max_deg() as nat, |k: int| Seq::<Seq<(usize, i32)>>::empty()));
        c
    }

    /// Create the cochain complex for S^1 (circle).
    /// C^0 <- C^1 with d = 0 (since H^0 = Z, H^1 = Z).
    pub fn for_circle() -> (c: Self)
        ensures
            c.max_deg() == 1,
            c.dims() == seq![1usize, 1usize],
            c.cob() == seq![Seq::<Seq<(usize, i32)>>::empty()],
    {
        let c = Self::trivial(vec![1, 1]);
        assert(c.cob() =~= seq![Seq::<Seq<(usize, i32)>>::empty()]);
        c
    }

    /// Create the cochain complex for S^2 (2-sphere).
    /// C^0 <- C^1 <- C^2 with all d = 0.
    pub fn for_sphere() -> (c: Self)
        ensures
            c.max_deg() == 2,
            c.dims() == seq![1usize, 0usize, 1usize],
            c.cob() == seq![Seq::<Seq<(usize, i32)>>::empty(), Seq::<Seq<(usize, i32)>>::empty()],
    {
        let c = Self::trivial(vec![1, 0, 1]);
        assert(c.cob() =~= seq![Seq::<Seq<(usize, i32)>>::empty(), Seq::<Seq<(usize, i32)>>::empty()]);
        c
    }

    /// Create the cochain complex for RP^2 (real projective plane).
    /// Over Z/2: H^0 = Z/2, H^1 = Z/2, H^2 = Z/2.
    pub fn for_rp2() -> (c: Self)
        ensures
            c.max_deg() == 2,
            c.dims() == seq![1usize, 1usize, 1usize],
            c.cob() == seq![Seq::<Seq<(usize, i32)>>::empty(), Seq::<Seq<(usize, i32)>>::empty()],
    {
        // Z/2 cellular chain: one cell in each dimension 0, 1, 2.
        // d_0 is 0 (mod 2), d_1 is multiplication by 2 = 0 (mod 2).
        let c = Self::trivial(vec![1, 1, 1]);
        assert(c.cob() =~= seq![Seq::<Seq<(usize, i32)>>::empty(), Seq::<Seq<(usize, i32)>>::empty()]);
        c
    }

    /// Create the cochain complex for the torus T^2.
    /// H^0 = Z, H^1 = Z^2, H^2 = Z.
    pub fn for_torus() -> (c: Self)
        ensures
            c.max_deg() == 2,
            c.dims() == seq![1usize, 2usize, 1usize],
            c.cob() == seq![Seq::<Seq<(usize, i32)>>::empty(), Seq::<Seq<(usize, i32)>>::empty()],
    {
        let c = Self::trivial(vec![1, 2, 1]);
        assert(c.cob() =~= seq![Seq::<Seq<(usize, i32)>>::empty(), Seq::<Seq<(usize, i32)>>::empty()]);
        c
    }
}

/// Without coboundary entries the coboundary of every cochain is zero, and its
/// running sums trivially fit.
pub proof fn lemma_coboundary_without_entries(c: CochainComplex, x: Map<usize, i32>, k: int)
    requires
        forall|j: int, b: int|
            0 <= j < c.cob().len() && 0 <= b < c.cob()[j].len() ==> (#[trigger] c.cob()[j][b]).len() == 0,
    ensures
        c.coboundary_image(x, k) == Map::<usize, i32>::empty(),
        c.coboundary_fits(x, k),
{
    assert forall|t: usize, g: spec_fn(int) -> int| #[trigger] c.image_sum(x, k, t, g) == 0 by {
        if 0 <= k < c.max_deg() && k < c.cob().len() {
            let f = column_term(c.cob()[k], t, g);
            assert forall|b: usize, v: i32| #[trigger] f(b, v) == 0 by {
                if b < c.cob()[k].len() {
                    assert(c.cob()[k][b as int].len() == 0);
                }
            }
            lemma_map_sum_zero_terms(x, f);
        }
    }
    assert(c.coboundary_image(x, k) =~= Map::<usize, i32>::empty());
    if 0 <= k < c.max_deg() && k < c.cob().len() {
        let cols = c.cob()[k];
        assert forall|t: usize, b: usize, j: int|
            t < c.dim(k + 1) && x.contains_key(b) && b < cols.len() && 0 <= j <= cols[b as int].len() implies {
                &&& map_sum(x.remove(b), block_part(cols, t, positive())) + #[trigger] seq_sum(
                    cols[b as int].take(j),
                    entry_term(t, x[b], identity()),
                ) <= i32::MAX
                &&& map_sum(x.remove(b), block_part(cols, t, negative())) + seq_sum(
                    cols[b as int].take(j),
                    entry_term(t, x[b], identity()),
                ) >= i32::MIN
                &&& j < cols[b as int].len() && cols[b as int][j].0 == t ==> in_i32(x[b] * cols[b as int][j].1)
            } by {
            assert(cols[b as int].len() == 0);
            assert(cols[b as int].take(j) =~= Seq::<(usize, i32)>::empty());
            let fp = block_part(cols, t, positive());
            let fnn = block_part(cols, t, negative());
            assert forall|b2: usize, v: i32| #[trigger] fp(b2, v) == 0 && fnn(b2, v) == 0 by {
                if b2 < cols.len() {
                    assert(cols[b2 as int].len() == 0);
                }
            }
            lemma_map_sum_zero_terms(x.remove(b), fp);
            lemma_map_sum_zero_terms(x.remove(b), fnn);
        }
    }
}

/// A column's contribution is the coefficient times the column's weight.
proof fn lemma_entry_term_linear(col: Seq<(usize, i32)>, t: usize, c: i32)
    ensures
        seq_sum(col, entry_term(t, c, identity())) == c * seq_sum(col, entry_term(t, 1, identity())),
    decreases col.len(),
{
    if col.len() > 0 {
        lemma_entry_term_linear(col.drop_last(), t, c);
        let a = seq_sum(col.drop_last(), entry_term(t, 1, identity()));
        let d = col.last().1 as int;
        let w = if col.last().0 == t {
            d
        } else {
            0
        };
        assert(c * a + c * w == c * (a + w)) by (nonlinear_arith);
        assert(c * 1 * d == c * d) by (nonlinear_arith);
    }
}

/// The summed image of `y` under d_k at `t` is the sum of each coefficient times its weight.
pub proof fn lemma_image_sum_weights(c: CochainComplex, y: Map<usize, i32>, k: int, t: usize)
    ensures
        c.image_sum(y, k, t, identity()) == map_sum(y, |b: usize, v: i32| v * c.weight(k, b as int, t as int)),
{
    let g = |b: usize, v: i32| v * c.weight(k, b as int, t as int);
    if 0 <= k < c.max_deg() && k < c.cob().len() {
        let f = column_term(c.cob()[k], t, identity());
        assert forall|b: usize, v: i32| #[trigger] f(b, v) == g(b, v) by {
            if b < c.cob()[k].len() {
                lemma_entry_term_linear(c.cob()[k][b as int], t, v);
            }
        }
        assert(f =~= g);
    } else {
        assert forall|b: usize, v: i32| #[trigger] g(b, v) == 0 by {}
        lemma_map_sum_zero_terms(y, g);
    }
}

/// When the running sums fit, so does the summed image itself.
pub proof fn lemma_image_sum_fits(c: CochainComplex, y: Map<usize, i32>, k: int, t: usize)
    requires
        c.coboundary_fits(y, k),
        t < c.dim(k + 1),
    ensures
        in_i32(c.image_sum(y, k, t, identity())),
{
    if 0 <= k < c.max_deg() && k < c.cob().len() {
        let cols = c.cob()[k];
        let fi = column_term(cols, t, identity());
        let fp = block_part(cols, t, positive());
        let fnn = block_part(cols, t, negative());
        lemma_block_parts(cols, t);
        if exists|b: usize| y.contains_key(b) && b < cols.len() {
            let b = choose|b: usize| y.contains_key(b) && b < cols.len();
            let rest = y.remove(b);
            lemma_map_sum_remove(y, fi, b);
            lemma_map_sum_split(rest, fi, fp, fnn);
            lemma_map_sum_sign(rest, fp, true);
            lemma_map_sum_sign(rest, fnn, false);
            let col = cols[b as int];
            assert(col.take(col.len() as int) =~= col);
            assert(map_sum(rest, fp) + seq_sum(col.take(col.len() as int), entry_term(t, y[b], identity()))
                <= i32::MAX);
            assert(map_sum(rest, fnn) + seq_sum(col.take(col.len() as int), entry_term(t, y[b], identity()))
                >= i32::MIN);
        } else {
            assert forall|b: usize| #[trigger] y.contains_key(b) implies fi(b, y[b]) == 0 by {}
            lemma_map_sum_zero_on_entries(y, fi);
        }
    }
}

/// Each coefficient times its weight under d_k at `t`, as a summand.
pub open spec fn weighted(c: CochainComplex, k: int, t: usize) -> spec_fn(usize, i32) -> int {
    |b: usize, v: i32| v * c.weight(k, b as int, t as int)
}

/// The terms of a weighted sum over a map, as coefficient times weight.
proof fn lemma_weighted_terms(m: Map<usize, i32>, c: CochainComplex, k: int, t: usize)
    ensures
        forall|i: int| 0 <= i <= usize::MAX ==> #[trigger] map_terms(m, weighted(c, k, t))(i)
            == coeff(m, i as usize) * c.weight(k, i, t as int),
{
}

/// The coboundary is linear: the summed image of a + b is the image of a plus
/// the image of b, and that of s * a is s times the image of a; when every
/// running sum fits, so are the coefficients of the coboundaries themselves.
pub proof fn lemma_coboundary_linear(c: CochainComplex, a: Map<usize, i32>, b: Map<usize, i32>, s: i32, k: int, t: usize)
    requires
        add_fits(a, b),
        scale_fits(a, s),
    ensures
        c.image_sum(sum_map(a, b), k, t, identity()) == c.image_sum(a, k, t, identity()) + c.image_sum(b, k, t, identity()),
        c.image_sum(scaled_map(a, s), k, t, identity()) == s * c.image_sum(a, k, t, identity()),
        c.coboundary_fits(a, k) && c.coboundary_fits(b, k) && c.coboundary_fits(sum_map(a, b), k) ==> coeff(
            c.coboundary_image(sum_map(a, b), k),
            t,
        ) == coeff(c.coboundary_image(a, k), t) + coeff(c.coboundary_image(b, k), t),
        c.coboundary_fits(a, k) && c.coboundary_fits(scaled_map(a, s), k) ==> coeff(
            c.coboundary_image(scaled_map(a, s), k),
            t,
        ) == s * coeff(c.coboundary_image(a, k), t),
{
    let g = weighted(c, k, t);
    let big = usize::MAX as nat + 1;
    let ab = sum_map(a, b);
    let sa = scaled_map(a, s);
    lemma_image_sum_weights(c, a, k, t);
    lemma_image_sum_weights(c, b, k, t);
    lemma_image_sum_weights(c, ab, k, t);
    lemma_image_sum_weights(c, sa, k, t);
    lemma_sum_below_as_range(a, g, big);
    lemma_sum_below_as_range(b, g, big);
    lemma_sum_below_as_range(ab, g, big);
    lemma_sum_below_as_range(sa, g, big);
    lemma_weighted_terms(a, c, k, t);
    lemma_weighted_terms(b, c, k, t);
    lemma_weighted_terms(ab, c, k, t);
    lemma_weighted_terms(sa, c, k, t);
    assert forall|i: int| 0 <= i < big implies #[trigger] map_terms(ab, g)(i) == map_terms(a, g)(i) + map_terms(b, g)(i) by {
        let w = c.weight(k, i, t as int);
        assert(in_i32(coeff(a, i as usize) + coeff(b, i as usize)));
        assert(coeff(ab, i as usize) == coeff(a, i as usize) + coeff(b, i as usize));
        assert((coeff(a, i as usize) + coeff(b, i as usize)) * w == coeff(a, i as usize) * w + coeff(b, i as usize) * w)
            by (nonlinear_arith);
    }
    lemma_range_sum_add(map_terms(ab, g), map_terms(a, g), map_terms(b, g), big);
    assert forall|i: int| 0 <= i < big implies #[trigger] map_terms(sa, g)(i) == map_terms(a, g)(i) * s by {
        let w = c.weight(k, i, t as int);
        let ca = coeff(a, i as usize);
        if a.contains_key(i as usize) {
            assert(in_i32(a[i as usize] * s));
        }
        assert(coeff(sa, i as usize) == ca * s);
        assert((ca * s) * w == (ca * w) * s) by (nonlinear_arith);
    }
    lemma_range_sum_scale(map_terms(sa, g), map_terms(a, g), s as int, big);
    if t < c.dim(k + 1) {
        if c.coboundary_fits(a, k) {
            lemma_image_sum_fits(c, a, k, t);
        }
        if c.coboundary_fits(b, k) {
            lemma_image_sum_fits(c, b, k, t);
        }
        if c.coboundary_fits(ab, k) {
            lemma_image_sum_fits(c, ab, k, t);
        }
        if c.coboundary_fits(sa, k) {
            lemma_image_sum_fits(c, sa, k, t);
        }
    }
}

/// The dense matrix of d_k holds the coboundary of each basis element: entry
/// (t, b) sums what column `b` lists for the target `t`, which is the coefficient
/// of e_t in d_k(e_b).
pub proof fn lemma_matrix_column_is_coboundary(c: CochainComplex, k: int, b: usize, t: usize)
    requires
        0 <= k < c.max_deg(),
    ensures
        c.column_weight(k, t, b as int) == c.image_sum(Map::empty().insert(b, 1i32), k, t, identity()),
        in_i32(c.column_weight(k, t, b as int)) ==> c.matrix_entry(k, t, b as int) as int
            == c.image_sum(Map::empty().insert(b, 1i32), k, t, identity()),
{
    let e = Map::<usize, i32>::empty().insert(b, 1i32);
    let g = |b2: usize, v: i32| v * c.weight(k, b2 as int, t as int);
    lemma_image_sum_weights(c, e, k, t);
    lemma_map_sum_single(g, b, 1i32);
}

/// Each entry (t, b) of the dense matrix of d_k, for every degree k, is the summed
/// coefficient that the coboundary data of e_b lists for the target e_t: the pairs
/// (t, d) in column b contribute d, and no other column or row is read.
pub proof fn lemma_matrix_entries_are_coboundary_weights(c: CochainComplex, k: int, t: usize, b: int)
    requires
        c.matrix_fits(k),
        t < c.dim(k + 1),
        0 <= b < c.dim(k),
    ensures
        c.matrix_spec(k)[t as int][b] as int == c.column_weight(k, t, b),
        c.column_weight(k, t, b) == if 0 <= k < c.cob().len() && b < c.cob()[k].len() {
            seq_sum(c.cob()[k][b], entry_term(t, 1, identity()))
        } else {
            0
        },
        0 <= k < c.max_deg() ==> c.matrix_spec(k)[t as int][b] as int == coeff(
            c.coboundary_image(Map::empty().insert(b as usize, 1i32), k),
            t,
        ),
{
    if 0 <= k < c.cob().len() && b < c.cob()[k].len() {
        let col = c.cob()[k][b];
        assert(col.take(col.len() as int) =~= col);
        assert(in_i32(seq_sum(col.take(col.len() as int), entry_term(t, 1, identity()))));
    }
    assert(in_i32(c.column_weight(k, t, b)));
    if 0 <= k < c.max_deg() {
        lemma_coboundary_of_basis_element(c, k, b as usize, t);
    }
}

/// The coboundary of a basis element e_b of degree k below the maximum degree has,
/// at every target t < dim C^{k+1}, the summed coefficient that column b lists for t.
pub proof fn lemma_coboundary_of_basis_element(c: CochainComplex, k: int, b: usize, t: usize)
    requires
        0 <= k < c.max_deg(),
        t < c.dim(k + 1),
        in_i32(c.column_weight(k, t, b as int)),
    ensures
        coeff(c.coboundary_image(Map::empty().insert(b, 1i32), k), t) == c.column_weight(k, t, b as int),
{
    lemma_matrix_column_is_coboundary(c, k, b, t);
}

/// The coboundary of any cochain x of degree k: at each target t < dim C^{k+1} the
/// coefficient is the sum over the entries (b, v) of x of v times the coefficient
/// that column b lists for t; there are no other targets, and from the maximum
/// degree on the coboundary is zero.
pub proof fn lemma_coboundary_coefficients(c: CochainComplex, x: Map<usize, i32>, k: int, t: usize)
    requires
        c.coboundary_fits(x, k),
    ensures
        t < c.dim(k + 1) ==> coeff(c.coboundary_image(x, k), t) == map_sum(
            x,
            |b: usize, v: i32| v * c.weight(k, b as int, t as int),
        ),
        t >= c.dim(k + 1) ==> !c.coboundary_image(x, k).contains_key(t),
        !(0 <= k < c.max_deg()) ==> c.coboundary_image(x, k) == Map::<usize, i32>::empty(),
        0 <= k < c.max_deg() && k < c.cob().len() ==> forall|b: int| #[trigger] c.weight(k, b, t as int) == if 0 <= b < c.cob()[k].len() {
            seq_sum(c.cob()[k][b], entry_term(t, 1, identity()))
        } else {
            0
        },
{
    lemma_image_sum_weights(c, x, k, t);
    if t < c.dim(k + 1) {
        lemma_image_sum_fits(c, x, k, t);
    }
    if !(0 <= k < c.max_deg()) {
        assert(c.coboundary_image(x, k) =~= Map::<usize, i32>::empty());
    }
}

} // verus!
