//! Cohomology groups H^k = ker(d_k) / im(d_{k-1}) of a cochain complex.
use vstd::prelude::*;

use crate::complex::{lemma_complex_fields, CochainComplex};
use crate::null_space::{
    has_image_rank, has_nullity, lemma_image_dimension, lemma_null_space_dimension, lemma_rank_within_nullity,
    product_is_zero,
};
use crate::sums::range_sum;
use crate::torsion::{cokernel_torsion, is_cokernel_torsion, pairs_view};
use crate::row_space::{has_row_rank, lemma_rank_is_row_space_dimension};
use crate::rank::{
    col_count, elimination_fits, elimination_rank, lemma_rank_zero_iff_zero_matrix, matrix_rank,
    rows_cover, rows_view,
};

verus! {

/// Subtraction that stops at zero.
pub open spec fn sat_sub(a: int, b: int) -> int {
    if a > b {
        a - b
    } else {
        0
    }
}

/// The Betti number that `compute` reports for H^k: zero when C^k is empty,
/// otherwise dim C^k less the rank of d_k, less the rank of d_{k-1}, each stopping at zero.
/// Each rank is that of the coboundary's matrix, the dimension of its row space over the
/// rationals (`has_row_rank`).
pub open spec fn betti_number(c: CochainComplex, k: int) -> int {
    if c.dim(k) == 0 {
        0
    } else {
        let rank_k = elimination_rank(c.matrix_spec(k));
        let rank_prev = if k > 0 {
            elimination_rank(c.matrix_spec(k - 1))
        } else {
            0
        };
        sat_sub(sat_sub(c.dim(k), rank_k), rank_prev)
    }
}

/// The coboundary matrices and row reductions that computing H^k builds and runs stay within `i32`.
pub open spec fn compute_fits(c: CochainComplex, k: int) -> bool {
    c.dim(k) == 0 || (c.matrix_fits(k) && elimination_fits(c.matrix_spec(k)) && (k > 0 ==> c.matrix_fits(k - 1)
        && elimination_fits(c.matrix_spec(k - 1))))
}

/// The dense matrix of a coboundary has rows of equal length.
proof fn lemma_matrix_spec_rows_cover(c: CochainComplex, k: int)
    ensures
        rows_cover(c.matrix_spec(k)),
        c.matrix_spec(k).len() > 0 ==> col_count(c.matrix_spec(k)) == c.dim(k),
{
}

/// The cohomology group H^k of a cochain complex.
///
/// H^k = ker(d_k) / im(d_{k-1})
#[derive(Debug, Clone)]
pub struct CohomologyGroup {
    /// The degree k.
    pub degree: usize,
    /// Rank of the free part (Betti number).
    pub rank: usize,
    /// Torsion components: (prime, power) pairs.
    pub torsion: Vec<(usize, usize)>,
}

impl CohomologyGroup {
    /// Compute H^k of the given cochain complex: its degree, the rank of its free part,
    /// and its torsion, which (where d_k after d_{k-1} is zero) is that of the cokernel of
    /// d_{k-1}: the prime-power factors of the invariant factors above one of the Smith
    /// normal form of its matrix. The torsion list is left empty where that reduction
    /// would take an entry out of the `i64` range.
    pub fn compute(complex: &CochainComplex, k: usize) -> (g: Self)
        requires
            compute_fits(*complex, k as int),
        ensures
            g.degree == k,
            g.rank == betti_number(*complex, k as int),
            has_row_rank(complex.matrix_spec(k as int), elimination_rank(complex.matrix_spec(k as int))),
            has_nullity(
                complex.matrix_spec(k as int),
                complex.dim(k as int),
                complex.dim(k as int) - elimination_rank(complex.matrix_spec(k as int)),
            ),
            k > 0 ==> has_row_rank(complex.matrix_spec(k - 1), elimination_rank(complex.matrix_spec(k - 1))),
            k > 0 ==> has_image_rank(
                complex.matrix_spec(k - 1),
                complex.dim(k - 1),
                elimination_rank(complex.matrix_spec(k - 1)),
            ),
            k == 0 || coboundaries_compose_to_zero(*complex, k as int) ==> g.rank == complex.dim(k as int)
                - elimination_rank(complex.matrix_spec(k as int)) - (if k > 0 {
                elimination_rank(complex.matrix_spec(k - 1))
            } else {
                0
            }),
            k == 0 ==> g.torsion@.len() == 0,
            k > 0 ==> g.torsion@.len() == 0 || is_cokernel_torsion(
                complex.matrix_spec(k - 1),
                complex.dim(k as int),
                complex.dim(k - 1),
                pairs_view(g.torsion@),
            ),
    {
        proof {
            if k == 0 || coboundaries_compose_to_zero(*complex, k as int) {
                lemma_betti_is_kernel_less_image(*complex, k as int);
            }
            lemma_complex_fields(complex);
            lemma_matrix_spec_rows_cover(*complex, k as int);
            lemma_rank_is_row_space_dimension(complex.matrix_spec(k as int));
            lemma_null_space_dimension(complex.matrix_spec(k as int), complex.dim(k as int));
            if k > 0 {
                lemma_matrix_spec_rows_cover(*complex, k - 1);
                lemma_rank_is_row_space_dimension(complex.matrix_spec(k - 1));
                lemma_image_dimension(complex.matrix_spec(k - 1), complex.dim(k - 1));
            }
        }
        let dim_k = if k < complex.dimensions.len() {
            complex.dimensions[k]
        } else {
            0
        };
        assert(dim_k == complex.dim(k as int));
        if dim_k == 0 {
            return Self { degree: k, rank: 0, torsion: Vec::new() };
        }
        // rank of d_k, as a map from C^k
        let mat_k = complex.coboundary_matrix(k);
        proof {
            assert(rows_view(mat_k@) =~= complex.matrix_spec(k as int));
            lemma_matrix_spec_rows_cover(*complex, k as int);
        }
        let rank_delta_k = matrix_rank(mat_k.as_slice());
        // rank of d_{k-1}, as a map from C^{k-1} to C^k
        let mut torsion: Vec<(usize, usize)> = Vec::new();
        let rank_delta_km1 = if k > 0 {
            let mat_prev = complex.coboundary_matrix(k - 1);
            proof {
                assert(rows_view(mat_prev@) =~= complex.matrix_spec(k - 1));
                lemma_matrix_spec_rows_cover(*complex, k - 1);
            }
            let dim_prev = if k - 1 < complex.dimensions.len() {
                complex.dimensions[k - 1]
            } else {
                0
            };
            assert(dim_prev == complex.dim(k - 1));
            assert forall|i: int| 0 <= i < mat_prev.len() implies (#[trigger] mat_prev@[i])@.len() == dim_prev by {
                assert(rows_view(mat_prev@)[i] == mat_prev@[i]@);
            }
            // the torsion of H^k is that of the cokernel of d_{k-1}
            if let Some(t) = cokernel_torsion(&mat_prev, dim_prev) {
                torsion = t;
            }
            matrix_rank(mat_prev.as_slice())
        } else {
            0
        };
        // dim ker(d_k) = dim_k - rank(d_k); dim im(d_{k-1}) = rank(d_{k-1})
        let dim_kernel = dim_k.saturating_sub(rank_delta_k);
        let dim_image = rank_delta_km1;
        // H^k has rank = dim_kernel - dim_image
        let betti = dim_kernel.saturating_sub(dim_image);
        Self { degree: k, rank: betti, torsion }
    }

    /// Compute all cohomology groups up to max_degree.
    pub fn compute_all(complex: &CochainComplex) -> (groups: Vec<Self>)
        requires
            complex.max_deg() < usize::MAX,
            forall|k: int| 0 <= k <= complex.max_deg() ==> #[trigger] compute_fits(*complex, k),
        ensures
            groups.len() == complex.max_deg() + 1,
            forall|k: int|
                0 <= k < groups.len() ==> {
                    &&& (#[trigger] groups@[k]).degree == k
                    &&& groups@[k].rank == betti_number(*complex, k)
                    &&& k == 0 ==> groups@[k].torsion@.len() == 0
                    &&& k > 0 ==> groups@[k].torsion@.len() == 0 || is_cokernel_torsion(
                        complex.matrix_spec(k - 1),
                        complex.dim(k),
                        complex.dim(k - 1),
                        pairs_view(groups@[k].torsion@),
                    )
                },
    {
        proof {
            lemma_complex_fields(complex);
        }
        let max = complex.max_degree;
        assert(max == complex.max_deg());
        let mut groups: Vec<Self> = Vec::new();
        for k in 0..max + 1
            invariant
                max == complex.max_deg(),
                max < usize::MAX,
                forall|k: int| 0 <= k <= complex.max_deg() ==> #[trigger] compute_fits(*complex, k),
                groups.len() == k,
                forall|q: int|
                    0 <= q < k ==> {
                        &&& (#[trigger] groups@[q]).degree == q
                        &&& groups@[q].rank == betti_number(*complex, q)
                        &&& q == 0 ==> groups@[q].torsion@.len() == 0
                        &&& q > 0 ==> groups@[q].torsion@.len() == 0 || is_cokernel_torsion(
                            complex.matrix_spec(q - 1),
                            complex.dim(q),
                            complex.dim(q - 1),
                            pairs_view(groups@[q].torsion@),
                        )
                    },
        {
            assert(compute_fits(*complex, k as int));
            groups.push(Self::compute(complex, k));
        }
        groups
    }
}

/// Without coboundary entries every d_k is zero, so H^k = C^k: each Betti number
/// equals the dimension of its cochain group.
pub proof fn lemma_betti_without_coboundary_entries(c: CochainComplex, k: int)
    requires
        forall|j: int, b: int|
            0 <= j < c.cob().len() && 0 <= b < c.cob()[j].len() ==> (#[trigger] c.cob()[j][b]).len() == 0,
    ensures
        betti_number(c, k) == c.dim(k),
{
    if c.dim(k) != 0 {
        assert forall|j: int| #![trigger c.matrix_spec(j)] j == k || j == k - 1 implies elimination_rank(c.matrix_spec(j)) == 0 by {
            let m = c.matrix_spec(j);
            lemma_matrix_spec_rows_cover(c, j);
            assert forall|r: int, q: int| 0 <= r < m.len() && 0 <= q < col_count(m) implies #[trigger] m[r][q] == 0 by {
                if 0 <= j < c.cob().len() && 0 <= q < c.cob()[j].len() {
                    assert(c.cob()[j][q].len() == 0);
                    assert(c.column_weight(j, r as usize, q) == 0);
                }
            }
            lemma_rank_zero_iff_zero_matrix(m);
        }
    }
}

/// d_k after d_{k-1} is zero: the product of their matrices vanishes.
pub open spec fn coboundaries_compose_to_zero(c: CochainComplex, k: int) -> bool {
    product_is_zero(c.matrix_spec(k), c.matrix_spec(k - 1), c.dim(k), c.dim(k - 1))
}

/// Where d_k after d_{k-1} is zero, the Betti number of H^k is the dimension of the
/// kernel of d_k (dim C^k less the rank of d_k, see `has_nullity`) less the dimension of
/// the image of d_{k-1} (its rank, see `has_image_rank`), with nothing cut off at zero.
pub proof fn lemma_betti_is_kernel_less_image(c: CochainComplex, k: int)
    requires
        0 <= k,
        k > 0 ==> coboundaries_compose_to_zero(c, k),
    ensures
        elimination_rank(c.matrix_spec(k)) <= c.dim(k),
        k > 0 ==> elimination_rank(c.matrix_spec(k - 1)) <= c.dim(k) - elimination_rank(c.matrix_spec(k)),
        betti_number(c, k) == c.dim(k) - elimination_rank(c.matrix_spec(k)) - (if k > 0 {
            elimination_rank(c.matrix_spec(k - 1))
        } else {
            0
        }),
{
    lemma_matrix_spec_rows_cover(c, k);
    lemma_null_space_dimension(c.matrix_spec(k), c.dim(k));
    if k > 0 {
        lemma_matrix_spec_rows_cover(c, k - 1);
        lemma_rank_within_nullity(c.matrix_spec(k), c.matrix_spec(k - 1), c.dim(k), c.dim(k - 1));
    }
    if c.dim(k) == 0 {
        assert(elimination_rank(c.matrix_spec(k)) == 0);
    }
}

/// (-1)^k.
pub open spec fn alternating_sign(k: int) -> int {
    if k % 2 == 0 {
        1
    } else {
        -1
    }
}

/// The alternating sum of the Betti numbers of H^0, ..., H^{n-1}.
pub open spec fn betti_euler_sum(c: CochainComplex, n: nat) -> int {
    range_sum(|k: int| alternating_sign(k) * betti_number(c, k), n)
}

/// The alternating sum of the dimensions of C^0, ..., C^{n-1}.
pub open spec fn cochain_euler_sum(c: CochainComplex, n: nat) -> int {
    range_sum(|k: int| alternating_sign(k) * c.dim(k), n)
}

proof fn lemma_euler_partial(c: CochainComplex, j: nat)
    requires
        1 <= j,
        forall|k: int| 0 < k < j ==> #[trigger] coboundaries_compose_to_zero(c, k),
    ensures
        betti_euler_sum(c, j) == cochain_euler_sum(c, j) - alternating_sign(j - 1) * elimination_rank(
            c.matrix_spec(j - 1),
        ),
    decreases j,
{
    let i = j - 1;
    lemma_betti_is_kernel_less_image(c, i);
    assert(betti_euler_sum(c, j) == betti_euler_sum(c, (j - 1) as nat) + alternating_sign(i) * betti_number(c, i));
    assert(cochain_euler_sum(c, j) == cochain_euler_sum(c, (j - 1) as nat) + alternating_sign(i) * c.dim(i));
    if j == 1 {
        assert(betti_euler_sum(c, 0) == 0);
        assert(cochain_euler_sum(c, 0) == 0);
        assert(alternating_sign(0) == 1);
    } else {
        lemma_euler_partial(c, (j - 1) as nat);
        let r = elimination_rank(c.matrix_spec(i));
        let rp = elimination_rank(c.matrix_spec(i - 1));
        let s = alternating_sign(i);
        assert(alternating_sign(i - 1) == -s);
        assert(s * (c.dim(i) - r - rp) == s * c.dim(i) - s * r - s * rp) by (nonlinear_arith);
        assert(-s * rp == -(s * rp)) by (nonlinear_arith);
    }
}

/// The Euler characteristic: where d_k after d_{k-1} is zero for 0 < k < n and C^n is
/// zero, the alternating sum of the Betti numbers of H^0, ..., H^{n-1} equals that of
/// the dimensions of C^0, ..., C^{n-1}.
pub proof fn lemma_euler_characteristic(c: CochainComplex, n: nat)
    requires
        forall|k: int| 0 < k < n ==> #[trigger] coboundaries_compose_to_zero(c, k),
        c.dim(n as int) == 0,
    ensures
        betti_euler_sum(c, n) == cochain_euler_sum(c, n),
{
    if n > 0 {
        lemma_euler_partial(c, n);
        assert(c.matrix_spec(n - 1).len() == 0);
        assert(elimination_rank(c.matrix_spec(n - 1)) == 0);
    }
}

} // verus!
