//! The (diagonal) cup product of cochains.
use vstd::prelude::*;

use crate::cochain::{lemma_degree_field, nonzero_values, scale_fits, Cochain};
use crate::sums::{
    coeff, in_i32, lemma_eq_by_coeff, lemma_map_sum_at_most_one, lemma_map_sum_scaled,
    lemma_map_sum_sign, lemma_map_sum_split, lemma_prefix_lacks_next, lemma_prefix_sum_ge,
    lemma_prefix_sum_le, lemma_seq_map_of_listing, lemma_seq_sum_matches_map_sum,
    lemma_seq_sum_split, lemma_take_step, lists_entries, map_sum, neg, negative_values, pos,
    positive_values, seq_map, seq_sum, values,
};

verus! {

/// The sum of all coefficients of a cochain.
pub open spec fn total(m: Map<usize, i32>) -> int {
    map_sum(m, values())
}

/// The (diagonal) cup product of coefficient maps: each coefficient of `a`
/// times the total of `b`, keeping only nonzero results.
pub open spec fn cup_map(a: Map<usize, i32>, b: Map<usize, i32>) -> Map<usize, i32> {
    Map::new(|i: usize| coeff(a, i) * total(b) != 0, |i: usize| (coeff(a, i) * total(b)) as i32)
}

/// Whatever order the products are added in, every running sum of the cup
/// product fits in an `i32`: each coefficient of `a` times the sum of the positive,
/// and times the sum of the negative, coefficients of `b` fits.
pub open spec fn cup_fits(a: Map<usize, i32>, b: Map<usize, i32>) -> bool {
    forall|i: usize|
        a.contains_key(i) ==> #[trigger] in_i32(a[i] * map_sum(b, positive_values())) && in_i32(
            a[i] * map_sum(b, negative_values()),
        )
}

/// `ca` times a sum of a nonnegative part bounded by `pt` and a nonpositive part
/// bounded by `nt` fits, when `ca` times each bound fits.
proof fn lemma_scaled_parts_fit(ca: int, p: int, n: int, pt: int, nt: int)
    requires
        0 <= p <= pt,
        nt <= n <= 0,
        in_i32(ca * pt),
        in_i32(ca * nt),
    ensures
        in_i32(ca * (p + n)),
{
    if ca >= 0 {
        assert(0 <= ca * p <= ca * pt) by (nonlinear_arith)
            requires
                ca >= 0,
                0 <= p <= pt,
        ;
        assert(ca * nt <= ca * n <= 0) by (nonlinear_arith)
            requires
                ca >= 0,
                nt <= n <= 0,
        ;
    } else {
        assert(ca * pt <= ca * p <= 0) by (nonlinear_arith)
            requires
                ca < 0,
                0 <= p <= pt,
        ;
        assert(0 <= ca * n <= ca * nt) by (nonlinear_arith)
            requires
                ca < 0,
                nt <= n <= 0,
        ;
    }
    assert(ca * (p + n) == ca * p + ca * n) by (nonlinear_arith);
}

/// While `ca` times the coefficients of `b` are added up along the listing `bs`,
/// the running sum after `jj` terms fits, and so does the next product.
proof fn lemma_cup_running_fits(bs: Seq<(usize, i32)>, b: Map<usize, i32>, ca: int, jj: int)
    requires
        lists_entries(bs, b),
        0 <= jj <= bs.len(),
        in_i32(ca * map_sum(b, positive_values())),
        in_i32(ca * map_sum(b, negative_values())),
    ensures
        in_i32(ca * seq_sum(bs.take(jj), values())),
        jj < bs.len() ==> in_i32(ca * bs[jj].1),
        ca * seq_sum(bs, values()) == ca * map_sum(b, values()),
{
    let pt = map_sum(b, positive_values());
    let nt = map_sum(b, negative_values());
    lemma_seq_sum_matches_map_sum(bs, b, positive_values());
    lemma_seq_sum_matches_map_sum(bs, b, negative_values());
    lemma_seq_sum_matches_map_sum(bs, b, values());
    lemma_seq_sum_split(bs.take(jj), values(), positive_values(), negative_values());
    lemma_prefix_sum_le(bs, positive_values(), jj);
    lemma_prefix_sum_ge(bs, negative_values(), jj);
    lemma_scaled_parts_fit(
        ca,
        seq_sum(bs.take(jj), positive_values()),
        seq_sum(bs.take(jj), negative_values()),
        pt,
        nt,
    );
    if jj < bs.len() {
        let cb = bs[jj].1 as int;
        lemma_take_step(bs, positive_values(), jj);
        lemma_take_step(bs, negative_values(), jj);
        lemma_prefix_sum_le(bs, positive_values(), jj + 1);
        lemma_prefix_sum_ge(bs, negative_values(), jj + 1);
        assert(cb == pos(cb) + neg(cb));
        lemma_scaled_parts_fit(ca, pos(cb), neg(cb), pt, nt);
    }
}

/// The sign (-1)^{kl} of graded commutativity.
pub open spec fn cup_sign(k: int, l: int) -> int {
    if (k * l) % 2 == 0 {
        1
    } else {
        -1
    }
}

/// Every step of the graded-commutativity check stays within `i32`.
pub open spec fn commutativity_fits(a: Map<usize, i32>, b: Map<usize, i32>, sign: int) -> bool {
    &&& cup_fits(a, b)
    &&& cup_fits(b, a)
    &&& forall|i: usize| #[trigger] in_i32((-sign) * (coeff(b, i) * total(a)))
    &&& forall|i: usize| #[trigger] in_i32(coeff(a, i) * total(b) + (-sign) * (coeff(b, i) * total(a)))
}

/// The coefficients of a cup product are those of `a` times the total of `b`, none of them zero.
pub proof fn lemma_cup_coeff(a: Map<usize, i32>, b: Map<usize, i32>, i: usize)
    requires
        cup_fits(a, b),
    ensures
        coeff(cup_map(a, b), i) == coeff(a, i) * total(b),
        nonzero_values(cup_map(a, b)),
{
    if a.contains_key(i) {
        lemma_product_fits(a, b, i);
    }
    assert forall|j: usize| cup_map(a, b).contains_key(j) implies cup_map(a, b)[j] != 0 by {
        if a.contains_key(j) {
            lemma_product_fits(a, b, j);
        }
    }
}

/// The cup product is associative: (a cup b) cup c = a cup (b cup c).
pub proof fn lemma_cup_associative(a: Map<usize, i32>, b: Map<usize, i32>, c: Map<usize, i32>)
    requires
        cup_fits(a, b),
        cup_fits(b, c),
    ensures
        cup_map(cup_map(a, b), c) == cup_map(a, cup_map(b, c)),
{
    let bc = cup_map(b, c);
    let ab = cup_map(a, b);
    assert forall|j: usize| #[trigger] coeff(bc, j) == total(c) * coeff(b, j) by {
        lemma_cup_coeff(b, c, j);
        assert(coeff(b, j) * total(c) == total(c) * coeff(b, j)) by (nonlinear_arith);
    }
    lemma_map_sum_scaled(bc, b, total(c));
    assert forall|i: usize| #[trigger] coeff(ab, i) * total(c) == coeff(a, i) * total(bc) by {
        lemma_cup_coeff(a, b, i);
        let x = coeff(a, i);
        let y = total(b);
        let z = total(c);
        assert((x * y) * z == x * (z * y)) by (nonlinear_arith);
    }
    assert(cup_map(ab, c) =~= cup_map(a, bc));
}

/// Cochains supported on one common basis element commute under the cup product.
pub proof fn lemma_cup_commutes_on_one_basis_element(a: Map<usize, i32>, b: Map<usize, i32>, i: usize)
    requires
        forall|k: usize| a.contains_key(k) ==> k == i,
        forall|k: usize| b.contains_key(k) ==> k == i,
    ensures
        cup_map(a, b) == cup_map(b, a),
{
    lemma_map_sum_at_most_one(a, i);
    lemma_map_sum_at_most_one(b, i);
    assert forall|k: usize| #[trigger] (coeff(a, k) * total(b)) == coeff(b, k) * total(a) by {
        if k == i {
            assert(coeff(a, i) * coeff(b, i) == coeff(b, i) * coeff(a, i)) by (nonlinear_arith);
        }
    }
    assert(cup_map(a, b) =~= cup_map(b, a));
}

/// Cup product on cohomology.
///
/// The cup product H^k x H^l -> H^{k+l} gives the cohomology ring structure.
pub struct CupProduct;

impl CupProduct {
    /// Compute the cup product of two cochains.
    ///
    /// For simplicial cochains, the cup product of basis elements
    /// e_i^k and e_j^l can be computed combinatorially.
    /// Here a simplified (diagonal) version for cellular cohomology is used:
    /// the product of e_i and e_j contributes to e_i.
    pub fn cup(a: &Cochain, b: &Cochain) -> (r: Cochain)
        requires
            a.wf(),
            b.wf(),
            a.deg() + b.deg() <= usize::MAX,
            cup_fits(a@, b@),
        ensures
            r.wf(),
            r.deg() == a.deg() + b.deg(),
            r@ == cup_map(a@, b@),
    {
        proof {
            lemma_degree_field(a);
            lemma_degree_field(b);
        }
        let product_degree = a.degree + b.degree;
        let mut result = Cochain::zero(product_degree);
        let a_entries = a.entry_list();
        let b_entries = b.entry_list();
        let ghost xs = a_entries@;
        let ghost bs = b_entries@;
        let ghost sb = total(b@);
        for ii in 0..a_entries.len()
            invariant
                a_entries@ == xs,
                b_entries@ == bs,
                lists_entries(xs, a@),
                lists_entries(bs, b@),
                cup_fits(a@, b@),
                sb == total(b@),
                result.wf(),
                result.deg() == product_degree,
                forall|i: usize| #[trigger] coeff(result@, i) == coeff(seq_map(xs.take(ii as int)), i) * sb,
        {
            let (i, ca) = a_entries[ii];
            proof {
                lemma_prefix_lacks_next(xs, ii as int);
                lemma_take_step(xs, values(), ii as int);
                assert(a@.contains_key(xs[ii as int].0));
                assert(in_i32(a@[i] * map_sum(b@, positive_values())));
                assert(coeff(result@, i) == 0);
            }
            let ghost outer = result@;
            for jj in 0..b_entries.len()
                invariant
                    a_entries@ == xs,
                    b_entries@ == bs,
                    lists_entries(bs, b@),
                    in_i32(ca * map_sum(b@, positive_values())),
                    in_i32(ca * map_sum(b@, negative_values())),
                    result.wf(),
                    result.deg() == product_degree,
                    forall|i2: usize| i2 != i ==> #[trigger] coeff(result@, i2) == coeff(outer, i2),
                    coeff(result@, i) == ca * seq_sum(bs.take(jj as int), values()),
            {
                let (j, cb) = b_entries[jj];
                proof {
                    lemma_cup_running_fits(bs, b@, ca as int, jj as int);
                    lemma_cup_running_fits(bs, b@, ca as int, jj + 1);
                    lemma_take_step(bs, values(), jj as int);
                    assert(ca * seq_sum(bs.take(jj + 1), values()) == ca * seq_sum(bs.take(jj as int), values())
                        + ca * cb) by (nonlinear_arith)
                        requires
                            seq_sum(bs.take(jj + 1), values()) == seq_sum(bs.take(jj as int), values()) + cb,
                    ;
                }
                // Simplified: diagonal cup product
                let prod_coeff = ca * cb;
                if prod_coeff != 0 {
                    let cur = result.get(i);
                    let updated = cur + prod_coeff;
                    let ghost before = result@;
                    result.set_coeff(i, updated);
                    proof {
                        assert forall|i2: usize| i2 != i implies #[trigger] coeff(result@, i2) == coeff(outer, i2) by {
                            assert(coeff(result@, i2) == coeff(before, i2));
                        }
                    }
                }
            }
            proof {
                assert(bs.take(bs.len() as int) =~= bs);
                lemma_cup_running_fits(bs, b@, ca as int, bs.len() as int);
                let p1 = seq_map(xs.take(ii + 1));
                assert forall|i2: usize| #[trigger] coeff(result@, i2) == coeff(p1, i2) * sb by {
                    if i2 != i {
                        assert(coeff(result@, i2) == coeff(outer, i2));
                    }
                }
            }
        }
        proof {
            assert(xs.take(xs.len() as int) =~= xs);
            lemma_seq_map_of_listing(xs, a@);
            let target = cup_map(a@, b@);
            assert forall|i: usize| #[trigger] coeff(result@, i) == coeff(target, i) by {
                if a@.contains_key(i) {
                    lemma_product_fits(a@, b@, i);
                }
            }
            assert forall|i: usize| target.contains_key(i) implies target[i] != 0 by {
                if a@.contains_key(i) {
                    lemma_product_fits(a@, b@, i);
                }
            }
            lemma_eq_by_coeff(result@, target);
        }
        result
    }

    /// Verify graded-commutativity: a cup b = (-1)^{kl} b cup a.
    ///
    /// The check subtracts (-1)^{kl} times b cup a from a cup b and tests the difference for zero.
    pub fn verify_graded_commutativity(a: &Cochain, b: &Cochain) -> (ok: bool)
        requires
            a.wf(),
            b.wf(),
            a.deg() * b.deg() <= usize::MAX,
            a.deg() + b.deg() <= usize::MAX,
            commutativity_fits(a@, b@, cup_sign(a.deg() as int, b.deg() as int)),
        ensures
            ok == forall|i: usize|
                #[trigger] coeff(a@, i) * total(b@) == cup_sign(a.deg() as int, b.deg() as int) * (coeff(b@, i)
                    * total(a@)),
    {
        proof {
            lemma_degree_field(a);
            lemma_degree_field(b);
        }
        let ab = Self::cup(a, b);
        let ba = Self::cup(b, a);
        let sign: i32 = if (a.degree * b.degree) % 2 == 0 {
            1
        } else {
            -1
        };
        let ghost sg = cup_sign(a.deg() as int, b.deg() as int);
        assert(sign == sg);
        let neg_sign: i32 = -sign;
        proof {
            assert forall|i: usize| ba@.contains_key(i) implies #[trigger] in_i32(ba@[i] * neg_sign) by {
                lemma_cup_coeff(b@, a@, i);
                assert(in_i32((-sg) * (coeff(b@, i) * total(a@))));
            }
        }
        let scaled_ba = ba.scale(neg_sign);
        proof {
            assert forall|i: usize| #[trigger] in_i32(coeff(ab@, i) + coeff(scaled_ba@, i)) by {
                lemma_cup_coeff(a@, b@, i);
                lemma_cup_coeff(b@, a@, i);
                if ba@.contains_key(i) {
                    assert(in_i32(ba@[i] * neg_sign));
                }
                assert(coeff(scaled_ba@, i) == coeff(ba@, i) * (-sg));
                assert(in_i32(coeff(a@, i) * total(b@) + (-sg) * (coeff(b@, i) * total(a@))));
            }
        }
        let sum = ab.add(&scaled_ba);
        let ok = sum.is_zero();
        proof {
            assert forall|i: usize| #[trigger] coeff(sum@, i) == coeff(a@, i) * total(b@) + (-sg) * (coeff(b@, i) * total(a@)) by {
                lemma_cup_coeff(a@, b@, i);
                lemma_cup_coeff(b@, a@, i);
                if ba@.contains_key(i) {
                    assert(in_i32(ba@[i] * neg_sign));
                }
                assert(coeff(scaled_ba@, i) == coeff(ba@, i) * (-sg));
                assert(in_i32(coeff(a@, i) * total(b@) + (-sg) * (coeff(b@, i) * total(a@))));
            }
            if ok {
                assert forall|i: usize| #[trigger] coeff(a@, i) * total(b@) == sg * (coeff(b@, i) * total(a@)) by {
                    assert(coeff(sum@, i) == 0);
                }
            } else {
                let k = choose|k: usize| coeff(sum@, k) != 0;
                assert(coeff(a@, k) * total(b@) + (-sg) * (coeff(b@, k) * total(a@)) != 0);
            }
        }
        ok
    }

    /// Verify associativity: (a cup b) cup c = a cup (b cup c).
    pub fn verify_associativity(a: &Cochain, b: &Cochain, c: &Cochain) -> (ok: bool)
        requires
            a.wf(),
            b.wf(),
            c.wf(),
            a.deg() + b.deg() + c.deg() <= usize::MAX,
            cup_fits(a@, b@),
            cup_fits(cup_map(a@, b@), c@),
            cup_fits(b@, c@),
            cup_fits(a@, cup_map(b@, c@)),
            scale_fits(cup_map(a@, cup_map(b@, c@)), -1i32),
        ensures
            ok,
    {
        let ab = Self::cup(a, b);
        let ab_c = Self::cup(&ab, c);
        let bc = Self::cup(b, c);
        let a_bc = Self::cup(a, &bc);
        proof {
            lemma_cup_associative(a@, b@, c@);
        }
        let neg_a_bc = a_bc.scale(-1);
        proof {
            assert forall|i: usize| #[trigger] in_i32(coeff(ab_c@, i) + coeff(neg_a_bc@, i)) by {
                if a_bc@.contains_key(i) {
                    assert(in_i32(a_bc@[i] * -1));
                }
            }
        }
        let diff = ab_c.add(&neg_a_bc);
        let ok = diff.is_zero();
        proof {
            assert forall|i: usize| #[trigger] coeff(diff@, i) == 0 by {
                if a_bc@.contains_key(i) {
                    assert(in_i32(a_bc@[i] * -1));
                }
            }
        }
        ok
    }
}

/// Each coefficient of a cup product fits in an `i32` when the running sums do.
pub proof fn lemma_product_fits(a: Map<usize, i32>, b: Map<usize, i32>, i: usize)
    requires
        cup_fits(a, b),
        a.contains_key(i),
    ensures
        in_i32(a[i] * total(b)),
{
    let pt = map_sum(b, positive_values());
    let nt = map_sum(b, negative_values());
    assert(in_i32(a[i] * pt));
    lemma_totals_split(b);
    lemma_scaled_parts_fit(a[i] as int, pt, nt, pt, nt);
}

/// The total of a map is its positive total plus its negative total.
proof fn lemma_totals_split(b: Map<usize, i32>)
    ensures
        total(b) == map_sum(b, positive_values()) + map_sum(b, negative_values()),
        map_sum(b, positive_values()) >= 0,
        map_sum(b, negative_values()) <= 0,
{
    lemma_map_sum_split(b, values(), positive_values(), negative_values());
    lemma_map_sum_sign(b, positive_values(), true);
    lemma_map_sum_sign(b, negative_values(), false);
}

/// The sign of graded commutativity is (-1)^{kl}: it squares to 1, it is -1 exactly
/// when both degrees are odd, it does not depend on the order of the degrees, and
/// raising one degree by one flips it when the other degree is odd.
pub proof fn lemma_cup_sign_is_power_of_minus_one(k: int, l: int)
    requires
        0 <= k,
        0 <= l,
    ensures
        cup_sign(k, l) * cup_sign(k, l) == 1,
        cup_sign(k, l) == -1 <==> (k % 2 == 1 && l % 2 == 1),
        cup_sign(k, l) == cup_sign(l, k),
        l % 2 == 1 ==> cup_sign(k + 1, l) == -cup_sign(k, l),
        cup_sign(0, l) == 1,
{
    assert((k * l) % 2 == 1 <==> (k % 2 == 1 && l % 2 == 1)) by (nonlinear_arith)
        requires
            0 <= k,
            0 <= l,
    {
        vstd::arithmetic::div_mod::lemma_mul_mod_noop(k, l, 2);
        assert(k % 2 == 0 || k % 2 == 1);
        assert(l % 2 == 0 || l % 2 == 1);
    }
    assert(k * l == l * k) by (nonlinear_arith);
    assert((k + 1) * l == k * l + l) by (nonlinear_arith);
    assert(0 * l == 0);
}

} // verus!
