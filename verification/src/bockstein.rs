//! The mod-2 Bockstein homomorphism.
use vstd::arithmetic::div_mod::lemma_mul_mod_noop_left;
use vstd::prelude::*;

use crate::cochain::{lemma_degree_field, Cochain};
use crate::complex::{
    lemma_coboundary_without_entries, lemma_image_sum_fits, lemma_image_sum_weights, CochainComplex,
};
use crate::sums::{
    coeff, identity, lemma_eq_by_coeff, lemma_prefix_lacks_next, lemma_range_sum_even,
    lemma_range_sum_ext, lemma_range_sum_parity, lemma_range_sum_scale, lemma_range_sum_swap,
    lemma_seq_map_of_listing, lemma_sum_below_as_range, lemma_sum_below_no_keys_above,
    lemma_take_step, lists_entries, map_terms, range_sum, seq_map, values,
};

verus! {

/// Reduction mod 2: every odd coefficient becomes 1, every even one disappears.
pub open spec fn mod2_map(m: Map<usize, i32>) -> Map<usize, i32> {
    Map::new(|t: usize| coeff(m, t) % 2 != 0, |t: usize| 1i32)
}

/// The Bockstein of the degree-`k` cochain `x`: its coboundary reduced mod 2.
pub open spec fn bockstein_map(c: CochainComplex, x: Map<usize, i32>, k: int) -> Map<usize, i32> {
    mod2_map(c.coboundary_image(x, k))
}

/// Bockstein homomorphism.
///
/// The Bockstein beta: H^k(M; Z/p) -> H^{k+1}(M; Z/p) is the connecting
/// homomorphism associated to the short exact sequence
/// 0 -> Z/p -> Z/p^2 -> Z/p -> 0.
pub struct BocksteinHomomorphism;

impl BocksteinHomomorphism {
    /// Apply the Bockstein to a mod-2 cochain.
    ///
    /// In the mod-2 setting, beta(x) = d(x~) mod 2 where x~ is an integral lift.
    /// For a cocycle x, beta(x) = 0 iff x lifts to an integral class.
    pub fn apply(cochain: &Cochain, complex: &CochainComplex) -> (r: Cochain)
        requires
            cochain.wf(),
            cochain.deg() < usize::MAX,
            complex.coboundary_fits(cochain@, cochain.deg() as int),
        ensures
            r.wf(),
            r.deg() == cochain.deg() + 1,
            r@ == bockstein_map(*complex, cochain@, cochain.deg() as int),
    {
        // The Bockstein is the coboundary of an integral lift:
        // apply the coboundary and reduce mod 2.
        let cob = complex.apply_coboundary(cochain);
        proof {
            lemma_degree_field(&cob);
        }
        let mut result = Cochain::zero(cob.degree);
        let entries = cob.entry_list();
        let ghost es = entries@;
        for j in 0..entries.len()
            invariant
                entries@ == es,
                lists_entries(es, cob@),
                result.wf(),
                result.deg() == cob.deg(),
                forall|t: usize| #[trigger] coeff(result@, t) == if coeff(seq_map(es.take(j as int)), t) % 2 != 0 {
                    1int
                } else {
                    0
                },
        {
            let (idx, coeff_value) = entries[j];
            proof {
                lemma_prefix_lacks_next(es, j as int);
                lemma_take_step(es, values(), j as int);
            }
            let mod2 = ((coeff_value % 2) + 2) % 2;
            assert(mod2 == 0 || mod2 == 1);
            assert(mod2 == 1 <==> (coeff_value as int) % 2 != 0);
            let ghost before = result@;
            if mod2 != 0 {
                result.set_coeff(idx, mod2);
            }
            proof {
                assert(!before.contains_key(idx)) by {
                    assert(coeff(seq_map(es.take(j as int)), idx) == 0);
                    assert(coeff(before, idx) == 0);
                }
                assert forall|t: usize| #[trigger] coeff(result@, t) == if coeff(seq_map(es.take(j + 1)), t) % 2 != 0 {
                    1int
                } else {
                    0
                } by {
                    if t != idx {
                        assert(coeff(result@, t) == coeff(before, t));
                    }
                }
            }
        }
        proof {
            assert(es.take(es.len() as int) =~= es);
            lemma_seq_map_of_listing(es, cob@);
            let target = bockstein_map(*complex, cochain@, cochain.deg() as int);
            assert forall|t: usize| #[trigger] coeff(result@, t) == coeff(target, t) by {}
            lemma_eq_by_coeff(result@, target);
        }
        result
    }

    /// beta^2 = 0 (the Bockstein squares to zero).
    ///
    /// Applies the Bockstein twice and reports whether the result is zero.
    pub fn verify_square_zero(cochain: &Cochain, complex: &CochainComplex) -> (ok: bool)
        requires
            cochain.wf(),
            cochain.deg() + 1 < usize::MAX,
            complex.coboundary_fits(cochain@, cochain.deg() as int),
            complex.coboundary_fits(
                bockstein_map(*complex, cochain@, cochain.deg() as int),
                cochain.deg() + 1,
            ),
        ensures
            ok == (bockstein_map(
                *complex,
                bockstein_map(*complex, cochain@, cochain.deg() as int),
                cochain.deg() + 1,
            ) == Map::<usize, i32>::empty()),
    {
        let beta1 = Self::apply(cochain, complex);
        let beta2 = Self::apply(&beta1, complex);
        beta2.is_zero()
    }
}

/// Without coboundary entries the Bockstein of every cochain is zero, so it
/// squares to zero.
pub proof fn lemma_bockstein_without_entries(c: CochainComplex, x: Map<usize, i32>, k: int)
    requires
        forall|j: int, b: int|
            0 <= j < c.cob().len() && 0 <= b < c.cob()[j].len() ==> (#[trigger] c.cob()[j][b]).len() == 0,
    ensures
        bockstein_map(c, x, k) == Map::<usize, i32>::empty(),
        c.coboundary_fits(x, k),
        c.coboundary_fits(bockstein_map(c, x, k), k + 1),
        bockstein_map(c, bockstein_map(c, x, k), k + 1) == Map::<usize, i32>::empty(),
{
    lemma_coboundary_without_entries(c, x, k);
    assert(bockstein_map(c, x, k) =~= Map::<usize, i32>::empty());
    lemma_coboundary_without_entries(c, bockstein_map(c, x, k), k + 1);
    assert(bockstein_map(c, bockstein_map(c, x, k), k + 1) =~= Map::<usize, i32>::empty());
}

/// The summed image of the Bockstein of `x` under d_{k+1} is even at every
/// target, when d_{k+1} after d_k is zero mod 2 on every basis element.
proof fn lemma_second_image_even(c: CochainComplex, x: Map<usize, i32>, k: int, u: usize)
    requires
        0 <= k,
        c.coboundary_fits(x, k),
        u < c.dim(k + 2),
        forall|b: int, u2: int|
            0 <= b <= usize::MAX && 0 <= u2 < c.dim(k + 2) ==> #[trigger] c.composite_weight(k, b, u2) % 2 == 0,
    ensures
        c.image_sum(bockstein_map(c, x, k), k + 1, u, identity()) % 2 == 0,
{
    let y = bockstein_map(c, x, k);
    let img = c.coboundary_image(x, k);
    let d1 = c.dim(k + 1) as nat;
    let big = usize::MAX as nat + 1;
    let g = |s: usize, v: i32| v * c.weight(k + 1, s as int, u as int);
    // The image of y is a sum over the indices below dim(k+1), where y lives.
    lemma_image_sum_weights(c, y, k + 1, u);
    assert forall|s: usize| #[trigger] y.contains_key(s) implies s < d1 by {
        assert(img.contains_key(s));
    }
    lemma_sum_below_no_keys_above(y, g, d1, big);
    lemma_sum_below_as_range(y, g, d1);
    let terms = map_terms(y, g);
    // Mod 2, y holds each coefficient of d_k(x) itself.
    let h = |s: int| c.image_sum(x, k, s as usize, identity()) * c.weight(k + 1, s, u as int);
    assert forall|s: int| 0 <= s < d1 implies #[trigger] terms(s) % 2 == h(s) % 2 by {
        let delta = c.image_sum(x, k, s as usize, identity());
        let w = c.weight(k + 1, s, u as int);
        lemma_image_sum_fits(c, x, k, s as usize);
        assert(coeff(img, s as usize) == delta);
        lemma_mul_mod_noop_left(delta, w, 2);
        assert(h(s) == delta * w);
        if delta % 2 != 0 {
            assert(y.contains_key(s as usize));
            assert(delta % 2 == 1);
            assert(terms(s) == 1 * w);
            assert((delta % 2) * w == w);
        } else {
            assert(!y.contains_key(s as usize));
            assert(terms(s) == 0);
            assert(delta % 2 == 0);
            assert((delta % 2) * w == 0 * w);
            assert(0 * w == 0);
        }
    }
    lemma_range_sum_parity(terms, h, d1);
    // Expand each coefficient of d_k(x) and exchange the two sums.
    let f = |b: int, s: int|
        (if 0 <= b <= usize::MAX && x.contains_key(b as usize) {
            x[b as usize] * c.weight(k, b, s)
        } else {
            0
        }) * c.weight(k + 1, s, u as int);
    let inner = |s: int| range_sum(|b: int| f(b, s), big);
    assert forall|s: int| 0 <= s < d1 implies #[trigger] h(s) == inner(s) by {
        let fs = |b2: usize, v: i32| v * c.weight(k, b2 as int, s);
        lemma_image_sum_weights(c, x, k, s as usize);
        assert(fs =~= |b2: usize, v: i32| v * c.weight(k, b2 as int, (s as usize) as int));
        lemma_sum_below_as_range(x, fs, big);
        let w = c.weight(k + 1, s, u as int);
        assert forall|b: int| 0 <= b < big implies #[trigger] f(b, s) == map_terms(x, fs)(b) * w by {}
        lemma_range_sum_scale(|b: int| f(b, s), map_terms(x, fs), w, big);
    }
    lemma_range_sum_ext(h, inner, d1);
    lemma_range_sum_swap(f, d1, big);
    let outer = |b: int| range_sum(|s: int| f(b, s), d1);
    assert forall|b: int| 0 <= b < big implies #[trigger] outer(b) % 2 == 0 by {
        let xb = if 0 <= b <= usize::MAX && x.contains_key(b as usize) {
            x[b as usize] as int
        } else {
            0
        };
        let ws = |s: int| c.weight(k, b, s) * c.weight(k + 1, s, u as int);
        assert forall|s: int| 0 <= s < d1 implies #[trigger] f(b, s) == ws(s) * xb by {
            let w1 = c.weight(k, b, s);
            let w2 = c.weight(k + 1, s, u as int);
            assert((xb * w1) * w2 == (w1 * w2) * xb) by (nonlinear_arith);
        }
        lemma_range_sum_scale(|s: int| f(b, s), ws, xb, d1);
        let comp = c.composite_weight(k, b, u as int);
        assert(comp == range_sum(ws, d1));
        assert(comp % 2 == 0);
        lemma_mul_mod_noop_left(comp, xb, 2);
    }
    lemma_range_sum_even(outer, big);
}

/// When d_{k+1} after d_k is zero mod 2 on every basis element of C^k, the
/// Bockstein squares to zero: beta(beta(x)) = 0 for every cochain x of degree k.
pub proof fn lemma_bockstein_squares_to_zero(c: CochainComplex, x: Map<usize, i32>, k: int)
    requires
        0 <= k,
        c.coboundary_fits(x, k),
        c.coboundary_fits(bockstein_map(c, x, k), k + 1),
        forall|b: int, u: int|
            0 <= b <= usize::MAX && 0 <= u < c.dim(k + 2) ==> #[trigger] c.composite_weight(k, b, u) % 2 == 0,
    ensures
        bockstein_map(c, bockstein_map(c, x, k), k + 1) == Map::<usize, i32>::empty(),
{
    let y = bockstein_map(c, x, k);
    assert forall|u: usize| #[trigger] coeff(c.coboundary_image(y, k + 1), u) % 2 == 0 by {
        if u < c.dim(k + 2) {
            lemma_image_sum_fits(c, y, k + 1, u);
            lemma_second_image_even(c, x, k, u);
        }
    }
    assert(bockstein_map(c, y, k + 1) =~= Map::<usize, i32>::empty());
}

/// The Bockstein of any cochain x of degree k is its coboundary reduced mod 2: at each
/// target t it holds exactly 1 where the coefficient of e_t in d(x) is odd, and
/// nothing where it is even.
pub proof fn lemma_bockstein_is_coboundary_mod_two(c: CochainComplex, x: Map<usize, i32>, k: int, t: usize)
    ensures
        bockstein_map(c, x, k).contains_key(t) <==> coeff(c.coboundary_image(x, k), t) % 2 != 0,
        bockstein_map(c, x, k).contains_key(t) ==> bockstein_map(c, x, k)[t] == 1,
        coeff(bockstein_map(c, x, k), t) == coeff(c.coboundary_image(x, k), t) % 2,
{
    let d = coeff(c.coboundary_image(x, k), t);
    assert(d % 2 == 0 || d % 2 == 1);
}

} // verus!
