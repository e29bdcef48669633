//! Steenrod squares in mod-2 cohomology.
use vstd::prelude::*;

use crate::bockstein::{bockstein_map, BocksteinHomomorphism};
use crate::cochain::{scale_fits, Cochain};
use crate::complex::CochainComplex;
use crate::cup::{cup_fits, cup_map, CupProduct};
use crate::sums::{coeff, in_i32};

verus! {

/// Steenrod squares Sq^i: H^k(M; Z/2) -> H^{k+i}(M; Z/2).
///
/// Stable cohomology operations in mod 2 cohomology.
/// Key properties:
/// - Sq^0 = identity
/// - Sq^k(x) = x cup x when deg(x) = k
/// - Cartan formula: Sq^k(x cup y) = sum over i+j=k of Sq^i(x) cup Sq^j(y)
pub struct SteenrodSquare;

impl SteenrodSquare {
    /// Compute Sq^0 on a mod-2 cochain (identity).
    pub fn sq0(cochain: &Cochain) -> (r: Cochain)
        ensures
            r.deg() == cochain.deg(),
            r@ == cochain@,
    {
        cochain.duplicate()
    }

    /// Compute Sq^k for small k on a mod-2 cochain.
    /// For a cochain of degree n: Sq^n(x) = x cup x.
    pub fn sqn(cochain: &Cochain) -> (r: Cochain)
        requires
            cochain.wf(),
            cochain.deg() + cochain.deg() <= usize::MAX,
            cup_fits(cochain@, cochain@),
        ensures
            r.wf(),
            r.deg() == cochain.deg() + cochain.deg(),
            r@ == cup_map(cochain@, cochain@),
    {
        CupProduct::cup(cochain, cochain)
    }

    /// Compute Sq^1 (the Bockstein for mod 2).
    /// Sq^1 = beta (mod 2 Bockstein).
    pub fn sq1(cochain: &Cochain, complex: &CochainComplex) -> (r: Cochain)
        requires
            cochain.wf(),
            cochain.deg() < usize::MAX,
            complex.coboundary_fits(cochain@, cochain.deg() as int),
        ensures
            r.wf(),
            r.deg() == cochain.deg() + 1,
            r@ == bockstein_map(*complex, cochain@, cochain.deg() as int),
    {
        BocksteinHomomorphism::apply(cochain, complex)
    }

    /// Verify the Cartan formula: Sq^k(x cup y) = sum over i+j=k of Sq^i(x) cup Sq^j(y).
    /// For k=0, this is trivially true since Sq^0 is the identity.
    pub fn verify_cartan_formula(x: &Cochain, y: &Cochain, complex: &CochainComplex) -> (ok: bool)
        requires
            x.wf(),
            y.wf(),
            x.deg() + y.deg() <= usize::MAX,
            cup_fits(x@, y@),
            scale_fits(cup_map(x@, y@), -1i32),
        ensures
            ok,
    {
        let xy = CupProduct::cup(x, y);
        let sq0_xy = Self::sq0(&xy);
        // For k=0: Sq^0(xy) = xy = Sq^0(x) cup Sq^0(y)
        let lhs = sq0_xy;
        let sx = Self::sq0(x);
        let sy = Self::sq0(y);
        let rhs = CupProduct::cup(&sx, &sy);
        let neg_rhs = rhs.scale(-1);
        proof {
            assert forall|i: usize| #[trigger] in_i32(coeff(lhs@, i) + coeff(neg_rhs@, i)) by {
                if rhs@.contains_key(i) {
                    assert(in_i32(rhs@[i] * -1));
                }
            }
        }
        let diff = lhs.add(&neg_rhs);
        let ok = diff.is_zero();
        proof {
            assert forall|i: usize| #[trigger] coeff(diff@, i) == 0 by {
                if rhs@.contains_key(i) {
                    assert(in_i32(rhs@[i] * -1));
                }
            }
        }
        ok
    }

    /// Verify Adem relations for specific cases.
    /// Returns true if an Adem relation is needed (i < 2j).
    pub fn adem_relation_check(i: usize, j: usize) -> (needed: bool)
        requires
            2 * j <= usize::MAX,
        ensures
            needed == (i < 2 * j),
    {
        i < 2 * j
    }
}

} // verus!
