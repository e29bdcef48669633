use lib::primes::factorize;
use lib::smith::smith_diagonal;
use lib::{
    matrix_rank, BocksteinHomomorphism, Cochain, CochainComplex, CohomologyGroup, CupProduct,
    SteenrodSquare,
};

fn cochain(degree: usize, entries: &[(usize, i32)]) -> Cochain {
    let mut c = Cochain::zero(degree);
    for &(i, v) in entries {
        c = c.add(&Cochain::basis(degree, i, v));
    }
    c
}

#[test]
fn basis_with_zero_coefficient_is_zero() {
    let c = Cochain::basis(4, 7, 0);
    assert!(c.is_zero());
    assert_eq!(c.degree, 4);
    assert!(c.entries().is_empty());
}

#[test]
fn get_of_absent_index_is_zero() {
    let c = Cochain::basis(1, 3, 9);
    assert_eq!(c.get(3), 9);
    assert_eq!(c.get(4), 0);
    assert_eq!(c.entries().len(), 1);
}

#[test]
fn add_is_commutative_and_zero_is_neutral() {
    let a = cochain(2, &[(0, 4), (5, -1)]);
    let b = cochain(2, &[(5, 1), (6, 7)]);
    let ab = a.add(&b);
    let ba = b.add(&a);
    assert_eq!(ab.entries(), ba.entries());
    assert_eq!(ab.get(0), 4);
    assert_eq!(ab.get(5), 0);
    assert_eq!(ab.get(6), 7);
    assert_eq!(ab.entries().len(), 2);
    let z = Cochain::zero(2);
    assert_eq!(a.add(&z).entries(), a.entries());
}

#[test]
fn add_with_negation_is_zero() {
    let a = cochain(3, &[(1, 5), (2, -8), (9, 1)]);
    assert!(a.add(&a.scale(-1)).is_zero());
}

#[test]
fn scale_multiplies_every_coefficient() {
    let a = cochain(1, &[(0, 2), (3, -4)]);
    let s = a.scale(-3);
    assert_eq!(s.get(0), -6);
    assert_eq!(s.get(3), 12);
    assert_eq!(s.degree, 1);
    assert!(a.scale(0).is_zero());
}

#[test]
fn coboundary_sums_contributions() {
    // d_0 sends e_0 to 2 e_0 + e_1 and e_1 to 3 e_0; target index 5 is out of range.
    let coboundary = vec![vec![vec![(0, 2), (1, 1), (5, 4)], vec![(0, 3)]]];
    let complex = CochainComplex::new(vec![2, 2], coboundary);
    let x = cochain(0, &[(0, 1), (1, 2)]);
    let dx = complex.apply_coboundary(&x);
    assert_eq!(dx.degree, 1);
    assert_eq!(dx.get(0), 2 + 6);
    assert_eq!(dx.get(1), 1);
    assert_eq!(dx.get(5), 0);
    assert_eq!(dx.entries().len(), 2);
}

#[test]
fn coboundary_at_top_degree_is_zero() {
    let complex = CochainComplex::for_circle();
    let x = Cochain::basis(1, 0, 5);
    let dx = complex.apply_coboundary(&x);
    assert!(dx.is_zero());
    assert_eq!(dx.degree, 2);
}

#[test]
fn coboundary_matrix_sums_repeated_entries() {
    let coboundary = vec![vec![vec![(0, 2), (1, 7), (0, 5)], vec![(1, -1)], vec![(0, 9)]]];
    let complex = CochainComplex::new(vec![2, 2], coboundary);
    let m = complex.coboundary_matrix(0);
    // Row 0 of column 0 is listed twice: 2 + 5. Column 2 lies outside dim C^0 = 2.
    assert_eq!(m, vec![vec![7, 0], vec![7, -1]]);
    let image = complex.apply_coboundary(&Cochain::basis(0, 0, 1));
    assert_eq!(image.get(0), 7);
    assert_eq!(complex.coboundary_matrix(1), Vec::<Vec<i32>>::new());
}

#[test]
fn matrix_rank_of_dependent_rows() {
    assert_eq!(matrix_rank(&[vec![1, 2], vec![2, 4]]), 1);
    assert_eq!(matrix_rank(&[vec![0, 1], vec![1, 0]]), 2);
    assert_eq!(matrix_rank(&[vec![1, 2, 3], vec![4, 5, 6], vec![7, 8, 9]]), 2);
    assert_eq!(matrix_rank(&[vec![0, 0, 3], vec![0, 0, 1]]), 1);
}

#[test]
fn matrix_rank_of_degenerate_shapes() {
    let empty: Vec<Vec<i32>> = Vec::new();
    assert_eq!(matrix_rank(&empty), 0);
    assert_eq!(matrix_rank(&[Vec::new(), Vec::new()]), 0);
    assert_eq!(matrix_rank(&[vec![3, 1, 4]]), 1);
    assert_eq!(matrix_rank(&[vec![2], vec![4], vec![6]]), 1);
}

#[test]
fn cohomology_with_coboundaries() {
    // d_0: e_0 -> 2 e_0, so H^0 = 0 and H^1 = 1 - 0 - 1 = 0.
    let complex = CochainComplex::new(vec![1, 1], vec![vec![vec![(0, 2)]]]);
    let groups = CohomologyGroup::compute_all(&complex);
    assert_eq!(groups.len(), 2);
    assert_eq!(groups[0].rank, 0);
    assert_eq!(groups[1].rank, 0);
    assert_eq!(groups[1].degree, 1);
}

#[test]
fn cohomology_of_trivial_complex_is_its_cochains() {
    let complex = CochainComplex::trivial(vec![3, 0, 5, 2]);
    assert_eq!(complex.max_degree, 3);
    let groups = CohomologyGroup::compute_all(&complex);
    let ranks: Vec<usize> = groups.iter().map(|g| g.rank).collect();
    assert_eq!(ranks, vec![3, 0, 5, 2]);
    let rp2 = CohomologyGroup::compute_all(&CochainComplex::for_rp2());
    assert_eq!(rp2.iter().map(|g| g.rank).collect::<Vec<_>>(), vec![1, 1, 1]);
}

#[test]
fn cohomology_beyond_listed_dimensions_is_zero() {
    let complex = CochainComplex::for_torus();
    let g = CohomologyGroup::compute(&complex, 7);
    assert_eq!(g.degree, 7);
    assert_eq!(g.rank, 0);
    let empty = CochainComplex::new(Vec::new(), Vec::new());
    assert_eq!(empty.max_degree, 0);
    let groups = CohomologyGroup::compute_all(&empty);
    assert_eq!(groups.len(), 1);
    assert_eq!(groups[0].rank, 0);
}

#[test]
fn cup_multiplies_by_the_total_of_the_second_factor() {
    let a = cochain(1, &[(0, 2), (1, 3)]);
    let b = cochain(2, &[(7, 5), (8, -1)]);
    let ab = CupProduct::cup(&a, &b);
    assert_eq!(ab.degree, 3);
    assert_eq!(ab.get(0), 8);
    assert_eq!(ab.get(1), 12);
    assert_eq!(ab.entries().len(), 2);
    let balanced = cochain(2, &[(0, 1), (1, -1)]);
    assert!(CupProduct::cup(&a, &balanced).is_zero());
}

#[test]
fn cup_is_associative() {
    let a = cochain(1, &[(0, 2), (1, 1)]);
    let b = cochain(0, &[(2, 3), (3, -1)]);
    let c = cochain(2, &[(0, 4)]);
    let left = CupProduct::cup(&CupProduct::cup(&a, &b), &c);
    let right = CupProduct::cup(&a, &CupProduct::cup(&b, &c));
    assert_eq!(left.entries(), right.entries());
    assert!(CupProduct::verify_associativity(&a, &b, &c));
}

#[test]
fn cup_commutes_on_one_basis_element() {
    let a = Cochain::basis(3, 4, -2);
    let b = Cochain::basis(1, 4, 7);
    assert_eq!(
        CupProduct::cup(&a, &b).entries(),
        CupProduct::cup(&b, &a).entries()
    );
}

#[test]
fn graded_commutativity_check_compares_with_the_signed_product() {
    // Even degrees: sign +1, and 6 e_0 = 6 e_0.
    let a = Cochain::basis(2, 0, 2);
    let b = Cochain::basis(2, 0, 3);
    assert!(CupProduct::verify_graded_commutativity(&a, &b));
    // Odd degrees: sign -1, and 6 e_0 is not -6 e_0.
    let c = Cochain::basis(1, 0, 2);
    let d = Cochain::basis(1, 0, 3);
    assert!(!CupProduct::verify_graded_commutativity(&c, &d));
    // Different supports: 2 e_0 times 3 against 3 e_1 times 2.
    let e = Cochain::basis(0, 0, 2);
    let f = Cochain::basis(0, 1, 3);
    assert!(!CupProduct::verify_graded_commutativity(&e, &f));
}

#[test]
fn bockstein_reduces_the_coboundary_mod_two() {
    let even = CochainComplex::new(vec![1, 1], vec![vec![vec![(0, 2)]]]);
    let odd = CochainComplex::new(vec![1, 1], vec![vec![vec![(0, -3)]]]);
    let x = Cochain::basis(0, 0, 1);
    assert!(BocksteinHomomorphism::apply(&x, &even).is_zero());
    let bx = BocksteinHomomorphism::apply(&x, &odd);
    assert_eq!(bx.degree, 1);
    assert_eq!(bx.get(0), 1);
    assert_eq!(SteenrodSquare::sq1(&x, &odd).entries(), bx.entries());
}

#[test]
fn bockstein_square_can_fail_without_a_complex() {
    // d_1 after d_0 is not zero here, so beta^2 is not zero either.
    let complex = CochainComplex::new(
        vec![1, 1, 1],
        vec![vec![vec![(0, 1)]], vec![vec![(0, 1)]]],
    );
    let x = Cochain::basis(0, 0, 1);
    assert!(!BocksteinHomomorphism::verify_square_zero(&x, &complex));
    // A genuine complex: d_0 = 2 and d_1 = 0.
    let complex = CochainComplex::new(vec![1, 1, 1], vec![vec![vec![(0, 2)]], vec![vec![]]]);
    assert!(BocksteinHomomorphism::verify_square_zero(&x, &complex));
}

#[test]
fn steenrod_squares() {
    let x = cochain(2, &[(0, 3), (4, 1)]);
    let sq0 = SteenrodSquare::sq0(&x);
    assert_eq!(sq0.entries(), x.entries());
    assert_eq!(sq0.degree, 2);
    let sq2 = SteenrodSquare::sqn(&x);
    assert_eq!(sq2.degree, 4);
    assert_eq!(sq2.get(0), 12);
    assert_eq!(sq2.get(4), 4);
    let y = cochain(1, &[(1, -2)]);
    assert!(SteenrodSquare::verify_cartan_formula(&x, &y, &CochainComplex::for_sphere()));
}

#[test]
fn adem_relation_boundaries() {
    assert!(SteenrodSquare::adem_relation_check(3, 2));
    assert!(!SteenrodSquare::adem_relation_check(0, 0));
    assert!(!SteenrodSquare::adem_relation_check(2, 1));
}

#[test]
fn bockstein_squares_to_zero_when_the_composite_is_even() {
    // d_1 after d_0 is 2, zero mod 2 though not zero over the integers.
    let complex = CochainComplex::new(
        vec![1, 1, 1],
        vec![vec![vec![(0, 1)]], vec![vec![(0, 2)]]],
    );
    let x = Cochain::basis(0, 0, 5);
    let bx = BocksteinHomomorphism::apply(&x, &complex);
    assert_eq!(bx.get(0), 1);
    assert!(BocksteinHomomorphism::verify_square_zero(&x, &complex));
}

#[test]
fn bockstein_vanishes_without_coboundary_entries() {
    let x = cochain(1, &[(0, 3), (1, 1)]);
    assert!(BocksteinHomomorphism::apply(&x, &CochainComplex::for_torus()).is_zero());
    assert!(BocksteinHomomorphism::verify_square_zero(&x, &CochainComplex::for_torus()));
}

#[test]
fn diagonal_matrices_have_full_rank() {
    assert_eq!(matrix_rank(&[vec![3, 0, 0], vec![0, -2, 0]]), 2);
    assert_eq!(matrix_rank(&[vec![7, 0], vec![0, 1], vec![0, 0]]), 2);
}

#[test]
fn cochain_addition_is_associative() {
    let a = cochain(0, &[(0, 1), (1, 2)]);
    let b = cochain(0, &[(1, -2), (2, 5)]);
    let c = cochain(0, &[(2, -5), (3, 4)]);
    let left = a.add(&b).add(&c);
    let right = a.add(&b.add(&c));
    assert_eq!(left.entries(), right.entries());
    assert_eq!(left.get(0), 1);
    assert_eq!(left.get(1), 0);
    assert_eq!(left.get(3), 4);
}

#[test]
fn matrix_columns_are_coboundaries_of_basis_elements() {
    let coboundary = vec![vec![vec![(0, 2), (2, -1), (0, 3)], vec![(1, 4)], vec![]]];
    let complex = CochainComplex::new(vec![3, 3], coboundary);
    let m = complex.coboundary_matrix(0);
    for b in 0..3 {
        let image = complex.apply_coboundary(&Cochain::basis(0, b, 1));
        for t in 0..3 {
            assert_eq!(m[t][b], image.get(t));
        }
    }
}

#[test]
fn coboundary_with_cancelling_entries_stays_in_range() {
    let max = i32::MAX;
    let complex = CochainComplex::new(vec![1, 1], vec![vec![vec![(0, max), (0, -max), (0, max), (0, -max)]]]);
    let dx = complex.apply_coboundary(&Cochain::basis(0, 0, 1));
    assert!(dx.is_zero());
    assert_eq!(dx.degree, 1);
}

#[test]
fn coboundary_is_linear() {
    let coboundary = vec![vec![vec![(0, 2), (1, -1)], vec![(1, 3)], vec![(0, 1), (0, 1)]]];
    let complex = CochainComplex::new(vec![3, 2], coboundary);
    let a = cochain(0, &[(0, 2), (2, -1)]);
    let b = cochain(0, &[(1, 4), (2, 3)]);
    let da = complex.apply_coboundary(&a);
    let db = complex.apply_coboundary(&b);
    let dab = complex.apply_coboundary(&a.add(&b));
    let d3a = complex.apply_coboundary(&a.scale(3));
    for t in 0..2 {
        assert_eq!(dab.get(t), da.get(t) + db.get(t));
        assert_eq!(d3a.get(t), 3 * da.get(t));
    }
    assert_eq!(da.get(0), 2 * 2 - 2);
}

#[test]
fn entries_hold_no_zero() {
    let a = cochain(1, &[(0, 3), (1, -3), (2, 5)]);
    let b = cochain(1, &[(0, -3), (1, 3)]);
    let sum = a.add(&b);
    assert!(sum.entries().values().all(|v| *v != 0));
    assert_eq!(sum.entries().len(), 1);
}

#[test]
fn rank_counts_rational_dependence() {
    // 3 * (2, 4) = 2 * (3, 6): dependent over the rationals though neither row is an
    // integer multiple of the other.
    assert_eq!(matrix_rank(&[vec![2, 4], vec![3, 6]]), 1);
    assert_eq!(matrix_rank(&[vec![2, 3, 0], vec![4, 6, 1], vec![0, 0, 5]]), 2);
}

#[test]
fn betti_numbers_are_kernel_less_image() {
    // d_0 e = a + b, d_1 a = c, d_1 b = -c: d_1 after d_0 is zero.
    let complex = CochainComplex::new(
        vec![1, 2, 1],
        vec![vec![vec![(0, 1), (1, 1)]], vec![vec![(0, 1)], vec![(0, -1)]]],
    );
    let groups = CohomologyGroup::compute_all(&complex);
    // H^0: kernel 0; H^1: kernel 1, image 1; H^2: kernel 1, image 1.
    assert_eq!(groups.iter().map(|g| g.rank).collect::<Vec<_>>(), vec![0, 0, 0]);
    let circle = CochainComplex::new(vec![2, 2], vec![vec![vec![(0, -1), (1, 1)], vec![(0, 1), (1, -1)]]]);
    let groups = CohomologyGroup::compute_all(&circle);
    assert_eq!(groups.iter().map(|g| g.rank).collect::<Vec<_>>(), vec![1, 1]);
}

#[test]
fn euler_characteristic_of_cochains_and_cohomology_agree() {
    let torus = CochainComplex::for_torus();
    let groups = CohomologyGroup::compute_all(&torus);
    let betti: i64 = groups.iter().enumerate().map(|(k, g)| if k % 2 == 0 { g.rank as i64 } else { -(g.rank as i64) }).sum();
    let dims: i64 = torus.dimensions.iter().enumerate().map(|(k, d)| if k % 2 == 0 { *d as i64 } else { -(*d as i64) }).sum();
    assert_eq!(betti, dims);
    assert_eq!(betti, 0);
}

#[test]
fn torsion_of_multiplication_by_two() {
    // Z --x2--> Z: H^0 = 0, H^1 = Z/2.
    let complex = CochainComplex::new(vec![1, 1], vec![vec![vec![(0, 2)]]]);
    let h0 = CohomologyGroup::compute(&complex, 0);
    assert!(h0.torsion.is_empty());
    let h1 = CohomologyGroup::compute(&complex, 1);
    assert_eq!(h1.rank, 0);
    assert_eq!(h1.torsion, vec![(2, 1)]);
}

#[test]
fn torsion_splits_into_prime_powers() {
    let complex = CochainComplex::new(vec![1, 1], vec![vec![vec![(0, 12)]]]);
    assert_eq!(CohomologyGroup::compute(&complex, 1).torsion, vec![(2, 2), (3, 1)]);
    let diagonal = CochainComplex::new(vec![2, 2], vec![vec![vec![(0, 2)], vec![(1, 6)]]]);
    assert_eq!(CohomologyGroup::compute(&diagonal, 1).torsion, vec![(2, 1), (2, 1), (3, 1)]);
    // [[2, 4], [6, 8]] has invariant factors 2 and 4.
    let full = CochainComplex::new(vec![2, 2], vec![vec![vec![(0, 2), (1, 6)], vec![(0, 4), (1, 8)]]]);
    let h1 = CohomologyGroup::compute(&full, 1);
    assert_eq!(h1.rank, 0);
    assert_eq!(h1.torsion, vec![(2, 1), (2, 2)]);
    // a unit invariant factor gives no torsion
    let unit = CochainComplex::new(vec![1, 2], vec![vec![vec![(0, 3), (1, 5)]]]);
    let h1 = CohomologyGroup::compute(&unit, 1);
    assert_eq!(h1.rank, 1);
    assert!(h1.torsion.is_empty());
}

#[test]
fn factorize_lists_prime_powers_in_order() {
    assert_eq!(factorize(360), vec![(2, 3), (3, 2), (5, 1)]);
    assert_eq!(factorize(97), vec![(97, 1)]);
    assert_eq!(factorize(1), Vec::<(usize, usize)>::new());
    assert_eq!(factorize(2 * 2 * 7 * 7 * 7 * 11), vec![(2, 2), (7, 3), (11, 1)]);
}

#[test]
fn smith_diagonal_of_small_matrices() {
    assert_eq!(smith_diagonal(&vec![vec![2, 4], vec![6, 8]], 2), Some(vec![2, 4]));
    assert_eq!(smith_diagonal(&vec![vec![0, 0], vec![0, 0]], 2), Some(vec![0, 0]));
    assert_eq!(smith_diagonal(&vec![vec![4, 0, 0], vec![0, 6, 0]], 3), Some(vec![2, 12]));
    assert_eq!(smith_diagonal(&vec![vec![-3]], 1), Some(vec![3]));
}
