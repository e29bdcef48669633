# cohomology ring

Cochain complexes over sparse integer coefficients, their cohomology groups,
the (diagonal) cup product, the mod-2 Bockstein homomorphism and Steenrod
squares, written in Verus with every function carrying a proved contract.

Layout of `src/`:

- `sums.rs`: finite sums over coefficient maps and over listings of their
  entries, with the lemmas that make sums independent of hash-map order.
- `cochain.rs`: `Cochain`, a degree and a map from basis indices to nonzero
  coefficients; addition, scaling and lookup.
- `complex.rs`: `CochainComplex`, the coboundary operator and the dense
  coboundary matrices.
- `rank.rs`: `matrix_rank`, fraction-free row reduction of an integer matrix.
- `row_space.rs`: row reduction keeps the row space, ends in echelon form, and
  counts the dimension of the row space over the rationals.
- `null_space.rs`: the null space and the image of a matrix over the
  rationals, with bases built from the reduced matrix: the nullity is the
  number of columns less the rank, the image has the rank as dimension, and
  where `a b = 0` the rank of `b` is at most the nullity of `a`.
- `smith.rs`: the Smith normal form of an integer matrix, reached by
  invertible row and column operations.
- `primes.rs`: prime-power factorisation by trial division.
- `torsion.rs`: the torsion of the cokernel of a matrix, read off its Smith
  normal form.
- `cohomology.rs`: `CohomologyGroup`, Betti numbers from coboundary ranks:
  the dimension of the kernel of d_k less that of the image of d_{k-1}; the
  torsion of H^k as that of the cokernel of d_{k-1}.
- `cup.rs`: `CupProduct`, the diagonal cup product.
- `bockstein.rs`: `BocksteinHomomorphism`, the coboundary reduced mod 2.
- `steenrod.rs`: `SteenrodSquare`, Sq^0, Sq^1, Sq^n and the Cartan check.

Public proof functions state the laws: associativity of the cup product,
commutativity on one basis element, the Bockstein squaring to zero when
d_{k+1} after d_k vanishes mod 2, Betti numbers of complexes without
coboundary entries, linearity of the coboundary, the columns of a coboundary
matrix as images of basis elements, the algebra of cochain addition, the rank
of zero and diagonal matrices, the rank as the dimension of the row space and
of the image, the nullity, and the Betti number as kernel less image where
consecutive coboundaries compose to zero, the Euler characteristic, and the
prime factorisation behind the torsion list.

The Smith reduction works on `i64` entries; where an entry would leave that
range, `CohomologyGroup::compute` leaves the torsion list empty.

Arithmetic is on `i32` as in the executable code. Where a function adds up
terms in the order a hash map yields them, its `requires` rule out exactly the
inputs on which some order would make a product or a running sum leave the
`i32` range; the row reduction and the dense coboundary matrix, which work in a
fixed order, require that their own steps fit.
