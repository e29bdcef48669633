//! Cochain complexes, their cohomology groups, the cup product and the
//! Bockstein and Steenrod operations, over sparse integer coefficients.
pub mod sums;
pub mod cochain;
pub mod complex;
pub mod rank;
pub mod row_space;
pub mod null_space;
pub mod smith;
pub mod primes;
pub mod torsion;
pub mod cohomology;
pub mod cup;
pub mod bockstein;
pub mod steenrod;

pub use cochain::Cochain;
pub use cohomology::CohomologyGroup;
pub use complex::CochainComplex;
pub use bockstein::BocksteinHomomorphism;
pub use cup::CupProduct;
pub use steenrod::SteenrodSquare;
pub use rank::matrix_rank;

