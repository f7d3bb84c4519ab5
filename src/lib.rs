//! Dense matrices over an exact field, with Gaussian elimination that reports
//! every elementary row operation it performs.
//!
//! - `field`: the scalars, residues modulo a prime, with exact division.
//! - `vec`: vectors of scalars and their elementwise arithmetic.
//! - `mat`: matrices stored by rows, their construction, and the reductions:
//!   `row_reduced` (a row-echelon form), `row_reduced_verbose` (the same with
//!   every step), `rref` (the reduced row-echelon form) and `rank` (the number
//!   of pivots).
//! - `gauss`: the elimination itself, as a state machine that the lazy
//!   `GaussElimIter` steps through one row operation at a time, and the
//!   proof that its results are in (reduced) row-echelon form.
//! - `nonsingular`: a square nonsingular matrix reduces to the identity.
//! - `dependent_rows`: dependent rows (two equal rows, say) leave a zero row
//!   in the reduced form.
pub mod field;
pub mod dependent_rows;
pub mod gauss;
pub mod mat;
pub mod nonsingular;
pub mod vec;

pub use field::{Fp, MODULUS};
pub use gauss::{GaussElimIter, Step};
pub use mat::Mat2d;
