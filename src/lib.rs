//! An interactive sum-check protocol engine over the BLS12-381 scalar field.
//!
//! A prover convinces a verifier that a claimed value is the sum of a sparse multivariate
//! polynomial over the Boolean hypercube, one variable per round.
//!
//! - `field`: scalars as canonical integers below the field's order; arithmetic is ark-ff's.
//! - `poly`: sparse multivariate and dense univariate polynomials and their models;
//!   evaluation is ark-poly's.
//! - `hypercube`: full sums, partial evaluation and the round polynomials.
//! - `prover`, `verification`: the two parties; `protocol`: the identities that make an
//!   honest run pass, and a full run.
//!
//! Exponents are not limited to one: a bound on each variable's degree is the caller's
//! choice, not the engine's.

pub mod error;
pub mod field;
pub mod hypercube;
pub mod poly;
pub mod protocol;
pub mod prover;
pub mod verification;

pub use error::SumcheckError;
pub use field::Scalar;
pub use hypercube::n_to_vec;
pub use poly::{MultiPoly, Term, UniPoly};
pub use protocol::run_protocol;
pub use prover::Prover;
pub use verification::{Phase, Status, Verifier};
