//! The ways a sum-check run can fail.
use vstd::prelude::*;

verus! {

/// Every failure of the engine, the prover or the verifier.
#[derive(Clone, Copy, Debug, PartialEq, Eq, Structural)]
pub enum SumcheckError {
    /// The polynomial has no variables, refers to a variable beyond its count, names a
    /// variable twice in one term, has an exponent too large to size a coefficient vector,
    /// or has a term whose total degree overflows a `usize`.
    ConstructionError,
    /// The claimed sum differs from the first round polynomial's values at 0 and 1.
    ClaimMismatch,
    /// A round polynomial failed the boundary identity or the final identity.
    VerificationFailed,
    /// A method was called out of the protocol's order.
    ProtocolMisuse,
}

} // verus!
