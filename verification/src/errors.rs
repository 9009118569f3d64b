use vstd::prelude::*;

verus! {

/// The recoverable failure conditions that the coding and cipher operations
/// report to their callers.
#[derive(Clone, Copy, Debug, PartialEq, Eq, Structural)]
pub enum CodecError {
    /// A generator polynomial has a decimal digit outside `0..=7`.
    InvalidPolynomial,
    /// The polynomial list is empty, or the constraint length is zero or
    /// wider than the 32-bit shift register.
    InvalidConfiguration,
    /// The decoder input length is not a multiple of the number of
    /// generator polynomials.
    InvalidInputLength,
    /// The cipher algorithm name is not one of the supported ones.
    UnsupportedAlgorithm,
}

} // verus!
