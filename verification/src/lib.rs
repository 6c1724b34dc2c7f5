//! Discrete Bayesian inference over exact rational masses.
//!
//! A `Pmf` maps discrete values to non-negative rational masses (`Frac`,
//! modelled in specifications by the `rat` module); a `Cdf` is a sorted
//! cumulative snapshot of a `Pmf`; `suite` performs Bayesian belief updates
//! on a `Pmf` of hypotheses; `simulation` combines distributions by mixture
//! and Monte Carlo sums; `utils` converts between probabilities and odds.

pub mod cdf;
pub mod frac;
pub mod pmf;
pub mod rat;
pub mod simulation;
pub mod suite;
pub mod utils;

use vstd::prelude::*;

verus! {

/// The failures the library reports instead of panicking.
#[derive(Clone, Copy, Debug, PartialEq, Eq, Structural)]
pub enum Error {
    /// A probability argument lies outside its allowed range.
    Range,
    /// An argument lies outside the domain of the exact operation.
    Domain,
    /// An operation needs at least one entry and found none.
    EmptyCollection,
    /// An exact rational result does not fit the machine representation.
    Overflow,
}

} // verus!
