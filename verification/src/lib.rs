//! Digital Butterworth filter synthesis over exact scaled-integer arithmetic.
//!
//! The synthesis pipeline (analog prototype poles, bilinear transform,
//! cascade convolution, gain normalization) and the frequency-response
//! evaluator work on fixed-point values (`fx::Fx`) and exact rationals
//! (`rat::Rat`), so every arithmetic step has an exact contract.  The few
//! transcendental quantities a design needs (the pre-warped cutoff
//! `2*tan(pi*fc/fs)` and the prototype pole cosines/sines) are taken as
//! scaled-integer inputs from the caller.

pub mod butterworth_filter;
pub mod cutoff;
pub mod filter_response;
pub mod fx;
pub mod poles;
pub mod rat;

use vstd::prelude::*;

verus! {

/// Why a synthesis call failed.
///
/// `InvalidParameter` reports arguments outside the documented domain
/// (order below one, cutoff not strictly between zero and half the sample
/// rate, non-positive sample rate).  `NumericDegenerate` reports an input on
/// which the scaled-integer pipeline cannot finish exactly: an intermediate
/// value left the representable range, or a divisor that must be positive
/// was not.
#[derive(Clone, Copy, PartialEq, Eq, Structural, Debug)]
pub enum FilterError {
    InvalidParameter,
    NumericDegenerate,
}

} // verus!
