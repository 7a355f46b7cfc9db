//! Analog Butterworth prototype: exact pole angles.
//!
//! The normalized (1 rad/s) Butterworth low-pass prototype of order `n` has
//! poles on the unit circle of the s-plane at the angles
//! `theta_k = pi * (2k + n + 1) / (2n)` for `k = 0 .. n-1`.  The angle is an
//! exact rational multiple of pi, so the pole set's structure — every pole
//! strictly in the left half-plane, closure under complex conjugation, a
//! single real pole exactly for odd orders — is provable without ever
//! evaluating a cosine.  The cosine/sine values themselves are
//! transcendental and are supplied by callers as fixed-point numbers where
//! a design needs them.

use crate::FilterError;
use vstd::prelude::*;

verus! {

/// The angle `pi * num / den` of one prototype pole.
///
/// The pole itself is `(cos(pi*num/den), sin(pi*num/den))`.  Its real part
/// is negative exactly when the angle lies strictly between `pi/2` and
/// `3*pi/2`, that is when `den < 2*num < 3*den`.
#[derive(Clone, Copy, PartialEq, Eq, Structural, Debug)]
pub struct PoleAngle {
    pub num: usize,
    pub den: usize,
}

impl PoleAngle {
    /// The angle lies strictly inside `(pi/2, 3*pi/2)`, so the pole's real
    /// part `cos(pi*num/den)` is strictly negative.
    pub open spec fn in_left_half_plane(self) -> bool {
        self.den < 2 * self.num < 3 * self.den
    }

    /// The angle is exactly `pi`, so the pole is the real number `-1`.
    pub open spec fn is_real(self) -> bool {
        self.num == self.den
    }
}

/// Computes the `order` pole angles of the normalized analog Butterworth
/// prototype.
///
/// On success the result lists `theta_k = pi * (2k + order + 1) / (2*order)`
/// in order of `k`, and the listed guarantees make the classic structure of
/// the Butterworth pole set explicit:
/// - every pole lies strictly in the left half s-plane;
/// - the set is closed under conjugation: poles `k` and `order-1-k` have
///   angles summing to `2*pi`;
/// - an odd order has exactly one real pole (at `k = (order-1)/2`), an even
///   order has none.
pub fn butterworth_analog_poles(order: usize) -> (r: Result<Vec<PoleAngle>, FilterError>)
    requires
        order <= usize::MAX / 3,
    ensures
        r is Ok <==> order >= 1,
        order < 1 ==> r === Err(FilterError::InvalidParameter),
        r matches Ok(v) ==> {
            &&& v@.len() == order
            &&& forall|k: int|
                0 <= k < order ==> (#[trigger] v@[k]).num == 2 * k + order + 1
            &&& forall|k: int| 0 <= k < order ==> (#[trigger] v@[k]).den == 2 * order
            &&& forall|k: int| 0 <= k < order ==> (#[trigger] v@[k]).in_left_half_plane()
            &&& forall|k: int|
                0 <= k < order ==> (#[trigger] v@[k]).num + v@[order - 1 - k].num == 2 * v@[
                    k].den
            &&& forall|k: int|
                0 <= k < order ==> ((#[trigger] v@[k]).is_real() <==> 2 * k + 1 == order)
            &&& order % 2 == 0 ==> forall|k: int|
                0 <= k < order ==> !(#[trigger] v@[k]).is_real()
            &&& order % 2 == 1 ==> forall|k: int|
                0 <= k < order ==> ((#[trigger] v@[k]).is_real() <==> k == (order - 1) / 2
                as int)
        },
{
    if order < 1 {
        return Err(FilterError::InvalidParameter);
    }
    let mut v: Vec<PoleAngle> = Vec::new();
    let mut k: usize = 0;
    while k < order
        invariant
            order >= 1,
            order <= usize::MAX / 3,
            k <= order,
            v@.len() == k,
            forall|i: int| 0 <= i < k ==> (#[trigger] v@[i]).num == 2 * i + order + 1,
            forall|i: int| 0 <= i < k ==> (#[trigger] v@[i]).den == 2 * order,
        decreases order - k,
    {
        let num = 2 * k + order + 1;
        let den = 2 * order;
        v.push(PoleAngle { num, den });
        k = k + 1;
    }
    Ok(v)
}

} // verus!
