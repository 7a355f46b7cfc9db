//! Locating the -3 dB point of an evaluated response.
//!
//! The -3 dB level is the magnitude `1/sqrt(2)`, whose *squared* magnitude
//! is exactly `1/2` — representable exactly in fixed point.  Comparing
//! which of two squared magnitudes lies closer to the level in plain
//! magnitude (`|sqrt(u) - sqrt(t)| <= |sqrt(v) - sqrt(t)|`) can be decided
//! exactly over the integers by a case analysis that squares the
//! irrational comparison away; `closer_to_target` is that decision, and
//! the grid search below returns the first sample minimizing it.

use crate::filter_response::FrequencyResponseSample;
use crate::fx::SCALE;
use crate::FilterError;
use vstd::prelude::*;

verus! {

/// Squared magnitudes this large (or negative ones) make the exact
/// comparison overflow; the search rejects them.  `2^60` raw is a squared
/// magnitude of `2^28`, far beyond any meaningful filter gain.
pub const MAG_LIMIT: i128 = 1152921504606846976;

/// The squared magnitude of the -3 dB level `1/sqrt(2)`, exactly: the
/// raw fixed-point value of `1/2`, that is `SCALE / 2`.
pub const TARGET_M2: i128 = 2147483648;

/// A raw squared magnitude the comparison accepts.
pub open spec fn mag_ok(u: int) -> bool {
    0 <= u <= MAG_LIMIT
}

/// `|sqrt(u1) - sqrt(t)| <= |sqrt(u2) - sqrt(t)|` for non-negative
/// integers, decided exactly.
///
/// On a common side of `t` the square root is monotone, so the raw values
/// compare directly.  For `u1 < t < u2` the comparison is
/// `sqrt(t) - sqrt(u1) <= sqrt(u2) - sqrt(t)`, that is
/// `2*sqrt(t) <= sqrt(u1) + sqrt(u2)`; squaring twice turns it into
/// `4t - u1 - u2 <= 0 or (4t - u1 - u2)^2 <= 4*u1*u2`.  The opposite
/// mixed case is the complement with the inequalities flipped.
pub open spec fn closer_to_target(u1: int, u2: int, t: int) -> bool {
    if u1 >= t && u2 >= t {
        u1 <= u2
    } else if u1 <= t && u2 <= t {
        u2 <= u1
    } else if u1 < t {
        4 * t - u1 - u2 <= 0 || (4 * t - u1 - u2) * (4 * t - u1 - u2) <= 4 * (u1 * u2)
    } else {
        4 * t - u1 - u2 >= 0 && 4 * (u1 * u2) <= (4 * t - u1 - u2) * (4 * t - u1 - u2)
    }
}

/// The comparison is total: two distances always compare one way or the
/// other.
pub proof fn lemma_closer_total(u: int, v: int, t: int)
    requires
        0 <= u,
        0 <= v,
        0 <= t,
        !closer_to_target(u, v, t),
    ensures
        closer_to_target(v, u, t),
{
    assert(u * v == v * u) by (nonlinear_arith);
}

/// The comparison is transitive, as a distance comparison must be.
pub proof fn lemma_closer_trans(u: int, v: int, w: int, t: int)
    requires
        0 <= u,
        0 <= v,
        0 <= w,
        0 <= t,
        closer_to_target(u, v, t),
        closer_to_target(v, w, t),
    ensures
        closer_to_target(u, w, t),
{
    if u == t {
        // distance zero: closest to everything
    } else if v == t {
        // would force distance zero on u as well: contradicts u != t
        assert(false);
    } else if w == t {
        // closer_to_target(v, w, t) forces v == t: contradiction
        assert(false);
    } else if u > t && v > t && w > t {
        // monotone side: raw order
    } else if u < t && v < t && w < t {
        // monotone side
    } else if u > t && v > t && w < t {
        // u <= v, and v's distance is below w's (mixed); shrinking v to u
        // keeps both mixed conditions.
        let bv = 4 * t - v - w;
        let bu = 4 * t - u - w;
        assert(bv >= 0 && bv * bv >= 4 * (v * w));
        assert(bu >= bv);
        assert(bu * bu >= bv * bv) by (nonlinear_arith)
            requires
                0 <= bv <= bu,
        ;
        assert(4 * (v * w) >= 4 * (u * w)) by (nonlinear_arith)
            requires
                u <= v,
                w >= 0,
        ;
    } else if u > t && v < t && w > t {
        // down-mixed then up-mixed forces u <= w.
        let au = 4 * t - u - v;
        let bw = 4 * t - v - w;
        assert(au >= 0 && au * au >= 4 * (u * v));
        assert(bw <= 0 || bw * bw <= 4 * (v * w));
        if u > w {
            assert(bw > au >= 0);
            assert(bw * bw > au * au) by (nonlinear_arith)
                requires
                    0 <= au < bw,
            ;
            assert(4 * (u * v) >= 4 * (w * v)) by (nonlinear_arith)
                requires
                    w <= u,
                    v >= 0,
            ;
            assert(v * w == w * v) by (nonlinear_arith);
            assert(false);
        }
    } else if u < t && v > t && w > t {
        // up-mixed, then v <= w: growing v to w keeps the condition.
        let av = 4 * t - u - v;
        let aw = 4 * t - u - w;
        assert(av <= 0 || av * av <= 4 * (u * v));
        assert(aw <= av);
        if aw > 0 {
            assert(av >= aw > 0);
            assert(aw * aw <= av * av) by (nonlinear_arith)
                requires
                    0 <= aw <= av,
            ;
            assert(4 * (u * v) <= 4 * (u * w)) by (nonlinear_arith)
                requires
                    v <= w,
                    u >= 0,
            ;
        }
    } else if u < t && v < t && w > t {
        // u >= v, then up-mixed from v: growing u keeps the condition.
        let av = 4 * t - v - w;
        let au = 4 * t - u - w;
        assert(av <= 0 || av * av <= 4 * (v * w));
        assert(au <= av);
        if au > 0 {
            assert(av >= au > 0);
            assert(au * au <= av * av) by (nonlinear_arith)
                requires
                    0 <= au <= av,
            ;
            assert(4 * (v * w) <= 4 * (u * w)) by (nonlinear_arith)
                requires
                    v <= u,
                    w >= 0,
            ;
        }
    } else if u > t && v < t && w < t {
        // down-mixed, then v >= w: shrinking v keeps the condition.
        let av = 4 * t - u - v;
        let aw = 4 * t - u - w;
        assert(av >= 0 && av * av >= 4 * (u * v));
        assert(aw >= av);
        assert(aw * aw >= av * av) by (nonlinear_arith)
            requires
                0 <= av <= aw,
        ;
        assert(4 * (u * v) >= 4 * (u * w)) by (nonlinear_arith)
            requires
                w <= v,
                u >= 0,
        ;
    } else {
        // the remaining case is u < t < v and w < t (up-mixed then
        // down-mixed): forces u >= w.
        assert(u < t && v > t && w < t);
        let au = 4 * t - u - v;
        let bw = 4 * t - v - w;
        assert(au <= 0 || au * au <= 4 * (u * v));
        assert(bw >= 0 && bw * bw >= 4 * (v * w));
        if u < w {
            assert(au > bw >= 0);
            assert(au * au > bw * bw) by (nonlinear_arith)
                requires
                    0 <= bw < au,
            ;
            assert(4 * (v * w) >= 4 * (u * v)) by (nonlinear_arith)
                requires
                    u <= w,
                    v >= 0,
            ;
            assert(false);
        }
    }
}

/// Decides `closer_to_target` executably for in-range squared magnitudes.
pub fn closer_to_target_x(u1: i128, u2: i128, t: i128) -> (r: bool)
    requires
        mag_ok(u1 as int),
        mag_ok(u2 as int),
        0 <= t <= MAG_LIMIT,
    ensures
        r == closer_to_target(u1 as int, u2 as int, t as int),
{
    if u1 >= t && u2 >= t {
        u1 <= u2
    } else if u1 <= t && u2 <= t {
        u2 <= u1
    } else {
        proof {
            // 4 * MAG_LIMIT^2 and (4 * MAG_LIMIT)^2 are far below i128::MAX.
            assert(0 <= u1 as int * u2 as int
                <= 0x1000000000000000000000000000000int) by (nonlinear_arith)
                requires
                    0 <= u1 as int <= 0x1000000000000000int,
                    0 <= u2 as int <= 0x1000000000000000int,
        ;
        }
        let d: i128 = 4 * t - u1 - u2;
        proof {
            assert(0 <= d as int * d as int <= 0x10000000000000000000000000000000int)
                by (nonlinear_arith)
                requires
                    -(0x4000000000000000int) <= d as int <= 0x4000000000000000int,
        ;
        }
        let p: i128 = 4 * (u1 * u2);
        if u1 < t {
            d <= 0 || d * d <= p
        } else {
            d >= 0 && p <= d * d
        }
    }
}

/// Finds the first sample whose magnitude lies closest to the -3 dB
/// level `1/sqrt(2)`.
///
/// Succeeds exactly when every squared magnitude is in the comparable
/// range; then the returned index points at a sample at least as close to
/// the level as every other sample, and strictly closer than every
/// earlier one (the first minimizer, as a grid scan that only replaces on
/// strict improvement finds).
pub fn find_3db_index(samples: &Vec<FrequencyResponseSample>) -> (r: Result<
    usize,
    FilterError,
>)
    requires
        samples@.len() >= 1,
    ensures
        r is Ok <==> (forall|j: int|
            0 <= j < samples@.len() ==> mag_ok(
                (#[trigger] samples@[j]).magnitude_squared.raw as int,
            )),
        r is Err ==> r === Err(FilterError::NumericDegenerate),
        r matches Ok(i) ==> {
            &&& 0 <= i < samples@.len()
            &&& forall|j: int|
                0 <= j < samples@.len() ==> closer_to_target(
                    samples@[i as int].magnitude_squared.raw as int,
                    (#[trigger] samples@[j]).magnitude_squared.raw as int,
                    TARGET_M2 as int,
                )
            &&& forall|j: int|
                0 <= j < i ==> !closer_to_target(
                    (#[trigger] samples@[j]).magnitude_squared.raw as int,
                    samples@[i as int].magnitude_squared.raw as int,
                    TARGET_M2 as int,
                )
        },
{
    let n = samples.len();
    let first = samples[0].magnitude_squared.raw;
    if !(first >= 0 && first <= MAG_LIMIT) {
        return Err(FilterError::NumericDegenerate);
    }
    let mut best: usize = 0;
    let mut best_mag: i128 = first;
    let mut k: usize = 1;
    while k < n
        invariant
            n == samples@.len(),
            n >= 1,
            1 <= k <= n,
            best < k,
            best_mag == samples@[best as int].magnitude_squared.raw,
            mag_ok(best_mag as int),
            forall|j: int|
                0 <= j < k ==> mag_ok((#[trigger] samples@[j]).magnitude_squared.raw as int),
            forall|j: int|
                0 <= j < k ==> closer_to_target(
                    best_mag as int,
                    (#[trigger] samples@[j]).magnitude_squared.raw as int,
                    TARGET_M2 as int,
                ),
            forall|j: int|
                0 <= j < best ==> !closer_to_target(
                    (#[trigger] samples@[j]).magnitude_squared.raw as int,
                    best_mag as int,
                    TARGET_M2 as int,
                ),
        decreases n - k,
    {
        let m = samples[k].magnitude_squared.raw;
        if !(m >= 0 && m <= MAG_LIMIT) {
            return Err(FilterError::NumericDegenerate);
        }
        if !closer_to_target_x(best_mag, m, TARGET_M2) {
            // The candidate is strictly closer: it becomes the new best,
            // and stays at least as close as everything seen so far.
            proof {
                lemma_closer_total(best_mag as int, m as int, TARGET_M2 as int);
                let old_best = best_mag as int;
                assert forall|j: int| 0 <= j < k + 1 implies closer_to_target(
                    m as int,
                    (#[trigger] samples@[j]).magnitude_squared.raw as int,
                    TARGET_M2 as int,
                ) by {
                    if j < k {
                        lemma_closer_trans(
                            m as int,
                            old_best,
                            samples@[j].magnitude_squared.raw as int,
                            TARGET_M2 as int,
                        );
                    }
                }
                assert forall|j: int| 0 <= j < k implies !closer_to_target(
                    (#[trigger] samples@[j]).magnitude_squared.raw as int,
                    m as int,
                    TARGET_M2 as int,
                ) by {
                    let mj = samples@[j].magnitude_squared.raw as int;
                    if closer_to_target(mj, m as int, TARGET_M2 as int) {
                        lemma_closer_trans(old_best, mj, m as int, TARGET_M2 as int);
                    }
                }
            }
            best = k;
            best_mag = m;
        }
        k = k + 1;
    }
    Ok(best)
}

} // verus!
