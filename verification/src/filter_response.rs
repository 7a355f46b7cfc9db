//! Frequency-response evaluation of a designed filter.
//!
//! `H(e^{j*omega}) = B(e^{-j*omega}) / A(e^{-j*omega})` where `B` and `A`
//! are the coefficient polynomials.  The caller supplies each evaluation
//! point `e^{j*omega}` as a fixed-point cosine/sine pair (the only
//! transcendental input); the polynomial evaluation, the complex division
//! and the squared magnitude are all checked fixed-point arithmetic with
//! exact contracts.  The squared magnitude is computed from the exact
//! quadrances of `B` and `A`, not from the rounded quotient.

use crate::butterworth_filter::ButterworthFilter;
use crate::fx::cadd;
use crate::fx::cmul;
use crate::fx::csub;
use crate::fx::sc;
use crate::fx::tdiv;
use crate::fx::add_i;
use crate::fx::div_i;
use crate::fx::mul_i;
use crate::fx::sub_i;
use crate::fx::lemma_tdiv_mag;
use crate::fx::lemma_tdiv_neg;
use crate::fx::Fx;
use crate::fx::SCALE;
use crate::rat::Rat;
use crate::FilterError;
use vstd::arithmetic::div_mod::lemma_fundamental_div_mod;
use vstd::arithmetic::div_mod::lemma_hoist_over_denominator;
use vstd::prelude::*;

verus! {

/// A point `e^{j*omega}` on the unit circle, as fixed-point cosine and
/// sine.
#[derive(Clone, Copy, PartialEq, Eq, Structural, Debug)]
pub struct UnitPoint {
    pub cos: Fx,
    pub sin: Fx,
}

/// The filter's response at one evaluation point: `H = response_re +
/// j*response_im` (rounded complex quotient) and the squared magnitude
/// `|H|^2` (from the exact quadrances).  The phase and the magnitude
/// itself are irrational; callers derive them from these fields.
#[derive(Clone, Copy, PartialEq, Eq, Structural, Debug)]
pub struct ResponseValue {
    pub response_re: Fx,
    pub response_im: Fx,
    pub magnitude_squared: Fx,
}

// ---------------------------------------------------------------------
// Converting exact rational coefficients to fixed point.
// ---------------------------------------------------------------------

/// A rational coefficient truncated to fixed point, computed in two steps
/// (integer part, then the scaled remainder) so the intermediate products
/// stay small; `None` when even those leave the representable range.
pub open spec fn sp_rat_fx(num: int, den: int) -> Option<int>
    recommends
        den > 0,
{
    let q = tdiv(num, den);
    let rem = num - q * den;
    match cmul(q, sc()) {
        None => None,
        Some(qs) => match cmul(rem, sc()) {
            None => None,
            Some(rs) => cadd(qs, tdiv(rs, den)),
        },
    }
}

/// What the two-step conversion means: exactly `num * SCALE / den`,
/// truncated toward zero.
pub proof fn lemma_rat_fx_value(num: int, den: int)
    requires
        den > 0,
    ensures
        sp_rat_fx(num, den) matches Some(v) ==> v == tdiv(num * sc(), den),
{
    let q = tdiv(num, den);
    let rem = num - q * den;
    lemma_tdiv_mag(num, den);
    if num >= 0 {
        assert(0 <= rem) by (nonlinear_arith)
            requires
                rem == num - q * den,
                0 <= q * den <= num,
        ;
        assert(num == den * q + rem) by (nonlinear_arith)
            requires
                rem == num - q * den,
        ;
        assert(rem < den) by {
            lemma_fundamental_div_mod(num, den);
            assert(q == num / den);
            assert(rem == num % den) by (nonlinear_arith)
                requires
                    num == den * (num / den) + num % den,
                    rem == num - (num / den) * den,
            ;
        }
        assert(rem * sc() >= 0) by (nonlinear_arith)
            requires
                rem >= 0,
                sc() > 0,
        ;
        assert(num * sc() == (q * sc()) * den + rem * sc()) by (nonlinear_arith)
            requires
                num == q * den + rem,
        ;
        assert(num * sc() >= 0) by (nonlinear_arith)
            requires
                num >= 0,
                sc() > 0,
        ;
        assert((rem * sc()) / den + (q * sc()) == ((rem * sc()) + (q * sc()) * den) / den)
            by {
            lemma_hoist_over_denominator(rem * sc(), q * sc(), den as nat);
        }
        assert(tdiv(num * sc(), den) == q * sc() + tdiv(rem * sc(), den));
    } else {
        // Reduce to the non-negative case through the oddness of
        // truncation.
        let nq = tdiv(-num, den);
        let nrem = -num - nq * den;
        lemma_tdiv_neg(num, den);
        assert(nq == -q);
        assert(nrem == -rem) by (nonlinear_arith)
            requires
                nrem == -num - (-q) * den,
                rem == num - q * den,
        ;
        lemma_tdiv_mag(-num, den);
        assert(0 <= nrem) by (nonlinear_arith)
            requires
                nrem == -num - nq * den,
                0 <= nq * den <= -num,
        ;
        assert(nrem < den) by {
            lemma_fundamental_div_mod(-num, den);
            assert(nq == (-num) / den);
            assert(nrem == (-num) % den) by (nonlinear_arith)
                requires
                    -num == den * ((-num) / den) + (-num) % den,
                    nrem == -num - ((-num) / den) * den,
        ;
        }
        assert(nrem * sc() >= 0) by (nonlinear_arith)
            requires
                nrem >= 0,
                sc() > 0,
        ;
        assert((-num) * sc() == (nq * sc()) * den + nrem * sc()) by (nonlinear_arith)
            requires
                -num == nq * den + nrem,
        ;
        assert((-num) * sc() >= 0) by (nonlinear_arith)
            requires
                -num >= 0,
                sc() > 0,
        ;
        assert((nrem * sc()) / den + (nq * sc()) == ((nrem * sc()) + (nq * sc()) * den)
            / den) by {
            lemma_hoist_over_denominator(nrem * sc(), nq * sc(), den as nat);
        }
        assert(tdiv((-num) * sc(), den) == nq * sc() + tdiv(nrem * sc(), den));
        assert((-num) * sc() == -(num * sc())) by (nonlinear_arith);
        lemma_tdiv_neg(num * sc(), den);
        assert(nrem * sc() == -(rem * sc())) by (nonlinear_arith)
            requires
                nrem == -rem,
        ;
        lemma_tdiv_neg(rem * sc(), den);
        assert(nq * sc() == -(q * sc())) by (nonlinear_arith)
            requires
                nq == -q,
        ;
        assert(tdiv(num * sc(), den) == q * sc() + tdiv(rem * sc(), den));
    }
}

fn rat_fx_x(r: Rat) -> (o: Option<i128>)
    requires
        r.wf(),
    ensures
        crate::fx::omatch(o, sp_rat_fx(r.num as int, r.den as int)),
        o matches Some(v) ==> v as int == tdiv(r.num as int * sc(), r.den as int),
{
    proof {
        lemma_rat_fx_value(r.num as int, r.den as int);
    }
    let q = div_i(r.num, r.den);
    proof {
        lemma_tdiv_mag(r.num as int, r.den as int);
    }
    let qd = match mul_i(q, r.den) {
        Some(v) => v,
        None => {
            // Unreachable: |q * den| <= |num| always fits.
            proof {
                assert(false);
            }
            return None;
        },
    };
    let rem = match sub_i(r.num, qd) {
        Some(v) => v,
        None => {
            // Unreachable: the remainder has a smaller magnitude than num.
            proof {
                assert(false);
            }
            return None;
        },
    };
    let qs = match mul_i(q, SCALE) {
        Some(v) => v,
        None => { return None; },
    };
    let rs = match mul_i(rem, SCALE) {
        Some(v) => v,
        None => { return None; },
    };
    let t = div_i(rs, r.den);
    proof {
        lemma_tdiv_mag(rs as int, r.den as int);
    }
    add_i(qs, t)
}

/// All coefficients of a rational vector, converted to fixed point.
pub open spec fn sp_coefs_fx(s: Seq<Rat>, k: int) -> Option<Seq<int>>
    decreases k,
{
    if k <= 0 {
        Some(Seq::empty())
    } else {
        match sp_coefs_fx(s, k - 1) {
            None => None,
            Some(t) => match sp_rat_fx(s[k - 1].num as int, s[k - 1].den as int) {
                None => None,
                Some(c) => Some(t.push(c)),
            },
        }
    }
}

proof fn lemma_sp_coefs_none(s: Seq<Rat>, k: int, k2: int)
    requires
        sp_coefs_fx(s, k) is None,
        k <= k2,
    ensures
        sp_coefs_fx(s, k2) is None,
    decreases k2 - k,
{
    if k < k2 {
        lemma_sp_coefs_none(s, k, k2 - 1);
    }
}

fn coefs_fx_x(s: &Vec<Rat>) -> (r: Option<Vec<i128>>)
    requires
        crate::rat::all_wf(s@),
    ensures
        match r {
            Some(v) => sp_coefs_fx(s@, s@.len() as int) == Some(
                crate::butterworth_filter::raws(v@),
            ) && v@.len() == s@.len(),
            None => sp_coefs_fx(s@, s@.len() as int) is None,
        },
{
    let n = s.len();
    let mut out: Vec<i128> = Vec::new();
    let mut k: usize = 0;
    while k < n
        invariant
            n == s@.len(),
            crate::rat::all_wf(s@),
            k <= n,
            out@.len() == k,
            sp_coefs_fx(s@, k as int) == Some(crate::butterworth_filter::raws(out@)),
        decreases n - k,
    {
        let c = match rat_fx_x(s[k]) {
            Some(v) => v,
            None => {
                proof {
                    lemma_sp_coefs_none(s@, k + 1, n as int);
                }
                return None;
            },
        };
        proof {
            assert(crate::butterworth_filter::raws(out@.push(c))
                =~= crate::butterworth_filter::raws(out@).push(c as int));
        }
        out.push(c);
        k = k + 1;
    }
    Some(out)
}

// ---------------------------------------------------------------------
// Polynomial evaluation (Horner) and the response at one point.
// ---------------------------------------------------------------------

/// Horner evaluation of the coefficients `c[i..]` at the complex point
/// `w = (wre + j*wim) / SCALE`: the value of
/// `c[i] + w*(c[i+1] + w*(...))`, each product truncated to the scale.
pub open spec fn sp_horner(c: Seq<int>, wre: int, wim: int, i: int) -> Option<(int, int)>
    decreases c.len() - i,
{
    if i >= c.len() {
        Some((0, 0))
    } else {
        match sp_horner(c, wre, wim, i + 1) {
            None => None,
            Some(acc) => match cmul(acc.0, wre) {
                None => None,
                Some(rr) => match cmul(acc.1, wim) {
                    None => None,
                    Some(jj) => match csub(rr, jj) {
                        None => None,
                        Some(ren) => match cadd(tdiv(ren, sc()), c[i]) {
                            None => None,
                            Some(re) => match cmul(acc.0, wim) {
                                None => None,
                                Some(rj) => match cmul(acc.1, wre) {
                                    None => None,
                                    Some(jr) => match cadd(rj, jr) {
                                        None => None,
                                        Some(imn) => Some((re, tdiv(imn, sc()))),
                                    },
                                },
                            },
                        },
                    },
                },
            },
        }
    }
}

proof fn lemma_horner_none(c: Seq<int>, wre: int, wim: int, i: int, i2: int)
    requires
        sp_horner(c, wre, wim, i) is None,
        i2 <= i,
    ensures
        sp_horner(c, wre, wim, i2) is None,
    decreases i - i2,
{
    if i2 < i {
        lemma_horner_none(c, wre, wim, i, i2 + 1);
    }
}

fn horner_x(c: &Vec<i128>, wre: i128, wim: i128) -> (r: Option<(i128, i128)>)
    ensures
        crate::butterworth_filter::omatch2(
            r,
            sp_horner(crate::butterworth_filter::raws(c@), wre as int, wim as int, 0),
        ),
{
    let ghost rc = crate::butterworth_filter::raws(c@);
    let n = c.len();
    let mut re: i128 = 0;
    let mut im: i128 = 0;
    let mut k: usize = n;
    while k > 0
        invariant
            n == c@.len(),
            rc == crate::butterworth_filter::raws(c@),
            k <= n,
            re > i128::MIN,
            im > i128::MIN,
            sp_horner(rc, wre as int, wim as int, k as int) == Some((re as int, im as int)),
        decreases k,
    {
        k = k - 1;
        let rr = match mul_i(re, wre) {
            Some(v) => v,
            None => {
                proof {
                    lemma_horner_none(rc, wre as int, wim as int, k as int, 0);
                }
                return None;
            },
        };
        let jj = match mul_i(im, wim) {
            Some(v) => v,
            None => {
                proof {
                    lemma_horner_none(rc, wre as int, wim as int, k as int, 0);
                }
                return None;
            },
        };
        let ren = match sub_i(rr, jj) {
            Some(v) => v,
            None => {
                proof {
                    lemma_horner_none(rc, wre as int, wim as int, k as int, 0);
                }
                return None;
            },
        };
        let rt = div_i(ren, SCALE);
        proof {
            lemma_tdiv_mag(ren as int, sc());
        }
        let re2 = match add_i(rt, c[k]) {
            Some(v) => v,
            None => {
                proof {
                    lemma_horner_none(rc, wre as int, wim as int, k as int, 0);
                }
                return None;
            },
        };
        let rj = match mul_i(re, wim) {
            Some(v) => v,
            None => {
                proof {
                    lemma_horner_none(rc, wre as int, wim as int, k as int, 0);
                }
                return None;
            },
        };
        let jr = match mul_i(im, wre) {
            Some(v) => v,
            None => {
                proof {
                    lemma_horner_none(rc, wre as int, wim as int, k as int, 0);
                }
                return None;
            },
        };
        let imn = match add_i(rj, jr) {
            Some(v) => v,
            None => {
                proof {
                    lemma_horner_none(rc, wre as int, wim as int, k as int, 0);
                }
                return None;
            },
        };
        let im2 = div_i(imn, SCALE);
        proof {
            lemma_tdiv_mag(imn as int, sc());
        }
        re = re2;
        im = im2;
    }
    Some((re, im))
}

/// The response at one point: Horner-evaluate `B` and `A` at
/// `w = e^{-j*omega}`, divide, and form the squared magnitude from the
/// exact quadrances `|B|^2 / |A|^2`.  Degenerate when `A` vanishes at the
/// fixed-point resolution.
pub open spec fn sp_response_at(bf: Seq<int>, af: Seq<int>, wre: int, wim: int) -> Option<
    (int, int, int),
> {
    match sp_horner(bf, wre, wim, 0) {
        None => None,
        Some(bv) => match sp_horner(af, wre, wim, 0) {
            None => None,
            Some(av) => match cmul(av.0, av.0) {
                None => None,
                Some(d1) => match cmul(av.1, av.1) {
                    None => None,
                    Some(d2) => match cadd(d1, d2) {
                        None => None,
                        Some(dq) => if dq <= 0 {
                            None
                        } else {
                            match cmul(bv.0, bv.0) {
                                None => None,
                                Some(n1) => match cmul(bv.1, bv.1) {
                                    None => None,
                                    Some(n2) => match cadd(n1, n2) {
                                        None => None,
                                        Some(nq) => match cmul(bv.0, av.0) {
                                            None => None,
                                            Some(x1) => match cmul(bv.1, av.1) {
                                                None => None,
                                                Some(x2) => match cadd(x1, x2) {
                                                    None => None,
                                                    Some(xr) => match cmul(bv.1, av.0) {
                                                        None => None,
                                                        Some(y1) => match cmul(bv.0, av.1) {
                                                            None => None,
                                                            Some(y2) => match csub(y1, y2) {
                                                                None => None,
                                                                Some(yr) => match cmul(
                                                                    xr,
                                                                    sc(),
                                                                ) {
                                                                    None => None,
                                                                    Some(xrs) => match cmul(
                                                                        yr,
                                                                        sc(),
                                                                    ) {
                                                                        None => None,
                                                                        Some(yrs) => match cmul(
                                                                            nq,
                                                                            sc(),
                                                                        ) {
                                                                            None => None,
                                                                            Some(nqs) => Some(
                                                                                (
                                                                                    tdiv(xrs, dq),
                                                                                    tdiv(yrs, dq),
                                                                                    tdiv(nqs, dq),
                                                                                ),
                                                                            ),
                                                                        },
                                                                    },
                                                                },
                                                            },
                                                        },
                                                    },
                                                },
                                            },
                                        },
                                    },
                                },
                            }
                        },
                    },
                },
            },
        },
    }
}

/// The full per-point evaluation of a filter: convert both coefficient
/// vectors to fixed point, then evaluate at `w = e^{-j*omega}` given the
/// point `e^{j*omega} = (pcos, psin)`.
pub open spec fn sp_sample_at(b: Seq<Rat>, a: Seq<Rat>, pcos: int, psin: int) -> Option<
    (int, int, int),
> {
    match sp_coefs_fx(b, b.len() as int) {
        None => None,
        Some(bf) => match sp_coefs_fx(a, a.len() as int) {
            None => None,
            Some(af) => sp_response_at(bf, af, pcos, -psin),
        },
    }
}

/// Evaluates `H(e^{j*omega})` for the point `e^{j*omega}` given by
/// `point`.  On success the rounded complex response and the exact-ratio
/// squared magnitude equal the specified evaluation; `Err` is
/// `NumericDegenerate` exactly when that specification has no value.
pub fn frequency_response_at_omega(filter: &ButterworthFilter, point: UnitPoint) -> (r:
    Result<ResponseValue, FilterError>)
    requires
        filter.wf(),
        point.sin.raw > i128::MIN,
    ensures
        r is Ok <==> sp_sample_at(
            filter.b@,
            filter.a@,
            point.cos.raw as int,
            point.sin.raw as int,
        ) is Some,
        r is Err ==> r === Err(FilterError::NumericDegenerate),
        r matches Ok(v) ==> sp_sample_at(
            filter.b@,
            filter.a@,
            point.cos.raw as int,
            point.sin.raw as int,
        ) == Some(
            (
                v.response_re.raw as int,
                v.response_im.raw as int,
                v.magnitude_squared.raw as int,
            ),
        ),
{
    let bf = match coefs_fx_x(&filter.b) {
        Some(v) => v,
        None => { return Err(FilterError::NumericDegenerate); },
    };
    let af = match coefs_fx_x(&filter.a) {
        Some(v) => v,
        None => { return Err(FilterError::NumericDegenerate); },
    };
    let wim: i128 = -point.sin.raw;
    let bv = match horner_x(&bf, point.cos.raw, wim) {
        Some(v) => v,
        None => { return Err(FilterError::NumericDegenerate); },
    };
    let av = match horner_x(&af, point.cos.raw, wim) {
        Some(v) => v,
        None => { return Err(FilterError::NumericDegenerate); },
    };
    let d1 = match mul_i(av.0, av.0) {
        Some(v) => v,
        None => { return Err(FilterError::NumericDegenerate); },
    };
    let d2 = match mul_i(av.1, av.1) {
        Some(v) => v,
        None => { return Err(FilterError::NumericDegenerate); },
    };
    let dq = match add_i(d1, d2) {
        Some(v) => v,
        None => { return Err(FilterError::NumericDegenerate); },
    };
    if dq <= 0 {
        return Err(FilterError::NumericDegenerate);
    }
    let n1 = match mul_i(bv.0, bv.0) {
        Some(v) => v,
        None => { return Err(FilterError::NumericDegenerate); },
    };
    let n2 = match mul_i(bv.1, bv.1) {
        Some(v) => v,
        None => { return Err(FilterError::NumericDegenerate); },
    };
    let nq = match add_i(n1, n2) {
        Some(v) => v,
        None => { return Err(FilterError::NumericDegenerate); },
    };
    let x1 = match mul_i(bv.0, av.0) {
        Some(v) => v,
        None => { return Err(FilterError::NumericDegenerate); },
    };
    let x2 = match mul_i(bv.1, av.1) {
        Some(v) => v,
        None => { return Err(FilterError::NumericDegenerate); },
    };
    let xr = match add_i(x1, x2) {
        Some(v) => v,
        None => { return Err(FilterError::NumericDegenerate); },
    };
    let y1 = match mul_i(bv.1, av.0) {
        Some(v) => v,
        None => { return Err(FilterError::NumericDegenerate); },
    };
    let y2 = match mul_i(bv.0, av.1) {
        Some(v) => v,
        None => { return Err(FilterError::NumericDegenerate); },
    };
    let yr = match sub_i(y1, y2) {
        Some(v) => v,
        None => { return Err(FilterError::NumericDegenerate); },
    };
    let xrs = match mul_i(xr, SCALE) {
        Some(v) => v,
        None => { return Err(FilterError::NumericDegenerate); },
    };
    let yrs = match mul_i(yr, SCALE) {
        Some(v) => v,
        None => { return Err(FilterError::NumericDegenerate); },
    };
    let nqs = match mul_i(nq, SCALE) {
        Some(v) => v,
        None => { return Err(FilterError::NumericDegenerate); },
    };
    let hre = div_i(xrs, dq);
    let him = div_i(yrs, dq);
    let m2 = div_i(nqs, dq);
    proof {
        lemma_tdiv_mag(xrs as int, dq as int);
        lemma_tdiv_mag(yrs as int, dq as int);
        lemma_tdiv_mag(nqs as int, dq as int);
    }
    Ok(
        ResponseValue {
            response_re: Fx { raw: hre },
            response_im: Fx { raw: him },
            magnitude_squared: Fx { raw: m2 },
        },
    )
}

// ---------------------------------------------------------------------
// A full response sweep from DC to the Nyquist frequency.
// ---------------------------------------------------------------------

/// One sweep sample: the exact frequency `k * fs / num_points` in hertz
/// and the response there.
#[derive(Clone, Copy, PartialEq, Eq, Structural, Debug)]
pub struct FrequencyResponseSample {
    pub frequency: Rat,
    pub response_re: Fx,
    pub response_im: Fx,
    pub magnitude_squared: Fx,
}

/// The frequency `k * fs / num_points` as an exact rational (in hertz):
/// numerator `k * fs.raw`, denominator `num_points * SCALE`.
pub open spec fn sp_freq(k: int, fs: int, num_points: int) -> Option<Rat> {
    match cmul(k, fs) {
        None => None,
        Some(nm) => match cmul(num_points, sc()) {
            None => None,
            Some(dn) => Some(Rat { num: nm as i128, den: dn as i128 }),
        },
    }
}

/// An evaluated frequency response: `num_points/2 + 1` samples in
/// ascending frequency from `0` to the Nyquist frequency.
pub struct FilterResponse {
    pub samples: Vec<FrequencyResponseSample>,
}

impl FilterResponse {
    /// Evaluates the filter at the `num_points/2 + 1` frequencies
    /// `k * fs / num_points`, `k = 0 .. num_points/2`, spanning
    /// `[0, fs/2]`.  `points[k]` must be the unit-circle point
    /// `e^{j * 2*pi*k/num_points}` (the only transcendental input).
    ///
    /// On success: exactly `num_points/2 + 1` samples; sample `k` sits at
    /// the exact rational frequency `k * fs / num_points`; frequencies are
    /// strictly increasing, start at zero, and (for even `num_points`) end
    /// at exactly `fs / 2`; and each sample's response equals the
    /// specified per-point evaluation.
    pub fn compute(filter: &ButterworthFilter, num_points: usize, points: &Vec<UnitPoint>)
        -> (r: Result<FilterResponse, FilterError>)
        requires
            filter.wf(),
            num_points >= 1,
            points@.len() == num_points as int / 2 + 1,
            forall|i: int|
                0 <= i < points@.len() ==> (#[trigger] points@[i]).sin.raw > i128::MIN,
        ensures
            r is Ok <==> ((forall|k: int|
                0 <= k < points@.len() ==> #[trigger] sp_freq(
                    k,
                    filter.sample_rate.raw as int,
                    num_points as int,
                ) is Some) && (forall|k: int|
                0 <= k < points@.len() ==> #[trigger] sp_sample_at(
                    filter.b@,
                    filter.a@,
                    points@[k].cos.raw as int,
                    points@[k].sin.raw as int,
                ) is Some)),
            r is Err ==> r === Err(FilterError::NumericDegenerate),
            r matches Ok(resp) ==> {
                let count = num_points as int / 2 + 1;
                &&& resp.samples@.len() == count
                &&& forall|k: int|
                    0 <= k < count ==> (#[trigger] resp.samples@[k]).frequency == sp_freq(
                        k,
                        filter.sample_rate.raw as int,
                        num_points as int,
                    ).unwrap()
                &&& forall|k: int|
                    0 <= k < count ==> (#[trigger] resp.samples@[k]).frequency.wf()
                &&& forall|k: int|
                    0 <= k < count ==> sp_sample_at(
                        filter.b@,
                        filter.a@,
                        points@[k].cos.raw as int,
                        points@[k].sin.raw as int,
                    ) == Some(
                        (
                            (#[trigger] resp.samples@[k]).response_re.raw as int,
                            resp.samples@[k].response_im.raw as int,
                            resp.samples@[k].magnitude_squared.raw as int,
                        ),
                    )
                &&& forall|k: int|
                    0 <= k < count - 1 ==> (#[trigger] resp.samples@[k]).frequency.lt(
                        resp.samples@[k + 1].frequency,
                    )
                &&& resp.samples@[0].frequency.num == 0
                &&& num_points % 2 == 0 ==> resp.samples@[count - 1].frequency.same_value(
                    Rat { num: filter.sample_rate.raw, den: (2 * SCALE) as i128 },
                )
            },
    {
        let ghost fs = filter.sample_rate.raw as int;
        let ghost np = num_points as int;
        let count = num_points / 2 + 1;
        let npi: i128 = num_points as i128;
        let dn = match mul_i(npi, SCALE) {
            Some(v) => v,
            None => {
                proof {
                    assert(sp_freq(0, fs, np) is None);
                }
                return Err(FilterError::NumericDegenerate);
            },
        };
        assert(dn > 0) by (nonlinear_arith)
            requires
                dn as int == num_points as int * sc(),
                num_points >= 1,
                sc() > 0,
        ;
        let fsr = filter.sample_rate.raw;
        let mut samples: Vec<FrequencyResponseSample> = Vec::new();
        let mut k: usize = 0;
        while k < count
            invariant
                filter.wf(),
                fs == filter.sample_rate.raw as int,
                np == num_points as int,
                fsr == filter.sample_rate.raw,
                npi as int == np,
                num_points >= 1,
                count == num_points as int / 2 + 1,
                points@.len() == count,
                forall|i: int|
                    0 <= i < points@.len() ==> (#[trigger] points@[i]).sin.raw > i128::MIN,
                cmul(np, sc()) == Some(dn as int),
                dn > 0,
                k <= count,
                samples@.len() == k,
                forall|j: int|
                    0 <= j < k ==> #[trigger] sp_freq(j, fs, np) is Some,
                forall|j: int|
                    0 <= j < k ==> (#[trigger] samples@[j]).frequency == sp_freq(
                        j,
                        fs,
                        np,
                    ).unwrap(),
                forall|j: int|
                    0 <= j < k ==> (#[trigger] samples@[j]).frequency.wf(),
                forall|j: int|
                    0 <= j < k ==> #[trigger] sp_sample_at(
                        filter.b@,
                        filter.a@,
                        points@[j].cos.raw as int,
                        points@[j].sin.raw as int,
                    ) is Some,
                forall|j: int|
                    0 <= j < k ==> sp_sample_at(
                        filter.b@,
                        filter.a@,
                        points@[j].cos.raw as int,
                        points@[j].sin.raw as int,
                    ) == Some(
                        (
                            (#[trigger] samples@[j]).response_re.raw as int,
                            samples@[j].response_im.raw as int,
                            samples@[j].magnitude_squared.raw as int,
                        ),
                    ),
            decreases count - k,
        {
            let ki: i128 = k as i128;
            let nm = match mul_i(ki, fsr) {
                Some(v) => v,
                None => {
                    proof {
                        assert(sp_freq(k as int, fs, np) is None);
                    }
                    return Err(FilterError::NumericDegenerate);
                },
            };
            let point = points[k];
            let rv = match frequency_response_at_omega(filter, point) {
                Ok(v) => v,
                Err(_) => { return Err(FilterError::NumericDegenerate); },
            };
            samples.push(
                FrequencyResponseSample {
                    frequency: Rat { num: nm, den: dn },
                    response_re: rv.response_re,
                    response_im: rv.response_im,
                    magnitude_squared: rv.magnitude_squared,
                },
            );
            k = k + 1;
        }
        proof {
            assert forall|j: int| 0 <= j < count - 1 implies (
            #[trigger] samples@[j]).frequency.lt(samples@[j + 1].frequency) by {
                let f1 = samples@[j].frequency;
                let f2 = samples@[j + 1].frequency;
                assert(f1.num as int == j * fs && f2.num as int == (j + 1) * fs);
                assert(f1.den == f2.den && f1.den > 0);
                assert(j * fs < (j + 1) * fs) by (nonlinear_arith)
                    requires
                        fs > 0,
                ;
                assert((f1.num as int) * (f2.den as int) < (f2.num as int) * (f1.den
                    as int)) by (nonlinear_arith)
                    requires
                        (f1.num as int) < (f2.num as int),
                        (f1.den as int) > 0,
                        f1.den == f2.den,
                ;
            }
            if num_points % 2 == 0 {
                let last = samples@[count - 1].frequency;
                assert(last.num as int == (np / 2) * fs && last.den as int == np * sc());
                assert((np / 2) * fs * (2 * sc()) == fs * (np * sc())) by (nonlinear_arith)
                    requires
                        np % 2 == 0,
                        np == 2 * (np / 2) + np % 2,
                ;
            }
        }
        Ok(FilterResponse { samples })
    }
}

// ---------------------------------------------------------------------
// The reflection law of spectral inversion: the high-pass magnitude at
// e^{j*omega} equals the underlying low-pass magnitude at e^{j*(pi-omega)},
// exactly, truncations included.
// ---------------------------------------------------------------------

proof fn lemma_rat_fx_neg(num: int, den: int)
    requires
        den > 0,
    ensures
        match (sp_rat_fx(num, den), sp_rat_fx(-num, den)) {
            (Some(a), Some(b)) => b == -a,
            (None, None) => true,
            _ => false,
        },
{
    let q = tdiv(num, den);
    let rem = num - q * den;
    let nq = tdiv(-num, den);
    let nrem = -num - nq * den;
    lemma_tdiv_neg(num, den);
    assert(nq == -q);
    assert(nrem == -rem) by (nonlinear_arith)
        requires
            nq == -q,
            nrem == -num - nq * den,
            rem == num - q * den,
    ;
    assert(nq * sc() == -(q * sc())) by (nonlinear_arith)
        requires
            nq == -q,
    ;
    assert(nrem * sc() == -(rem * sc())) by (nonlinear_arith)
        requires
            nrem == -rem,
    ;
    lemma_tdiv_neg(rem * sc(), den);
}

proof fn lemma_coefs_negodd(s: Seq<Rat>, k: int)
    requires
        crate::rat::all_wf(s),
        0 <= k <= s.len(),
    ensures
        match (sp_coefs_fx(s, k), sp_coefs_fx(crate::rat::negate_odd(s), k)) {
            (Some(a), Some(b)) => a.len() == k && b.len() == k && (forall|j: int|
                0 <= j < k ==> #[trigger] b[j] == (if j % 2 == 1 {
                    -a[j]
                } else {
                    a[j]
                })),
            (None, None) => true,
            _ => false,
        },
    decreases k,
{
    if k > 0 {
        lemma_coefs_negodd(s, k - 1);
        let ns = crate::rat::negate_odd(s);
        assert(ns.len() == s.len());
        if (k - 1) % 2 == 1 {
            assert(ns[k - 1].num as int == -(s[k - 1].num as int));
            assert(ns[k - 1].den == s[k - 1].den);
            lemma_rat_fx_neg(s[k - 1].num as int, s[k - 1].den as int);
        } else {
            assert(ns[k - 1] == s[k - 1]);
        }
    }
}

proof fn lemma_horner_negodd(c: Seq<int>, cn: Seq<int>, wre: int, wim: int, i: int)
    requires
        cn.len() == c.len(),
        forall|j: int|
            0 <= j < c.len() ==> #[trigger] cn[j] == (if j % 2 == 1 {
                -c[j]
            } else {
                c[j]
            }),
        0 <= i <= c.len(),
    ensures
        match (sp_horner(cn, wre, wim, i), sp_horner(c, -wre, -wim, i)) {
            (Some(g), Some(f)) => if i % 2 == 0 {
                g == f
            } else {
                g.0 == -f.0 && g.1 == -f.1
            },
            (None, None) => true,
            _ => false,
        },
    decreases c.len() - i,
{
    if i < c.len() {
        lemma_horner_negodd(c, cn, wre, wim, i + 1);
        match (sp_horner(cn, wre, wim, i + 1), sp_horner(c, -wre, -wim, i + 1)) {
            (Some(g1), Some(f1)) => {
                if i % 2 == 0 {
                    // g1 is the negation of f1, and the section point is
                    // negated too, so every product agrees.
                    assert(g1.0 == -f1.0 && g1.1 == -f1.1);
                    assert(g1.0 * wre == f1.0 * -wre) by (nonlinear_arith)
                        requires
                            g1.0 == -f1.0,
                    ;
                    assert(g1.1 * wim == f1.1 * -wim) by (nonlinear_arith)
                        requires
                            g1.1 == -f1.1,
                    ;
                    assert(g1.0 * wim == f1.0 * -wim) by (nonlinear_arith)
                        requires
                            g1.0 == -f1.0,
                    ;
                    assert(g1.1 * wre == f1.1 * -wre) by (nonlinear_arith)
                        requires
                            g1.1 == -f1.1,
                    ;
                    assert(cn[i] == c[i]);
                } else {
                    // g1 equals f1 and the coefficient is negated: the new
                    // accumulator is the exact negation.
                    assert(g1 == f1);
                    assert(g1.0 * wre == -(f1.0 * -wre)) by (nonlinear_arith)
                        requires
                            g1.0 == f1.0,
                    ;
                    assert(g1.1 * wim == -(f1.1 * -wim)) by (nonlinear_arith)
                        requires
                            g1.1 == f1.1,
                    ;
                    assert(g1.0 * wim == -(f1.0 * -wim)) by (nonlinear_arith)
                        requires
                            g1.0 == f1.0,
                    ;
                    assert(g1.1 * wre == -(f1.1 * -wre)) by (nonlinear_arith)
                        requires
                            g1.1 == f1.1,
                    ;
                    assert(cn[i] == -c[i]);
                    let rr_f = f1.0 * -wre;
                    let jj_f = f1.1 * -wim;
                    lemma_tdiv_neg(rr_f - jj_f, sc());
                    let rj_f = f1.0 * -wim;
                    let jr_f = f1.1 * -wre;
                    lemma_tdiv_neg(rj_f + jr_f, sc());
                }
            },
            _ => {},
        }
    }
}

proof fn lemma_horner_conj(c: Seq<int>, wre: int, wim: int, i: int)
    requires
        0 <= i <= c.len(),
    ensures
        match (sp_horner(c, wre, -wim, i), sp_horner(c, wre, wim, i)) {
            (Some(g), Some(f)) => g.0 == f.0 && g.1 == -f.1,
            (None, None) => true,
            _ => false,
        },
    decreases c.len() - i,
{
    if i < c.len() {
        lemma_horner_conj(c, wre, wim, i + 1);
        match (sp_horner(c, wre, -wim, i + 1), sp_horner(c, wre, wim, i + 1)) {
            (Some(g1), Some(f1)) => {
                assert(g1.0 == f1.0 && g1.1 == -f1.1);
                assert(g1.1 * -wim == f1.1 * wim) by (nonlinear_arith)
                    requires
                        g1.1 == -f1.1,
                ;
                assert(g1.0 * -wim == -(f1.0 * wim)) by (nonlinear_arith)
                    requires
                        g1.0 == f1.0,
                ;
                assert(g1.1 * wre == -(f1.1 * wre)) by (nonlinear_arith)
                    requires
                        g1.1 == -f1.1,
                ;
                let rj_f = f1.0 * wim;
                let jr_f = f1.1 * wre;
                lemma_tdiv_neg(rj_f + jr_f, sc());
            },
            _ => {},
        }
    }
}

/// The reflection law of spectral inversion (exactly, truncations
/// included).  Let `(c, s)` be the unit-circle point `e^{j*omega}`; then
/// `(-c, s)` is `e^{j*(pi-omega)}`.  Evaluating the odd-negated
/// coefficients (the high-pass built from the low-pass `(b, a)`) at
/// `e^{j*omega}` succeeds exactly when evaluating the low-pass at
/// `e^{j*(pi-omega)}` does, and then the responses are exact complex
/// conjugates: equal real parts and squared magnitudes, opposite
/// imaginary parts.
pub proof fn lemma_reflection_law(b: Seq<Rat>, a: Seq<Rat>, pcos: int, psin: int)
    requires
        crate::rat::all_wf(b),
        crate::rat::all_wf(a),
    ensures
        match (
            sp_sample_at(
                crate::rat::negate_odd(b),
                crate::rat::negate_odd(a),
                pcos,
                psin,
            ),
            sp_sample_at(b, a, -pcos, psin),
        ) {
            (Some(hp), Some(lp)) => hp.0 == lp.0 && hp.1 == -lp.1 && hp.2 == lp.2,
            (None, None) => true,
            _ => false,
        },
{
    let nb = crate::rat::negate_odd(b);
    let na = crate::rat::negate_odd(a);
    assert(nb.len() == b.len() && na.len() == a.len());
    lemma_coefs_negodd(b, b.len() as int);
    lemma_coefs_negodd(a, a.len() as int);
    match (sp_coefs_fx(b, b.len() as int), sp_coefs_fx(a, a.len() as int)) {
        (Some(bf), Some(af)) => {
            match (sp_coefs_fx(nb, nb.len() as int), sp_coefs_fx(na, na.len() as int)) {
                (Some(bfn), Some(afn)) => {
                    // hp evaluates at w = (pcos, -psin); lp at w' = (-pcos, -psin).
                    // Step 1: bfn at w equals bf at -w = (-pcos, psin), up to
                    // the leading sign (+1 at index 0).
                    lemma_horner_negodd(bf, bfn, pcos, -psin, 0);
                    lemma_horner_negodd(af, afn, pcos, -psin, 0);
                    // Step 2: bf at (-pcos, psin) is the conjugate of bf at
                    // (-pcos, -psin).
                    lemma_horner_conj(bf, -pcos, psin, 0);
                    lemma_horner_conj(af, -pcos, psin, 0);
                    match (sp_horner(bfn, pcos, -psin, 0), sp_horner(afn, pcos, -psin, 0)) {
                        (Some(bvh), Some(avh)) => {
                            match (
                                sp_horner(bf, -pcos, -psin, 0),
                                sp_horner(af, -pcos, -psin, 0),
                            ) {
                                (Some(bvl), Some(avl)) => {
                                    assert(bvh.0 == bvl.0 && bvh.1 == -bvl.1);
                                    assert(avh.0 == avl.0 && avh.1 == -avl.1);
                                    // conjugating both B and A leaves the
                                    // quadrances and the real cross term
                                    // unchanged and negates the imaginary
                                    // cross term.
                                    assert(avh.1 * avh.1 == avl.1 * avl.1)
                                        by (nonlinear_arith)
                                        requires
                                            avh.1 == -avl.1,
                                    ;
                                    assert(bvh.1 * bvh.1 == bvl.1 * bvl.1)
                                        by (nonlinear_arith)
                                        requires
                                            bvh.1 == -bvl.1,
                                    ;
                                    assert(bvh.1 * avh.1 == bvl.1 * avl.1)
                                        by (nonlinear_arith)
                                        requires
                                            bvh.1 == -bvl.1,
                                            avh.1 == -avl.1,
                                    ;
                                    assert(bvh.1 * avh.0 == -(bvl.1 * avl.0))
                                        by (nonlinear_arith)
                                        requires
                                            bvh.1 == -bvl.1,
                                            avh.0 == avl.0,
                                    ;
                                    assert(bvh.0 * avh.1 == -(bvl.0 * avl.1))
                                        by (nonlinear_arith)
                                        requires
                                            bvh.0 == bvl.0,
                                            avh.1 == -avl.1,
                                    ;
                                    let y_l = bvl.1 * avl.0 - bvl.0 * avl.1;
                                    let y_h = bvh.1 * avh.0 - bvh.0 * avh.1;
                                    assert(y_h == -y_l);
                                    if crate::fx::fits(y_h) {
                                        assert(crate::fx::fits(y_h * sc()) <==> crate::fx::fits(
                                            y_l * sc(),
                                        )) by (nonlinear_arith)
                                            requires
                                                y_h == -y_l,
                                        ;
                                        if crate::fx::fits(y_h * sc()) {
                                            assert(y_h * sc() == -(y_l * sc()))
                                                by (nonlinear_arith)
                                                requires
                                                    y_h == -y_l,
                                            ;
                                            let dq = avl.0 * avl.0 + avl.1 * avl.1;
                                            if dq > 0 {
                                                lemma_tdiv_neg(y_l * sc(), dq);
                                            }
                                        }
                                    }
                                },
                                _ => {},
                            }
                        },
                        _ => {},
                    }
                },
                _ => {},
            }
        },
        _ => {},
    }
}

/// The reflection law for a designed pair: a high-pass whose coefficients
/// are the odd-negated coefficients of a low-pass (what
/// `ButterworthFilter::highpass` builds from the low-pass design at the
/// mirrored cutoff) has, at every point `e^{j*omega} = (pcos, psin)`,
/// exactly the squared magnitude the low-pass has at
/// `e^{j*(pi-omega)} = (-pcos, psin)` — and each evaluation succeeds
/// exactly when the other does.
pub proof fn lemma_highpass_mirrors_lowpass(
    hp: ButterworthFilter,
    lp: ButterworthFilter,
    pcos: int,
    psin: int,
)
    requires
        lp.wf(),
        hp.b@ == crate::rat::negate_odd(lp.b@),
        hp.a@ == crate::rat::negate_odd(lp.a@),
    ensures
        match (
            sp_sample_at(hp.b@, hp.a@, pcos, psin),
            sp_sample_at(lp.b@, lp.a@, -pcos, psin),
        ) {
            (Some(h), Some(l)) => h.0 == l.0 && h.1 == -l.1 && h.2 == l.2,
            (None, None) => true,
            _ => false,
        },
{
    lemma_reflection_law(lp.b@, lp.a@, pcos, psin);
}

} // verus!
