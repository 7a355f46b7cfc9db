//! Digital Butterworth low-pass and high-pass synthesis.
//!
//! The pipeline follows the classic design by sections:
//! scale the prototype poles by the pre-warped cutoff, map each pole
//! through the bilinear transform `s -> z = (2 + s*T) / (2 - s*T)`,
//! build one second-order section per conjugate pole pair (plus one
//! first-order section for the real pole of an odd order), convolve the
//! sections into a single numerator/denominator pair, and normalize
//! exactly for unity gain at DC.
//!
//! All arithmetic is checked fixed-point (`crate::fx`); every step of the
//! computation is mirrored by a spec function, so the exec code returns
//! `Ok` exactly when the specified pipeline has a result.  Conjugate pairs
//! are formed from the generation formula (pole `k` pairs with pole
//! `order-1-k`), not from an epsilon test on the imaginary part, and only
//! the representative with positive imaginary part is supplied; the real
//! pole of an odd order is the exact value `-1`, which needs no
//! trigonometry at all.

use crate::fx::cadd;
use crate::fx::cmul;
use crate::fx::csub;
use crate::fx::sc;
use crate::fx::smul;
use crate::fx::tdiv;
use crate::fx::add_i;
use crate::fx::div_i;
use crate::fx::mul_i;
use crate::fx::sub_i;
use crate::fx::smul_i;
use crate::fx::lemma_tdiv_mag;
use crate::fx::Fx;
use crate::fx::SCALE;
use crate::rat::Rat;
use crate::FilterError;
use vstd::prelude::*;

verus! {

/// The two filter kinds this library designs.
#[derive(Clone, Copy, PartialEq, Eq, Structural, Debug)]
pub enum FilterType {
    Lowpass,
    Highpass,
}

/// One conjugate-pair representative of the analog prototype: the cosine
/// and sine of its angle, as fixed-point values.  The representative lies
/// strictly in the left half-plane, so its cosine is negative.
#[derive(Clone, Copy, PartialEq, Eq, Structural, Debug)]
pub struct PrototypeSample {
    pub cos: Fx,
    pub sin: Fx,
}

/// The transcendental inputs of one design: the pre-warped cutoff
/// `2 * tan(pi * fc / fs)` and the cosine/sine of each conjugate-pair
/// representative angle (`k = 0 .. order/2`), all as fixed-point values.
///
/// The library cannot evaluate a tangent or cosine; the caller supplies
/// these values (`crate::poles::butterworth_analog_poles` gives the exact
/// angles) and everything after that point is verified.  The real pole of
/// an odd order is the exact value `-1` and is handled internally.
pub struct WarpedPrototype {
    pub order: usize,
    pub warped: Fx,
    pub pairs: Vec<PrototypeSample>,
}

impl WarpedPrototype {
    /// Validity: a positive pre-warped cutoff, one sample per conjugate
    /// pair, every sample with a strictly negative cosine (the prototype
    /// pole angles all lie strictly inside `(pi/2, 3*pi/2)`).
    pub open spec fn wf(self) -> bool {
        &&& self.warped.raw > 0
        &&& self.pairs@.len() == self.order as int / 2
        &&& forall|i: int|
            0 <= i < self.pairs@.len() ==> (#[trigger] self.pairs@[i]).cos.raw < 0
    }

    /// The samples as raw integer pairs.
    pub open spec fn trig(self) -> Seq<(int, int)> {
        self.pairs@.map_values(|p: PrototypeSample| (p.cos.raw as int, p.sin.raw as int))
    }
}

/// The raw views of a fixed-point coefficient vector.
pub open spec fn raws(s: Seq<i128>) -> Seq<int> {
    s.map_values(|x: i128| x as int)
}

// ---------------------------------------------------------------------
// The specified pipeline, step by step.  Each spec function mirrors one
// exec step exactly, including the order of the checked operations, so
// `None` means precisely "the exec code reports NumericDegenerate here".
// ---------------------------------------------------------------------

/// An analog pole scaled by the pre-warped cutoff: both components are
/// multiplied by `wct` (the value `omega_c * T`).  The result must remain
/// strictly in the left half-plane; a real part truncated all the way to
/// zero is degenerate.
pub open spec fn sp_scaled_pole(wct: int, c: int, s: int) -> Option<(int, int)> {
    match smul(wct, c) {
        None => None,
        Some(re) => match smul(wct, s) {
            None => None,
            Some(im) => if re < 0 {
                Some((re, im))
            } else {
                None
            },
        },
    }
}

/// The digital image `z = (2 + s*T) / (2 - s*T)` of a scaled analog pole
/// `s*T = (re + j*im) / SCALE`, computed by complex division and truncated
/// to the scale.
pub open spec fn sp_pair_pole(re: int, im: int) -> Option<(int, int)> {
    match cadd(2 * sc(), re) {
        None => None,
        Some(p) => match csub(2 * sc(), re) {
            None => None,
            Some(q) => match cmul(q, q) {
                None => None,
                Some(qq) => match cmul(im, im) {
                    None => None,
                    Some(ii) => match cadd(qq, ii) {
                        None => None,
                        Some(d) => if d <= 0 {
                            None
                        } else {
                            match cmul(p, q) {
                                None => None,
                                Some(pq) => match csub(pq, ii) {
                                    None => None,
                                    Some(nre) => match cmul(im, q) {
                                        None => None,
                                        Some(iq) => match cmul(p, im) {
                                            None => None,
                                            Some(pi) => match cadd(iq, pi) {
                                                None => None,
                                                Some(nim) => match cmul(nre, sc()) {
                                                    None => None,
                                                    Some(nres) => match cmul(nim, sc()) {
                                                        None => None,
                                                        Some(nims) => Some(
                                                            (tdiv(nres, d), tdiv(nims, d)),
                                                        ),
                                                    },
                                                },
                                            },
                                        },
                                    },
                                },
                            }
                        },
                    },
                },
            },
        },
    }
}

/// The second-order section of a conjugate pole pair with digital
/// representative `z`: numerator `[1, 2, 1]` (two zeros at `z = -1`),
/// denominator `[1, -2*Re(z), |z|^2]`.
pub open spec fn sp_pair_section(re: int, im: int) -> Option<(Seq<int>, Seq<int>)> {
    match sp_pair_pole(re, im) {
        None => None,
        Some(z) => match cmul(-2, z.0) {
            None => None,
            Some(a1) => match cmul(z.0, z.0) {
                None => None,
                Some(rr) => match cmul(z.1, z.1) {
                    None => None,
                    Some(jj) => match cadd(rr, jj) {
                        None => None,
                        Some(m2) => Some(
                            (
                                seq![sc(), 2 * sc(), sc()],
                                seq![sc(), a1, tdiv(m2, sc())],
                            ),
                        ),
                    },
                },
            },
        },
    }
}

/// The digital image of the real pole `re / SCALE` (only present for odd
/// orders): `z = (2 + s*T) / (2 - s*T)` over the reals.
pub open spec fn sp_real_pole(re: int) -> Option<int> {
    match cadd(2 * sc(), re) {
        None => None,
        Some(p) => match csub(2 * sc(), re) {
            None => None,
            Some(q) => if q <= 0 {
                None
            } else {
                match cmul(p, sc()) {
                    None => None,
                    Some(ps) => Some(tdiv(ps, q)),
                }
            },
        },
    }
}

/// The first-order section of the real pole: numerator `[1, 1]` (one zero
/// at `z = -1`), denominator `[1, -z]`.
pub open spec fn sp_real_section(re: int) -> Option<(Seq<int>, Seq<int>)> {
    match sp_real_pole(re) {
        None => None,
        Some(z) => Some((seq![sc(), sc()], seq![sc(), -z])),
    }
}

// ---------------------------------------------------------------------
// Stability: the bilinear transform maps the open left half-plane
// strictly inside the unit circle, and truncation toward zero cannot push
// a pole back out.
// ---------------------------------------------------------------------

/// Whatever the checked pipeline produced for a left-half-plane pole lies
/// strictly inside the unit circle: `|z|^2 < 1` in fixed point.
pub proof fn lemma_pair_pole_stable(re: int, im: int)
    requires
        re < 0,
    ensures
        sp_pair_pole(re, im) matches Some(z) ==> z.0 * z.0 + z.1 * z.1 < sc() * sc(),
{
    if let Some(z) = sp_pair_pole(re, im) {
        let p = 2 * sc() + re;
        let q = 2 * sc() - re;
        let ii = im * im;
        let d = q * q + ii;
        let nre = p * q - ii;
        let nim = im * q + p * im;
        let zre = tdiv(nre * sc(), d);
        let zim = tdiv(nim * sc(), d);
        assert(z == (zre, zim));
        assert(q > 0);
        assert(d > 0) by (nonlinear_arith)
            requires
                q > 0,
                d == q * q + im * im,
        ;
        // |N|^2 = |2 + sT|^2 * |2 - sT|^2 (the modulus is multiplicative),
        // assembled from small distribution steps.
        let s2 = p * q;
        let t = q + p;
        assert(nre * nre == s2 * s2 - 2 * (s2 * ii) + ii * ii) by (nonlinear_arith)
            requires
                nre == s2 - ii,
        ;
        assert(nim == im * t) by (nonlinear_arith)
            requires
                nim == im * q + p * im,
                t == q + p,
        ;
        assert(nim * nim == ii * (t * t)) by (nonlinear_arith)
            requires
                nim == im * t,
                ii == im * im,
        ;
        assert(t * t == q * q + 2 * s2 + p * p) by (nonlinear_arith)
            requires
                t == q + p,
                s2 == p * q,
        ;
        assert(ii * (t * t) == ii * (q * q) + 2 * (s2 * ii) + ii * (p * p))
            by (nonlinear_arith)
            requires
                t * t == q * q + 2 * s2 + p * p,
        ;
        assert(s2 * s2 == (p * p) * (q * q)) by (nonlinear_arith)
            requires
                s2 == p * q,
        ;
        assert((p * p + ii) * (q * q + ii) == (p * p) * (q * q) + (p * p) * ii + ii * (q
            * q) + ii * ii) by (nonlinear_arith);
        assert((p * p) * ii == ii * (p * p)) by (nonlinear_arith);
        assert(nre * nre + nim * nim == (p * p + ii) * (q * q + ii));
        // A negative real part makes |2 + sT| < |2 - sT|.
        assert(p * p < q * q) by (nonlinear_arith)
            requires
                re < 0,
                sc() > 0,
                p == 2 * sc() + re,
                q == 2 * sc() - re,
        ;
        assert((p * p + ii) * (q * q + ii) < d * d) by (nonlinear_arith)
            requires
                p * p < q * q,
                d == q * q + ii,
                ii == im * im,
                d > 0,
        ;
        // Truncation toward zero only shrinks each component.
        lemma_tdiv_mag(nre * sc(), d);
        lemma_tdiv_mag(nim * sc(), d);
        assert(zre * zre * (d * d) <= (nre * sc()) * (nre * sc())) by (nonlinear_arith)
            requires
                d > 0,
                nre * sc() >= 0 ==> 0 <= zre * d <= nre * sc(),
                nre * sc() < 0 ==> nre * sc() <= zre * d <= 0,
        ;
        assert(zim * zim * (d * d) <= (nim * sc()) * (nim * sc())) by (nonlinear_arith)
            requires
                d > 0,
                nim * sc() >= 0 ==> 0 <= zim * d <= nim * sc(),
                nim * sc() < 0 ==> nim * sc() <= zim * d <= 0,
        ;
        assert((nre * sc()) * (nre * sc()) + (nim * sc()) * (nim * sc()) == (nre * nre + nim
            * nim) * (sc() * sc())) by (nonlinear_arith);
        assert((nre * nre + nim * nim) * (sc() * sc()) < (d * d) * (sc() * sc()))
            by (nonlinear_arith)
            requires
                nre * nre + nim * nim < d * d,
                sc() * sc() > 0,
        ;
        assert(zre * zre + zim * zim < sc() * sc()) by (nonlinear_arith)
            requires
                d * d > 0,
                zre * zre * (d * d) <= (nre * sc()) * (nre * sc()),
                zim * zim * (d * d) <= (nim * sc()) * (nim * sc()),
                (nre * sc()) * (nre * sc()) + (nim * sc()) * (nim * sc()) < (d * d) * (sc()
                    * sc()),
        ;
    }
}

/// The real-pole counterpart: a negative real pole maps strictly inside
/// the unit interval, `z^2 < 1` in fixed point.
pub proof fn lemma_real_pole_stable(re: int)
    requires
        re < 0,
    ensures
        sp_real_pole(re) matches Some(z) ==> z * z < sc() * sc(),
{
    if let Some(z) = sp_real_pole(re) {
        let p = 2 * sc() + re;
        let q = 2 * sc() - re;
        assert(q > 0);
        assert(z == tdiv(p * sc(), q));
        assert(p * p < q * q) by (nonlinear_arith)
            requires
                re < 0,
                sc() > 0,
                p == 2 * sc() + re,
                q == 2 * sc() - re,
        ;
        lemma_tdiv_mag(p * sc(), q);
        assert(z * z * (q * q) <= (p * sc()) * (p * sc())) by (nonlinear_arith)
            requires
                q > 0,
                p * sc() >= 0 ==> 0 <= z * q <= p * sc(),
                p * sc() < 0 ==> p * sc() <= z * q <= 0,
        ;
        assert((p * sc()) * (p * sc()) < (q * q) * (sc() * sc())) by (nonlinear_arith)
            requires
                p * p < q * q,
                sc() > 0,
        ;
        assert(z * z < sc() * sc()) by (nonlinear_arith)
            requires
                q * q > 0,
                z * z * (q * q) <= (p * sc()) * (p * sc()),
                (p * sc()) * (p * sc()) < (q * q) * (sc() * sc()),
        ;
    }
}

// ---------------------------------------------------------------------
// Exec counterparts of the per-pole steps.
// ---------------------------------------------------------------------

/// Exec/spec agreement for a checked pair of raw values.
pub open spec fn omatch2(r: Option<(i128, i128)>, s: Option<(int, int)>) -> bool {
    match r {
        Some(v) => s == Some((v.0 as int, v.1 as int)),
        None => s is None,
    }
}

fn scaled_pole_x(wct: i128, c: i128, s: i128) -> (r: Option<(i128, i128)>)
    ensures
        omatch2(r, sp_scaled_pole(wct as int, c as int, s as int)),
{
    match smul_i(wct, c) {
        None => None,
        Some(re) => match smul_i(wct, s) {
            None => None,
            Some(im) => if re < 0 {
                Some((re, im))
            } else {
                None
            },
        },
    }
}

fn pair_pole_x(re: i128, im: i128) -> (r: Option<(i128, i128)>)
    ensures
        omatch2(r, sp_pair_pole(re as int, im as int)),
{
    let two_s: i128 = 2 * SCALE;
    let p = match add_i(two_s, re) {
        Some(v) => v,
        None => { return None; },
    };
    let q = match sub_i(two_s, re) {
        Some(v) => v,
        None => { return None; },
    };
    let qq = match mul_i(q, q) {
        Some(v) => v,
        None => { return None; },
    };
    let ii = match mul_i(im, im) {
        Some(v) => v,
        None => { return None; },
    };
    let d = match add_i(qq, ii) {
        Some(v) => v,
        None => { return None; },
    };
    if d <= 0 {
        return None;
    }
    let pq = match mul_i(p, q) {
        Some(v) => v,
        None => { return None; },
    };
    let nre = match sub_i(pq, ii) {
        Some(v) => v,
        None => { return None; },
    };
    let iq = match mul_i(im, q) {
        Some(v) => v,
        None => { return None; },
    };
    let pi_ = match mul_i(p, im) {
        Some(v) => v,
        None => { return None; },
    };
    let nim = match add_i(iq, pi_) {
        Some(v) => v,
        None => { return None; },
    };
    let nres = match mul_i(nre, SCALE) {
        Some(v) => v,
        None => { return None; },
    };
    let nims = match mul_i(nim, SCALE) {
        Some(v) => v,
        None => { return None; },
    };
    let zre = div_i(nres, d);
    let zim = div_i(nims, d);
    proof {
        lemma_tdiv_mag(nres as int, d as int);
        lemma_tdiv_mag(nims as int, d as int);
    }
    Some((zre, zim))
}

fn pair_section_x(re: i128, im: i128) -> (r: Option<(Vec<i128>, Vec<i128>)>)
    ensures
        match r {
            Some(v) => sp_pair_section(re as int, im as int) == Some(
                (raws(v.0@), raws(v.1@)),
            ),
            None => sp_pair_section(re as int, im as int) is None,
        },
{
    let z = match pair_pole_x(re, im) {
        Some(v) => v,
        None => { return None; },
    };
    let a1 = match mul_i(-2, z.0) {
        Some(v) => v,
        None => { return None; },
    };
    let rr = match mul_i(z.0, z.0) {
        Some(v) => v,
        None => { return None; },
    };
    let jj = match mul_i(z.1, z.1) {
        Some(v) => v,
        None => { return None; },
    };
    let m2 = match add_i(rr, jj) {
        Some(v) => v,
        None => { return None; },
    };
    let a2 = div_i(m2, SCALE);
    proof {
        lemma_tdiv_mag(m2 as int, sc());
    }
    let num: Vec<i128> = vec![SCALE, 2 * SCALE, SCALE];
    let den: Vec<i128> = vec![SCALE, a1, a2];
    proof {
        assert(raws(num@) =~= seq![sc(), 2 * sc(), sc()]);
        assert(raws(den@) =~= seq![sc(), a1 as int, tdiv(m2 as int, sc())]);
    }
    Some((num, den))
}

fn real_section_x(re: i128) -> (r: Option<(Vec<i128>, Vec<i128>)>)
    ensures
        match r {
            Some(v) => sp_real_section(re as int) == Some((raws(v.0@), raws(v.1@))),
            None => sp_real_section(re as int) is None,
        },
{
    let two_s: i128 = 2 * SCALE;
    let p = match add_i(two_s, re) {
        Some(v) => v,
        None => { return None; },
    };
    let q = match sub_i(two_s, re) {
        Some(v) => v,
        None => { return None; },
    };
    if q <= 0 {
        return None;
    }
    let ps = match mul_i(p, SCALE) {
        Some(v) => v,
        None => { return None; },
    };
    let z = div_i(ps, q);
    proof {
        lemma_tdiv_mag(ps as int, q as int);
    }
    let neg_z: i128 = -z;
    let num: Vec<i128> = vec![SCALE, SCALE];
    let den: Vec<i128> = vec![SCALE, neg_z];
    proof {
        assert(raws(num@) =~= seq![sc(), sc()]);
        assert(raws(den@) =~= seq![sc(), -(z as int)]);
    }
    Some((num, den))
}

// ---------------------------------------------------------------------
// Cascading: polynomial convolution over checked fixed point.
// ---------------------------------------------------------------------

/// Checked partial convolution sum: the contributions of `x[0..i]` to
/// output coefficient `k`, that is the sum of `x[j] * y[k - j]` over
/// `j < i` with `k - j` in range, truncation still pending.
pub open spec fn sp_conv_dot(x: Seq<int>, y: Seq<int>, k: int, i: int) -> Option<int>
    decreases i,
{
    if i <= 0 {
        Some(0)
    } else {
        match sp_conv_dot(x, y, k, i - 1) {
            None => None,
            Some(acc) => {
                let j = k - (i - 1);
                if 0 <= j < y.len() {
                    match cmul(x[i - 1], y[j]) {
                        None => None,
                        Some(t) => cadd(acc, t),
                    }
                } else {
                    Some(acc)
                }
            },
        }
    }
}

/// Output coefficient `k` of the convolution: the exact sum of products,
/// truncated back to the scale.
pub open spec fn sp_conv_coef(x: Seq<int>, y: Seq<int>, k: int) -> Option<int> {
    match sp_conv_dot(x, y, k, x.len() as int) {
        None => None,
        Some(s) => Some(tdiv(s, sc())),
    }
}

/// The first `k` coefficients of the convolution.
pub open spec fn sp_conv_upto(x: Seq<int>, y: Seq<int>, k: int) -> Option<Seq<int>>
    decreases k,
{
    if k <= 0 {
        Some(Seq::empty())
    } else {
        match sp_conv_upto(x, y, k - 1) {
            None => None,
            Some(s) => match sp_conv_coef(x, y, k - 1) {
                None => None,
                Some(c) => Some(s.push(c)),
            },
        }
    }
}

/// The full convolution: `x.len() + y.len() - 1` coefficients.
pub open spec fn sp_conv(x: Seq<int>, y: Seq<int>) -> Option<Seq<int>> {
    sp_conv_upto(x, y, x.len() + y.len() - 1)
}

proof fn lemma_conv_dot_none(x: Seq<int>, y: Seq<int>, k: int, i: int, i2: int)
    requires
        sp_conv_dot(x, y, k, i) is None,
        i <= i2,
    ensures
        sp_conv_dot(x, y, k, i2) is None,
    decreases i2 - i,
{
    if i < i2 {
        lemma_conv_dot_none(x, y, k, i, i2 - 1);
    }
}

proof fn lemma_conv_upto_none(x: Seq<int>, y: Seq<int>, k: int, k2: int)
    requires
        sp_conv_upto(x, y, k) is None,
        k <= k2,
    ensures
        sp_conv_upto(x, y, k2) is None,
    decreases k2 - k,
{
    if k < k2 {
        lemma_conv_upto_none(x, y, k, k2 - 1);
    }
}

/// Convolution of two coefficient vectors, truncating each output
/// coefficient to the scale.
fn conv_x(x: &Vec<i128>, y: &Vec<i128>) -> (r: Option<Vec<i128>>)
    requires
        x@.len() >= 1,
        y@.len() >= 1,
        x@.len() + y@.len() <= usize::MAX,
    ensures
        match r {
            Some(v) => sp_conv(raws(x@), raws(y@)) == Some(raws(v@)) && v@.len() == x@.len()
                + y@.len() - 1 && (forall|j: int|
                0 <= j < v@.len() ==> #[trigger] v@[j] > i128::MIN),
            None => sp_conv(raws(x@), raws(y@)) is None,
        },
{
    let ghost rx = raws(x@);
    let ghost ry = raws(y@);
    let n = x.len();
    let m = y.len();
    let total = n + m - 1;
    let mut out: Vec<i128> = Vec::new();
    let mut k: usize = 0;
    while k < total
        invariant
            n == x@.len(),
            m == y@.len(),
            rx == raws(x@),
            ry == raws(y@),
            n >= 1,
            m >= 1,
            n + m <= usize::MAX,
            total == n + m - 1,
            k <= total,
            out@.len() == k,
            forall|j: int| 0 <= j < out@.len() ==> #[trigger] out@[j] > i128::MIN,
            sp_conv_upto(rx, ry, k as int) == Some(raws(out@)),
        decreases total - k,
    {
        let mut acc: i128 = 0;
        let mut i: usize = 0;
        while i < n
            invariant
                n == x@.len(),
                m == y@.len(),
                rx == raws(x@),
                ry == raws(y@),
                n >= 1,
                m >= 1,
                n + m <= usize::MAX,
                total == n + m - 1,
                k < total,
                i <= n,
                acc > i128::MIN,
                sp_conv_dot(rx, ry, k as int, i as int) == Some(acc as int),
            decreases n - i,
        {
            if k >= i && k - i < m {
                let p = match mul_i(x[i], y[k - i]) {
                    Some(p) => p,
                    None => {
                        proof {
                            lemma_conv_dot_none(rx, ry, k as int, i + 1, n as int);
                            lemma_conv_upto_none(rx, ry, k + 1, total as int);
                        }
                        return None;
                    },
                };
                acc = match add_i(acc, p) {
                    Some(a) => a,
                    None => {
                        proof {
                            lemma_conv_dot_none(rx, ry, k as int, i + 1, n as int);
                            lemma_conv_upto_none(rx, ry, k + 1, total as int);
                        }
                        return None;
                    },
                };
            }
            i = i + 1;
        }
        let c = div_i(acc, SCALE);
        proof {
            lemma_tdiv_mag(acc as int, sc());
            assert(raws(out@.push(c)) =~= raws(out@).push(c as int));
        }
        out.push(c);
        k = k + 1;
    }
    Some(out)
}

// ---------------------------------------------------------------------
// The cascade: one section per conjugate pair (then one first-order
// section for an odd order), convolved into a single (b, a) pair.
// ---------------------------------------------------------------------

/// The cascade after the first `k` conjugate-pair sections, starting from
/// the unit polynomials `([1], [1])`.
pub open spec fn sp_casc_upto(wct: int, trig: Seq<(int, int)>, k: int) -> Option<
    (Seq<int>, Seq<int>),
>
    decreases k,
{
    if k <= 0 {
        Some((seq![sc()], seq![sc()]))
    } else {
        match sp_casc_upto(wct, trig, k - 1) {
            None => None,
            Some(ba) => match sp_scaled_pole(wct, trig[k - 1].0, trig[k - 1].1) {
                None => None,
                Some(pl) => match sp_pair_section(pl.0, pl.1) {
                    None => None,
                    Some(sec) => match sp_conv(ba.0, sec.0) {
                        None => None,
                        Some(b2) => match sp_conv(ba.1, sec.1) {
                            None => None,
                            Some(a2) => Some((b2, a2)),
                        },
                    },
                },
            },
        }
    }
}

/// The full unnormalized cascade: all conjugate-pair sections, then, for an
/// odd order, the first-order section of the real pole `-wct` (the angle
/// `pi` has the exact cosine `-1`, so no trigonometric input is needed).
pub open spec fn sp_cascade(wct: int, trig: Seq<(int, int)>, odd: bool) -> Option<
    (Seq<int>, Seq<int>),
> {
    match sp_casc_upto(wct, trig, trig.len() as int) {
        None => None,
        Some(ba) => if odd {
            match sp_real_section(-wct) {
                None => None,
                Some(sec) => match sp_conv(ba.0, sec.0) {
                    None => None,
                    Some(b2) => match sp_conv(ba.1, sec.1) {
                        None => None,
                        Some(a2) => Some((b2, a2)),
                    },
                },
            }
        } else {
            Some(ba)
        },
    }
}

proof fn lemma_casc_upto_none(wct: int, trig: Seq<(int, int)>, k: int, k2: int)
    requires
        sp_casc_upto(wct, trig, k) is None,
        k <= k2,
    ensures
        sp_casc_upto(wct, trig, k2) is None,
    decreases k2 - k,
{
    if k < k2 {
        lemma_casc_upto_none(wct, trig, k, k2 - 1);
    }
}

/// A successful cascade had a successful (and, by
/// `lemma_pair_pole_stable`, stable) digital pole at every pair.
proof fn lemma_casc_upto_some(wct: int, trig: Seq<(int, int)>, k: int, j: int)
    requires
        sp_casc_upto(wct, trig, k) is Some,
        0 <= j < k,
    ensures
        sp_scaled_pole(wct, trig[j].0, trig[j].1) is Some,
        sp_pair_pole(
            sp_scaled_pole(wct, trig[j].0, trig[j].1).unwrap().0,
            sp_scaled_pole(wct, trig[j].0, trig[j].1).unwrap().1,
        ) is Some,
    decreases k - j,
{
    if j < k - 1 {
        lemma_casc_upto_some(wct, trig, k - 1, j);
    }
}

/// Runs the cascade.  On success the resulting coefficient vectors match
/// the specified pipeline and have length `order + 1`.
#[verifier::rlimit(60)]
fn cascade_x(proto: &WarpedPrototype) -> (r: Option<(Vec<i128>, Vec<i128>)>)
    requires
        proto.wf(),
        proto.order >= 1,
        proto.order <= 1000000,
    ensures
        match r {
            Some(v) => {
                &&& sp_cascade(
                    proto.warped.raw as int,
                    proto.trig(),
                    proto.order % 2 == 1,
                ) == Some((raws(v.0@), raws(v.1@)))
                &&& v.0@.len() == proto.order + 1
                &&& v.1@.len() == proto.order + 1
                &&& forall|j: int| 0 <= j < v.0@.len() ==> #[trigger] v.0@[j] > i128::MIN
                &&& forall|j: int| 0 <= j < v.1@.len() ==> #[trigger] v.1@[j] > i128::MIN
            },
            None => sp_cascade(
                proto.warped.raw as int,
                proto.trig(),
                proto.order % 2 == 1,
            ) is None,
        },
{
    let ghost wct = proto.warped.raw as int;
    let ghost trig = proto.trig();
    let pairs = proto.pairs.len();
    let mut b_tot: Vec<i128> = vec![SCALE];
    let mut a_tot: Vec<i128> = vec![SCALE];
    proof {
        assert(raws(b_tot@) =~= seq![sc()]);
        assert(raws(a_tot@) =~= seq![sc()]);
    }
    let mut k: usize = 0;
    while k < pairs
        invariant
            proto.wf(),
            proto.order <= 1000000,
            wct == proto.warped.raw as int,
            trig == proto.trig(),
            pairs == proto.pairs@.len(),
            k <= pairs,
            b_tot@.len() == 2 * k + 1,
            a_tot@.len() == 2 * k + 1,
            forall|j: int| 0 <= j < b_tot@.len() ==> #[trigger] b_tot@[j] > i128::MIN,
            forall|j: int| 0 <= j < a_tot@.len() ==> #[trigger] a_tot@[j] > i128::MIN,
            sp_casc_upto(wct, trig, k as int) == Some((raws(b_tot@), raws(a_tot@))),
        decreases pairs - k,
    {
        let sample = proto.pairs[k];
        let pl = match scaled_pole_x(proto.warped.raw, sample.cos.raw, sample.sin.raw) {
            Some(v) => v,
            None => {
                proof {
                    lemma_casc_upto_none(wct, trig, k + 1, pairs as int);
                }
                return None;
            },
        };
        let sec = match pair_section_x(pl.0, pl.1) {
            Some(v) => v,
            None => {
                proof {
                    lemma_casc_upto_none(wct, trig, k + 1, pairs as int);
                }
                return None;
            },
        };
        let b2 = match conv_x(&b_tot, &sec.0) {
            Some(v) => v,
            None => {
                proof {
                    lemma_casc_upto_none(wct, trig, k + 1, pairs as int);
                }
                return None;
            },
        };
        let a2 = match conv_x(&a_tot, &sec.1) {
            Some(v) => v,
            None => {
                proof {
                    lemma_casc_upto_none(wct, trig, k + 1, pairs as int);
                }
                return None;
            },
        };
        b_tot = b2;
        a_tot = a2;
        k = k + 1;
    }
    if proto.order % 2 == 1 {
        let neg_w: i128 = -proto.warped.raw;
        let sec = match real_section_x(neg_w) {
            Some(v) => v,
            None => { return None; },
        };
        let b2 = match conv_x(&b_tot, &sec.0) {
            Some(v) => v,
            None => { return None; },
        };
        let a2 = match conv_x(&a_tot, &sec.1) {
            Some(v) => v,
            None => { return None; },
        };
        b_tot = b2;
        a_tot = a2;
    }
    Some((b_tot, a_tot))
}

// ---------------------------------------------------------------------
// Normalization: divide by the leading denominator coefficient, then
// rescale the numerator for unity gain at DC.  These two steps are exact
// rational arithmetic, which is what turns the gain condition into an
// exact equality of integers.
// ---------------------------------------------------------------------

/// Checked sum of the first `i` raw coefficients.
pub open spec fn sp_sum(s: Seq<int>, i: int) -> Option<int>
    decreases i,
{
    if i <= 0 {
        Some(0)
    } else {
        match sp_sum(s, i - 1) {
            None => None,
            Some(acc) => cadd(acc, s[i - 1]),
        }
    }
}

/// The plain (unchecked) sum of the first `i` raw coefficients.
pub open spec fn isum(s: Seq<int>, i: int) -> int
    decreases i,
{
    if i <= 0 {
        0
    } else {
        isum(s, i - 1) + s[i - 1]
    }
}

proof fn lemma_sp_sum_val(s: Seq<int>, i: int)
    requires
        sp_sum(s, i) is Some,
    ensures
        sp_sum(s, i) == Some(isum(s, i)),
    decreases i,
{
    if i > 0 {
        lemma_sp_sum_val(s, i - 1);
    }
}

proof fn lemma_sp_sum_none(s: Seq<int>, i: int, i2: int)
    requires
        sp_sum(s, i) is None,
        i <= i2,
    ensures
        sp_sum(s, i2) is None,
    decreases i2 - i,
{
    if i < i2 {
        lemma_sp_sum_none(s, i, i2 - 1);
    }
}

/// The first `k` numerator coefficients rescaled by `sum(a) / sum(b)`
/// over the common denominator `a[0] * sum(b)`: the exact rational
/// `b[k] * sa / bden`.
pub open spec fn sp_brats(b: Seq<int>, sa: int, bden: int, k: int) -> Option<Seq<Rat>>
    decreases k,
{
    if k <= 0 {
        Some(Seq::empty())
    } else {
        match sp_brats(b, sa, bden, k - 1) {
            None => None,
            Some(s) => match cmul(b[k - 1], sa) {
                None => None,
                Some(n) => Some(s.push(Rat { num: n as i128, den: bden as i128 })),
            },
        }
    }
}

proof fn lemma_sp_brats_none(b: Seq<int>, sa: int, bden: int, k: int, k2: int)
    requires
        sp_brats(b, sa, bden, k) is None,
        k <= k2,
    ensures
        sp_brats(b, sa, bden, k2) is None,
    decreases k2 - k,
{
    if k < k2 {
        lemma_sp_brats_none(b, sa, bden, k, k2 - 1);
    }
}

/// The first `k` denominator coefficients as exact rationals over the
/// leading coefficient: `a[k] / a[0]`.
pub open spec fn sp_arats(a: Seq<int>, a0: int, k: int) -> Seq<Rat>
    decreases k,
{
    if k <= 0 {
        Seq::empty()
    } else {
        sp_arats(a, a0, k - 1).push(Rat { num: a[k - 1] as i128, den: a0 as i128 })
    }
}

/// Exact normalization of a cascaded pair: `a` is divided by its leading
/// coefficient, and `b` is divided by the same leading coefficient and
/// rescaled by `gain = sum(a)/sum(b)` so the response at `z = 1` (DC) is
/// exactly one.  Degenerate when the leading denominator coefficient or
/// the numerator sum is not positive, or a product leaves the
/// representable range.
pub open spec fn sp_normalize(b: Seq<int>, a: Seq<int>) -> Option<(Seq<Rat>, Seq<Rat>)>
    recommends
        b.len() >= 1,
        a.len() >= 1,
{
    let a0 = a[0];
    if a0 <= 0 {
        None
    } else {
        match sp_sum(b, b.len() as int) {
            None => None,
            Some(sb) => if sb <= 0 {
                None
            } else {
                match sp_sum(a, a.len() as int) {
                    None => None,
                    Some(sa) => match cmul(a0, sb) {
                        None => None,
                        Some(bden) => match sp_brats(b, sa, bden, b.len() as int) {
                            None => None,
                            Some(brs) => Some((brs, sp_arats(a, a0, a.len() as int))),
                        },
                    },
                }
            },
        }
    }
}

/// The whole specified pipeline of one low-pass design, from the
/// pre-warped cutoff and the prototype trigonometry to the normalized
/// rational coefficients.
pub open spec fn sp_design(wct: int, trig: Seq<(int, int)>, odd: bool) -> Option<
    (Seq<Rat>, Seq<Rat>),
> {
    match sp_cascade(wct, trig, odd) {
        None => None,
        Some(ba) => sp_normalize(ba.0, ba.1),
    }
}

/// Appending one rational adds its numerator to the numerator sum.
proof fn lemma_sum_num_push(s: Seq<Rat>, x: Rat)
    ensures
        crate::rat::sum_num(s.push(x)) == crate::rat::sum_num(s) + x.num,
    decreases s.len(),
{
    let t = s.push(x);
    assert(t.len() == s.len() + 1);
    if s.len() == 0 {
        assert(t[0] == x);
        assert(t.drop_first() =~= Seq::<Rat>::empty());
        assert(crate::rat::sum_num(t.drop_first()) == 0);
        assert(crate::rat::sum_num(t) == t[0].num + crate::rat::sum_num(t.drop_first()));
        assert(crate::rat::sum_num(s) == 0);
    } else {
        assert(t[0] == s[0]);
        assert(t.drop_first() =~= s.drop_first().push(x));
        lemma_sum_num_push(s.drop_first(), x);
        assert(crate::rat::sum_num(t) == t[0].num + crate::rat::sum_num(t.drop_first()));
        assert(crate::rat::sum_num(s) == s[0].num + crate::rat::sum_num(s.drop_first()));
    }
}

fn sum_x(v: &Vec<i128>) -> (r: Option<i128>)
    ensures
        crate::fx::omatch(r, sp_sum(raws(v@), v@.len() as int)),
{
    let ghost rv = raws(v@);
    let n = v.len();
    let mut acc: i128 = 0;
    let mut i: usize = 0;
    while i < n
        invariant
            n == v@.len(),
            rv == raws(v@),
            i <= n,
            sp_sum(rv, i as int) == Some(acc as int),
        decreases n - i,
    {
        acc = match add_i(acc, v[i]) {
            Some(a) => a,
            None => {
                proof {
                    lemma_sp_sum_none(rv, i + 1, n as int);
                }
                return None;
            },
        };
        i = i + 1;
    }
    Some(acc)
}

/// Exact normalization.  On success the two rational coefficient vectors
/// match the specified pipeline, are valid, carry common denominators,
/// have a leading denominator coefficient of exactly one, and satisfy the
/// unity-DC-gain equality `sum_num(b) / bden == sum_num(a) / aden`.
fn normalize_x(b: &Vec<i128>, a: &Vec<i128>) -> (r: Option<(Vec<Rat>, Vec<Rat>)>)
    requires
        b@.len() >= 1,
        a@.len() >= 1,
        forall|j: int| 0 <= j < b@.len() ==> #[trigger] b@[j] > i128::MIN,
        forall|j: int| 0 <= j < a@.len() ==> #[trigger] a@[j] > i128::MIN,
    ensures
        match r {
            Some(v) => {
                &&& sp_normalize(raws(b@), raws(a@)) == Some((v.0@, v.1@))
                &&& v.0@.len() == b@.len()
                &&& v.1@.len() == a@.len()
                &&& crate::rat::all_wf(v.0@)
                &&& crate::rat::all_wf(v.1@)
                &&& crate::rat::common_den(v.0@, v.0@[0].den as int)
                &&& crate::rat::common_den(v.1@, v.1@[0].den as int)
                &&& v.1@[0].is_one()
                &&& crate::rat::sum_num(v.0@) * (v.1@[0].den as int) == crate::rat::sum_num(
                    v.1@,
                ) * (v.0@[0].den as int)
            },
            None => sp_normalize(raws(b@), raws(a@)) is None,
        },
{
    let ghost rb = raws(b@);
    let ghost ra = raws(a@);
    let a0 = a[0];
    if a0 <= 0 {
        return None;
    }
    let sb = match sum_x(b) {
        Some(v) => v,
        None => { return None; },
    };
    if sb <= 0 {
        return None;
    }
    let sa = match sum_x(a) {
        Some(v) => v,
        None => { return None; },
    };
    let bden = match mul_i(a0, sb) {
        Some(v) => v,
        None => { return None; },
    };
    assert(bden > 0) by (nonlinear_arith)
        requires
            a0 > 0,
            sb > 0,
            bden as int == a0 as int * sb as int,
    ;
    let nb = b.len();
    let na = a.len();
    let mut brs: Vec<Rat> = Vec::new();
    let mut k: usize = 0;
    while k < nb
        invariant
            nb == b@.len(),
            nb >= 1,
            na == a@.len(),
            na >= 1,
            rb == raws(b@),
            ra == raws(a@),
            k <= nb,
            a0 == a@[0],
            a0 > 0,
            sb > 0,
            bden > 0,
            sp_sum(rb, nb as int) == Some(sb as int),
            sp_sum(ra, na as int) == Some(sa as int),
            cmul(a0 as int, sb as int) == Some(bden as int),
            brs@.len() == k,
            sp_brats(rb, sa as int, bden as int, k as int) == Some(brs@),
            forall|j: int| 0 <= j < k ==> (#[trigger] brs@[j]).den == bden,
            forall|j: int| 0 <= j < k ==> (#[trigger] brs@[j]).wf(),
            crate::rat::sum_num(brs@) == sa as int * isum(rb, k as int),
        decreases nb - k,
    {
        let n = match mul_i(b[k], sa) {
            Some(v) => v,
            None => {
                proof {
                    lemma_sp_brats_none(rb, sa as int, bden as int, k + 1, nb as int);
                }
                return None;
            },
        };
        let x = Rat { num: n, den: bden };
        proof {
            lemma_sum_num_push(brs@, x);
            assert(sa as int * isum(rb, k as int) + rb[k as int] * sa as int == sa as int
                * isum(rb, k as int + 1)) by (nonlinear_arith)
                requires
                    isum(rb, k as int + 1) == isum(rb, k as int) + rb[k as int],
            ;
        }
        brs.push(x);
        k = k + 1;
    }
    let mut ars: Vec<Rat> = Vec::new();
    let mut k2: usize = 0;
    while k2 < na
        invariant
            na == a@.len(),
            ra == raws(a@),
            k2 <= na,
            a0 == a@[0],
            a0 > 0,
            forall|j: int| 0 <= j < a@.len() ==> #[trigger] a@[j] > i128::MIN,
            ars@.len() == k2,
            ars@ == sp_arats(ra, a0 as int, k2 as int),
            forall|j: int| 0 <= j < k2 ==> (#[trigger] ars@[j]).den == a0,
            forall|j: int| 0 <= j < k2 ==> (#[trigger] ars@[j]).num == a@[j],
            forall|j: int| 0 <= j < k2 ==> (#[trigger] ars@[j]).wf(),
            crate::rat::sum_num(ars@) == isum(ra, k2 as int),
        decreases na - k2,
    {
        let x = Rat { num: a[k2], den: a0 };
        proof {
            lemma_sum_num_push(ars@, x);
        }
        ars.push(x);
        k2 = k2 + 1;
    }
    proof {
        lemma_sp_sum_val(rb, nb as int);
        lemma_sp_sum_val(ra, na as int);
        assert((sa as int * sb as int) * a0 as int == sa as int * (a0 as int * sb as int))
            by (nonlinear_arith);
    }
    Some((brs, ars))
}

// ---------------------------------------------------------------------
// The public design API.
// ---------------------------------------------------------------------

/// The documented parameter domain: a positive order, a positive sample
/// rate, and a cutoff strictly between zero and half the sample rate.
pub open spec fn params_valid(order: int, cutoff: int, fs: int) -> bool {
    order >= 1 && fs > 0 && 0 < cutoff && 2 * cutoff < fs
}

/// The low-pass cutoff a high-pass design mirrors to: `fs/2 - cutoff`
/// (half the sample rate rounded toward zero in fixed point).
pub open spec fn mirrored_cutoff(cutoff: int, fs: int) -> int {
    tdiv(fs, 2) - cutoff
}

/// Every conjugate-pair pole that the specified pipeline produces lies
/// strictly inside the unit circle.
pub open spec fn stable_pair_poles(wct: int, trig: Seq<(int, int)>) -> bool {
    forall|k: int|
        0 <= k < trig.len() ==> {
            let spl = #[trigger] sp_scaled_pole(wct, trig[k].0, trig[k].1);
            &&& spl is Some
            &&& sp_pair_pole(spl.unwrap().0, spl.unwrap().1) is Some
            &&& {
                let z = sp_pair_pole(spl.unwrap().0, spl.unwrap().1).unwrap();
                z.0 * z.0 + z.1 * z.1 < sc() * sc()
            }
        }
}

/// For an odd order, the real pole's digital image lies strictly inside
/// the unit circle.
pub open spec fn stable_real_pole(wct: int, odd: bool) -> bool {
    odd ==> {
        &&& sp_real_pole(-wct) is Some
        &&& {
            let z = sp_real_pole(-wct).unwrap();
            z * z < sc() * sc()
        }
    }
}

/// Stability of the whole design: a cascade that succeeded placed every
/// digital pole strictly inside the unit circle, because every scaled
/// analog pole lay strictly in the left half-plane and the bilinear
/// transform (even with truncation toward zero) maps that half-plane into
/// the open unit disc.
pub proof fn lemma_design_stable(wct: int, trig: Seq<(int, int)>, odd: bool)
    requires
        wct > 0,
        sp_cascade(wct, trig, odd) is Some,
    ensures
        stable_pair_poles(wct, trig),
        stable_real_pole(wct, odd),
{
    assert forall|k: int| 0 <= k < trig.len() implies {
        let spl = #[trigger] sp_scaled_pole(wct, trig[k].0, trig[k].1);
        &&& spl is Some
        &&& sp_pair_pole(spl.unwrap().0, spl.unwrap().1) is Some
        &&& {
            let z = sp_pair_pole(spl.unwrap().0, spl.unwrap().1).unwrap();
            z.0 * z.0 + z.1 * z.1 < sc() * sc()
        }
    } by {
        lemma_casc_upto_some(wct, trig, trig.len() as int, k);
        let spl = sp_scaled_pole(wct, trig[k].0, trig[k].1);
        lemma_pair_pole_stable(spl.unwrap().0, spl.unwrap().1);
    }
    if odd {
        lemma_real_pole_stable(-wct);
    }
}

/// A digital Butterworth filter: numerator and denominator coefficients
/// (exact rationals, lowest index first), and the design parameters they
/// came from.  `a[0]` is exactly one after normalization.
pub struct ButterworthFilter {
    pub b: Vec<Rat>,
    pub a: Vec<Rat>,
    pub order: usize,
    pub cutoff: Fx,
    pub sample_rate: Fx,
    pub filter_type: FilterType,
}

impl ButterworthFilter {
    /// Structural validity: `order + 1` coefficients on both sides, valid
    /// rationals over common denominators, leading denominator coefficient
    /// exactly one, positive sample rate.
    pub open spec fn wf(self) -> bool {
        &&& self.order >= 1
        &&& self.sample_rate.raw > 0
        &&& self.b@.len() == self.order as int + 1
        &&& self.a@.len() == self.order as int + 1
        &&& crate::rat::all_wf(self.b@)
        &&& crate::rat::all_wf(self.a@)
        &&& crate::rat::common_den(self.b@, self.b@[0].den as int)
        &&& crate::rat::common_den(self.a@, self.a@[0].den as int)
        &&& self.a@[0].is_one()
    }
}

/// Runs the whole verified pipeline on a warped prototype: cascade, then
/// exact normalization.
fn design_filter(proto: &WarpedPrototype) -> (r: Option<(Vec<Rat>, Vec<Rat>)>)
    requires
        proto.wf(),
        1 <= proto.order <= 1000000,
    ensures
        match r {
            Some(v) => {
                &&& sp_design(
                    proto.warped.raw as int,
                    proto.trig(),
                    proto.order % 2 == 1,
                ) == Some((v.0@, v.1@))
                &&& v.0@.len() == proto.order as int + 1
                &&& v.1@.len() == proto.order as int + 1
                &&& crate::rat::all_wf(v.0@)
                &&& crate::rat::all_wf(v.1@)
                &&& crate::rat::common_den(v.0@, v.0@[0].den as int)
                &&& crate::rat::common_den(v.1@, v.1@[0].den as int)
                &&& v.1@[0].is_one()
                &&& crate::rat::unity_dc_gain(v.0@, v.1@)
            },
            None => sp_design(
                proto.warped.raw as int,
                proto.trig(),
                proto.order % 2 == 1,
            ) is None,
        },
{
    let ba = match cascade_x(proto) {
        Some(v) => v,
        None => { return None; },
    };
    match normalize_x(&ba.0, &ba.1) {
        Some(v) => Some(v),
        None => None,
    }
}

impl ButterworthFilter {
    /// Designs a digital Butterworth low-pass filter.
    ///
    /// `proto` carries the pre-warped cutoff `2 * tan(pi * cutoff / fs)`
    /// and the prototype trigonometry for `proto.order`; the library
    /// cannot evaluate those transcendentals and trusts the caller to have
    /// computed them for this `cutoff` and `sample_rate`.  Everything
    /// after that is exact: the result is `Ok` exactly when the parameters
    /// are in the documented domain and the checked pipeline finishes, the
    /// coefficients equal the specified pipeline's output, the DC gain is
    /// exactly one (`unity_dc_gain`), and every digital pole lies strictly
    /// inside the unit circle.  (The bound on `order` only keeps the
    /// coefficient vectors far inside address-space limits; the checked
    /// arithmetic itself rejects anything it cannot represent.)
    pub fn lowpass(proto: &WarpedPrototype, cutoff: Fx, sample_rate: Fx) -> (r: Result<
        ButterworthFilter,
        FilterError,
    >)
        requires
            proto.wf(),
            proto.order <= 1000000,
        ensures
            r is Ok <==> params_valid(
                proto.order as int,
                cutoff.raw as int,
                sample_rate.raw as int,
            ) && sp_design(
                proto.warped.raw as int,
                proto.trig(),
                proto.order % 2 == 1,
            ) is Some,
            !params_valid(proto.order as int, cutoff.raw as int, sample_rate.raw as int)
                ==> r === Err(FilterError::InvalidParameter),
            params_valid(proto.order as int, cutoff.raw as int, sample_rate.raw as int)
                && sp_design(
                proto.warped.raw as int,
                proto.trig(),
                proto.order % 2 == 1,
            ) is None ==> r === Err(FilterError::NumericDegenerate),
            r matches Ok(f) ==> {
                &&& f.wf()
                &&& f.order == proto.order
                &&& f.cutoff == cutoff
                &&& f.sample_rate == sample_rate
                &&& f.filter_type == FilterType::Lowpass
                &&& Some((f.b@, f.a@)) == sp_design(
                    proto.warped.raw as int,
                    proto.trig(),
                    proto.order % 2 == 1,
                )
                &&& crate::rat::unity_dc_gain(f.b@, f.a@)
                &&& stable_pair_poles(proto.warped.raw as int, proto.trig())
                &&& stable_real_pole(proto.warped.raw as int, proto.order % 2 == 1)
            },
    {
        if proto.order < 1 || sample_rate.raw <= 0 || cutoff.raw <= 0 || !(cutoff.raw
            < sample_rate.raw - cutoff.raw) {
            return Err(FilterError::InvalidParameter);
        }
        match design_filter(proto) {
            Some(v) => {
                proof {
                    lemma_design_stable(
                        proto.warped.raw as int,
                        proto.trig(),
                        proto.order % 2 == 1,
                    );
                }
                Ok(
                    ButterworthFilter {
                        b: v.0,
                        a: v.1,
                        order: proto.order,
                        cutoff,
                        sample_rate,
                        filter_type: FilterType::Lowpass,
                    },
                )
            },
            None => Err(FilterError::NumericDegenerate),
        }
    }
}

/// Spectral inversion of a coefficient pair: negates every odd-indexed
/// coefficient of both vectors, turning `H(z)` into `H(-z)` and so
/// reflecting the magnitude response about the quarter-sample frequency.
pub fn lowpass_to_highpass(b_lp: &Vec<Rat>, a_lp: &Vec<Rat>) -> (r: (Vec<Rat>, Vec<Rat>))
    requires
        crate::rat::all_wf(b_lp@),
        crate::rat::all_wf(a_lp@),
    ensures
        r.0@ == crate::rat::negate_odd(b_lp@),
        r.1@ == crate::rat::negate_odd(a_lp@),
{
    let b_hp = negate_odd_x(b_lp);
    let a_hp = negate_odd_x(a_lp);
    (b_hp, a_hp)
}

fn negate_odd_x(s: &Vec<Rat>) -> (r: Vec<Rat>)
    requires
        crate::rat::all_wf(s@),
    ensures
        r@ == crate::rat::negate_odd(s@),
{
    let n = s.len();
    let mut out: Vec<Rat> = Vec::new();
    let mut i: usize = 0;
    while i < n
        invariant
            n == s@.len(),
            crate::rat::all_wf(s@),
            i <= n,
            out@.len() == i,
            forall|j: int| 0 <= j < i ==> out@[j] == crate::rat::negate_odd(s@)[j],
        decreases n - i,
    {
        let x = s[i];
        if i % 2 == 1 {
            out.push(x.neg());
        } else {
            out.push(x);
        }
        i = i + 1;
    }
    proof {
        assert(out@ =~= crate::rat::negate_odd(s@));
    }
    out
}

impl ButterworthFilter {
    /// Designs a digital Butterworth high-pass filter by spectral
    /// inversion: a low-pass is designed at the mirrored cutoff
    /// `fs/2 - cutoff` and every odd-indexed coefficient is negated
    /// (`H_HP(z) = H_LP(-z)`).
    ///
    /// `proto` must be warped at the *mirrored* cutoff: its `warped` field
    /// is `2 * tan(pi * (fs/2 - cutoff) / fs)`.  The parameter conditions
    /// are those of the underlying low-pass design, applied to the
    /// mirrored cutoff.  On success the coefficients are exactly the
    /// odd-negated low-pass coefficients, so the gain at the Nyquist
    /// frequency is exactly one (`unity_nyquist_gain`) because the
    /// underlying low-pass has DC gain exactly one.
    pub fn highpass(proto: &WarpedPrototype, cutoff: Fx, sample_rate: Fx) -> (r: Result<
        ButterworthFilter,
        FilterError,
    >)
        requires
            proto.wf(),
            proto.order <= 1000000,
        ensures
            r is Ok <==> params_valid(
                proto.order as int,
                mirrored_cutoff(cutoff.raw as int, sample_rate.raw as int),
                sample_rate.raw as int,
            ) && sp_design(
                proto.warped.raw as int,
                proto.trig(),
                proto.order % 2 == 1,
            ) is Some,
            !params_valid(
                proto.order as int,
                mirrored_cutoff(cutoff.raw as int, sample_rate.raw as int),
                sample_rate.raw as int,
            ) ==> r === Err(FilterError::InvalidParameter),
            params_valid(
                proto.order as int,
                mirrored_cutoff(cutoff.raw as int, sample_rate.raw as int),
                sample_rate.raw as int,
            ) && sp_design(
                proto.warped.raw as int,
                proto.trig(),
                proto.order % 2 == 1,
            ) is None ==> r === Err(FilterError::NumericDegenerate),
            r matches Ok(f) ==> {
                &&& f.wf()
                &&& f.order == proto.order
                &&& f.cutoff == cutoff
                &&& f.sample_rate == sample_rate
                &&& f.filter_type == FilterType::Highpass
                &&& {
                    let lp = sp_design(
                        proto.warped.raw as int,
                        proto.trig(),
                        proto.order % 2 == 1,
                    ).unwrap();
                    f.b@ == crate::rat::negate_odd(lp.0) && f.a@ == crate::rat::negate_odd(
                        lp.1,
                    )
                }
                &&& crate::rat::unity_nyquist_gain(f.b@, f.a@)
                &&& stable_pair_poles(proto.warped.raw as int, proto.trig())
                &&& stable_real_pole(proto.warped.raw as int, proto.order % 2 == 1)
            },
    {
        if proto.order < 1 || sample_rate.raw <= 0 {
            return Err(FilterError::InvalidParameter);
        }
        let half = div_i(sample_rate.raw, 2);
        let m = match sub_i(half, cutoff.raw) {
            Some(v) => v,
            None => {
                // The mirrored cutoff does not even fit the representable
                // range, so it is certainly outside (0, fs/2).
                return Err(FilterError::InvalidParameter);
            },
        };
        if m <= 0 || !(m < sample_rate.raw - m) {
            return Err(FilterError::InvalidParameter);
        }
        match design_filter(proto) {
            Some(v) => {
                proof {
                    lemma_design_stable(
                        proto.warped.raw as int,
                        proto.trig(),
                        proto.order % 2 == 1,
                    );
                    crate::rat::lemma_alt_sum_negate_odd(v.0@);
                    crate::rat::lemma_alt_sum_negate_odd(v.1@);
                    crate::rat::lemma_negate_odd_shape(v.0@, v.0@[0].den as int);
                    crate::rat::lemma_negate_odd_shape(v.1@, v.1@[0].den as int);
                }
                let (b_hp, a_hp) = lowpass_to_highpass(&v.0, &v.1);
                Ok(
                    ButterworthFilter {
                        b: b_hp,
                        a: a_hp,
                        order: proto.order,
                        cutoff,
                        sample_rate,
                        filter_type: FilterType::Highpass,
                    },
                )
            },
            None => Err(FilterError::NumericDegenerate),
        }
    }
}

} // verus!
