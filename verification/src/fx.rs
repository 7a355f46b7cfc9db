//! Fixed-point scalars and checked scaled-integer arithmetic.
//!
//! A value is stored as a raw `i128` denoting `raw / SCALE`.  All arithmetic
//! is checked: an operation whose exact result would leave
//! `[-i128::MAX, i128::MAX]` yields `None` (the symmetric range keeps every
//! operation well-behaved under negation).  Products and quotients are
//! rounded toward zero, which is stated exactly by `tdiv`.

use vstd::arithmetic::div_mod::lemma_fundamental_div_mod;
use vstd::arithmetic::div_mod::lemma_fundamental_div_mod_converse;
use vstd::prelude::*;

verus! {

/// Scaling factor of the fixed-point representation: a raw integer `r`
/// denotes the value `r / SCALE`.
pub const SCALE: i128 = 4294967296;

/// A fixed-point scalar: the value `raw / SCALE`.
#[derive(Clone, Copy, PartialEq, Eq, Structural, Debug)]
pub struct Fx {
    pub raw: i128,
}

/// `SCALE` as a mathematical integer.
pub open spec fn sc() -> int {
    SCALE as int
}

/// The symmetric range of raw values every operation is confined to.
pub open spec fn fits(x: int) -> bool {
    -(i128::MAX as int) <= x <= i128::MAX as int
}

/// Division truncated toward zero (the rounding Rust's `/` performs),
/// for a positive divisor.
pub open spec fn tdiv(n: int, d: int) -> int
    recommends
        d > 0,
{
    if n >= 0 {
        n / d
    } else {
        -((-n) / d)
    }
}

/// Checked addition of raw values.
pub open spec fn cadd(a: int, b: int) -> Option<int> {
    if fits(a + b) {
        Some(a + b)
    } else {
        None
    }
}

/// Checked subtraction of raw values.
pub open spec fn csub(a: int, b: int) -> Option<int> {
    if fits(a - b) {
        Some(a - b)
    } else {
        None
    }
}

/// Checked product of raw values (a plain integer product, not rescaled).
pub open spec fn cmul(a: int, b: int) -> Option<int> {
    if fits(a * b) {
        Some(a * b)
    } else {
        None
    }
}

/// Checked fixed-point product: the exact product of two scaled values,
/// truncated back to the scale.
pub open spec fn smul(a: int, b: int) -> Option<int> {
    if fits(a * b) {
        Some(tdiv(a * b, sc()))
    } else {
        None
    }
}

/// Exec/spec agreement for one checked raw value.
pub open spec fn omatch(r: Option<i128>, s: Option<int>) -> bool {
    match r {
        Some(v) => s == Some(v as int),
        None => s is None,
    }
}

/// Truncated division is an odd function of the dividend.
pub proof fn lemma_tdiv_neg(n: int, d: int)
    requires
        d > 0,
    ensures
        tdiv(-n, d) == -tdiv(n, d),
{
    if n == 0 {
        assert(tdiv(0, d) == 0) by {
            lemma_fundamental_div_mod_converse(0, d, 0, 0);
        }
    }
}

/// Truncation never grows a magnitude: `tdiv(n, d) * d` lies between `0`
/// and `n`.
pub proof fn lemma_tdiv_mag(n: int, d: int)
    requires
        d > 0,
    ensures
        n >= 0 ==> 0 <= tdiv(n, d) * d <= n,
        n < 0 ==> n <= tdiv(n, d) * d <= 0,
        n >= 0 ==> 0 <= tdiv(n, d) <= n,
        n < 0 ==> n <= tdiv(n, d) <= 0,
{
    if n >= 0 {
        lemma_fundamental_div_mod(n, d);
        assert(0 <= n % d < d);
        assert(tdiv(n, d) == n / d);
        assert(n / d * d == d * (n / d)) by (nonlinear_arith);
        assert(0 <= n / d) by (nonlinear_arith)
            requires
                n >= 0,
                d > 0,
                n == d * (n / d) + n % d,
                0 <= n % d < d,
        ;
        assert(n / d <= n / d * d) by (nonlinear_arith)
            requires
                d > 0,
                0 <= n / d,
        ;
    } else {
        lemma_fundamental_div_mod(-n, d);
        assert(0 <= (-n) % d < d);
        let q = (-n) / d;
        assert(0 <= q) by (nonlinear_arith)
            requires
                -n > 0,
                d > 0,
                -n == d * q + (-n) % d,
                0 <= (-n) % d < d,
        ;
        assert(q <= q * d) by (nonlinear_arith)
            requires
                d > 0,
                0 <= q,
        ;
        assert(q * d == d * q) by (nonlinear_arith);
        assert(q * d <= -n);
        assert(tdiv(n, d) == -q);
        assert((-q) * d == -(q * d)) by (nonlinear_arith);
    }
}

/// Checked addition of raw values.
pub fn add_i(a: i128, b: i128) -> (r: Option<i128>)
    ensures
        omatch(r, cadd(a as int, b as int)),
{
    match a.checked_add(b) {
        Some(v) => {
            if v > i128::MIN {
                Some(v)
            } else {
                None
            }
        },
        None => None,
    }
}

/// Checked subtraction of raw values.
pub fn sub_i(a: i128, b: i128) -> (r: Option<i128>)
    ensures
        omatch(r, csub(a as int, b as int)),
{
    match a.checked_sub(b) {
        Some(v) => {
            if v > i128::MIN {
                Some(v)
            } else {
                None
            }
        },
        None => None,
    }
}

/// Checked product of raw values.
pub fn mul_i(a: i128, b: i128) -> (r: Option<i128>)
    ensures
        omatch(r, cmul(a as int, b as int)),
{
    match a.checked_mul(b) {
        Some(v) => {
            if v > i128::MIN {
                Some(v)
            } else {
                None
            }
        },
        None => None,
    }
}

/// Division truncated toward zero, for a positive divisor and a dividend
/// clear of `i128::MIN` (so the magnitude always fits).
pub fn div_i(a: i128, b: i128) -> (r: i128)
    requires
        b > 0,
        a > i128::MIN,
    ensures
        r as int == tdiv(a as int, b as int),
{
    proof {
        lemma_tdiv_mag(a as int, b as int);
    }
    match a.checked_div(b) {
        Some(v) => v,
        None => {
            proof {
                assert(false);
            }
            0
        },
    }
}

/// Checked fixed-point product.
pub fn smul_i(a: i128, b: i128) -> (r: Option<i128>)
    ensures
        omatch(r, smul(a as int, b as int)),
{
    match mul_i(a, b) {
        Some(p) => {
            let q = div_i(p, SCALE);
            proof {
                lemma_tdiv_mag(p as int, sc());
            }
            Some(q)
        },
        None => None,
    }
}

} // verus!
