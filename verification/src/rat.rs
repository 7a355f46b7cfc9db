//! Exact rationals for normalized filter coefficients.
//!
//! The cascade works in fixed point, but the final normalization (divide by
//! the leading denominator coefficient, rescale the numerator for unity
//! gain at the anchor frequency) is carried out exactly: each coefficient
//! becomes a quotient of integers.  This is what makes the gain laws exact
//! equalities rather than approximations.

use vstd::prelude::*;

verus! {

/// An exact rational `num / den` with a positive denominator.
#[derive(Clone, Copy, PartialEq, Eq, Structural, Debug)]
pub struct Rat {
    pub num: i128,
    pub den: i128,
}

impl Rat {
    /// Validity: positive denominator, numerator clear of `i128::MIN` so
    /// negation is always possible.
    pub open spec fn wf(self) -> bool {
        self.den > 0 && self.num > i128::MIN
    }

    /// Both rationals denote the same number.
    pub open spec fn same_value(self, other: Rat) -> bool {
        self.num * other.den == other.num * self.den
    }

    /// This rational denotes exactly `1`.
    pub open spec fn is_one(self) -> bool {
        self.num == self.den
    }

    /// Strict order on the denoted values (for positive denominators).
    pub open spec fn lt(self, other: Rat) -> bool {
        self.num * other.den < other.num * self.den
    }

    /// The exact negation.
    pub fn neg(self) -> (r: Rat)
        requires
            self.num > i128::MIN,
        ensures
            r.num == -self.num,
            r.den == self.den,
    {
        Rat { num: -self.num, den: self.den }
    }
}

/// Unity gain at DC: with the common denominators `b[0].den` and
/// `a[0].den`, the response at `z = 1` is `sum_num(b)/b[0].den` divided by
/// `sum_num(a)/a[0].den`, and this says that quotient is exactly one.
pub open spec fn unity_dc_gain(b: Seq<Rat>, a: Seq<Rat>) -> bool
    recommends
        b.len() >= 1,
        a.len() >= 1,
{
    sum_num(b) * a[0].den == sum_num(a) * b[0].den
}

/// Unity gain at the Nyquist point: the response at `z = -1` is
/// `alt_sum_num(b)/b[0].den` divided by `alt_sum_num(a)/a[0].den`, and
/// this says that quotient is exactly one.
pub open spec fn unity_nyquist_gain(b: Seq<Rat>, a: Seq<Rat>) -> bool
    recommends
        b.len() >= 1,
        a.len() >= 1,
{
    alt_sum_num(b) * a[0].den == alt_sum_num(a) * b[0].den
}

/// Every element is valid.
pub open spec fn all_wf(s: Seq<Rat>) -> bool {
    forall|i: int| 0 <= i < s.len() ==> (#[trigger] s[i]).wf()
}

/// Every element carries the same denominator `d`.
pub open spec fn common_den(s: Seq<Rat>, d: int) -> bool {
    forall|i: int| 0 <= i < s.len() ==> (#[trigger] s[i]).den == d
}

/// Sum of the numerators.
pub open spec fn sum_num(s: Seq<Rat>) -> int
    decreases s.len(),
{
    if s.len() == 0 {
        0
    } else {
        s[0].num + sum_num(s.drop_first())
    }
}

/// Alternating sum of the numerators with a leading sign: `sign` times the
/// first numerator, the opposite sign for the next, and so on.
pub open spec fn signed_sum_num(s: Seq<Rat>, sign: int) -> int
    decreases s.len(),
{
    if s.len() == 0 {
        0
    } else {
        sign * s[0].num + signed_sum_num(s.drop_first(), -sign)
    }
}

/// `num[0] - num[1] + num[2] - ...`: the numerator sum of the polynomial
/// evaluated at `z = -1` (the Nyquist point), over a common denominator.
pub open spec fn alt_sum_num(s: Seq<Rat>) -> int {
    signed_sum_num(s, 1)
}

/// The sequence with every numerator negated.
pub open spec fn negate_all(s: Seq<Rat>) -> Seq<Rat> {
    s.map(|i: int, r: Rat| Rat { num: (-r.num) as i128, den: r.den })
}

/// The sequence with the numerators at odd indices negated: the
/// coefficients of `p(-z)` given the coefficients of `p(z)`.
pub open spec fn negate_odd(s: Seq<Rat>) -> Seq<Rat> {
    s.map(
        |i: int, r: Rat|
            if i % 2 == 1 {
                Rat { num: (-r.num) as i128, den: r.den }
            } else {
                r
            },
    )
}

/// Negating every numerator flips the leading sign of a signed sum.
proof fn lemma_signed_sum_negate_all(s: Seq<Rat>, sign: int)
    requires
        all_wf(s),
    ensures
        signed_sum_num(negate_all(s), sign) == signed_sum_num(s, -sign),
    decreases s.len(),
{
    if s.len() == 0 {
    } else {
        assert(negate_all(s).drop_first() =~= negate_all(s.drop_first()));
        assert(all_wf(s.drop_first()));
        lemma_signed_sum_negate_all(s.drop_first(), -sign);
        assert(sign * (-s[0].num) == (-sign) * s[0].num) by (nonlinear_arith);
    }
}

/// Spectral inversion preserves the anchor-gain numerator: the alternating
/// sum of the odd-negated coefficients equals the plain sum of the original
/// coefficients.  (Evaluating `p(-z)` at `z = -1` is evaluating `p` at
/// `z = 1`.)
pub proof fn lemma_alt_sum_negate_odd(s: Seq<Rat>)
    requires
        all_wf(s),
    ensures
        alt_sum_num(negate_odd(s)) == sum_num(s),
    decreases s.len(),
{
    if s.len() == 0 {
    } else {
        let rest = s.drop_first();
        assert(all_wf(rest));
        assert(negate_odd(s).drop_first() =~= negate_all(negate_odd(rest)));
        assert(all_wf(negate_odd(rest)));
        lemma_signed_sum_negate_all(negate_odd(rest), -1);
        lemma_alt_sum_negate_odd(rest);
        assert(negate_odd(s)[0] == s[0]);
    }
}

/// The denominators survive `negate_odd` unchanged, as does validity.
pub proof fn lemma_negate_odd_shape(s: Seq<Rat>, d: int)
    requires
        all_wf(s),
        common_den(s, d),
    ensures
        negate_odd(s).len() == s.len(),
        all_wf(negate_odd(s)),
        common_den(negate_odd(s), d),
        forall|i: int|
            0 <= i < s.len() && i % 2 == 0 ==> #[trigger] negate_odd(s)[i] == s[i],
        forall|i: int|
            0 <= i < s.len() && i % 2 == 1 ==> (#[trigger] negate_odd(s)[i]).num == -s[i].num
                && negate_odd(s)[i].den == s[i].den,
{
}

} // verus!
