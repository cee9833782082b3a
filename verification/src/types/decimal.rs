use vstd::arithmetic::power::pow;
use vstd::prelude::*;

use super::error::InterLiquidSdkError;
use super::uint::{lemma_words_value_bound, u256_limit, U256};

verus! {

/// `v` scaled up by `d` decimal places, when both the factor 10^d and the
/// product stay below 2^256.
pub open spec fn scaled(v: nat, d: nat) -> Option<nat> {
    if pow(10, d) < u256_limit() && v * pow(10, d) < u256_limit() {
        Some(v * pow(10, d) as nat)
    } else {
        None
    }
}

/// The larger of two precisions.
pub open spec fn max_precision(a: nat, b: nat) -> nat {
    if a < b {
        b
    } else {
        a
    }
}

/// The precision that `checked_div` gives: the difference of the
/// precisions, or zero when the divisor has more places (the quotient is
/// then scaled up to a whole number).
pub open spec fn div_precision(a: nat, b: nat) -> nat {
    if b <= a {
        (a - b) as nat
    } else {
        0
    }
}

/// What adding two decimals (raw value `av` at precision `ap`, and `bv` at
/// `bp`) gives: the sum of the raw values brought to the larger precision,
/// with that precision; `None` when scaling or adding reaches 2^256.
pub open spec fn add_outcome(av: nat, ap: nat, bv: nat, bp: nat) -> Option<(nat, nat)> {
    let m = max_precision(ap, bp);
    match (scaled(av, (m - ap) as nat), scaled(bv, (m - bp) as nat)) {
        (Some(sa), Some(sb)) => if sa + sb < u256_limit() {
            Some(((sa + sb) as nat, m))
        } else {
            None
        },
        _ => None,
    }
}

/// A decimal number: the integer `value` scaled down by `precision`
/// decimal places.
#[derive(Clone, Copy, Debug, PartialEq, Eq)]
pub struct Decimal {
    value: U256,
    precision: u8,
}

impl Decimal {
    /// The raw integer value.
    pub closed spec fn value_of(self) -> nat {
        self.value@
    }

    /// The number of decimal places.
    pub closed spec fn precision_of(self) -> nat {
        self.precision as nat
    }

    pub fn new(value: U256, precision: u8) -> (r: Self)
        ensures
            r.value_of() == value@,
            r.precision_of() == precision,
    {
        Self { value, precision }
    }

    /// Whether the raw value is zero.
    pub fn is_zero(&self) -> (r: bool)
        ensures
            r == (self.value_of() == 0),
    {
        self.value.is_zero()
    }

    /// `value` scaled up by `diff` decimal places, or `Overflow`.
    fn scale_up(value: &U256, diff: u8) -> (r: Result<U256, InterLiquidSdkError>)
        ensures
            match (r, scaled(value@, diff as nat)) {
                (Ok(v), Some(s)) => v@ == s,
                (Err(e), None) => e is Overflow,
                _ => false,
            },
    {
        let ten: U256 = U256::from(10u64);
        let factor = ten.powi(diff)?;
        value.checked_mul(&factor)
    }

    /// Brings both decimals to the larger of their precisions, scaling up
    /// the raw value of the other one; fails with `Overflow` when a scaled
    /// value (or its factor) reaches 2^256.
    fn align_precision(lhs: Decimal, rhs: Decimal) -> (r: Result<(Decimal, Decimal), InterLiquidSdkError>)
        ensures
            ({
                let m = max_precision(lhs.precision_of(), rhs.precision_of());
                let sl = scaled(lhs.value_of(), (m - lhs.precision_of()) as nat);
                let sr = scaled(rhs.value_of(), (m - rhs.precision_of()) as nat);
                match r {
                    Ok((a, b)) => sl == Some(a.value_of()) && sr == Some(b.value_of()) && a.precision_of() == m
                        && b.precision_of() == m,
                    Err(e) => (sl is None || sr is None) && e is Overflow,
                }
            }),
    {
        let mut lhs = lhs;
        let mut rhs = rhs;
        let max_precision: u8 = if lhs.precision < rhs.precision {
            rhs.precision
        } else {
            lhs.precision
        };
        proof {
            lemma_words_value_bound(lhs.value.words);
            lemma_words_value_bound(rhs.value.words);
            vstd::arithmetic::power::lemma_pow0(10);
        }
        if lhs.precision < max_precision {
            let diff = max_precision - lhs.precision;
            match Self::scale_up(&lhs.value, diff) {
                Ok(v) => {
                    lhs = Self::new(v, max_precision);
                },
                Err(e) => {
                    return Err(e);
                },
            }
        }
        if rhs.precision < max_precision {
            let diff = max_precision - rhs.precision;
            match Self::scale_up(&rhs.value, diff) {
                Ok(v) => {
                    rhs = Self::new(v, max_precision);
                },
                Err(e) => {
                    return Err(e);
                },
            }
        }
        Ok((lhs, rhs))
    }

    /// The sum at the larger precision; fails when aligning or adding
    /// overflows.
    pub fn checked_add(self, rhs: Decimal) -> (r: Result<Decimal, InterLiquidSdkError>)
        ensures
            match r {
                Ok(d) => add_outcome(self.value_of(), self.precision_of(), rhs.value_of(), rhs.precision_of())
                    == Some((d.value_of(), d.precision_of())),
                Err(e) => add_outcome(self.value_of(), self.precision_of(), rhs.value_of(), rhs.precision_of()) is None
                    && e is Overflow,
            },
    {
        let (lhs, rhs) = Self::align_precision(self, rhs)?;
        let sum = lhs.value.checked_add(&rhs.value)?;
        Ok(Self::new(sum, lhs.precision))
    }

    /// The difference at the larger precision; fails with `Overflow` when
    /// aligning overflows and with `Underflow` when it is negative.
    pub fn checked_sub(self, rhs: Decimal) -> (r: Result<Decimal, InterLiquidSdkError>)
        ensures
            ({
                let m = max_precision(self.precision_of(), rhs.precision_of());
                let sl = scaled(self.value_of(), (m - self.precision_of()) as nat);
                let sr = scaled(rhs.value_of(), (m - rhs.precision_of()) as nat);
                match r {
                    Ok(d) => sl is Some && sr is Some && sr->0 <= sl->0 && d.value_of() == sl->0 - sr->0
                        && d.precision_of() == m,
                    Err(e) => (e is Overflow && (sl is None || sr is None)) || (e is Underflow && sl is Some
                        && sr is Some && sl->0 < sr->0),
                }
            }),
    {
        let (lhs, rhs) = Self::align_precision(self, rhs)?;
        let diff = lhs.value.checked_sub(&rhs.value)?;
        Ok(Self::new(diff, lhs.precision))
    }

    /// The product: raw values multiply and precisions add. Fails with
    /// `Overflow` when the raw product reaches 2^256 (before the precisions
    /// are added).
    pub fn checked_mul(&self, rhs: &Decimal) -> (r: Result<Decimal, InterLiquidSdkError>)
        requires
            self.value_of() * rhs.value_of() < u256_limit() ==> self.precision_of() + rhs.precision_of() < 256,
        ensures
            match r {
                Ok(d) => self.value_of() * rhs.value_of() < u256_limit() && d.value_of() == self.value_of()
                    * rhs.value_of() && d.precision_of() == self.precision_of() + rhs.precision_of(),
                Err(e) => e is Overflow && self.value_of() * rhs.value_of() >= u256_limit(),
            },
    {
        let new_value = self.value.checked_mul(&rhs.value)?;
        let new_precision = self.precision + rhs.precision;
        Ok(Self::new(new_value, new_precision))
    }

    /// The quotient: raw values divide (floored); when the divisor has
    /// more places, the quotient is scaled up by the difference and has
    /// precision zero; else its precision is the difference (see
    /// `div_precision`). Fails with `DivisionByZero`, or with `Overflow`
    /// when scaling overflows.
    pub fn checked_div(&self, rhs: &Decimal) -> (r: Result<Decimal, InterLiquidSdkError>)
        ensures
            ({
                let q = self.value_of() / rhs.value_of();
                let d = if self.precision_of() < rhs.precision_of() {
                    scaled(q, (rhs.precision_of() - self.precision_of()) as nat)
                } else {
                    Some(q)
                };
                match r {
                    Ok(x) => rhs.value_of() != 0 && d == Some(x.value_of()) && x.precision_of() == div_precision(
                        self.precision_of(),
                        rhs.precision_of(),
                    ),
                    Err(e) => (e is DivisionByZero && rhs.value_of() == 0) || (e is Overflow && rhs.value_of() != 0
                        && d is None),
                }
            }),
    {
        let mut new_value = self.value.checked_div(&rhs.value)?;
        if self.precision < rhs.precision {
            let diff: u8 = rhs.precision - self.precision;
            new_value = Self::scale_up(&new_value, diff)?;
            Ok(Self::new(new_value, 0))
        } else {
            Ok(Self::new(new_value, self.precision - rhs.precision))
        }
    }
}

/// Bringing a decimal to a larger precision keeps the number it stands
/// for: the scaled raw value over 10^m equals the raw value over 10^p.
pub proof fn law_scaling_keeps_value(v: nat, p: nat, m: nat, s: nat)
    requires
        p <= m,
        scaled(v, (m - p) as nat) == Some(s),
    ensures
        s * pow(10, p) == v * pow(10, m),
{
    let d = (m - p) as nat;
    vstd::arithmetic::power::lemma_pow_adds(10, d, p);
    vstd::arithmetic::power::lemma_pow_positive(10, d);
    assert(s == v * pow(10, d));
    assert(v * pow(10, d) * pow(10, p) == v * (pow(10, d) * pow(10, p))) by (nonlinear_arith);
}

/// Adding decimals does not depend on their order.
pub proof fn law_decimal_add_commutes(av: nat, ap: nat, bv: nat, bp: nat)
    ensures
        add_outcome(av, ap, bv, bp) == add_outcome(bv, bp, av, ap),
{
}

/// Adding decimals adds the numbers they stand for: the sum is at the
/// larger precision, and sum / 10^m == a / 10^ap + b / 10^bp exactly.
pub proof fn law_decimal_add_adds_numbers(av: nat, ap: nat, bv: nat, bp: nat, s: nat, m: nat)
    requires
        add_outcome(av, ap, bv, bp) == Some((s, m)),
    ensures
        m == ap || m == bp,
        ap <= m && bp <= m,
        s * pow(10, ap) * pow(10, bp) == (av * pow(10, bp) + bv * pow(10, ap)) * pow(10, m),
{
    let sa = scaled(av, (m - ap) as nat)->Some_0;
    let sb = scaled(bv, (m - bp) as nat)->Some_0;
    law_scaling_keeps_value(av, ap, m, sa);
    law_scaling_keeps_value(bv, bp, m, sb);
    assert(s == sa + sb);
    let pa = pow(10, ap);
    let pb = pow(10, bp);
    let pm = pow(10, m);
    assert((sa + sb) * pa * pb == (sa * pa) * pb + (sb * pb) * pa) by (nonlinear_arith);
    assert((av * pm) * pb + (bv * pm) * pa == (av * pb + bv * pa) * pm) by (nonlinear_arith);
}

/// Scaling by no places keeps the value; scaling that fits gives the value
/// times 10^d.
pub proof fn law_scaled_multiplies(v: nat, d: nat)
    ensures
        v < u256_limit() ==> scaled(v, 0) == Some(v),
        pow(10, d) < u256_limit() && v * pow(10, d) < u256_limit() ==> scaled(v, d) == Some((v * pow(10, d)) as nat),
        scaled(v, d) matches Some(s) ==> s == v * pow(10, d),
{
    vstd::arithmetic::power::lemma_pow0(10);
    vstd::arithmetic::power::lemma_pow_positive(10, d);
    assert(u256_limit() > 1) by {
        vstd::arithmetic::power2::lemma2_to64();
        vstd::arithmetic::power2::lemma_pow2_strictly_increases(1, 256);
    }
}

/// Dividing decimals divides the numbers they stand for: with the divisor
/// at no more places, the raw quotient times 10^bp and 10^(result
/// precision) is the floored raw quotient times 10^ap, and the result
/// precision is ap - bp; with the divisor at more places the result has
/// precision zero and its raw value is the floored raw quotient times
/// 10^(bp - ap).
pub proof fn law_decimal_div_scale(ap: nat, bp: nat, q: nat, x: nat)
    ensures
        bp <= ap ==> div_precision(ap, bp) + bp == ap,
        bp <= ap ==> q * pow(10, bp) * pow(10, div_precision(ap, bp)) == q * pow(10, ap),
        ap < bp ==> div_precision(ap, bp) == 0,
        ap < bp && scaled(q, (bp - ap) as nat) == Some(x) ==> x * pow(10, ap) == q * pow(10, bp),
{
    if bp <= ap {
        vstd::arithmetic::power::lemma_pow_adds(10, bp, (ap - bp) as nat);
        assert(q * pow(10, bp) * pow(10, (ap - bp) as nat) == q * (pow(10, bp) * pow(10, (ap - bp) as nat)))
            by (nonlinear_arith);
    }
    if ap < bp && scaled(q, (bp - ap) as nat) == Some(x) {
        law_scaling_keeps_value(q, ap, bp, x);
    }
}

} // verus!
