use crypto_bigint::{CheckedAdd, CheckedMul, CheckedSub};
use vstd::arithmetic::power::{lemma_pow_increases, pow};
use vstd::prelude::*;

use super::error::InterLiquidSdkError;

verus! {

/// 2^256: every 256-bit value is below it.
pub open spec fn u256_limit() -> nat {
    0x1_0000_0000_0000_0000_0000_0000_0000_0000_0000_0000_0000_0000_0000_0000_0000_0000nat
}

/// The number that four 64-bit words hold, least significant word first.
pub open spec fn words_value(w: [u64; 4]) -> nat {
    (w[0] + w[1] * 0x1_0000_0000_0000_0000nat + w[2] * 0x1_0000_0000_0000_0000_0000_0000_0000_0000nat
        + w[3] * 0x1_0000_0000_0000_0000_0000_0000_0000_0000_0000_0000_0000_0000nat) as nat
}

/// Every word array holds a value below 2^256.
pub proof fn lemma_words_value_bound(w: [u64; 4])
    ensures
        words_value(w) < u256_limit(),
{
}

/// The declaration of the outside crate's 256-bit unsigned integer, which
/// `U256::new` and `U256::inner_value` convert from and to.
#[verifier::external_type_specification]
#[verifier::external_body]
pub struct ExUint<const LIMBS: usize>(crypto_bigint::Uint<LIMBS>);

/// `crypto_bigint::Uint<4>::checked_add` (with `from_words` and `to_words`
/// around it): the contract claims that the sum comes back when it is below
/// 2^256 and nothing comes back otherwise, as the crate documents for its
/// checked addition.
#[verifier::external_body]
fn lib_checked_add(a: [u64; 4], b: [u64; 4]) -> (r: Option<[u64; 4]>)
    ensures
        match r {
            Some(w) => words_value(a) + words_value(b) < u256_limit() && words_value(w) == words_value(a)
                + words_value(b),
            None => words_value(a) + words_value(b) >= u256_limit(),
        },
{
    let sum: Option<crypto_bigint::Uint<4>> = crypto_bigint::Uint::<4>::from_words(a).checked_add(
        &crypto_bigint::Uint::<4>::from_words(b),
    ).into();
    match sum {
        Some(v) => Some(v.to_words()),
        None => None,
    }
}

/// `crypto_bigint::Uint<4>::checked_sub`: the contract claims that the
/// difference comes back when it is not negative and nothing comes back
/// otherwise.
#[verifier::external_body]
fn lib_checked_sub(a: [u64; 4], b: [u64; 4]) -> (r: Option<[u64; 4]>)
    ensures
        match r {
            Some(w) => words_value(b) <= words_value(a) && words_value(w) == words_value(a) - words_value(b),
            None => words_value(a) < words_value(b),
        },
{
    let diff: Option<crypto_bigint::Uint<4>> = crypto_bigint::Uint::<4>::from_words(a).checked_sub(
        &crypto_bigint::Uint::<4>::from_words(b),
    ).into();
    match diff {
        Some(v) => Some(v.to_words()),
        None => None,
    }
}

/// `crypto_bigint::Uint<4>::checked_mul`: the contract claims that the product
/// comes back when it is below 2^256 and nothing comes back otherwise.
#[verifier::external_body]
fn lib_checked_mul(a: [u64; 4], b: [u64; 4]) -> (r: Option<[u64; 4]>)
    ensures
        match r {
            Some(w) => words_value(a) * words_value(b) < u256_limit() && words_value(w) == words_value(a)
                * words_value(b),
            None => words_value(a) * words_value(b) >= u256_limit(),
        },
{
    let product: Option<crypto_bigint::Uint<4>> = crypto_bigint::Uint::<4>::from_words(a).checked_mul(
        &crypto_bigint::Uint::<4>::from_words(b),
    ).into();
    match product {
        Some(v) => Some(v.to_words()),
        None => None,
    }
}

/// `crypto_bigint::Uint<4>::checked_div`: the contract claims that the floored
/// quotient comes back when the divisor is not zero and nothing comes back
/// otherwise.
#[verifier::external_body]
fn lib_checked_div(a: [u64; 4], b: [u64; 4]) -> (r: Option<[u64; 4]>)
    ensures
        match r {
            Some(w) => words_value(b) != 0 && words_value(w) == words_value(a) / words_value(b),
            None => words_value(b) == 0,
        },
{
    let quotient: Option<crypto_bigint::Uint<4>> = crypto_bigint::Uint::<4>::from_words(a).checked_div(
        &crypto_bigint::Uint::<4>::from_words(b),
    ).into();
    match quotient {
        Some(v) => Some(v.to_words()),
        None => None,
    }
}

/// A 256-bit unsigned integer, kept as four 64-bit words, least
/// significant first. Its view is the number it holds.
#[derive(Clone, Copy, Debug, PartialEq, Eq)]
pub struct U256 {
    pub words: [u64; 4],
}

impl View for U256 {
    type V = nat;

    open spec fn view(&self) -> nat {
        words_value(self.words)
    }
}

impl U256 {
    /// Wraps a value of `crypto_bigint::Uint<4>`. The contract states nothing:
    /// the outside value is opaque here.
    #[verifier::external_body]
    pub fn new(value: crypto_bigint::Uint<4>) -> (r: U256) {
        U256 { words: value.to_words() }
    }

    /// The value as a `crypto_bigint::Uint<4>`. The contract states nothing:
    /// the outside value is opaque here.
    #[verifier::external_body]
    pub fn inner_value(&self) -> (r: crypto_bigint::Uint<4>) {
        crypto_bigint::Uint::<4>::from_words(self.words)
    }

    /// Whether the value is zero.
    pub fn is_zero(&self) -> (r: bool)
        ensures
            r == (self@ == 0),
    {
        self.words[0] == 0 && self.words[1] == 0 && self.words[2] == 0 && self.words[3] == 0
    }

    /// The sum, or `Overflow` when it reaches 2^256.
    pub fn checked_add(&self, rhs: &U256) -> (r: Result<U256, InterLiquidSdkError>)
        ensures
            match r {
                Ok(v) => self@ + rhs@ < u256_limit() && v@ == self@ + rhs@,
                Err(e) => self@ + rhs@ >= u256_limit() && e is Overflow,
            },
    {
        match lib_checked_add(self.words, rhs.words) {
            Some(w) => Ok(U256 { words: w }),
            None => Err(InterLiquidSdkError::Overflow),
        }
    }

    /// The difference `self - lhs`, or `Underflow` when it is negative.
    pub fn checked_sub(&self, lhs: &U256) -> (r: Result<U256, InterLiquidSdkError>)
        ensures
            match r {
                Ok(v) => lhs@ <= self@ && v@ == self@ - lhs@,
                Err(e) => self@ < lhs@ && e is Underflow,
            },
    {
        match lib_checked_sub(self.words, lhs.words) {
            Some(w) => Ok(U256 { words: w }),
            None => Err(InterLiquidSdkError::Underflow),
        }
    }

    /// The product, or `Overflow` when it reaches 2^256.
    pub fn checked_mul(&self, rhs: &U256) -> (r: Result<U256, InterLiquidSdkError>)
        ensures
            match r {
                Ok(v) => self@ * rhs@ < u256_limit() && v@ == self@ * rhs@,
                Err(e) => self@ * rhs@ >= u256_limit() && e is Overflow,
            },
    {
        match lib_checked_mul(self.words, rhs.words) {
            Some(w) => Ok(U256 { words: w }),
            None => Err(InterLiquidSdkError::Overflow),
        }
    }

    /// The floored quotient, or `DivisionByZero` when `rhs` is zero.
    pub fn checked_div(&self, rhs: &U256) -> (r: Result<U256, InterLiquidSdkError>)
        ensures
            match r {
                Ok(v) => rhs@ != 0 && v@ == self@ / rhs@,
                Err(e) => rhs@ == 0 && e is DivisionByZero,
            },
    {
        match lib_checked_div(self.words, rhs.words) {
            Some(w) => Ok(U256 { words: w }),
            None => Err(InterLiquidSdkError::DivisionByZero),
        }
    }

    /// `self` raised to `exponent` (with 0^0 = 1), or `Overflow` when the
    /// power reaches 2^256.
    pub fn powi(&self, exponent: u8) -> (r: Result<U256, InterLiquidSdkError>)
        ensures
            match r {
                Ok(v) => pow(self@ as int, exponent as nat) < u256_limit() && v@ == pow(self@ as int, exponent as nat),
                Err(e) => pow(self@ as int, exponent as nat) >= u256_limit() && e is Overflow,
            },
    {
        if exponent == 0 {
            proof {
                reveal(pow);
            }
            return Ok(U256::from(1u64));
        } else if exponent == 1 {
            assert(pow(self@ as int, 1) == self@) by {
                reveal_with_fuel(pow, 2);
            }
            proof {
                lemma_words_value_bound(self.words);
            }
            return Ok(*self);
        } else {
            let mut val = *self;
            assert(pow(self@ as int, 1) == self@) by {
                reveal_with_fuel(pow, 2);
            }
            proof {
                lemma_words_value_bound(self.words);
            }
            let mut k: u8 = 1;
            while k < exponent
                invariant
                    1 <= k <= exponent,
                    val@ == pow(self@ as int, k as nat),
                    val@ < u256_limit(),
                decreases exponent - k,
            {
                let next = val.checked_mul(self);
                proof {
                    assert(pow(self@ as int, (k + 1) as nat) == self@ * pow(self@ as int, k as nat)) by {
                        reveal(pow);
                    }
                    assert(val@ * self@ == self@ * val@) by (nonlinear_arith);
                }
                match next {
                    Ok(v) => {
                        val = v;
                    },
                    Err(e) => {
                        proof {
                            if self@ > 0 {
                                lemma_pow_increases(self@, (k + 1) as nat, exponent as nat);
                            } else {
                                assert(val@ * self@ == 0) by (nonlinear_arith)
                                    requires
                                        self@ == 0,
                                ;
                            }
                        }
                        return Err(e);
                    },
                }
                k += 1;
            }
            Ok(val)
        }
    }
}

impl From<u64> for U256 {
    fn from(value: u64) -> (r: U256) {
        U256 { words: [value, 0, 0, 0] }
    }
}

impl vstd::std_specs::convert::FromSpecImpl<u64> for U256 {
    open spec fn obeys_from_spec() -> bool {
        true
    }

    open spec fn from_spec(v: u64) -> U256 {
        U256 { words: [v, 0, 0, 0] }
    }
}

/// Converting a `u64` into a `U256` keeps its number.
pub proof fn law_from_u64_keeps_number(v: u64)
    ensures
        <U256 as vstd::std_specs::convert::FromSpec<u64>>::from_spec(v)@ == v,
{
}

/// Subtracting what was added gives the number back, and dividing a
/// product by a nonzero factor gives the other factor back.
pub proof fn law_u256_inverses(a: nat, b: nat)
    ensures
        (a + b) - b == a,
        b != 0 ==> (a * b) / b == a,
{
    if b != 0 {
        vstd::arithmetic::div_mod::lemma_div_multiples_vanish(a as int, b as int);
        assert(b * a == a * b) by (nonlinear_arith);
    }
}

/// The words of a 256-bit integer are its base-2^64 digits, least
/// significant first: a single word counts as itself, the second word
/// 2^64 times, the third 2^128 times, the fourth 2^192 times, and the
/// largest value is 2^256 - 1.
pub proof fn law_u256_words_are_digits(v: u64)
    ensures
        words_value([v, 0, 0, 0]) == v,
        words_value([0, v, 0, 0]) == v * 0x1_0000_0000_0000_0000nat,
        words_value([0, 0, v, 0]) == v * 0x1_0000_0000_0000_0000_0000_0000_0000_0000nat,
        words_value([0, 0, 0, v]) == v * 0x1_0000_0000_0000_0000_0000_0000_0000_0000_0000_0000_0000_0000nat,
        words_value([u64::MAX, u64::MAX, u64::MAX, u64::MAX]) + 1 == u256_limit(),
{
}

} // verus!
