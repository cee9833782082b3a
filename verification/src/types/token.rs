use vstd::prelude::*;

use super::error::InterLiquidSdkError;
use super::uint::{u256_limit, U256};

verus! {

/// An amount of one denomination of token.
#[derive(Clone, Debug, PartialEq, Eq)]
pub struct Token {
    /// The denomination (such as "uatom").
    pub denom: String,
    pub amount: U256,
}

impl Token {
    pub fn new(denom: String, amount: U256) -> (r: Self)
        ensures
            r.denom == denom,
            r.amount == amount,
    {
        Self { denom, amount }
    }

    /// A denomination is valid when it is not empty; else `InvalidDenom`.
    pub fn validate_denom(denom: &str) -> (r: Result<(), InterLiquidSdkError>)
        ensures
            r is Ok <==> denom@.len() > 0,
            r matches Err(e) ==> e is InvalidDenom,
    {
        if denom.is_empty() {
            return Err(InterLiquidSdkError::InvalidDenom);
        }
        Ok(())
    }

    /// An amount is valid when it is not zero; else `ZeroAmount`.
    pub fn validate_amount(amount: &U256) -> (r: Result<(), InterLiquidSdkError>)
        ensures
            r is Ok <==> amount@ != 0,
            r matches Err(e) ==> e is ZeroAmount,
    {
        if amount.is_zero() {
            return Err(InterLiquidSdkError::ZeroAmount);
        }
        Ok(())
    }

    /// Checks the denomination first, then the amount.
    pub fn validate(&self) -> (r: Result<(), InterLiquidSdkError>)
        ensures
            r is Ok <==> self.denom@.len() > 0 && self.amount@ != 0,
            r matches Err(e) ==> (e is InvalidDenom && self.denom@.len() == 0) || (e is ZeroAmount && self.denom@.len()
                > 0 && self.amount@ == 0),
    {
        Self::validate_denom(self.denom.as_str())?;
        Self::validate_amount(&self.amount)
    }

    /// The sum of two amounts of one denomination: `DenomMismatch` when the
    /// denominations differ, `Overflow` when the sum reaches 2^256.
    pub fn checked_add(self, rhs: &Self) -> (r: Result<Self, InterLiquidSdkError>)
        ensures
            match r {
                Ok(t) => self.denom@ == rhs.denom@ && self.amount@ + rhs.amount@ < u256_limit() && t.denom
                    == self.denom && t.amount@ == self.amount@ + rhs.amount@,
                Err(e) => (e is DenomMismatch && self.denom@ != rhs.denom@) || (e is Overflow && self.denom@
                    == rhs.denom@ && self.amount@ + rhs.amount@ >= u256_limit()),
            },
    {
        if self.denom != rhs.denom {
            return Err(InterLiquidSdkError::DenomMismatch);
        }
        let amount = self.amount.checked_add(&rhs.amount)?;
        Ok(Self { denom: self.denom, amount })
    }

    /// The difference `self - lhs` of two amounts of one denomination:
    /// `DenomMismatch` when the denominations differ, `Underflow` when it is
    /// negative.
    pub fn checked_sub(self, lhs: &Self) -> (r: Result<Self, InterLiquidSdkError>)
        ensures
            match r {
                Ok(t) => self.denom@ == lhs.denom@ && lhs.amount@ <= self.amount@ && t.denom == self.denom
                    && t.amount@ == self.amount@ - lhs.amount@,
                Err(e) => (e is DenomMismatch && self.denom@ != lhs.denom@) || (e is Underflow && self.denom@
                    == lhs.denom@ && self.amount@ < lhs.amount@),
            },
    {
        if self.denom != lhs.denom {
            return Err(InterLiquidSdkError::DenomMismatch);
        }
        let amount = self.amount.checked_sub(&lhs.amount)?;
        Ok(Self { denom: self.denom, amount })
    }
}

} // verus!
