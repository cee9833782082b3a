use vstd::prelude::*;

use super::error::InterLiquidSdkError;
use super::uint::{u256_limit, U256};
use crate::trie::db::copy_bytes;
use crate::utils::sorted_map::SortedMap;

verus! {

/// Amounts of tokens by denomination (the UTF-8 bytes of the denomination
/// name), in the order of the denominations.
pub type Tokens = SortedMap<U256>;

/// The amount of `d` in `m`, zero where `m` holds none.
pub open spec fn amount_in(m: Map<Seq<u8>, U256>, d: Seq<u8>) -> nat {
    if m.contains_key(d) {
        m[d]@
    } else {
        0
    }
}

/// What validating a collection gives: `InvalidDenom` when it holds the
/// empty denomination, else `ZeroAmount` when it holds a zero amount.
pub open spec fn tokens_validation(m: Map<Seq<u8>, U256>) -> Result<(), InterLiquidSdkError> {
    if m.contains_key(Seq::<u8>::empty()) {
        Err(InterLiquidSdkError::InvalidDenom)
    } else if exists|d: Seq<u8>| #[trigger] m.contains_key(d) && m[d]@ == 0 {
        Err(InterLiquidSdkError::ZeroAmount)
    } else {
        Ok(())
    }
}

/// No denomination overflows when the amounts of `b` are added to `a`.
pub open spec fn tokens_add_fits(a: Map<Seq<u8>, U256>, b: Map<Seq<u8>, U256>) -> bool {
    forall|d: Seq<u8>| #[trigger] b.contains_key(d) ==> amount_in(a, d) + b[d]@ < u256_limit()
}

/// Every denomination of `b` is in `a` with at least the amount of `b`.
pub open spec fn tokens_sub_fits(a: Map<Seq<u8>, U256>, b: Map<Seq<u8>, U256>) -> bool {
    forall|d: Seq<u8>| #[trigger] b.contains_key(d) ==> a.contains_key(d) && b[d]@ <= a[d]@
}

/// `m` holds the denominations of `a` and of `b`, each with the sum of its
/// amounts.
pub open spec fn is_tokens_sum(m: Map<Seq<u8>, U256>, a: Map<Seq<u8>, U256>, b: Map<Seq<u8>, U256>) -> bool {
    &&& forall|d: Seq<u8>| #[trigger] m.contains_key(d) <==> a.contains_key(d) || b.contains_key(d)
    &&& forall|d: Seq<u8>| #[trigger] m.contains_key(d) ==> m[d]@ == amount_in(a, d) + amount_in(b, d)
}

/// `m` holds the denominations of `a`, each with the amount of `a` less
/// that of `b`.
pub open spec fn is_tokens_difference(m: Map<Seq<u8>, U256>, a: Map<Seq<u8>, U256>, b: Map<Seq<u8>, U256>) -> bool {
    &&& forall|d: Seq<u8>| #[trigger] m.contains_key(d) <==> a.contains_key(d)
    &&& forall|d: Seq<u8>| #[trigger] m.contains_key(d) ==> m[d]@ == a[d]@ - amount_in(b, d)
}

/// Operations on collections of tokens.
pub trait TokensI: Sized {
    /// The collection is well formed.
    spec fn tokens_wf(&self) -> bool;

    /// Checks every denomination and amount.
    fn validate(&self) -> Result<(), InterLiquidSdkError>
        requires
            self.tokens_wf(),
    ;

    /// Adds the amounts of `rhs`, denomination by denomination.
    fn checked_add(self, rhs: &Self) -> Result<Self, InterLiquidSdkError>
        requires
            self.tokens_wf(),
            rhs.tokens_wf(),
    ;

    /// Subtracts the amounts of `rhs`, denomination by denomination.
    fn checked_sub(self, rhs: &Self) -> Result<Self, InterLiquidSdkError>
        requires
            self.tokens_wf(),
            rhs.tokens_wf(),
    ;
}

impl TokensI for SortedMap<U256> {
    open spec fn tokens_wf(&self) -> bool {
        self.wf()
    }

    /// Checks the entries in denomination order, each denomination before
    /// its amount: see `tokens_validation`.
    fn validate(&self) -> (r: Result<(), InterLiquidSdkError>)
        ensures
            r == tokens_validation(self@),
    {
        let mut i: usize = 0;
        while i < self.entries.len()
            invariant
                self.wf(),
                i <= self.size(),
                forall|t: int| 0 <= t < i ==> (#[trigger] self.key_at(t)).len() > 0 && self.value_at(t)@ != 0,
            decreases self.size() - i,
        {
            proof {
                self.lemma_index_of(i as int);
            }
            if self.entries[i].0.len() == 0 {
                assert(self.key_at(i as int) =~= Seq::<u8>::empty());
                return Err(InterLiquidSdkError::InvalidDenom);
            }
            if self.entries[i].1.is_zero() {
                proof {
                    if self@.contains_key(Seq::<u8>::empty()) {
                        let t = self.index_of(Seq::<u8>::empty());
                        if t > i {
                            assert(crate::utils::sorted_map::lex_lt(self.key_at(i as int), self.key_at(t)));
                        }
                    }
                }
                return Err(InterLiquidSdkError::ZeroAmount);
            }
            i += 1;
        }
        proof {
            if self@.contains_key(Seq::<u8>::empty()) {
                let t = self.index_of(Seq::<u8>::empty());
                assert(self.key_at(t).len() > 0);
            }
            if exists|d: Seq<u8>| #[trigger] self@.contains_key(d) && self@[d]@ == 0 {
                let d = choose|d: Seq<u8>| #[trigger] self@.contains_key(d) && self@[d]@ == 0;
                let t = self.index_of(d);
                self.lemma_index_of(t);
            }
        }
        Ok(())
    }

    /// Validates both collections (this one first), then adds the entries
    /// of `rhs` in denomination order; fails with `Overflow` when a sum
    /// reaches 2^256.
    fn checked_add(self, rhs: &Self) -> (r: Result<Self, InterLiquidSdkError>)
        ensures
            match r {
                Ok(m) => tokens_validation(self@) is Ok && tokens_validation(rhs@) is Ok && tokens_add_fits(self@, rhs@)
                    && m.wf() && is_tokens_sum(m@, self@, rhs@),
                Err(e) => if tokens_validation(self@) is Err {
                    tokens_validation(self@) == Err::<(), InterLiquidSdkError>(e)
                } else if tokens_validation(rhs@) is Err {
                    tokens_validation(rhs@) == Err::<(), InterLiquidSdkError>(e)
                } else {
                    e is Overflow && !tokens_add_fits(self@, rhs@)
                },
            },
    {
        self.validate()?;
        rhs.validate()?;
        let ghost a = self@;
        let mut lhs = self;
        let mut i: usize = 0;
        proof {
            if rhs.size() > 0 {
                rhs.lemma_prefix_map(0);
            } else {
                assert(rhs.prefix_map(0) =~= Map::<Seq<u8>, U256>::empty());
            }
        }
        while i < rhs.entries.len()
            invariant
                lhs.wf(),
                rhs.wf(),
                i <= rhs.size(),
                a == self@,
                tokens_validation(a) is Ok,
                tokens_validation(rhs@) is Ok,
                is_tokens_sum(lhs@, a, rhs.prefix_map(i as int)),
                tokens_add_fits(a, rhs.prefix_map(i as int)),
            decreases rhs.size() - i,
        {
            let ghost p = rhs.prefix_map(i as int);
            let ghost d = rhs.key_at(i as int);
            proof {
                rhs.lemma_prefix_map(i as int);
                rhs.lemma_index_of(i as int);
                if p.contains_key(d) {
                    let j = choose|j: int| 0 <= j < i && j < rhs.size() && #[trigger] rhs.key_at(j) == d;
                    rhs.lemma_distinct(j, i as int);
                }
            }
            let denom = &rhs.entries[i].0;
            let amount_rhs = &rhs.entries[i].1;
            let new_amount = match lhs.get(denom.as_slice()) {
                Some(amount_lhs) => {
                    match amount_lhs.checked_add(amount_rhs) {
                        Ok(v) => v,
                        Err(e) => {
                            assert(!tokens_add_fits(a, rhs@)) by {
                                assert(rhs@.contains_key(d));
                            }
                            return Err(e);
                        },
                    }
                },
                None => *amount_rhs,
            };
            lhs.insert(copy_bytes(denom.as_slice()), new_amount);
            proof {
                let p1 = rhs.prefix_map(i + 1);
                assert forall|k: Seq<u8>| #[trigger] lhs@.contains_key(k) implies lhs@[k]@ == amount_in(a, k)
                    + amount_in(p1, k) by {
                    if k != d {
                        assert(amount_in(p1, k) == amount_in(p, k));
                    }
                }
                lemma_words_fit(new_amount);
            }
            i += 1;
        }
        proof {
            if rhs.size() > 0 {
                rhs.lemma_prefix_map((rhs.size() - 1) as int);
            } else {
                assert(rhs@ =~= Map::<Seq<u8>, U256>::empty());
            }
        }
        Ok(lhs)
    }

    /// Validates both collections (this one first), then subtracts the
    /// entries of `rhs` in denomination order; fails with `Underflow` when
    /// a denomination of `rhs` is missing here or exceeds the amount here.
    /// Amounts that reach zero stay.
    fn checked_sub(self, rhs: &Self) -> (r: Result<Self, InterLiquidSdkError>)
        ensures
            match r {
                Ok(m) => tokens_validation(self@) is Ok && tokens_validation(rhs@) is Ok && tokens_sub_fits(self@, rhs@)
                    && m.wf() && is_tokens_difference(m@, self@, rhs@),
                Err(e) => if tokens_validation(self@) is Err {
                    tokens_validation(self@) == Err::<(), InterLiquidSdkError>(e)
                } else if tokens_validation(rhs@) is Err {
                    tokens_validation(rhs@) == Err::<(), InterLiquidSdkError>(e)
                } else {
                    e is Underflow && !tokens_sub_fits(self@, rhs@)
                },
            },
    {
        self.validate()?;
        rhs.validate()?;
        let ghost a = self@;
        let mut lhs = self;
        let mut i: usize = 0;
        proof {
            if rhs.size() > 0 {
                rhs.lemma_prefix_map(0);
            } else {
                assert(rhs.prefix_map(0) =~= Map::<Seq<u8>, U256>::empty());
            }
        }
        while i < rhs.entries.len()
            invariant
                lhs.wf(),
                rhs.wf(),
                i <= rhs.size(),
                a == self@,
                tokens_validation(a) is Ok,
                tokens_validation(rhs@) is Ok,
                is_tokens_difference(lhs@, a, rhs.prefix_map(i as int)),
                tokens_sub_fits(a, rhs.prefix_map(i as int)),
            decreases rhs.size() - i,
        {
            let ghost p = rhs.prefix_map(i as int);
            let ghost d = rhs.key_at(i as int);
            proof {
                rhs.lemma_prefix_map(i as int);
                rhs.lemma_index_of(i as int);
                if p.contains_key(d) {
                    let j = choose|j: int| 0 <= j < i && j < rhs.size() && #[trigger] rhs.key_at(j) == d;
                    rhs.lemma_distinct(j, i as int);
                }
            }
            let denom = &rhs.entries[i].0;
            let amount_rhs = &rhs.entries[i].1;
            let new_amount = match lhs.get(denom.as_slice()) {
                Some(amount_lhs) => {
                    match amount_lhs.checked_sub(amount_rhs) {
                        Ok(v) => v,
                        Err(e) => {
                            assert(!tokens_sub_fits(a, rhs@)) by {
                                assert(rhs@.contains_key(d));
                            }
                            return Err(e);
                        },
                    }
                },
                None => {
                    assert(!tokens_sub_fits(a, rhs@)) by {
                        assert(rhs@.contains_key(d));
                    }
                    return Err(InterLiquidSdkError::Underflow);
                },
            };
            lhs.insert(copy_bytes(denom.as_slice()), new_amount);
            proof {
                let p1 = rhs.prefix_map(i + 1);
                assert forall|k: Seq<u8>| #[trigger] lhs@.contains_key(k) implies lhs@[k]@ == a[k]@ - amount_in(
                    p1,
                    k,
                ) by {
                    if k != d {
                        assert(amount_in(p1, k) == amount_in(p, k));
                    }
                }
            }
            i += 1;
        }
        proof {
            if rhs.size() > 0 {
                rhs.lemma_prefix_map((rhs.size() - 1) as int);
            } else {
                assert(rhs@ =~= Map::<Seq<u8>, U256>::empty());
            }
        }
        Ok(lhs)
    }
}


/// The sum of two valid collections is valid: no denomination is empty and
/// no amount is zero.
pub proof fn law_tokens_sum_valid(a: Map<Seq<u8>, U256>, b: Map<Seq<u8>, U256>, sum: Map<Seq<u8>, U256>)
    requires
        tokens_validation(a) is Ok,
        tokens_validation(b) is Ok,
        is_tokens_sum(sum, a, b),
    ensures
        tokens_validation(sum) is Ok,
{
    assert(!sum.contains_key(Seq::<u8>::empty()));
    assert forall|d: Seq<u8>| #[trigger] sum.contains_key(d) implies sum[d]@ != 0 by {
        if a.contains_key(d) {
            assert(a[d]@ != 0);
        } else {
            assert(b[d]@ != 0);
        }
    }
}

/// Subtracting what was added gives back every amount of the first
/// collection; a denomination that only the added collection held stays,
/// with amount zero.
pub proof fn law_tokens_add_then_sub(
    a: Map<Seq<u8>, U256>,
    b: Map<Seq<u8>, U256>,
    sum: Map<Seq<u8>, U256>,
    back: Map<Seq<u8>, U256>,
)
    requires
        is_tokens_sum(sum, a, b),
        is_tokens_difference(back, sum, b),
    ensures
        tokens_sub_fits(sum, b),
        forall|d: Seq<u8>| #[trigger] a.contains_key(d) ==> back.contains_key(d) && back[d]@ == a[d]@,
        forall|d: Seq<u8>|
            #[trigger] back.contains_key(d) && !a.contains_key(d) ==> b.contains_key(d) && back[d]@ == 0,
{
    assert forall|d: Seq<u8>| #[trigger] b.contains_key(d) implies sum.contains_key(d) && b[d]@ <= sum[d]@ by {
        assert(sum.contains_key(d));
    }
    assert forall|d: Seq<u8>| #[trigger] a.contains_key(d) implies back.contains_key(d) && back[d]@ == a[d]@ by {
        assert(sum.contains_key(d));
        assert(back.contains_key(d));
        assert(sum[d]@ == amount_in(a, d) + amount_in(b, d));
        assert(back[d]@ == sum[d]@ - amount_in(b, d));
    }
    assert forall|d: Seq<u8>| #[trigger] back.contains_key(d) && !a.contains_key(d) implies b.contains_key(d)
        && back[d]@ == 0 by {
        assert(sum.contains_key(d));
    }
}

/// Validation refuses the empty denomination with `InvalidDenom`, and
/// otherwise any zero amount with `ZeroAmount`; a collection whose
/// denominations are all named and whose amounts are all positive passes.
pub proof fn law_tokens_validation(m: Map<Seq<u8>, U256>, d: Seq<u8>)
    ensures
        m.contains_key(Seq::<u8>::empty()) ==> tokens_validation(m) == Err::<(), InterLiquidSdkError>(
            InterLiquidSdkError::InvalidDenom,
        ),
        !m.contains_key(Seq::<u8>::empty()) && m.contains_key(d) && m[d]@ == 0 ==> tokens_validation(m) == Err::<
            (),
            InterLiquidSdkError,
        >(InterLiquidSdkError::ZeroAmount),
        (forall|k: Seq<u8>| #[trigger] m.contains_key(k) ==> k.len() > 0 && m[k]@ > 0) ==> tokens_validation(m) is Ok,
{
    if forall|k: Seq<u8>| #[trigger] m.contains_key(k) ==> k.len() > 0 && m[k]@ > 0 {
        assert(!m.contains_key(Seq::<u8>::empty()));
    }
}

/// A `U256` value is below 2^256.
proof fn lemma_words_fit(v: U256)
    ensures
        v@ < u256_limit(),
{
    crate::types::uint::lemma_words_value_bound(v.words);
}

} // verus!
