use interliquid_sdk::types::{Decimal, InterLiquidSdkError, Timestamp, Tokens, TokensI, U256};

fn tokens(list: &[(&str, u64)]) -> Tokens {
    let mut t = Tokens::new();
    for (d, a) in list {
        t.insert(d.as_bytes().to_vec(), U256::from(*a));
    }
    t
}

fn amount(t: &Tokens, d: &str) -> Option<U256> {
    t.get(d.as_bytes()).copied()
}

#[test]
fn decimal_add_aligns_precisions() {
    let a = Decimal::new(U256::from(15u64), 1);
    let b = Decimal::new(U256::from(225u64), 2);
    let sum = a.checked_add(b).unwrap();
    assert_eq!(sum, Decimal::new(U256::from(375u64), 2));
    let sum2 = b.checked_add(a).unwrap();
    assert_eq!(sum, sum2);
}

#[test]
fn decimal_sub_and_its_underflow() {
    let a = Decimal::new(U256::from(5u64), 0);
    let b = Decimal::new(U256::from(25u64), 1);
    assert_eq!(a.checked_sub(b).unwrap(), Decimal::new(U256::from(25u64), 1));
    assert!(matches!(b.checked_sub(Decimal::new(U256::from(3u64), 0)), Err(InterLiquidSdkError::Underflow)));
}

#[test]
fn decimal_mul_adds_precisions() {
    let a = Decimal::new(U256::from(12u64), 1);
    let b = Decimal::new(U256::from(5u64), 2);
    assert_eq!(a.checked_mul(&b).unwrap(), Decimal::new(U256::from(60u64), 3));
    assert!(!a.is_zero());
    assert!(Decimal::new(U256::from(0u64), 4).is_zero());
}

#[test]
fn decimal_div_and_its_errors() {
    let a = Decimal::new(U256::from(100u64), 3);
    let b = Decimal::new(U256::from(7u64), 1);
    assert_eq!(a.checked_div(&b).unwrap(), Decimal::new(U256::from(14u64), 2));
    let c = Decimal::new(U256::from(7u64), 0);
    let d = Decimal::new(U256::from(2u64), 2);
    // the quotient is scaled up by the difference to a whole number
    assert_eq!(c.checked_div(&d).unwrap(), Decimal::new(U256::from(300u64), 0));
    assert_eq!(
        Decimal::new(U256::from(10u64), 0).checked_div(&Decimal::new(U256::from(2u64), 1)).unwrap(),
        Decimal::new(U256::from(50u64), 0)
    );
    assert!(matches!(a.checked_div(&Decimal::new(U256::from(0u64), 0)), Err(InterLiquidSdkError::DivisionByZero)));
}

#[test]
fn decimal_align_overflow() {
    let big = Decimal::new(U256::from(u64::MAX), 0);
    let fine = Decimal::new(U256::from(1u64), 70);
    assert!(matches!(big.checked_add(fine), Err(InterLiquidSdkError::Overflow)));
    let zero = Decimal::new(U256::from(0u64), 0);
    let far = Decimal::new(U256::from(1u64), 80);
    // even a zero value fails when the factor 10^80 does not fit
    assert!(matches!(zero.checked_add(far), Err(InterLiquidSdkError::Overflow)));
}

#[test]
fn tokens_validate_reports_in_order() {
    assert!(tokens(&[("uatom", 1), ("usdc", 2)]).validate().is_ok());
    assert!(matches!(tokens(&[("", 1), ("usdc", 0)]).validate(), Err(InterLiquidSdkError::InvalidDenom)));
    assert!(matches!(tokens(&[("uatom", 0), ("usdc", 2)]).validate(), Err(InterLiquidSdkError::ZeroAmount)));
    assert!(matches!(tokens(&[("uatom", 1), ("usdc", 0)]).validate(), Err(InterLiquidSdkError::ZeroAmount)));
}

#[test]
fn tokens_add_merges_denominations() {
    let a = tokens(&[("uatom", 100), ("usdc", 5)]);
    let b = tokens(&[("uatom", 1), ("weth", 7)]);
    let sum = a.checked_add(&b).unwrap();
    assert_eq!(sum.len(), 3);
    assert_eq!(amount(&sum, "uatom"), Some(U256::from(101u64)));
    assert_eq!(amount(&sum, "usdc"), Some(U256::from(5u64)));
    assert_eq!(amount(&sum, "weth"), Some(U256::from(7u64)));
}

#[test]
fn tokens_add_then_sub_gives_back_the_amounts() {
    let a = tokens(&[("uatom", 100), ("usdc", 5)]);
    let b = tokens(&[("uatom", 1), ("weth", 7)]);
    let sum = a.checked_add(&b).unwrap();
    assert!(sum.validate().is_ok());
    let back = sum.checked_sub(&b).unwrap();
    assert_eq!(amount(&back, "uatom"), Some(U256::from(100u64)));
    assert_eq!(amount(&back, "usdc"), Some(U256::from(5u64)));
    assert_eq!(amount(&back, "weth"), Some(U256::from(0u64)));
}

#[test]
fn tokens_sub_errors() {
    let a = tokens(&[("uatom", 100)]);
    assert!(matches!(a.checked_sub(&tokens(&[("usdc", 1)])), Err(InterLiquidSdkError::Underflow)));
    let a = tokens(&[("uatom", 100)]);
    assert!(matches!(a.checked_sub(&tokens(&[("uatom", 101)])), Err(InterLiquidSdkError::Underflow)));
    let a = tokens(&[("uatom", 0)]);
    assert!(matches!(a.checked_sub(&tokens(&[("", 1)])), Err(InterLiquidSdkError::ZeroAmount)));
    let a = tokens(&[("uatom", 3)]);
    assert!(matches!(a.checked_sub(&tokens(&[("", 1)])), Err(InterLiquidSdkError::InvalidDenom)));
}

#[test]
fn tokens_add_overflow() {
    let mut a = Tokens::new();
    a.insert(b"uatom".to_vec(), U256 { words: [u64::MAX; 4] });
    let b = tokens(&[("uatom", 1)]);
    assert!(matches!(a.checked_add(&b), Err(InterLiquidSdkError::Overflow)));
}

#[test]
fn timestamp_moves_and_saturates() {
    let t = Timestamp::new(1_000);
    assert_eq!(t.add_secs(500).as_secs(), 1_500);
    assert_eq!(t.sub_secs(300).as_secs(), 700);
    assert_eq!(t.sub_secs(5_000).as_secs(), 0);
    assert_eq!(t.add_secs(500).sub_secs(500), t);
    assert_eq!(t.add_secs(42).secs_since(&t), 42);
    assert_eq!(t.secs_since(&t.add_secs(42)), 0);
}

#[test]
fn decimal_scaling_keeps_the_number() {
    // 1.5 brought to three places is 1.500
    let a = Decimal::new(U256::from(15u64), 1);
    let zero = Decimal::new(U256::from(0u64), 3);
    assert_eq!(a.checked_add(zero).unwrap(), Decimal::new(U256::from(1500u64), 3));
}

#[test]
fn decimal_mul_overflow_before_precisions() {
    let big = Decimal::new(U256 { words: [0, 0, 0, 1] }, 200);
    let also_big = Decimal::new(U256 { words: [0, 0, 0, 1] }, 100);
    assert!(matches!(big.checked_mul(&also_big), Err(InterLiquidSdkError::Overflow)));
}
