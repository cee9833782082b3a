use crypto_bigint::U256 as U256Lib;
use interliquid_sdk::types::{InterLiquidSdkError, U256};

#[test]
fn test_new_u256() {
    let value = U256Lib::from_u64(12345);
    let u256 = U256::new(value);
    assert_eq!(u256.inner_value(), value);
}

#[test]
fn test_is_zero() {
    let zero = U256::from(0u64);
    assert!(zero.is_zero());

    let non_zero = U256::from(1u64);
    assert!(!non_zero.is_zero());
}

#[test]
fn test_checked_add_success() {
    let a = U256::from(100u64);
    let b = U256::from(200u64);

    let result = a.checked_add(&b).unwrap();
    assert_eq!(result, U256::from(300u64));
}

#[test]
fn uint_test_checked_add_overflow() {
    let max = U256::new(U256Lib::MAX);
    let one = U256::from(1u64);

    let result = max.checked_add(&one);
    assert!(result.is_err());
    match result {
        Err(InterLiquidSdkError::Overflow) => (),
        _ => panic!("Expected Overflow error"),
    }
}

#[test]
fn test_checked_sub_success() {
    let a = U256::from(300u64);
    let b = U256::from(100u64);

    let result = a.checked_sub(&b).unwrap();
    assert_eq!(result, U256::from(200u64));
}

#[test]
fn uint_test_checked_sub_underflow() {
    let a = U256::from(100u64);
    let b = U256::from(200u64);

    let result = a.checked_sub(&b);
    assert!(result.is_err());
    match result {
        Err(InterLiquidSdkError::Underflow) => (),
        _ => panic!("Expected Underflow error"),
    }
}

#[test]
fn test_checked_mul_success() {
    let a = U256::from(50u64);
    let b = U256::from(100u64);

    let result = a.checked_mul(&b).unwrap();
    assert_eq!(result, U256::from(5000u64));
}

#[test]
fn test_checked_mul_overflow() {
    let large_inner = U256Lib::from_be_slice(&[0xFF; 32]);
    let large = U256::new(large_inner);
    let three = U256::from(3u64);

    let result = large.checked_mul(&three);
    assert!(result.is_err());
    match result {
        Err(InterLiquidSdkError::Overflow) => (),
        _ => panic!("Expected Overflow error"),
    }
}

#[test]
fn test_checked_div_success() {
    let a = U256::from(1000u64);
    let b = U256::from(10u64);

    let result = a.checked_div(&b).unwrap();
    assert_eq!(result, U256::from(100u64));
}

#[test]
fn test_checked_div_by_zero() {
    let a = U256::from(100u64);
    let zero = U256::from(0u64);

    let result = a.checked_div(&zero);
    assert!(result.is_err());
    match result {
        Err(InterLiquidSdkError::DivisionByZero) => (),
        _ => panic!("Expected DivisionByZero error"),
    }
}

#[test]
fn test_powi_zero_exponent() {
    let base = U256::from(123u64);
    let result = base.powi(0).unwrap();
    assert_eq!(result, U256::from(1u64));
}

#[test]
fn test_powi_one_exponent() {
    let base = U256::from(123u64);
    let result = base.powi(1).unwrap();
    assert_eq!(result, U256::from(123u64));
}

#[test]
fn test_powi_small_exponents() {
    let base = U256::from(2u64);

    let result2 = base.powi(2).unwrap();
    assert_eq!(result2, U256::from(4u64));

    let result3 = base.powi(3).unwrap();
    assert_eq!(result3, U256::from(8u64));

    let result4 = base.powi(4).unwrap();
    assert_eq!(result4, U256::from(16u64));

    let result8 = base.powi(8).unwrap();
    assert_eq!(result8, U256::from(256u64));
}

#[test]
fn test_powi_base_10() {
    let base = U256::from(10u64);

    let result2 = base.powi(2).unwrap();
    assert_eq!(result2, U256::from(100u64));

    let result3 = base.powi(3).unwrap();
    assert_eq!(result3, U256::from(1000u64));

    let result6 = base.powi(6).unwrap();
    assert_eq!(result6, U256::from(1_000_000u64));
}

#[test]
fn test_powi_overflow() {
    let base = U256::from(u64::MAX);
    let result = base.powi(100);
    assert!(result.is_err());
    match result {
        Err(InterLiquidSdkError::Overflow) => (),
        _ => panic!("Expected Overflow error"),
    }
}

#[test]
fn test_from_u256lib() {
    let lib_value = U256Lib::from_u64(999);
    let u256: U256 = U256::new(lib_value);
    assert_eq!(u256.inner_value(), lib_value);
}

#[test]
fn test_into_u256lib() {
    let u256 = U256::from(888u64);
    let lib_value: U256Lib = u256.inner_value();
    assert_eq!(lib_value, U256Lib::from_u64(888));
}

#[test]
fn test_from_u64() {
    let u256 = U256::from(12345u64);
    assert_eq!(u256.inner_value(), U256Lib::from_u64(12345));

    let zero = U256::from(0u64);
    assert!(zero.is_zero());

    let max = U256::from(u64::MAX);
    assert_eq!(max.inner_value(), U256Lib::from_u64(u64::MAX));
}

#[test]
fn test_clone() {
    let original = U256::from(100u64);
    let cloned = original.clone();

    assert_eq!(original, cloned);
    assert_eq!(original.inner_value(), cloned.inner_value());
}

#[test]
fn test_debug() {
    let u256 = U256::from(123u64);
    let debug_str = format!("{:?}", u256);

    assert!(debug_str.contains("U256"));
}

#[test]
fn test_equality() {
    let a = U256::from(100u64);
    let b = U256::from(100u64);
    let c = U256::from(200u64);

    assert_eq!(a, b);
    assert_ne!(a, c);
}

#[test]
fn test_edge_case_arithmetic() {
    let zero = U256::from(0u64);
    let one = U256::from(1u64);

    assert_eq!(zero.checked_add(&one).unwrap(), one);
    assert_eq!(one.checked_sub(&one).unwrap(), zero);
    assert_eq!(zero.checked_mul(&one).unwrap(), zero);
    assert_eq!(zero.checked_div(&one).unwrap(), zero);

    let value = U256::from(42u64);
    assert_eq!(value.checked_add(&zero).unwrap(), value);
    assert_eq!(value.checked_sub(&zero).unwrap(), value);
    assert_eq!(value.checked_mul(&one).unwrap(), value);
    assert_eq!(value.checked_div(&one).unwrap(), value);
}

#[test]
fn u256_words_carry_across_limbs() {
    let low_max = U256::from(u64::MAX);
    let one = U256::from(1u64);
    let sum = low_max.checked_add(&one).unwrap();
    assert_eq!(sum.words, [0, 1, 0, 0]);
    assert_eq!(sum.checked_sub(&one).unwrap(), low_max);
}

#[test]
fn u256_product_and_quotient_across_limbs() {
    let big = U256::from(u64::MAX);
    let square = big.checked_mul(&big).unwrap();
    assert_eq!(square.words, [1, u64::MAX - 1, 0, 0]);
    assert_eq!(square.checked_div(&big).unwrap(), big);
    let seven = U256::from(7u64);
    assert_eq!(U256::from(100u64).checked_div(&seven).unwrap(), U256::from(14u64));
}

#[test]
fn u256_powi_exact_values() {
    assert_eq!(U256::from(0u64).powi(0).unwrap(), U256::from(1u64));
    assert_eq!(U256::from(0u64).powi(5).unwrap(), U256::from(0u64));
    assert_eq!(U256::from(3u64).powi(4).unwrap(), U256::from(81u64));
    let two = U256::from(2u64);
    let p255 = two.powi(255).unwrap();
    assert_eq!(p255.words, [0, 0, 0, 1u64 << 63]);
    assert!(matches!(U256::from(16u64).powi(64), Err(InterLiquidSdkError::Overflow)));
    assert_eq!(U256::from(10u64).powi(77).is_ok(), true);
    assert!(matches!(U256::from(10u64).powi(78), Err(InterLiquidSdkError::Overflow)));
}
