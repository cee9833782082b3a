use crypto_bigint::U256 as U256Lib;
use interliquid_sdk::types::{Address, InterLiquidSdkError, Token, U256};

#[test]
fn test_new_token() {
    let token = Token::new("uatom".to_string(), 1000u64.into());

    assert_eq!(token.denom, "uatom");
    assert_eq!(token.amount, 1000u64.into());
}

#[test]
fn test_validate_denom_valid() {
    assert!(Token::validate_denom("uatom").is_ok());
    assert!(Token::validate_denom("usdc").is_ok());
    assert!(Token::validate_denom("ibc/ABC123").is_ok());
}

#[test]
fn test_validate_denom_invalid() {
    let result = Token::validate_denom("");
    assert!(result.is_err());
    match result {
        Err(InterLiquidSdkError::InvalidDenom) => (),
        _ => panic!("Expected InvalidDenom error"),
    }
}

#[test]
fn test_validate_amount_valid() {
    assert!(Token::validate_amount(&100u64.into()).is_ok());
    assert!(Token::validate_amount(&1u64.into()).is_ok());
    assert!(Token::validate_amount(&U256::from(u64::MAX)).is_ok());
}

#[test]
fn test_validate_amount_invalid() {
    let result = Token::validate_amount(&0u64.into());
    assert!(result.is_err());
    match result {
        Err(InterLiquidSdkError::ZeroAmount) => (),
        _ => panic!("Expected ZeroAmount error"),
    }
}

#[test]
fn test_validate_valid_token() {
    let token = Token::new("uatom".to_string(), 1000u64.into());
    assert!(token.validate().is_ok());
}

#[test]
fn test_validate_invalid_denom() {
    let token = Token::new("".to_string(), 1000u64.into());
    let result = token.validate();
    assert!(result.is_err());
    match result {
        Err(InterLiquidSdkError::InvalidDenom) => (),
        _ => panic!("Expected InvalidDenom error"),
    }
}

#[test]
fn test_validate_zero_amount() {
    let token = Token::new("uatom".to_string(), 0u64.into());
    let result = token.validate();
    assert!(result.is_err());
    match result {
        Err(InterLiquidSdkError::ZeroAmount) => (),
        _ => panic!("Expected ZeroAmount error"),
    }
}

#[test]
fn test_checked_add_same_denom() {
    let token1 = Token::new("uatom".to_string(), 100u64.into());
    let token2 = Token::new("uatom".to_string(), 200u64.into());

    let result = token1.checked_add(&token2).unwrap();

    assert_eq!(result.denom, "uatom");
    assert_eq!(result.amount, 300u64.into());
}

#[test]
fn test_checked_add_different_denom() {
    let token1 = Token::new("uatom".to_string(), 100u64.into());
    let token2 = Token::new("usdc".to_string(), 200u64.into());

    let result = token1.checked_add(&token2);
    assert!(result.is_err());
    match result {
        Err(InterLiquidSdkError::DenomMismatch) => (),
        _ => panic!("Expected DenomMismatch error"),
    }
}

#[test]
fn token_test_checked_add_overflow() {
    let bytes = vec![0xFF; 32];
    let max_inner = U256Lib::from_be_slice(&bytes);
    let max_value = U256::new(max_inner);

    let token1 = Token::new("uatom".to_string(), max_value.clone());
    let token2 = Token::new("uatom".to_string(), max_value);

    let result = token1.checked_add(&token2);
    assert!(result.is_err());
}

#[test]
fn test_checked_sub_same_denom() {
    let token1 = Token::new("uatom".to_string(), 300u64.into());
    let token2 = Token::new("uatom".to_string(), 100u64.into());

    let result = token1.checked_sub(&token2).unwrap();

    assert_eq!(result.denom, "uatom");
    assert_eq!(result.amount, 200u64.into());
}

#[test]
fn test_checked_sub_different_denom() {
    let token1 = Token::new("uatom".to_string(), 300u64.into());
    let token2 = Token::new("usdc".to_string(), 100u64.into());

    let result = token1.checked_sub(&token2);
    assert!(result.is_err());
    match result {
        Err(InterLiquidSdkError::DenomMismatch) => (),
        _ => panic!("Expected DenomMismatch error"),
    }
}

#[test]
fn token_test_checked_sub_underflow() {
    let token1 = Token::new("uatom".to_string(), 100u64.into());
    let token2 = Token::new("uatom".to_string(), 200u64.into());

    let result = token1.checked_sub(&token2);
    assert!(result.is_err());
}

#[test]
fn test_token_equality() {
    let token1 = Token::new("uatom".to_string(), 100u64.into());
    let token2 = Token::new("uatom".to_string(), 100u64.into());
    let token3 = Token::new("usdc".to_string(), 100u64.into());
    let token4 = Token::new("uatom".to_string(), 200u64.into());

    assert_eq!(token1, token2);
    assert_ne!(token1, token3);
    assert_ne!(token1, token4);
}

#[test]
fn test_token_clone() {
    let token1 = Token::new("uatom".to_string(), 100u64.into());
    let token2 = token1.clone();

    assert_eq!(token1, token2);
    assert_eq!(token2.denom, "uatom");
    assert_eq!(token2.amount, 100u64.into());
}

#[test]
fn test_token_debug() {
    let token = Token::new("uatom".to_string(), 100u64.into());
    let debug_str = format!("{:?}", token);

    assert!(debug_str.contains("Token"));
    assert!(debug_str.contains("uatom"));
}

#[test]
fn test_address_with_values() {
    let mut addr: Address = [0u8; 32];
    addr[0] = 1;
    addr[31] = 255;

    assert_eq!(addr[0], 1);
    assert_eq!(addr[31], 255);
    assert_eq!(addr[1], 0);
}

#[test]
fn test_address_comparison() {
    let addr1: Address = [1u8; 32];
    let addr2: Address = [1u8; 32];
    let addr3: Address = [2u8; 32];

    assert_eq!(addr1, addr2);
    assert_ne!(addr1, addr3);
}

#[test]
fn token_add_then_sub_gives_back_the_token() {
    let a = Token::new("uatom".to_string(), 12345u64.into());
    let b = Token::new("uatom".to_string(), 678u64.into());
    let sum = a.clone().checked_add(&b).unwrap();
    assert_eq!(sum.amount, U256::from(13023u64));
    let back = sum.checked_sub(&b).unwrap();
    assert_eq!(back, a);
}

#[test]
fn token_sub_to_zero_is_allowed() {
    let a = Token::new("usdc".to_string(), 5u64.into());
    let zero = a.clone().checked_sub(&a).unwrap();
    assert!(zero.amount.is_zero());
    assert!(matches!(zero.validate(), Err(InterLiquidSdkError::ZeroAmount)));
}

#[test]
fn test_address_creation() {
    let addr: Address = [0u8; 32];
    assert_eq!(addr.len(), 32);
    assert!(addr.iter().all(|&b| b == 0));
}
