use cosmwasm_std::{Decimal256, Uint128, Uint256, Uint512, Uint64};
use ethnum::{NumError, U256};

#[test]
fn narrow_cosmwasm_integers() {
    assert_eq!(U256::from_uint128(Uint128::new(77)), U256::new(77));
    assert_eq!(U256::from_words(5, 77).to_uint128(), Uint128::new(77));
    assert_eq!(U256::from_uint64(Uint64::new(9)), U256::new(9));
    assert_eq!(U256::new(u128::MAX).to_uint64(), Uint64::new(u64::MAX));
}

#[test]
fn wide_cosmwasm_integers() {
    let v = U256::from_words(0x0102, 0x0304);
    let u = v.to_uint256();
    assert_eq!(u, Uint256::from_be_bytes(v.to_be_bytes()));
    assert_eq!(U256::from_uint256(u), v);
    assert_eq!(U256::from_decimal256(v.to_decimal256()), v);
    assert_eq!(v.to_decimal256(), Decimal256::new(u));
    assert_eq!(U256::from_uint512(v.to_uint512()), Ok(v));
    let too_big = Uint512::from_uint256(Uint256::MAX) + Uint512::one();
    assert_eq!(U256::from_uint512(too_big), Err(NumError::Overflow));
}

#[test]
fn wide_bytes_overflow() {
    let mut b = [0u8; 64];
    b[63] = 42;
    assert_eq!(U256::from_be_bytes_wide(b), Ok(U256::new(42)));
    b[0] = 1;
    assert_eq!(U256::from_be_bytes_wide(b), Err(NumError::Overflow));
}

