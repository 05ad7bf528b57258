use ethnum::{I256, NumError, U256};

#[test]
fn min_divided_by_minus_one() {
    let min = I256::min_value();
    let m1 = I256::new(-1);
    assert_eq!(min.checked_div(m1), None);
    assert_eq!(min.wrapping_div(m1), min);
    assert_eq!(min.div_rem(m1), Err(NumError::Overflow));
    assert_eq!(min.div_rem(I256::zero()), Err(NumError::DivisionByZero));
}

#[test]
fn truncating_division() {
    let a = I256::new(-7);
    let b = I256::new(2);
    assert_eq!(a.wrapping_div(b), I256::new(-3));
    assert_eq!(a.wrapping_rem(b), I256::new(-1));
    assert_eq!(I256::new(7).wrapping_rem(I256::new(-2)), I256::new(1));
    assert_eq!(I256::new(-7).div_rem(I256::new(-2)), Ok((I256::new(3), I256::new(-1))));
    assert_eq!(a.checked_rem(I256::zero()), None);
}

#[test]
fn signed_add_sub_neg() {
    let a = I256::new(-5);
    let b = I256::new(12);
    assert_eq!(a.wrapping_add(b), I256::new(7));
    assert_eq!(a.wrapping_add(b).wrapping_sub(b), a);
    assert_eq!(a.wrapping_add(a.wrapping_neg()), I256::zero());
    assert_eq!(I256::min_value().wrapping_neg(), I256::min_value());
    assert_eq!(I256::min_value().checked_neg(), None);
    assert_eq!(I256::max_value().checked_add(I256::new(1)), None);
    assert_eq!(I256::max_value().wrapping_add(I256::new(1)), I256::min_value());
    assert_eq!(I256::min_value().checked_sub(I256::new(1)), None);
    assert_eq!(I256::new(3).checked_sub(I256::new(5)), Some(I256::new(-2)));
    assert_eq!(I256::min_value().wrapping_abs(), I256::min_value());
    assert_eq!(I256::min_value().checked_abs(), None);
    assert_eq!(I256::new(-9).checked_abs(), Some(I256::new(9)));
}

#[test]
fn signed_text() {
    assert_eq!(I256::from_str_radix("-42", 10), Ok(I256::new(-42)));
    assert_eq!(I256::from_str_radix("+42", 10), Ok(I256::new(42)));
    assert_eq!(I256::from_str_radix("-", 10), Err(NumError::Format));
    assert_eq!(I256::new(-42).to_decimal_string(), "-42");
    assert_eq!(I256::new(-255).to_str_radix(16), "-ff");
    let min = I256::min_value().to_decimal_string();
    assert_eq!(
        min,
        "-57896044618658097711785492504343953926634992332820282019728792003956564819968"
    );
    assert_eq!(I256::from_str_radix(&min, 10), Ok(I256::min_value()));
    let over = "57896044618658097711785492504343953926634992332820282019728792003956564819968";
    assert_eq!(I256::from_str_radix(over, 10), Err(NumError::Overflow));
}

#[test]
fn reinterpretation() {
    assert_eq!(U256::max_value().as_i256(), I256::new(-1));
    assert_eq!(I256::new(-1).as_u256(), U256::max_value());
    assert_eq!(U256::max_value().checked_as_i256(), Err(NumError::Overflow));
    assert_eq!(U256::new(5).checked_as_i256(), Ok(I256::new(5)));
    assert_eq!(I256::from_words(-1, 0).into_words(), (-1, 0));
    assert!(I256::new(-1).compare(&I256::new(1)) == core::cmp::Ordering::Less);
    assert!(I256::new(-1).is_negative());
}

#[test]
fn signed_saturation() {
    assert_eq!(I256::max_value().saturating_add(I256::new(1)), I256::max_value());
    assert_eq!(I256::min_value().saturating_sub(I256::new(1)), I256::min_value());
    assert_eq!(I256::min_value().saturating_mul(I256::new(-1)), I256::max_value());
    assert_eq!(I256::max_value().saturating_mul(I256::new(-2)), I256::min_value());
    assert_eq!(I256::new(3).saturating_mul(I256::new(-4)), I256::new(-12));
    assert_eq!(I256::new(-3).saturating_add(I256::new(1)), I256::new(-2));
}

#[test]
fn checked_reinterpretation() {
    assert_eq!(I256::new(-1).checked_as_u256(), Err(NumError::Overflow));
    assert_eq!(I256::new(7).checked_as_u256(), Ok(U256::new(7)));
}

#[test]
fn negation_through_bits() {
    let u = U256::from_words(3, 99);
    let n = U256::zero().wrapping_sub(u);
    assert_eq!(u.as_i256().wrapping_add(n.as_i256()), I256::zero());
    assert_eq!(n.as_i256(), u.as_i256().wrapping_neg());
    let half = U256::from_words(1u128 << 127, 0);
    assert_eq!(half.as_i256(), I256::min_value());
    assert_eq!(U256::zero().wrapping_sub(half).as_i256(), I256::min_value());
}
