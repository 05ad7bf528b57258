use ethnum::{Decimal, FormatBuffer, I256, NumError, U256, FORMAT_CAPACITY};

#[test]
fn shifts_across_the_word_boundary() {
    let one = U256::one();
    assert_eq!(one.wrapping_shl(128), U256::from_words(1, 0));
    assert_eq!(one.wrapping_shl(255).wrapping_shr(255), one);
    assert_eq!(one.wrapping_shl(256), one);
    assert_eq!(U256::from_words(1, 0).wrapping_shr(1), U256::new(1u128 << 127));
    assert_eq!(U256::new(5).wrapping_shl(3), U256::new(40));
    assert_eq!(U256::max_value().wrapping_shl(255), U256::from_words(1u128 << 127, 0));
    assert_eq!(one.checked_shl(256), None);
    assert_eq!(one.checked_shr(300), None);
    assert_eq!(U256::new(40).checked_shr(3), Some(U256::new(5)));
    assert_eq!(U256::pow2_value(200), one.wrapping_shl(200));
}

#[test]
fn signed_shifts() {
    assert_eq!(I256::new(-8).wrapping_shr(1), I256::new(-4));
    assert_eq!(I256::new(-7).wrapping_shr(1), I256::new(-4));
    assert_eq!(I256::new(-1).wrapping_shr(200), I256::new(-1));
    assert_eq!(I256::new(7).wrapping_shr(1), I256::new(3));
    assert_eq!(I256::new(-3).wrapping_shl(2), I256::new(-12));
    assert_eq!(I256::new(1).wrapping_shl(255), I256::min_value());
}

#[test]
fn powers() {
    assert_eq!(U256::new(3).wrapping_pow(5), U256::new(243));
    assert_eq!(U256::new(2).wrapping_pow(255), U256::from_words(1u128 << 127, 0));
    assert_eq!(U256::new(2).wrapping_pow(256), U256::zero());
    assert_eq!(U256::new(7).wrapping_pow(0), U256::one());
}

#[test]
fn signed_multiplication() {
    assert_eq!(I256::new(-6).wrapping_mul(I256::new(7)), I256::new(-42));
    assert_eq!(I256::new(-6).checked_mul(I256::new(-7)), Some(I256::new(42)));
    assert_eq!(I256::min_value().checked_mul(I256::new(-1)), None);
    assert_eq!(I256::min_value().wrapping_mul(I256::new(-1)), I256::min_value());
    let half = I256::new(1).wrapping_shl(254);
    assert_eq!(half.checked_mul(I256::new(-2)), Some(I256::min_value()));
    assert_eq!(half.checked_mul(I256::new(2)), None);
}

#[test]
fn format_buffer_appends_and_bounds() {
    let mut f = FormatBuffer::decimal();
    assert_eq!(f.write_str("-12"), Ok(()));
    assert_eq!(f.write_str("3"), Ok(()));
    assert_eq!(f.to_bytes(), b"-123".to_vec());
    let long = "9".repeat(FORMAT_CAPACITY);
    assert_eq!(f.write_str(&long), Err(NumError::Overflow));
    assert_eq!(f.to_bytes(), b"-123".to_vec());
    let mut g = FormatBuffer::new();
    assert_eq!(g.write_str(&long), Ok(()));
    assert_eq!(g.to_bytes().len(), 78);
}

#[test]
fn decimal_form() {
    let mut f = FormatBuffer::decimal();
    assert_eq!(U256::max_value().write_decimal(&mut f), Ok(()));
    assert_eq!(f.to_bytes().len(), 78);
    let mut g = FormatBuffer::decimal();
    assert_eq!(I256::min_value().write_decimal(&mut g), Ok(()));
    assert_eq!(g.to_bytes().len(), 78);
    assert_eq!(<U256 as Decimal>::from_str_decimal("42"), Ok(U256::new(42)));
    assert_eq!(<I256 as Decimal>::from_str_decimal("-42"), Ok(I256::new(-42)));
    assert_eq!(<U256 as Decimal>::from_str_decimal("-42"), Err(NumError::Format));
}

#[test]
fn leading_zero_count() {
    assert_eq!(U256::zero().leading_zeros(), 256);
    assert_eq!(U256::one().leading_zeros(), 255);
    assert_eq!(U256::from_words(1, 0).leading_zeros(), 127);
    assert_eq!(U256::max_value().leading_zeros(), 0);
}

#[test]
fn signed_prefixed_text() {
    assert_eq!(I256::from_str_hex("-0x2a"), Ok(I256::new(-42)));
    assert_eq!(I256::from_str_hex("0x2A"), Ok(I256::new(42)));
    assert_eq!(I256::from_str_hex("-2a"), Err(NumError::Format));
    assert_eq!(I256::from_str_prefixed("-42"), Ok(I256::new(-42)));
    assert_eq!(I256::from_str_prefixed("-0xa"), Ok(I256::new(-10)));
    assert_eq!(I256::from_str_prefixed("+0xa"), Ok(I256::new(10)));
}

#[test]
fn decimal_written_text() {
    let mut f = FormatBuffer::decimal();
    assert_eq!(U256::max_value().write_decimal(&mut f), Ok(()));
    assert_eq!(
        f.to_bytes(),
        b"115792089237316195423570985008687907853269984665640564039457584007913129639935".to_vec()
    );
    assert_eq!(f.len(), 78);
    let mut g = FormatBuffer::decimal();
    let q = I256::min_value().wrapping_div(I256::new(-1));
    assert_eq!(q.write_decimal(&mut g), Ok(()));
    assert_eq!(
        g.to_bytes(),
        b"-57896044618658097711785492504343953926634992332820282019728792003956564819968".to_vec()
    );
    let mut h = FormatBuffer::decimal();
    assert_eq!(U256::zero().write_decimal(&mut h), Ok(()));
    assert_eq!(h.to_bytes(), b"0".to_vec());
}

#[test]
fn decimal_write_then_parse() {
    for v in [I256::min_value(), I256::max_value(), I256::new(-7), I256::zero()] {
        let mut f = FormatBuffer::decimal();
        assert_eq!(v.write_decimal(&mut f), Ok(()));
        let s = String::from_utf8(f.to_bytes()).unwrap();
        assert_eq!(<I256 as Decimal>::from_str_decimal(&s), Ok(v));
    }
    let u = U256::from_words(12345, 678);
    let mut f = FormatBuffer::decimal();
    assert_eq!(u.write_decimal(&mut f), Ok(()));
    let s = String::from_utf8(f.to_bytes()).unwrap();
    assert_eq!(<U256 as Decimal>::from_str_decimal(&s), Ok(u));
}

#[test]
fn decimal_write_overflow_leaves_buffer() {
    let mut f = FormatBuffer::decimal();
    assert_eq!(f.write_str("12345"), Ok(()));
    assert_eq!(U256::max_value().write_decimal(&mut f), Err(NumError::Overflow));
    assert_eq!(f.to_bytes(), b"12345".to_vec());
    let a = I256::new(-9);
    let r = a.wrapping_rem(I256::new(4));
    let mut g = FormatBuffer::decimal();
    assert_eq!(r.write_decimal(&mut g), Ok(()));
    assert_eq!(g.to_bytes(), b"-1".to_vec());
}
