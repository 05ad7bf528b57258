use ethnum::{NumError, U256};

const MAX_DEC: &str =
    "115792089237316195423570985008687907853269984665640564039457584007913129639935";

#[test]
fn hex_parse_scenario() {
    assert_eq!(U256::from_str_hex("0x2A"), Ok(U256::new(42)));
    assert_eq!(U256::from_str_hex("+0x2a"), Ok(U256::new(42)));
    assert_eq!(U256::from_str_hex("2A"), Err(NumError::Format));
    assert_eq!(U256::from_str_hex("0x"), Err(NumError::Format));
}

#[test]
fn prefixed_parse_scenario() {
    assert_eq!(U256::from_str_prefixed("42"), Ok(U256::new(42)));
    assert_eq!(U256::from_str_prefixed("0xa"), Ok(U256::new(10)));
    assert_eq!(U256::from_str_prefixed("0xg"), Err(NumError::Format));
}

#[test]
fn max_decimal_round_trip() {
    let s = U256::max_value().to_decimal_string();
    assert_eq!(s, MAX_DEC);
    assert_eq!(s.len(), 78);
    assert_eq!(U256::from_str_radix(&s, 10), Ok(U256::max_value()));
}

#[test]
fn parse_errors() {
    assert_eq!(U256::from_str_radix("", 10), Err(NumError::Format));
    assert_eq!(U256::from_str_radix("+", 10), Err(NumError::Format));
    assert_eq!(U256::from_str_radix("-1", 10), Err(NumError::Format));
    assert_eq!(U256::from_str_radix(" 1", 10), Err(NumError::Format));
    assert_eq!(U256::from_str_radix("1 ", 10), Err(NumError::Format));
    assert_eq!(U256::from_str_radix("12a", 10), Err(NumError::Format));
    let too_big = format!("{}0", MAX_DEC);
    assert_eq!(U256::from_str_radix(&too_big, 10), Err(NumError::Overflow));
    let too_big_then_bad = format!("{}0x", MAX_DEC);
    assert_eq!(U256::from_str_radix(&too_big_then_bad, 10), Err(NumError::Overflow));
    assert_eq!(U256::from_str_radix("z", 36), Ok(U256::new(35)));
    assert_eq!(U256::from_str_radix("101", 2), Ok(U256::new(5)));
}

#[test]
fn render_in_radices() {
    let v = U256::from_words(1, 0);
    assert_eq!(v.to_str_radix(16), "100000000000000000000000000000000");
    assert_eq!(U256::new(255).to_str_radix(2), "11111111");
    assert_eq!(U256::new(8).to_str_radix(8), "10");
    assert_eq!(U256::new(42).to_hex_string(), "0x2a");
    assert_eq!(U256::zero().to_hex_string(), "0x0");
    assert_eq!(U256::zero().to_decimal_string(), "0");
    for radix in [2u32, 8, 10, 16, 36] {
        let v = U256::from_words(0x1234_5678, 0x9abc_def0);
        assert_eq!(U256::from_str_radix(&v.to_str_radix(radix), radix), Ok(v));
    }
}

#[test]
fn words_round_trip() {
    let v = U256::from_words(7, 9);
    assert_eq!(v.into_words(), (7, 9));
    assert_eq!(*v.high(), 7);
    assert_eq!(*v.low(), 9);
    let mut w = v;
    *w.low_mut() = 11;
    *w.high_mut() = 13;
    assert_eq!(w.into_words(), (13, 11));
    assert_eq!(U256::new(5).into_words(), (0, 5));
}

#[test]
fn add_sub_carry_and_wrap() {
    let a = U256::from_words(0, u128::MAX);
    let b = U256::one();
    assert_eq!(a.wrapping_add(b), U256::from_words(1, 0));
    assert_eq!(U256::from_words(1, 0).wrapping_sub(b), a);
    assert_eq!(U256::max_value().overflowing_add(b), (U256::zero(), true));
    assert_eq!(U256::zero().overflowing_sub(b), (U256::max_value(), true));
    assert_eq!(U256::max_value().checked_add(b), None);
    assert_eq!(U256::zero().checked_sub(b), None);
    assert_eq!(U256::max_value().saturating_add(b), U256::max_value());
    assert_eq!(U256::zero().saturating_sub(b), U256::zero());
    let x = U256::from_words(123, 456);
    let y = U256::max_value();
    assert_eq!(x.wrapping_add(y).wrapping_sub(y), x);
    assert_eq!(x.wrapping_add(x.wrapping_neg()), U256::zero());
    assert_eq!(U256::one().wrapping_neg(), U256::max_value());
    assert_eq!(U256::zero().checked_neg(), Some(U256::zero()));
    assert_eq!(U256::one().checked_neg(), None);
}

#[test]
fn multiplication() {
    let a = U256::new(u128::MAX);
    let sq = a.wrapping_mul(a);
    assert_eq!(sq, U256::from_words(u128::MAX - 1, 1));
    assert_eq!(a.checked_mul(a), Some(sq));
    let big = U256::from_words(1, 0);
    assert_eq!(big.overflowing_mul(big), (U256::zero(), true));
    assert_eq!(big.checked_mul(big), None);
    assert_eq!(big.saturating_mul(big), U256::max_value());
    assert_eq!(U256::new(6).wrapping_mul(U256::new(7)), U256::new(42));
    assert_eq!(U256::max_value().wrapping_mul(U256::new(2)), U256::max_value().wrapping_sub(U256::one()));
}

#[test]
fn division() {
    let a = U256::from_words(5, 17);
    let b = U256::new(1000);
    let (q, r) = a.div_rem(b).unwrap();
    assert_eq!(q.wrapping_mul(b).wrapping_add(r), a);
    assert!(r.compare(&b) == core::cmp::Ordering::Less);
    assert_eq!(U256::new(100).wrapping_div(U256::new(7)), U256::new(14));
    assert_eq!(U256::new(100).wrapping_rem(U256::new(7)), U256::new(2));
    assert_eq!(a.div_rem(U256::zero()), Err(NumError::DivisionByZero));
    assert_eq!(a.checked_div(U256::zero()), None);
    assert_eq!(a.checked_rem(U256::zero()), None);
    assert_eq!(U256::max_value().wrapping_div(U256::max_value()), U256::one());
    assert_eq!(U256::max_value().wrapping_div(U256::from_words(1, 0)), U256::new(u128::MAX));
}

#[test]
fn comparison() {
    let a = U256::from_words(1, 0);
    let b = U256::new(u128::MAX);
    assert_eq!(a.compare(&b), core::cmp::Ordering::Greater);
    assert_eq!(b.compare(&a), core::cmp::Ordering::Less);
    assert_eq!(a.compare(&a), core::cmp::Ordering::Equal);
    assert_eq!(a.min(b), b);
    assert_eq!(a.max(b), a);
    assert_eq!(U256::new(50).clamp(U256::new(10), U256::new(20)), U256::new(20));
    assert_eq!(U256::new(5).clamp(U256::new(10), U256::new(20)), U256::new(10));
    assert!(a.ge(&b));
}

#[test]
fn bitwise() {
    let a = U256::from_words(0b1100, 0b1010);
    let b = U256::from_words(0b1010, 0b0110);
    assert_eq!(a.bit_and(b), U256::from_words(0b1000, 0b0010));
    assert_eq!(a.bit_or(b), U256::from_words(0b1110, 0b1110));
    assert_eq!(a.bit_xor(b), U256::from_words(0b0110, 0b1100));
    assert_eq!(U256::zero().bit_not(), U256::max_value());
}

#[test]
fn truncating_casts() {
    let v = U256::from_words(9, 0x1ff);
    assert_eq!(v.as_u8(), 0xff);
    assert_eq!(v.as_i8(), -1);
    assert_eq!(v.as_u16(), 0x1ff);
    assert_eq!(v.as_i16(), 0x1ff);
    assert_eq!(v.as_u32(), 0x1ff);
    assert_eq!(v.as_i32(), 0x1ff);
    assert_eq!(v.as_u64(), 0x1ff);
    assert_eq!(v.as_i64(), 0x1ff);
    assert_eq!(v.as_u128(), 0x1ff);
    assert_eq!(v.as_i128(), 0x1ff);
    assert_eq!(v.as_usize(), 0x1ff);
    assert_eq!(v.as_isize(), 0x1ff);
    assert_eq!(U256::max_value().as_i128(), -1);
    assert_eq!(U256::max_value().as_isize(), -1);
    assert_eq!(U256::max_value().as_u64(), u64::MAX);
}

#[test]
fn fixed_bytes() {
    let v = U256::new(42);
    let be = v.to_be_bytes();
    assert_eq!(be[31], 42);
    assert!(be[..31].iter().all(|b| *b == 0));
    let le = v.to_le_bytes();
    assert_eq!(le[0], 42);
    assert_eq!(U256::from_be_bytes(be), v);
    assert_eq!(U256::from_le_bytes(le), v);
    let w = U256::from_words(0x0102, 0x0304);
    assert_eq!(U256::from_be_bytes(w.to_be_bytes()), w);
    assert_eq!(U256::from_le_bytes(w.to_le_bytes()), w);
    assert_eq!(w.to_be_bytes()[14], 1);
    assert_eq!(w.to_be_bytes()[15], 2);
    assert_eq!(U256::from_be_slice(&be), Ok(v));
    assert_eq!(U256::from_le_slice(&le), Ok(v));
}

#[test]
fn fixed_bytes_wrong_length() {
    assert_eq!(U256::from_be_slice(&[0u8; 31]), Err(NumError::LengthMismatch));
    assert_eq!(U256::from_be_slice(&[0u8; 33]), Err(NumError::LengthMismatch));
    assert_eq!(U256::from_le_slice(&[0u8; 31]), Err(NumError::LengthMismatch));
}

#[test]
fn compressed_bytes() {
    assert_eq!(U256::new(42).to_compressed_be(), vec![0x2a]);
    assert_eq!(U256::new(0x1234).to_compressed_be(), vec![0x12, 0x34]);
    assert_eq!(U256::new(0x1234).to_compressed_le(), vec![0x34, 0x12]);
    assert_eq!(U256::zero().to_compressed_be(), vec![0]);
    assert_eq!(U256::zero().to_compressed_le(), vec![0]);
    assert_eq!(U256::max_value().to_compressed_be().len(), 32);
    assert_eq!(U256::from_compressed_be(&[0x12, 0x34]), Ok(U256::new(0x1234)));
    assert_eq!(U256::from_compressed_le(&[0x34, 0x12]), Ok(U256::new(0x1234)));
    assert_eq!(U256::from_compressed_be(&[]), Ok(U256::zero()));
    assert_eq!(U256::from_compressed_be(&[0u8; 33]), Err(NumError::LengthMismatch));
    let c = U256::from_words(3, 77).to_compressed_be();
    assert_eq!(U256::from_compressed_be(&c).unwrap().to_compressed_be(), c);
    let l = U256::from_words(3, 77).to_compressed_le();
    assert_eq!(U256::from_compressed_le(&l).unwrap().to_compressed_le(), l);
}

#[test]
fn canonical_compressed_bytes_re_encode() {
    for c in [vec![0u8], vec![1u8, 0, 0], vec![0x80u8; 32]] {
        let v = U256::from_compressed_be(&c).unwrap();
        assert_eq!(v.to_compressed_be(), c);
        let mut l = c.clone();
        l.reverse();
        assert_eq!(U256::from_compressed_le(&l).unwrap().to_compressed_le(), l);
    }
    assert_eq!(U256::from_compressed_be(&[0, 0, 5]).unwrap().to_compressed_be(), vec![5]);
}
