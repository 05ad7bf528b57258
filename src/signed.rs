//! The signed 256-bit integer, in two's complement over the same 256 bits as
//! the unsigned one.

use vstd::prelude::*;
use vstd::arithmetic::power2::pow2;
use crate::error::NumError;
use crate::text::{half_modulus, has_sign, lemma_render_first, lemma_scan_render, parse_text, parse_spec, push_digits, render_digits};
use crate::uint::{U256, word_base, modulus, to_signed};

verus! {

/// `x` wrapped into the signed range `[-2^255, 2^255)`.
pub open spec fn wrap_signed(x: int) -> int {
    to_signed(x % modulus(), modulus())
}

/// The absolute value.
pub open spec fn abs_int(x: int) -> int {
    if x < 0 {
        -x
    } else {
        x
    }
}

/// Division rounding toward zero.
pub open spec fn trunc_div(a: int, b: int) -> int {
    if (a < 0) == (b < 0) {
        abs_int(a) / abs_int(b)
    } else {
        -(abs_int(a) / abs_int(b))
    }
}

/// The remainder of [`trunc_div`], with the sign of the dividend.
pub open spec fn trunc_rem(a: int, b: int) -> int {
    if a < 0 {
        -(abs_int(a) % abs_int(b))
    } else {
        abs_int(a) % abs_int(b)
    }
}

/// A 256-bit signed integer: a signed high word and an unsigned low word.
#[derive(Clone, Copy, Debug, PartialEq, Eq, Structural, Hash, Default)]
pub struct I256 {
    lo: u128,
    hi: i128,
}

impl View for I256 {
    type V = int;

    /// The value `hi * 2^128 + lo`, with `hi` signed.
    open spec fn view(&self) -> int {
        self.hi_word() as int * word_base() + self.lo_word() as int
    }
}

proof fn lemma_word_casts(h: i128, u: u128)
    ensures
        (h as u128) as int == if h >= 0 { h as int } else { h as int + word_base() },
        (u as i128) as int == if u < 0x8000_0000_0000_0000_0000_0000_0000_0000 { u as int } else { u as int - word_base() },
{
    assert((h as u128) as int == if h >= 0 { h as int } else { h as int + 0x1_0000_0000_0000_0000_0000_0000_0000_0000 }) by (bit_vector);
    assert((u as i128) as int == if u < 0x8000_0000_0000_0000_0000_0000_0000_0000 { u as int } else { u as int - 0x1_0000_0000_0000_0000_0000_0000_0000_0000 }) by (bit_vector);
}

/// `x` and `x + k * 2^256` wrap to the same value.
proof fn lemma_wrap_congruent(x: int, k: int)
    ensures
        (x + k * modulus()) % modulus() == x % modulus(),
{
    let m = modulus();
    assert(m > 0) by (nonlinear_arith)
        requires
            m == word_base() * word_base(),
            word_base() > 0,
    ;
    vstd::arithmetic::mul::lemma_mul_is_commutative(k, m);
    vstd::arithmetic::div_mod::lemma_mod_multiples_vanish(k, x, m);
}

impl I256 {
    /// The high word, signed.
    pub closed spec fn hi_word(&self) -> i128 {
        self.hi
    }

    /// The low word.
    pub closed spec fn lo_word(&self) -> u128 {
        self.lo
    }

    /// Every value lies in `[-2^255, 2^255)`.
    pub proof fn lemma_range(self)
        ensures
            -half_modulus() <= self@ < half_modulus(),
            modulus() == 2 * half_modulus(),
    {
        let ghost w = word_base();
        let h = self.hi as int;
        assert(-half_modulus() <= h * w + self.lo < half_modulus()) by (nonlinear_arith)
            requires
                -0x8000_0000_0000_0000_0000_0000_0000_0000 <= h < 0x8000_0000_0000_0000_0000_0000_0000_0000int,
                0 <= self.lo < w,
                w == word_base(),
                half_modulus() == w * 0x8000_0000_0000_0000_0000_0000_0000_0000,
        ;
        assert(modulus() == 2 * half_modulus()) by (nonlinear_arith);
    }

    /// Creates a value from its high word, signed, and its low word.
    pub fn from_words(hi: i128, lo: u128) -> (r: I256)
        ensures
            r.hi_word() == hi,
            r.lo_word() == lo,
            r@ == hi as int * word_base() + lo as int,
    {
        I256 { lo, hi }
    }

    /// Splits a value into its high word, signed, and its low word.
    pub fn into_words(self) -> (r: (i128, u128))
        ensures
            r.0 == self.hi_word(),
            r.1 == self.lo_word(),
            self@ == r.0 as int * word_base() + r.1 as int,
    {
        (self.hi, self.lo)
    }

    /// Creates a value from an `i128`.
    pub fn new(value: i128) -> (r: I256)
        ensures
            r@ == value as int,
    {
        let hi: i128 = if value < 0 { -1 } else { 0 };
        let r = I256 { lo: value as u128, hi };
        proof {
            lemma_word_casts(value, 0);
            let w = word_base();
            assert(r@ == hi as int * w + (value as u128) as int);
            if value < 0 {
                assert(r@ == -w + (value as u128) as int);
            } else {
                assert(r@ == (value as u128) as int);
            }
        }
        r
    }

    /// The same 256 bits read as an unsigned value: `self` modulo `2^256`.
    pub fn as_u256(self) -> (r: U256)
        ensures
            r@ == if self@ < 0 { self@ + modulus() } else { self@ },
    {
        proof {
            lemma_word_casts(self.hi, 0);
            let w = word_base();
            assert(self@ < 0 <==> self.hi < 0) by (nonlinear_arith)
                requires
                    self@ == self.hi as int * w + self.lo,
                    0 <= self.lo < w,
            ;
            assert(modulus() == w * w);
        }
        U256::from_words(self.hi as u128, self.lo)
    }

    /// The bits of `u` read as a signed value.
    pub fn from_u256_bits(u: U256) -> (r: I256)
        ensures
            r@ == to_signed(u@, modulus()),
    {
        let (hi, lo) = u.into_words();
        proof {
            lemma_word_casts(0, hi);
            let w = word_base();
            assert(2 * u@ < w * w <==> hi < 0x8000_0000_0000_0000_0000_0000_0000_0000) by (nonlinear_arith)
                requires
                    u@ == hi * w + lo,
                    0 <= lo < w,
                    w == word_base(),
            ;
        }
        I256 { lo, hi: hi as i128 }
    }

    /// The value zero.
    pub fn zero() -> (r: I256)
        ensures
            r@ == 0,
    {
        I256 { lo: 0, hi: 0 }
    }

    /// The smallest value, `-2^255`.
    pub fn min_value() -> (r: I256)
        ensures
            r@ == -half_modulus(),
    {
        I256 { lo: 0, hi: i128::MIN }
    }

    /// The largest value, `2^255 - 1`.
    pub fn max_value() -> (r: I256)
        ensures
            r@ == half_modulus() - 1,
    {
        assert(i128::MAX as int * word_base() + u128::MAX as int == half_modulus() - 1) by (nonlinear_arith);
        I256 { lo: u128::MAX, hi: i128::MAX }
    }

    /// Whether the value is below zero.
    pub fn is_negative(&self) -> (r: bool)
        ensures
            r <==> self@ < 0,
    {
        let ghost w = word_base();
        assert(self@ < 0 <==> self.hi < 0) by (nonlinear_arith)
            requires
                self@ == self.hi as int * w + self.lo,
                0 <= self.lo < w,
        ;
        self.hi < 0
    }

    /// The sum, wrapped into the signed range.
    pub fn wrapping_add(self, rhs: I256) -> (r: I256)
        ensures
            r@ == wrap_signed(self@ + rhs@),
    {
        let s = self.as_u256().wrapping_add(rhs.as_u256());
        proof {
            let ka: int = if self@ < 0 { 1 } else { 0 };
            let kb: int = if rhs@ < 0 { 1 } else { 0 };
            let m = modulus();
            assert(ka * m + kb * m == (ka + kb) * m && ka * m - kb * m == (ka - kb) * m) by (nonlinear_arith);
            lemma_wrap_congruent(self@ + rhs@, ka + kb);
        }
        I256::from_u256_bits(s)
    }

    /// The difference, wrapped into the signed range.
    pub fn wrapping_sub(self, rhs: I256) -> (r: I256)
        ensures
            r@ == wrap_signed(self@ - rhs@),
    {
        let s = self.as_u256().wrapping_sub(rhs.as_u256());
        proof {
            let ka: int = if self@ < 0 { 1 } else { 0 };
            let kb: int = if rhs@ < 0 { 1 } else { 0 };
            let m = modulus();
            assert(ka * m + kb * m == (ka + kb) * m && ka * m - kb * m == (ka - kb) * m) by (nonlinear_arith);
            lemma_wrap_congruent(self@ - rhs@, ka - kb);
        }
        I256::from_u256_bits(s)
    }

    /// The negation, wrapped: the smallest value is its own negation.
    pub fn wrapping_neg(self) -> (r: I256)
        ensures
            r@ == wrap_signed(-self@),
    {
        I256::zero().wrapping_sub(self)
    }

    /// The sum, or `None` when it leaves the signed range.
    pub fn checked_add(self, rhs: I256) -> (r: Option<I256>)
        ensures
            r.is_some() <==> -half_modulus() <= self@ + rhs@ < half_modulus(),
            r.is_some() ==> r->Some_0@ == self@ + rhs@,
    {
        let r = self.wrapping_add(rhs);
        proof {
            self.lemma_range();
            rhs.lemma_range();
            r.lemma_range();
            self.lemma_wrap_in_range(self@ + rhs@);
        }
        let sn = self.is_negative();
        if sn == rhs.is_negative() && sn != r.is_negative() {
            None
        } else {
            Some(r)
        }
    }

    /// The difference, or `None` when it leaves the signed range.
    pub fn checked_sub(self, rhs: I256) -> (r: Option<I256>)
        ensures
            r.is_some() <==> -half_modulus() <= self@ - rhs@ < half_modulus(),
            r.is_some() ==> r->Some_0@ == self@ - rhs@,
    {
        let r = self.wrapping_sub(rhs);
        proof {
            self.lemma_range();
            rhs.lemma_range();
            r.lemma_range();
            self.lemma_wrap_in_range(self@ - rhs@);
        }
        let sn = self.is_negative();
        if sn != rhs.is_negative() && sn != r.is_negative() {
            None
        } else {
            Some(r)
        }
    }

    /// The negation, or `None` for the smallest value.
    pub fn checked_neg(self) -> (r: Option<I256>)
        ensures
            r.is_some() <==> self@ != -half_modulus(),
            r.is_some() ==> r->Some_0@ == -self@,
    {
        I256::zero().checked_sub(self)
    }

    /// What [`wrap_signed`] gives for a sum or difference of two values.
    proof fn lemma_wrap_in_range(self, x: int)
        requires
            -modulus() <= x < modulus(),
        ensures
            -half_modulus() <= x < half_modulus() ==> wrap_signed(x) == x,
            x >= half_modulus() ==> wrap_signed(x) == x - modulus(),
            x < -half_modulus() ==> wrap_signed(x) == x + modulus(),
    {
        self.lemma_range();
        let m = modulus();
        if x >= 0 {
            vstd::arithmetic::div_mod::lemma_small_mod(x as nat, m as nat);
        } else {
            lemma_wrap_congruent(x, 1);
            vstd::arithmetic::div_mod::lemma_small_mod((x + m) as nat, m as nat);
        }
    }

    /// The magnitude as an unsigned value.
    pub(crate) fn magnitude(self) -> (r: U256)
        ensures
            r@ == abs_int(self@),
    {
        proof {
            self.lemma_range();
        }
        if self.is_negative() {
            self.as_u256().wrapping_neg()
        } else {
            self.as_u256()
        }
    }

    /// The signed value with magnitude `m`, negated when `neg`, wrapped.
    fn with_sign(m: U256, neg: bool) -> (r: I256)
        ensures
            r@ == wrap_signed(if neg { -m@ } else { m@ }),
    {
        proof {
            m.lemma_range();
            lemma_wrap_congruent(m@, 0);
            vstd::arithmetic::div_mod::lemma_small_mod(m@ as nat, modulus() as nat);
        }
        if neg {
            let u = m.wrapping_neg();
            proof {
                if m@ != 0 {
                    lemma_wrap_congruent(-m@, 1);
                    vstd::arithmetic::div_mod::lemma_small_mod((modulus() - m@) as nat, modulus() as nat);
                }
            }
            I256::from_u256_bits(u)
        } else {
            I256::from_u256_bits(m)
        }
    }

    /// The quotient rounded toward zero, wrapped (the smallest value divided
    /// by `-1` is itself); `rhs` must not be zero.
    pub fn wrapping_div(self, rhs: I256) -> (r: I256)
        requires
            rhs@ != 0,
        ensures
            r@ == wrap_signed(trunc_div(self@, rhs@)),
    {
        let q = self.magnitude().wrapping_div(rhs.magnitude());
        I256::with_sign(q, self.is_negative() != rhs.is_negative())
    }

    /// The remainder of the quotient rounded toward zero, with the sign of
    /// `self`; `rhs` must not be zero.
    pub fn wrapping_rem(self, rhs: I256) -> (r: I256)
        requires
            rhs@ != 0,
        ensures
            r@ == trunc_rem(self@, rhs@),
    {
        let m = self.magnitude().wrapping_rem(rhs.magnitude());
        proof {
            self.lemma_range();
            rhs.lemma_range();
            vstd::arithmetic::div_mod::lemma_mod_bound(abs_int(self@), abs_int(rhs@));
            self.lemma_wrap_in_range(m@);
            self.lemma_wrap_in_range(-m@);
        }
        I256::with_sign(m, self.is_negative())
    }

    /// The quotient rounded toward zero, or `None` for a zero divisor or
    /// when the quotient leaves the signed range.
    pub fn checked_div(self, rhs: I256) -> (r: Option<I256>)
        ensures
            r.is_some() <==> rhs@ != 0 && -half_modulus() <= trunc_div(self@, rhs@) < half_modulus(),
            r.is_some() ==> r->Some_0@ == trunc_div(self@, rhs@),
    {
        if rhs.is_zero() {
            return None;
        }
        let q = self.magnitude().wrapping_div(rhs.magnitude());
        let neg = self.is_negative() != rhs.is_negative();
        proof {
            q.lemma_range();
            self.lemma_range();
        }
        let limit = if neg { U256::from_words(0x8000_0000_0000_0000_0000_0000_0000_0000, 0) } else {
            U256::from_words(0x7fff_ffff_ffff_ffff_ffff_ffff_ffff_ffff, u128::MAX)
        };
        assert(0x7fff_ffff_ffff_ffff_ffff_ffff_ffff_ffffint * word_base() + u128::MAX as int == half_modulus() - 1) by (nonlinear_arith);
        if limit.ge(&q) {
            let r = I256::with_sign(q, neg);
            proof {
                self.lemma_wrap_in_range(if neg { -q@ } else { q@ });
            }
            Some(r)
        } else {
            None
        }
    }

    /// The remainder with the sign of `self`, or `None` for a zero divisor.
    pub fn checked_rem(self, rhs: I256) -> (r: Option<I256>)
        ensures
            r.is_some() <==> rhs@ != 0,
            r.is_some() ==> r->Some_0@ == trunc_rem(self@, rhs@),
    {
        if rhs.is_zero() {
            None
        } else {
            Some(self.wrapping_rem(rhs))
        }
    }

    /// Quotient and remainder; division by zero and a quotient outside the
    /// signed range are errors.
    pub fn div_rem(self, rhs: I256) -> (r: Result<(I256, I256), NumError>)
        ensures
            rhs@ == 0 <==> r == Err::<(I256, I256), NumError>(NumError::DivisionByZero),
            rhs@ != 0 && !(-half_modulus() <= trunc_div(self@, rhs@) < half_modulus())
                <==> r == Err::<(I256, I256), NumError>(NumError::Overflow),
            r.is_ok() ==> r->Ok_0.0@ == trunc_div(self@, rhs@) && r->Ok_0.1@ == trunc_rem(self@, rhs@),
    {
        if rhs.is_zero() {
            return Err(NumError::DivisionByZero);
        }
        match self.checked_div(rhs) {
            Some(q) => Ok((q, self.wrapping_rem(rhs))),
            None => Err(NumError::Overflow),
        }
    }

    /// Whether the value is zero.
    pub fn is_zero(&self) -> (r: bool)
        ensures
            r <==> self@ == 0,
    {
        let ghost w = word_base();
        assert(self@ == 0 <==> self.hi == 0 && self.lo == 0) by (nonlinear_arith)
            requires
                self@ == self.hi as int * w + self.lo,
                0 <= self.lo < w,
        ;
        self.hi == 0 && self.lo == 0
    }

    /// The absolute value, wrapped: the smallest value is its own.
    pub fn wrapping_abs(self) -> (r: I256)
        ensures
            r@ == wrap_signed(abs_int(self@)),
    {
        I256::with_sign(self.magnitude(), false)
    }

    /// The absolute value, or `None` for the smallest value.
    pub fn checked_abs(self) -> (r: Option<I256>)
        ensures
            r.is_some() <==> self@ != -half_modulus(),
            r.is_some() ==> r->Some_0@ == abs_int(self@),
    {
        if self.is_negative() {
            self.checked_neg()
        } else {
            Some(self)
        }
    }

    /// The order of two values.
    pub fn compare(&self, other: &I256) -> (r: core::cmp::Ordering)
        ensures
            (r == core::cmp::Ordering::Less) <==> self@ < other@,
            (r == core::cmp::Ordering::Equal) <==> self@ == other@,
            (r == core::cmp::Ordering::Greater) <==> self@ > other@,
    {
        let ghost w = word_base();
        proof {
            assert(self.hi < other.hi ==> self@ < other@) by (nonlinear_arith)
                requires
                    self@ == self.hi as int * w + self.lo,
                    other@ == other.hi as int * w + other.lo,
                    0 <= self.lo < w,
                    0 <= other.lo < w,
            ;
            assert(self.hi > other.hi ==> self@ > other@) by (nonlinear_arith)
                requires
                    self@ == self.hi as int * w + self.lo,
                    other@ == other.hi as int * w + other.lo,
                    0 <= self.lo < w,
                    0 <= other.lo < w,
            ;
        }
        if self.hi < other.hi {
            core::cmp::Ordering::Less
        } else if self.hi > other.hi {
            core::cmp::Ordering::Greater
        } else if self.lo < other.lo {
            core::cmp::Ordering::Less
        } else if self.lo > other.lo {
            core::cmp::Ordering::Greater
        } else {
            core::cmp::Ordering::Equal
        }
    }

    /// Parses `src` in `radix`: an optional `+` or `-`, then one or more
    /// digits.
    pub fn from_str_radix(src: &str, radix: u32) -> (r: Result<I256, NumError>)
        requires
            2 <= radix <= 36,
        ensures
            r.is_ok() == parse_spec(src@, radix as int, Seq::<char>::empty(), true).is_ok(),
            r.is_err() ==> r == Err::<I256, NumError>(parse_spec(src@, radix as int, Seq::<char>::empty(), true)->Err_0),
            r.is_ok() ==> parse_spec(src@, radix as int, Seq::<char>::empty(), true) == Ok::<int, NumError>(r->Ok_0@),
    {
        proof {
            reveal_strlit("");
        }
        assert(""@ =~= Seq::<char>::empty());
        match parse_text(src, radix, "", true) {
            Ok((neg, m)) => {
                let r = I256::with_sign(m, neg);
                proof {
                    m.lemma_range();
                    r.lemma_range();
                    r.lemma_wrap_in_range(if neg { -m@ } else { m@ });
                }
                Ok(r)
            },
            Err(e) => Err(e),
        }
    }

    /// Parses `src` in base 16: an optional `+` or `-`, then `0x`, then one
    /// or more hex digits.
    pub fn from_str_hex(src: &str) -> (r: Result<I256, NumError>)
        ensures
            r.is_ok() == parse_spec(src@, 16, seq!['0', 'x'], true).is_ok(),
            r.is_err() ==> r == Err::<I256, NumError>(parse_spec(src@, 16, seq!['0', 'x'], true)->Err_0),
            r.is_ok() ==> parse_spec(src@, 16, seq!['0', 'x'], true) == Ok::<int, NumError>(r->Ok_0@),
    {
        proof {
            reveal_strlit("0x");
        }
        assert("0x"@ =~= seq!['0', 'x']);
        match parse_text(src, 16, "0x", true) {
            Ok((neg, m)) => {
                let r = I256::with_sign(m, neg);
                proof {
                    m.lemma_range();
                    r.lemma_range();
                    r.lemma_wrap_in_range(if neg { -m@ } else { m@ });
                }
                Ok(r)
            },
            Err(e) => Err(e),
        }
    }

    /// Parses `src` in the base its prefix names: `0x` (after an optional
    /// sign) for base 16, none for base 10.
    pub fn from_str_prefixed(src: &str) -> (r: Result<I256, NumError>)
        ensures
            ({
                let rest = src@.skip(if has_sign(src@, true) { 1int } else { 0 });
                let hex = rest.len() >= 2 && rest[0] == '0' && rest[1] == 'x';
                let expected = if hex {
                    parse_spec(src@, 16, seq!['0', 'x'], true)
                } else {
                    parse_spec(src@, 10, Seq::<char>::empty(), true)
                };
                &&& r.is_ok() == expected.is_ok()
                &&& r.is_err() ==> r == Err::<I256, NumError>(expected->Err_0)
                &&& r.is_ok() ==> expected == Ok::<int, NumError>(r->Ok_0@)
            }),
    {
        let n = src.unicode_len();
        let start: usize = if n > 0 && (src.get_char(0) == '+' || src.get_char(0) == '-') { 1 } else { 0 };
        let hex = n >= start + 2 && src.get_char(start) == '0' && src.get_char(start + 1) == 'x';
        if hex {
            I256::from_str_hex(src)
        } else {
            I256::from_str_radix(src, 10)
        }
    }

    /// The digits in `radix` of the magnitude, after a `-` when negative.
    pub fn to_str_radix(&self, radix: u32) -> (r: String)
        requires
            2 <= radix <= 36,
        ensures
            r@ == (if self@ < 0 { seq!['-'] } else { Seq::<char>::empty() }) + render_digits(abs_int(self@) as nat, radix as nat),
    {
        let mut out = String::new();
        if self.is_negative() {
            crate::text::push_char(&mut out, '-');
        }
        push_digits(&mut out, self.magnitude(), radix);
        assert(out@ =~= (if self@ < 0 { seq!['-'] } else { Seq::<char>::empty() }) + render_digits(abs_int(self@) as nat, radix as nat));
        out
    }

    /// The decimal digits, after a `-` when negative.
    pub fn to_decimal_string(&self) -> (r: String)
        ensures
            r@ == (if self@ < 0 { seq!['-'] } else { Seq::<char>::empty() }) + render_digits(abs_int(self@) as nat, 10),
    {
        self.to_str_radix(10)
    }
}

impl I256 {
    /// The product, wrapped into the signed range.
    pub fn wrapping_mul(self, rhs: I256) -> (r: I256)
        ensures
            r@ == wrap_signed(self@ * rhs@),
    {
        let ua = self.as_u256();
        let ub = rhs.as_u256();
        let p = ua.wrapping_mul(ub);
        proof {
            let m = modulus();
            let ka: int = if self@ < 0 { 1 } else { 0 };
            let kb: int = if rhs@ < 0 { 1 } else { 0 };
            let k = self@ * kb + rhs@ * ka + ka * kb * m;
            vstd::arithmetic::mul::lemma_mul_basics(m);
            assert(ka * m == if self@ < 0 { m } else { 0 });
            assert(kb * m == if rhs@ < 0 { m } else { 0 });
            assert(ua@ * ub@ == self@ * rhs@ + k * m) by (nonlinear_arith)
                requires
                    ua@ == self@ + ka * m,
                    ub@ == rhs@ + kb * m,
                    k == self@ * kb + rhs@ * ka + ka * kb * m,
            ;
            lemma_wrap_congruent(self@ * rhs@, k);
        }
        I256::from_u256_bits(p)
    }

    /// The product, or `None` when it leaves the signed range.
    pub fn checked_mul(self, rhs: I256) -> (r: Option<I256>)
        ensures
            r.is_some() <==> -half_modulus() <= self@ * rhs@ < half_modulus(),
            r.is_some() ==> r->Some_0@ == self@ * rhs@,
    {
        let neg = self.is_negative() != rhs.is_negative();
        let ghost a = self@;
        let ghost b = rhs@;
        proof {
            self.lemma_range();
            assert(abs_int(a) * abs_int(b) == abs_int(a * b)) by (nonlinear_arith);
            assert(neg ==> a * b <= 0) by (nonlinear_arith)
                requires
                    neg == ((a < 0) != (b < 0)),
            ;
            assert(!neg ==> a * b >= 0) by (nonlinear_arith)
                requires
                    neg == ((a < 0) != (b < 0)),
            ;
        }
        match self.magnitude().checked_mul(rhs.magnitude()) {
            None => {
                proof {
                    assert(abs_int(a * b) >= modulus());
                }
                None
            },
            Some(p) => {
                let limit = if neg { U256::from_words(0x8000_0000_0000_0000_0000_0000_0000_0000, 0) } else {
                    U256::from_words(0x7fff_ffff_ffff_ffff_ffff_ffff_ffff_ffff, u128::MAX)
                };
                assert(0x7fff_ffff_ffff_ffff_ffff_ffff_ffff_ffffint * word_base() + u128::MAX as int == half_modulus() - 1) by (nonlinear_arith);
                if limit.ge(&p) {
                    let r = I256::with_sign(p, neg);
                    proof {
                        p.lemma_range();
                        self.lemma_wrap_in_range(if neg { -p@ } else { p@ });
                    }
                    Some(r)
                } else {
                    None
                }
            },
        }
    }

    /// Arithmetic shift right by `n` modulo 256: the quotient by `2^n`
    /// rounded toward negative infinity, the sign bit copied in.
    pub fn wrapping_shr(self, n: u32) -> (r: I256)
        ensures
            r@ == self@ / (pow2((n % 256) as nat) as int),
    {
        let k = n % 256;
        let p = U256::pow2_value(k);
        proof {
            vstd::arithmetic::power2::lemma_pow2_pos(k as nat);
            self.lemma_range();
            p.lemma_range();
        }
        if self.is_negative() {
            let m = self.magnitude();
            let (m1, _) = m.overflowing_sub(U256::one());
            let q = m1.wrapping_div(p);
            let (q1, _) = q.overflowing_add(U256::one());
            proof {
                m1.lemma_range();
                vstd::arithmetic::div_mod::lemma_fundamental_div_mod(m1@, p@);
                vstd::arithmetic::div_mod::lemma_mod_bound(m1@, p@);
                vstd::arithmetic::div_mod::lemma_div_is_ordered_by_denominator(m1@, 1, p@);
                vstd::arithmetic::div_mod::lemma_div_basics(m1@);
                q1.lemma_range();
                let qq = m1@ / p@;
                let rr = m1@ % p@;
                assert(self@ == (-(qq + 1)) * p@ + (p@ - rr - 1)) by (nonlinear_arith)
                    requires
                        self@ == -(m1@ + 1),
                        m1@ == p@ * qq + rr,
                ;
                vstd::arithmetic::div_mod::lemma_fundamental_div_mod_converse(self@, p@, -(qq + 1), p@ - rr - 1);
                self.lemma_wrap_in_range(-q1@);
            }
            I256::with_sign(q1, true)
        } else {
            let q = self.magnitude().wrapping_div(p);
            proof {
                vstd::arithmetic::div_mod::lemma_div_is_ordered_by_denominator(self@, 1, p@);
                vstd::arithmetic::div_mod::lemma_div_basics(self@);
                vstd::arithmetic::div_mod::lemma_div_pos_is_pos(self@, p@);
                self.lemma_wrap_in_range(q@);
            }
            I256::with_sign(q, false)
        }
    }

    /// Shift left by `n` modulo 256, dropping the bits shifted out.
    pub fn wrapping_shl(self, n: u32) -> (r: I256)
        ensures
            r@ == wrap_signed(self@ * pow2((n % 256) as nat)),
    {
        let ua = self.as_u256();
        let s = ua.wrapping_shl(n);
        proof {
            let m = modulus();
            let p = pow2((n % 256) as nat) as int;
            let ka: int = if self@ < 0 { 1 } else { 0 };
            assert(ua@ * p == self@ * p + (ka * p) * m) by (nonlinear_arith)
                requires
                    ua@ == self@ + ka * m,
            ;
            lemma_wrap_congruent(self@ * p, ka * p);
        }
        I256::from_u256_bits(s)
    }
}

impl I256 {
    /// The sum, clamped to the signed range.
    pub fn saturating_add(self, rhs: I256) -> (r: I256)
        ensures
            r@ == if self@ + rhs@ < -half_modulus() {
                -half_modulus()
            } else if self@ + rhs@ >= half_modulus() {
                half_modulus() - 1
            } else {
                self@ + rhs@
            },
    {
        proof {
            self.lemma_range();
            rhs.lemma_range();
        }
        match self.checked_add(rhs) {
            Some(r) => r,
            None => if self.is_negative() {
                I256::min_value()
            } else {
                I256::max_value()
            },
        }
    }

    /// The difference, clamped to the signed range.
    pub fn saturating_sub(self, rhs: I256) -> (r: I256)
        ensures
            r@ == if self@ - rhs@ < -half_modulus() {
                -half_modulus()
            } else if self@ - rhs@ >= half_modulus() {
                half_modulus() - 1
            } else {
                self@ - rhs@
            },
    {
        proof {
            self.lemma_range();
            rhs.lemma_range();
        }
        match self.checked_sub(rhs) {
            Some(r) => r,
            None => if self.is_negative() {
                I256::min_value()
            } else {
                I256::max_value()
            },
        }
    }

    /// The product, clamped to the signed range.
    pub fn saturating_mul(self, rhs: I256) -> (r: I256)
        ensures
            r@ == if self@ * rhs@ < -half_modulus() {
                -half_modulus()
            } else if self@ * rhs@ >= half_modulus() {
                half_modulus() - 1
            } else {
                self@ * rhs@
            },
    {
        match self.checked_mul(rhs) {
            Some(r) => r,
            None => {
                proof {
                    let a = self@;
                    let b = rhs@;
                    assert((a < 0) != (b < 0) ==> a * b <= 0) by (nonlinear_arith);
                    assert((a < 0) == (b < 0) ==> a * b >= 0) by (nonlinear_arith);
                }
                if self.is_negative() != rhs.is_negative() {
                    I256::min_value()
                } else {
                    I256::max_value()
                }
            },
        }
    }

    /// The value as an unsigned value, or `Overflow` when it is negative.
    pub fn checked_as_u256(self) -> (r: Result<U256, NumError>)
        ensures
            self@ < 0 <==> r == Err::<U256, NumError>(NumError::Overflow),
            r.is_ok() ==> r->Ok_0@ == self@,
    {
        if self.is_negative() {
            Err(NumError::Overflow)
        } else {
            Ok(self.as_u256())
        }
    }
}

impl U256 {
    /// The same 256 bits read as a signed value.
    pub fn as_i256(self) -> (r: I256)
        ensures
            r@ == to_signed(self@, modulus()),
    {
        I256::from_u256_bits(self)
    }

    /// The value as a signed value, or `Overflow` when it is `2^255` or more.
    pub fn checked_as_i256(self) -> (r: Result<I256, NumError>)
        ensures
            self@ >= half_modulus() <==> r == Err::<I256, NumError>(NumError::Overflow),
            r.is_ok() ==> r->Ok_0@ == self@,
    {
        let r = I256::from_u256_bits(self);
        proof {
            r.lemma_range();
            self.lemma_range();
        }
        if r.is_negative() {
            Err(NumError::Overflow)
        } else {
            proof {
                r.lemma_range();
            }
            Ok(r)
        }
    }
}

/// A value plus its wrapping negation wraps to zero; the smallest value is
/// its own negation.
pub proof fn law_signed_neg(a: I256)
    ensures
        wrap_signed(a@ + wrap_signed(-a@)) == 0,
        a@ == -half_modulus() ==> wrap_signed(-a@) == a@,
{
    a.lemma_range();
    a.lemma_wrap_in_range(-a@);
    a.lemma_wrap_in_range(0);
    if a@ == -half_modulus() {
        a.lemma_wrap_in_range(a@ + a@);
        assert(a@ + a@ == -modulus());
        lemma_wrap_congruent(-modulus(), 1);
        vstd::arithmetic::div_mod::lemma_small_mod(0, modulus() as nat);
    }
}

/// Reading the rendering of a signed value in the same radix (a `-` and the
/// digits of the magnitude) gives the value back.
pub proof fn law_signed_parse_render(v: I256, radix: u32)
    requires
        2 <= radix <= 36,
    ensures
        parse_spec(
            (if v@ < 0 { seq!['-'] } else { Seq::<char>::empty() }) + render_digits(abs_int(v@) as nat, radix as nat),
            radix as int,
            Seq::<char>::empty(),
            true,
        ) == Ok::<int, NumError>(v@),
{
    v.lemma_range();
    let d = render_digits(abs_int(v@) as nat, radix as nat);
    lemma_render_first(abs_int(v@) as nat, radix as nat);
    if v@ < 0 {
        let s = seq!['-'] + d;
        lemma_scan_render(abs_int(v@) as nat, radix as nat, half_modulus());
        assert(has_sign(s, true));
        assert(s.skip(1) =~= d);
        assert(d.skip(0) =~= d);
        assert(d.take(0) =~= Seq::<char>::empty());
        assert(s =~= (if v@ < 0 { seq!['-'] } else { Seq::<char>::empty() }) + d);
    } else {
        let s = Seq::<char>::empty() + d;
        assert(s =~= d);
        lemma_scan_render(abs_int(v@) as nat, radix as nat, half_modulus() - 1);
        assert(!has_sign(d, true));
        assert(d.skip(0) =~= d);
        assert(d.take(0) =~= Seq::<char>::empty());
    }
}

/// Negating 256 bits as unsigned and then reading them as signed is the
/// signed wrapping negation: `a` (the bits of `u` read as signed) plus it
/// wraps to zero, and `2^255`, read as the smallest value, negates to itself.
pub proof fn law_neg_through_bits(u: U256, a: I256)
    requires
        a@ == to_signed(u@, modulus()),
    ensures
        to_signed((-u@) % modulus(), modulus()) == wrap_signed(-a@),
        wrap_signed(a@ + to_signed((-u@) % modulus(), modulus())) == 0,
        u@ == half_modulus() ==> a@ == -half_modulus() && to_signed((-u@) % modulus(), modulus()) == a@,
{
    u.lemma_range();
    a.lemma_range();
    let m = modulus();
    let k: int = if 2 * u@ < m { 0 } else { 1 };
    assert(-a@ == -u@ + k * m);
    lemma_wrap_congruent(-u@, k);
    law_signed_neg(a);
}

/// Wrapping addition of `b` is undone by wrapping subtraction of `b`.
pub proof fn law_signed_add_sub(a: I256, b: I256)
    ensures
        wrap_signed(wrap_signed(a@ + b@) - b@) == a@,
{
    a.lemma_range();
    b.lemma_range();
    let s = a@ + b@;
    a.lemma_wrap_in_range(s);
    let w = wrap_signed(s);
    a.lemma_wrap_in_range(w - b@);
    a.lemma_wrap_in_range(a@);
}

/// For a nonzero divisor, truncated quotient times divisor plus remainder
/// gives back the dividend; the remainder is zero or has the dividend's
/// sign, and is smaller than the divisor in magnitude.
pub proof fn law_signed_div_rem(a: int, b: int)
    requires
        b != 0,
    ensures
        trunc_div(a, b) * b + trunc_rem(a, b) == a,
        trunc_rem(a, b) == 0 || (trunc_rem(a, b) < 0) == (a < 0),
        abs_int(trunc_rem(a, b)) < abs_int(b),
{
    let x = abs_int(a);
    let y = abs_int(b);
    vstd::arithmetic::div_mod::lemma_fundamental_div_mod(x, y);
    vstd::arithmetic::div_mod::lemma_mod_bound(x, y);
    let q = x / y;
    let r = x % y;
    assert(q * y == y * q) by (nonlinear_arith);
    if b < 0 {
        assert(q * b == -(q * y)) by (nonlinear_arith)
            requires
                y == -b,
        ;
        assert((-q) * b == q * y) by (nonlinear_arith)
            requires
                y == -b,
        ;
    } else {
        assert((-q) * b == -(q * y)) by (nonlinear_arith)
            requires
                y == b,
        ;
    }
}

} // verus!
