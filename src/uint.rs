//! The unsigned 256-bit integer.

use vstd::prelude::*;
use vstd::arithmetic::div_mod::lemma_mod_multiples_vanish;
use vstd::arithmetic::power2::{pow2, lemma2_to64, lemma_pow2_adds, lemma_pow2_unfold, lemma_pow2_strictly_increases};
use crate::error::NumError;

verus! {

/// `2^128`, the base of a word.
pub open spec fn word_base() -> int {
    u128::MAX as int + 1
}

/// `2^256`, the number of distinct 256-bit values.
pub open spec fn modulus() -> int {
    word_base() * word_base()
}

/// `m` read as a two's-complement number of width `n` (with `0 <= m < n`).
pub open spec fn to_signed(m: int, n: int) -> int {
    if 2 * m < n {
        m
    } else {
        m - n
    }
}

/// The sum of two words and an incoming carry, as a word and an outgoing carry.
fn add_word(a: u128, b: u128, carry: bool) -> (r: (u128, bool))
    ensures
        r.0 as int + (if r.1 { word_base() } else { 0 }) == a as int + b as int + (if carry { 1int } else { 0 }),
{
    let c: u128 = if carry { 1 } else { 0 };
    if a <= u128::MAX - b {
        let s = a + b;
        if s <= u128::MAX - c {
            (s + c, false)
        } else {
            (0, true)
        }
    } else {
        let s = a - (u128::MAX - b) - 1;
        (s + c, true)
    }
}

/// The difference of two words less an incoming borrow, as a word and an
/// outgoing borrow.
fn sub_word(a: u128, b: u128, borrow: bool) -> (r: (u128, bool))
    ensures
        r.0 as int - (if r.1 { word_base() } else { 0 }) == a as int - b as int - (if borrow { 1int } else { 0 }),
{
    let c: u128 = if borrow { 1 } else { 0 };
    if a >= b {
        let d = a - b;
        if d >= c {
            (d - c, false)
        } else {
            (u128::MAX, true)
        }
    } else {
        let d = u128::MAX - (b - a) + 1;
        (d - c, true)
    }
}

proof fn lemma_two_digit_product(x1: int, x0: int, y1: int, y0: int, base: int)
    ensures
        (x1 * base + x0) * (y1 * base + y0) == x1 * y1 * (base * base) + (x1 * y0 + x0 * y1) * base + x0 * y0,
{
    let y = y1 * base + y0;
    assert((x1 * base + x0) * y == (x1 * base) * y + x0 * y) by (nonlinear_arith);
    assert((x1 * base) * y == x1 * y1 * (base * base) + x1 * y0 * base) by (nonlinear_arith)
        requires
            y == y1 * base + y0,
    ;
    assert(x0 * y == x0 * y1 * base + x0 * y0) by (nonlinear_arith)
        requires
            y == y1 * base + y0,
    ;
    assert((x1 * y0 + x0 * y1) * base == x1 * y0 * base + x0 * y1 * base) by (nonlinear_arith);
}

/// The full product of two words, as a high and a low word, by four
/// cross-products of 64-bit halves.
fn mul_word(a: u128, b: u128) -> (r: (u128, u128))
    ensures
        r.0 as int * word_base() + r.1 as int == a as int * b as int,
{
    let s: u128 = 0x1_0000_0000_0000_0000;
    let a1 = a / s;
    let a0 = a % s;
    let b1 = b / s;
    let b0 = b % s;
    assert(a1 < s && b1 < s && a0 < s && b0 < s);
    proof {
        let x = a1;
        let y = b1;
        let u = a0;
        let v = b0;
        assert(x * y < word_base() && x * v < word_base() && u * y < word_base() && u * v < word_base()) by (nonlinear_arith)
            requires
                x < 0x1_0000_0000_0000_0000,
                y < 0x1_0000_0000_0000_0000,
                u < 0x1_0000_0000_0000_0000,
                v < 0x1_0000_0000_0000_0000,
        ;
    }
    let p00 = a0 * b0;
    let p01 = a0 * b1;
    let p10 = a1 * b0;
    let p11 = a1 * b1;
    let (mid, mc) = add_word(p01, p10, false);
    let mh = mid / s;
    let ml = mid % s;
    assert(ml * s < word_base()) by (nonlinear_arith)
        requires
            ml < 0x1_0000_0000_0000_0000,
            s == 0x1_0000_0000_0000_0000,
    ;
    let (lo, lc) = add_word(p00, ml * s, false);
    proof {
        let w = word_base();
        let ss = s as int;
        let mci: int = if mc { 1 } else { 0 };
        let lci: int = if lc { 1 } else { 0 };
        lemma_two_digit_product(a1 as int, a0 as int, b1 as int, b0 as int, ss);
        assert((p01 + p10) * ss == mh * w + ml * ss + mci * ss * w) by (nonlinear_arith)
            requires
                ss * ss == w,
                mid + mci * w == p01 + p10,
                mid == mh * ss + ml,
        ;
        assert(a as int * b as int == (p11 + mh + mci * ss + lci) * w + lo) by (nonlinear_arith)
            requires
                ss * ss == w,
                a as int * b as int == p11 * w + (p01 + p10) * ss + p00,
                (p01 + p10) * ss == mh * w + ml * ss + mci * ss * w,
                lo + lci * w == p00 + ml * ss,
        ;
        assert(p11 + mh + mci * ss + lci < w) by (nonlinear_arith)
            requires
                a as int * b as int == (p11 + mh + mci * ss + lci) * w + lo,
                0 <= lo,
                0 <= a < w,
                0 <= b < w,
                w > 0,
        ;
    }
    let c1: u128 = if mc { s } else { 0 };
    let c2: u128 = if lc { 1 } else { 0 };
    (p11 + mh + c1 + c2, lo)
}

/// A 256-bit unsigned integer, stored as a high and a low 128-bit word.
#[derive(Clone, Copy, Debug, PartialEq, Eq, Structural, Hash, Default)]
pub struct U256 {
    lo: u128,
    hi: u128,
}

impl View for U256 {
    type V = int;

    /// The value `hi * 2^128 + lo`.
    open spec fn view(&self) -> int {
        self.hi_word() as int * word_base() + self.lo_word() as int
    }
}

impl U256 {
    /// The high word.
    pub closed spec fn hi_word(&self) -> u128 {
        self.hi
    }

    /// The low word.
    pub closed spec fn lo_word(&self) -> u128 {
        self.lo
    }

    /// Creates a value from a `u128`.
    pub fn new(value: u128) -> (r: U256)
        ensures
            r@ == value as int,
            r.hi_word() == 0,
            r.lo_word() == value,
    {
        U256::from_words(0, value)
    }

    /// Creates a value from its high and low words.
    pub fn from_words(hi: u128, lo: u128) -> (r: U256)
        ensures
            r.hi_word() == hi,
            r.lo_word() == lo,
            r@ == hi as int * word_base() + lo as int,
    {
        U256 { lo, hi }
    }

    /// Splits a value into its high and low words.
    pub fn into_words(self) -> (r: (u128, u128))
        ensures
            r.0 == self.hi_word(),
            r.1 == self.lo_word(),
            self@ == r.0 as int * word_base() + r.1 as int,
    {
        (self.hi, self.lo)
    }

    /// The low word.
    pub fn low(&self) -> (r: &u128)
        ensures
            *r == self.lo_word(),
    {
        &self.lo
    }

    /// The low word, for writing.
    pub fn low_mut(&mut self) -> (r: &mut u128)
        ensures
            *r == old(self).lo_word(),
            final(self).lo_word() == *final(r),
            final(self).hi_word() == old(self).hi_word(),
    {
        &mut self.lo
    }

    /// The high word.
    pub fn high(&self) -> (r: &u128)
        ensures
            *r == self.hi_word(),
    {
        &self.hi
    }

    /// The high word, for writing.
    pub fn high_mut(&mut self) -> (r: &mut u128)
        ensures
            *r == old(self).hi_word(),
            final(self).hi_word() == *final(r),
            final(self).lo_word() == old(self).lo_word(),
    {
        &mut self.hi
    }

    /// The value zero.
    pub fn zero() -> (r: U256)
        ensures
            r@ == 0,
    {
        U256 { lo: 0, hi: 0 }
    }

    /// The value one.
    pub fn one() -> (r: U256)
        ensures
            r@ == 1,
    {
        U256 { lo: 1, hi: 0 }
    }

    /// The smallest value, zero.
    pub fn min_value() -> (r: U256)
        ensures
            r@ == 0,
    {
        U256::zero()
    }

    /// The largest value, `2^256 - 1`, with every bit set.
    pub fn max_value() -> (r: U256)
        ensures
            r@ == modulus() - 1,
    {
        assert(u128::MAX as int * word_base() + u128::MAX as int == modulus() - 1) by (nonlinear_arith);
        U256 { lo: u128::MAX, hi: u128::MAX }
    }

    /// Every value lies in `[0, 2^256)`.
    pub proof fn lemma_range(self)
        ensures
            0 <= self@ < modulus(),
    {
        let w = word_base();
        assert(0 <= self@ < w * w) by (nonlinear_arith)
            requires
                self@ == self.hi_word() * w + self.lo_word(),
                0 <= self.hi_word() < w,
                0 <= self.lo_word() < w,
        ;
    }

    proof fn lemma_low_bits(self, d: int)
        requires
            0 < d,
            word_base() % d == 0,
        ensures
            self@ % d == self.lo_word() as int % d,
    {
        let k = word_base() / d;
        assert(word_base() == d * k) by (nonlinear_arith)
            requires
                word_base() % d == 0,
                k == word_base() / d,
                0 < d,
        ;
        assert(self.hi_word() as int * word_base() == d * (self.hi_word() as int * k)) by (nonlinear_arith)
            requires
                word_base() == d * k,
        ;
        lemma_mod_multiples_vanish(self.hi_word() as int * k, self.lo_word() as int, d);
    }

    /// Truncates to a `u8`.
    pub fn as_u8(self) -> (r: u8)
        ensures
            r as int == self@ % 0x100,
    {
        proof {
            self.lemma_low_bits(0x100);
            let lo = self.lo;
            assert(lo as u8 as int == lo % 0x100) by (bit_vector);
        }
        self.lo as u8
    }

    /// Truncates to a `u16`.
    pub fn as_u16(self) -> (r: u16)
        ensures
            r as int == self@ % 0x1_0000,
    {
        proof {
            self.lemma_low_bits(0x1_0000);
            let lo = self.lo;
            assert(lo as u16 as int == lo % 0x1_0000) by (bit_vector);
        }
        self.lo as u16
    }

    /// Truncates to a `u32`.
    pub fn as_u32(self) -> (r: u32)
        ensures
            r as int == self@ % 0x1_0000_0000,
    {
        proof {
            self.lemma_low_bits(0x1_0000_0000);
            let lo = self.lo;
            assert(lo as u32 as int == lo % 0x1_0000_0000) by (bit_vector);
        }
        self.lo as u32
    }

    /// Truncates to a `u64`.
    pub fn as_u64(self) -> (r: u64)
        ensures
            r as int == self@ % 0x1_0000_0000_0000_0000,
    {
        proof {
            self.lemma_low_bits(0x1_0000_0000_0000_0000);
            let lo = self.lo;
            assert(lo as u64 as int == lo % 0x1_0000_0000_0000_0000) by (bit_vector);
        }
        self.lo as u64
    }

    /// Truncates to a `u128`: the low word.
    pub fn as_u128(self) -> (r: u128)
        ensures
            r as int == self@ % word_base(),
    {
        proof {
            self.lemma_low_bits(word_base());
        }
        self.lo
    }

    /// Truncates to a `usize`.
    pub fn as_usize(self) -> (r: usize)
        ensures
            r as int == self@ % (usize::MAX as int + 1),
    {
        let n: u128 = usize::MAX as u128 + 1;
        proof {
            assert(usize::MAX == u32::MAX || usize::MAX == u64::MAX);
            self.lemma_low_bits(n as int);
        }
        (self.lo % n) as usize
    }

    /// Truncates to an `i8`: the low eight bits in two's complement.
    pub fn as_i8(self) -> (r: i8)
        ensures
            r as int == to_signed(self@ % 0x100, 0x100),
    {
        proof {
            self.lemma_low_bits(0x100);
            let lo = self.lo;
            assert(lo as i8 as int == if 2 * (lo % 0x100) < 0x100 { (lo % 0x100) as int } else { (lo % 0x100) as int - 0x100 }) by (bit_vector);
        }
        self.lo as i8
    }

    /// Truncates to an `i16`: the low sixteen bits in two's complement.
    pub fn as_i16(self) -> (r: i16)
        ensures
            r as int == to_signed(self@ % 0x1_0000, 0x1_0000),
    {
        proof {
            self.lemma_low_bits(0x1_0000);
            let lo = self.lo;
            assert(lo as i16 as int == if 2 * (lo % 0x1_0000) < 0x1_0000 { (lo % 0x1_0000) as int } else { (lo % 0x1_0000) as int - 0x1_0000 }) by (bit_vector);
        }
        self.lo as i16
    }

    /// Truncates to an `i32`: the low 32 bits in two's complement.
    pub fn as_i32(self) -> (r: i32)
        ensures
            r as int == to_signed(self@ % 0x1_0000_0000, 0x1_0000_0000),
    {
        proof {
            self.lemma_low_bits(0x1_0000_0000);
            let lo = self.lo;
            assert(lo as i32 as int == if 2 * (lo % 0x1_0000_0000) < 0x1_0000_0000 { (lo % 0x1_0000_0000) as int } else { (lo % 0x1_0000_0000) as int - 0x1_0000_0000 }) by (bit_vector);
        }
        self.lo as i32
    }

    /// Truncates to an `i64`: the low 64 bits in two's complement.
    pub fn as_i64(self) -> (r: i64)
        ensures
            r as int == to_signed(self@ % 0x1_0000_0000_0000_0000, 0x1_0000_0000_0000_0000),
    {
        proof {
            self.lemma_low_bits(0x1_0000_0000_0000_0000);
            let lo = self.lo;
            assert(lo as i64 as int == if 2 * (lo % 0x1_0000_0000_0000_0000) < 0x1_0000_0000_0000_0000 { (lo % 0x1_0000_0000_0000_0000) as int } else { (lo % 0x1_0000_0000_0000_0000) as int - 0x1_0000_0000_0000_0000 }) by (bit_vector);
        }
        self.lo as i64
    }

    /// Truncates to an `i128`: the low word in two's complement.
    pub fn as_i128(self) -> (r: i128)
        ensures
            r as int == to_signed(self@ % word_base(), word_base()),
    {
        proof {
            self.lemma_low_bits(word_base());
            let lo = self.lo;
            assert(lo as i128 as int == if lo < 0x8000_0000_0000_0000_0000_0000_0000_0000 { lo as int } else { lo as int - 0x1_0000_0000_0000_0000_0000_0000_0000_0000 }) by (bit_vector);
        }
        self.lo as i128
    }

    /// Truncates to an `isize`.
    pub fn as_isize(self) -> (r: isize)
        ensures
            r as int == to_signed(self@ % (usize::MAX as int + 1), usize::MAX as int + 1),
    {
        let n: u128 = usize::MAX as u128 + 1;
        proof {
            assert(usize::MAX == u32::MAX || usize::MAX == u64::MAX);
            self.lemma_low_bits(n as int);
        }
        let m = self.lo % n;
        if m < n - m {
            m as isize
        } else {
            (m as i128 - n as i128) as isize
        }
    }

    /// The sum modulo `2^256`, and whether it wrapped.
    pub fn overflowing_add(self, rhs: U256) -> (r: (U256, bool))
        ensures
            r.0@ + (if r.1 { modulus() } else { 0 }) == self@ + rhs@,
    {
        let (lo, c) = add_word(self.lo, rhs.lo, false);
        let (hi, o) = add_word(self.hi, rhs.hi, c);
        let r = U256 { lo, hi };
        proof {
            let w = word_base();
            let ci: int = if c { 1 } else { 0 };
            let oi: int = if o { 1 } else { 0 };
            assert(r@ + oi * (w * w) == self@ + rhs@) by (nonlinear_arith)
                requires
                    lo + ci * w == self.lo + rhs.lo,
                    hi + oi * w == self.hi + rhs.hi + ci,
                    r@ == hi * w + lo,
                    self@ == self.hi * w + self.lo,
                    rhs@ == rhs.hi * w + rhs.lo,
            ;
        }
        (r, o)
    }

    /// The difference modulo `2^256`, and whether it wrapped.
    pub fn overflowing_sub(self, rhs: U256) -> (r: (U256, bool))
        ensures
            r.0@ - (if r.1 { modulus() } else { 0 }) == self@ - rhs@,
    {
        let (lo, b) = sub_word(self.lo, rhs.lo, false);
        let (hi, o) = sub_word(self.hi, rhs.hi, b);
        let r = U256 { lo, hi };
        proof {
            let w = word_base();
            let bi: int = if b { 1 } else { 0 };
            let oi: int = if o { 1 } else { 0 };
            assert(r@ - oi * (w * w) == self@ - rhs@) by (nonlinear_arith)
                requires
                    lo - bi * w == self.lo - rhs.lo,
                    hi - oi * w == self.hi - rhs.hi - bi,
                    r@ == hi * w + lo,
                    self@ == self.hi * w + self.lo,
                    rhs@ == rhs.hi * w + rhs.lo,
            ;
        }
        (r, o)
    }

    /// The sum modulo `2^256`.
    pub fn wrapping_add(self, rhs: U256) -> (r: U256)
        ensures
            r@ == (self@ + rhs@) % modulus(),
    {
        let (r, o) = self.overflowing_add(rhs);
        proof {
            r.lemma_range();
            lemma_wrap_once(r@ as int, self@ + rhs@, if o { 1int } else { 0 });
        }
        r
    }

    /// The difference modulo `2^256`.
    pub fn wrapping_sub(self, rhs: U256) -> (r: U256)
        ensures
            r@ == (self@ - rhs@) % modulus(),
    {
        let (r, o) = self.overflowing_sub(rhs);
        proof {
            r.lemma_range();
            lemma_wrap_once(r@ as int, self@ - rhs@, if o { -1int } else { 0 });
        }
        r
    }

    /// The sum, or `None` when it does not fit.
    pub fn checked_add(self, rhs: U256) -> (r: Option<U256>)
        ensures
            r.is_some() <==> self@ + rhs@ < modulus(),
            r.is_some() ==> r.unwrap()@ == self@ + rhs@,
    {
        let (r, o) = self.overflowing_add(rhs);
        if o {
            None
        } else {
            Some(r)
        }
    }
}

impl U256 {
    /// The product modulo `2^256`, and whether it wrapped.
    pub fn overflowing_mul(self, rhs: U256) -> (r: (U256, bool))
        ensures
            r.0@ == (self@ * rhs@) % modulus(),
            r.1 <==> self@ * rhs@ >= modulus(),
    {
        let (h0, l0) = mul_word(self.lo, rhs.lo);
        let (h1, l1) = mul_word(self.hi, rhs.lo);
        let (h2, l2) = mul_word(self.lo, rhs.hi);
        let (s1, c1) = add_word(h0, l1, false);
        let (hi, c2) = add_word(s1, l2, false);
        let overflow = (self.hi != 0 && rhs.hi != 0) || h1 != 0 || h2 != 0 || c1 || c2;
        let r = U256 { lo: l0, hi };
        proof {
            let w = word_base();
            let ah = self.hi as int;
            let al = self.lo as int;
            let bh = rhs.hi as int;
            let bl = rhs.lo as int;
            let c1i: int = if c1 { 1 } else { 0 };
            let c2i: int = if c2 { 1 } else { 0 };
            let k = ah * bh + h1 + h2 + c1i + c2i;
            lemma_two_digit_product(ah, al, bh, bl, w);
            assert((ah * bl + al * bh) * w == (h1 + h2) * (w * w) + (l1 + l2) * w) by (nonlinear_arith)
                requires
                    h1 * w + l1 == ah * bl,
                    h2 * w + l2 == al * bh,
            ;
            assert((l1 + l2 + h0) * w == hi * w + (c1i + c2i) * (w * w)) by (nonlinear_arith)
                requires
                    s1 + c1i * w == h0 + l1,
                    hi + c2i * w == s1 + l2,
            ;
            assert(self@ * rhs@ == k * (w * w) + r@) by (nonlinear_arith)
                requires
                    self@ * rhs@ == ah * bh * (w * w) + (ah * bl + al * bh) * w + al * bl,
                    (ah * bl + al * bh) * w == (h1 + h2) * (w * w) + (l1 + l2) * w,
                    (l1 + l2 + h0) * w == hi * w + (c1i + c2i) * (w * w),
                    r@ == hi * w + l0,
                    h0 * w + l0 == al * bl,
                    k == ah * bh + h1 + h2 + c1i + c2i,
            ;
            assert(ah * bh > 0 <==> ah != 0 && bh != 0) by (nonlinear_arith)
                requires
                    ah >= 0,
                    bh >= 0,
            ;
            assert(k >= 0 && (k > 0 <==> overflow));
            r.lemma_range();
            lemma_wrap_once(r@, self@ * rhs@, k);
            if overflow {
                assert(k * (w * w) >= w * w) by (nonlinear_arith)
                    requires
                        k >= 1,
                        w > 0,
                ;
            }
        }
        (r, overflow)
    }

    /// The product modulo `2^256`.
    pub fn wrapping_mul(self, rhs: U256) -> (r: U256)
        ensures
            r@ == (self@ * rhs@) % modulus(),
    {
        self.overflowing_mul(rhs).0
    }

    /// The product, or `None` when it does not fit.
    pub fn checked_mul(self, rhs: U256) -> (r: Option<U256>)
        ensures
            r.is_some() <==> self@ * rhs@ < modulus(),
            r.is_some() ==> r.unwrap()@ == self@ * rhs@,
    {
        let (r, o) = self.overflowing_mul(rhs);
        if o {
            None
        } else {
            proof {
                assert(0 <= self@ * rhs@) by (nonlinear_arith)
                    requires
                        0 <= self@,
                        0 <= rhs@,
                ;
                vstd::arithmetic::div_mod::lemma_small_mod((self@ * rhs@) as nat, modulus() as nat);
            }
            Some(r)
        }
    }

    /// The product, or the largest value when it does not fit.
    pub fn saturating_mul(self, rhs: U256) -> (r: U256)
        ensures
            r@ == if self@ * rhs@ < modulus() { self@ * rhs@ } else { modulus() - 1 },
    {
        match self.checked_mul(rhs) {
            Some(r) => r,
            None => U256::max_value(),
        }
    }
}

/// `2^256` is the 256th power of two.
pub proof fn lemma_modulus_pow2()
    ensures
        pow2(256) == modulus(),
        pow2(128) == word_base(),
{
    lemma2_to64();
    lemma_pow2_adds(64, 64);
    lemma_pow2_adds(128, 128);
}

impl U256 {
    /// Quotient and remainder by binary long division: the dividend's bits
    /// are shifted in from the top, one at a time, into a running remainder.
    fn long_div(self, rhs: U256) -> (r: (U256, U256))
        requires
            rhs@ > 0,
        ensures
            r.0@ * rhs@ + r.1@ == self@,
            0 <= r.1@ < rhs@,
    {
        let mut n = self;
        let mut q = U256::zero();
        let mut rem = U256::zero();
        let mut i: u32 = 0;
        let ghost mut p: int = 0;
        let ghost m = modulus();
        proof {
            lemma_modulus_pow2();
            lemma2_to64();
            self.lemma_range();
            assert(m == 2 * (word_base() * (word_base() / 2))) by (nonlinear_arith)
                requires
                    m == word_base() * word_base(),
                    word_base() % 2 == 0,
            ;
        }
        while i < 256
            invariant
                i <= 256,
                m == modulus(),
                m == 2 * (word_base() * (word_base() / 2)),
                pow2(256) == m,
                0 <= self@ < m,
                self@ * pow2(i as nat) == p * m + n@,
                0 <= p < pow2(i as nat),
                q@ * rhs@ + rem@ == p,
                0 <= rem@ < rhs@,
                rhs@ > 0,
            decreases 256 - i,
        {
            proof {
                n.lemma_range();
                q.lemma_range();
                rem.lemma_range();
                lemma_pow2_unfold((i + 1) as nat);
                if i + 1 < 256 {
                    lemma_pow2_strictly_increases((i + 1) as nat, 256);
                }
            }
            let ghost pw = pow2(i as nat);
            let (n2, t) = n.overflowing_add(n);
            let ghost ti: int = if t { 1 } else { 0 };
            let bit = if t { U256::one() } else { U256::zero() };
            let (r2, big) = rem.overflowing_add(rem);
            let (r3, c) = r2.overflowing_add(bit);
            proof {
                r2.lemma_range();
                r3.lemma_range();
                let h = word_base() * (word_base() / 2);
                let bi: int = if big { 1 } else { 0 };
                let ci: int = if c { 1 } else { 0 };
                assert(ci == 0) by (nonlinear_arith)
                    requires
                        m == 2 * h,
                        r2@ + bi * m == 2 * rem@,
                        r3@ + ci * m == r2@ + ti,
                        0 <= r2@ < m,
                        0 <= r3@ < m,
                        0 <= ti <= 1,
                        0 <= ci <= 1,
                        0 <= bi <= 1,
                ;
                assert(self@ * pow2((i + 1) as nat) == (2 * p + ti) * m + n2@) by (nonlinear_arith)
                    requires
                        pow2((i + 1) as nat) == 2 * pw,
                        self@ * pw == p * m + n@,
                        n2@ + ti * m == n@ + n@,
                ;
            }
            let ghost p2 = 2 * p + ti;
            if big || r3.ge(&rhs) {
                let (r4, b4) = r3.overflowing_sub(rhs);
                let (q2, o2) = q.overflowing_add(q);
                proof {
                    assert(p2 < m) by (nonlinear_arith)
                        requires
                            p2 == 2 * p + ti,
                            p < pw,
                            pow2((i + 1) as nat) == 2 * pw,
                            pow2((i + 1) as nat) <= m,
                            0 <= ti <= 1,
                    ;
                    assert(2 * q@ < m) by (nonlinear_arith)
                        requires
                            q@ * rhs@ + rem@ == p,
                            rhs@ >= 1,
                            0 <= rem@,
                            p2 == 2 * p + ti,
                            p2 < m,
                            0 <= ti,
                            0 <= q@,
                    ;
                }
                let (q3, o3) = q2.overflowing_add(U256::one());
                proof {
                    q2.lemma_range();
                    q3.lemma_range();
                    r4.lemma_range();
                    assert(q2@ == 2 * q@);
                    assert(q3@ == 2 * q@ + 1);
                    assert(r4@ == 2 * rem@ + ti - rhs@);
                    assert(q3@ * rhs@ + r4@ == p2) by (nonlinear_arith)
                        requires
                            q3@ == 2 * q@ + 1,
                            r4@ == 2 * rem@ + ti - rhs@,
                            q@ * rhs@ + rem@ == p,
                            p2 == 2 * p + ti,
                    ;
                    assert((2 * q@ + 1) * rhs@ <= p2) by (nonlinear_arith)
                        requires
                            q@ * rhs@ + rem@ == p,
                            p2 == 2 * p + ti,
                            2 * rem@ + ti >= rhs@,
                    ;
                    assert(2 * q@ + 1 < m) by (nonlinear_arith)
                        requires
                            (2 * q@ + 1) * rhs@ <= p2,
                            p2 < m,
                            rhs@ >= 1,
                            q@ >= 0,
                    ;
                }
                q = q3;
                rem = r4;
            } else {
                let (q2, o2) = q.overflowing_add(q);
                proof {
                    assert(p2 < m) by (nonlinear_arith)
                        requires
                            p2 == 2 * p + ti,
                            p < pw,
                            pow2((i + 1) as nat) == 2 * pw,
                            pow2((i + 1) as nat) <= m,
                            0 <= ti <= 1,
                    ;
                    assert(2 * q@ < m) by (nonlinear_arith)
                        requires
                            q@ * rhs@ + rem@ == p,
                            rhs@ >= 1,
                            0 <= rem@,
                            p2 == 2 * p + ti,
                            p2 < m,
                            0 <= ti,
                            0 <= q@,
                    ;
                }
                proof {
                    q2.lemma_range();
                    assert(q2@ == 2 * q@);
                    assert(r3@ == 2 * rem@ + ti);
                    assert(q2@ * rhs@ + r3@ == p2) by (nonlinear_arith)
                        requires
                            q2@ == 2 * q@,
                            r3@ == 2 * rem@ + ti,
                            q@ * rhs@ + rem@ == p,
                            p2 == 2 * p + ti,
                    ;
                }
                q = q2;
                rem = r3;
            }
            n = n2;
            proof {
                p = p2;
            }
            i = i + 1;
        }
        proof {
            n.lemma_range();
            vstd::arithmetic::div_mod::lemma_fundamental_div_mod_converse(self@ * m, m, p, n@);
            vstd::arithmetic::div_mod::lemma_fundamental_div_mod_converse(self@ * m, m, self@, 0);
        }
        (q, rem)
    }

    /// Whether `self` is at least `other`.
    pub fn ge(&self, other: &U256) -> (r: bool)
        ensures
            r <==> self@ >= other@,
    {
        proof {
            self.lemma_range();
            other.lemma_range();
            lemma_word_order(self.hi as int, self.lo as int, other.hi as int, other.lo as int);
        }
        self.hi > other.hi || (self.hi == other.hi && self.lo >= other.lo)
    }
}

impl U256 {
    /// The difference, or `None` when `rhs` exceeds `self`.
    pub fn checked_sub(self, rhs: U256) -> (r: Option<U256>)
        ensures
            r.is_some() <==> self@ >= rhs@,
            r.is_some() ==> r.unwrap()@ == self@ - rhs@,
    {
        let (r, o) = self.overflowing_sub(rhs);
        proof {
            r.lemma_range();
        }
        if o {
            None
        } else {
            Some(r)
        }
    }

    /// The sum, or the largest value when it does not fit.
    pub fn saturating_add(self, rhs: U256) -> (r: U256)
        ensures
            r@ == if self@ + rhs@ < modulus() { self@ + rhs@ } else { modulus() - 1 },
    {
        match self.checked_add(rhs) {
            Some(r) => r,
            None => U256::max_value(),
        }
    }

    /// The difference, or zero when `rhs` exceeds `self`.
    pub fn saturating_sub(self, rhs: U256) -> (r: U256)
        ensures
            r@ == if self@ >= rhs@ { self@ - rhs@ } else { 0 },
    {
        match self.checked_sub(rhs) {
            Some(r) => r,
            None => U256::zero(),
        }
    }

    /// The two's-complement negation, `2^256 - self` (zero stays zero).
    pub fn wrapping_neg(self) -> (r: U256)
        ensures
            r@ == (-self@) % modulus(),
            self@ == 0 ==> r@ == 0,
            self@ != 0 ==> r@ == modulus() - self@,
    {
        let r = U256::zero().wrapping_sub(self);
        proof {
            self.lemma_range();
            if self@ != 0 {
                lemma_wrap_once(modulus() - self@, -self@, -1);
            } else {
                lemma_wrap_once(0, 0, 0);
            }
        }
        r
    }

    /// The negation, which exists only for zero.
    pub fn checked_neg(self) -> (r: Option<U256>)
        ensures
            r.is_some() <==> self@ == 0,
            r.is_some() ==> r.unwrap()@ == 0,
    {
        if self.is_zero() {
            Some(self)
        } else {
            None
        }
    }

    /// Quotient and remainder; division by zero is an error.
    pub fn div_rem(self, rhs: U256) -> (r: Result<(U256, U256), NumError>)
        ensures
            rhs@ == 0 <==> r == Err::<(U256, U256), NumError>(NumError::DivisionByZero),
            r.is_ok() ==> r.unwrap().0@ == self@ / rhs@ && r.unwrap().1@ == self@ % rhs@,
    {
        if rhs.is_zero() {
            Err(NumError::DivisionByZero)
        } else {
            let (q, m) = self.long_div(rhs);
            proof {
                vstd::arithmetic::div_mod::lemma_fundamental_div_mod_converse(self@, rhs@, q@, m@);
            }
            Ok((q, m))
        }
    }

    /// The quotient, rounded down; `rhs` must not be zero.
    pub fn wrapping_div(self, rhs: U256) -> (r: U256)
        requires
            rhs@ != 0,
        ensures
            r@ == self@ / rhs@,
    {
        let (q, m) = self.long_div(rhs);
        proof {
            vstd::arithmetic::div_mod::lemma_fundamental_div_mod_converse(self@, rhs@, q@, m@);
        }
        q
    }

    /// The remainder; `rhs` must not be zero.
    pub fn wrapping_rem(self, rhs: U256) -> (r: U256)
        requires
            rhs@ != 0,
        ensures
            r@ == self@ % rhs@,
    {
        let (q, m) = self.long_div(rhs);
        proof {
            vstd::arithmetic::div_mod::lemma_fundamental_div_mod_converse(self@, rhs@, q@, m@);
        }
        m
    }

    /// The quotient, or `None` for a zero divisor.
    pub fn checked_div(self, rhs: U256) -> (r: Option<U256>)
        ensures
            r.is_some() <==> rhs@ != 0,
            r.is_some() ==> r.unwrap()@ == self@ / rhs@,
    {
        if rhs.is_zero() {
            None
        } else {
            Some(self.wrapping_div(rhs))
        }
    }

    /// The remainder, or `None` for a zero divisor.
    pub fn checked_rem(self, rhs: U256) -> (r: Option<U256>)
        ensures
            r.is_some() <==> rhs@ != 0,
            r.is_some() ==> r.unwrap()@ == self@ % rhs@,
    {
        if rhs.is_zero() {
            None
        } else {
            Some(self.wrapping_rem(rhs))
        }
    }

    /// Whether the value is zero.
    pub fn is_zero(&self) -> (r: bool)
        ensures
            r <==> self@ == 0,
    {
        proof {
            lemma_word_order(self.hi as int, self.lo as int, 0, 0);
        }
        self.hi == 0 && self.lo == 0
    }

    /// The order of two values.
    pub fn compare(&self, other: &U256) -> (r: core::cmp::Ordering)
        ensures
            (r == core::cmp::Ordering::Less) <==> self@ < other@,
            (r == core::cmp::Ordering::Equal) <==> self@ == other@,
            (r == core::cmp::Ordering::Greater) <==> self@ > other@,
    {
        proof {
            lemma_word_order(self.hi as int, self.lo as int, other.hi as int, other.lo as int);
        }
        if self.hi < other.hi {
            core::cmp::Ordering::Less
        } else if self.hi > other.hi {
            core::cmp::Ordering::Greater
        } else if self.lo < other.lo {
            core::cmp::Ordering::Less
        } else if self.lo > other.lo {
            core::cmp::Ordering::Greater
        } else {
            core::cmp::Ordering::Equal
        }
    }

    /// The smaller of two values.
    pub fn min(self, other: U256) -> (r: U256)
        ensures
            r@ == if self@ <= other@ { self@ } else { other@ },
    {
        if other.ge(&self) {
            self
        } else {
            other
        }
    }

    /// The larger of two values.
    pub fn max(self, other: U256) -> (r: U256)
        ensures
            r@ == if self@ >= other@ { self@ } else { other@ },
    {
        if self.ge(&other) {
            self
        } else {
            other
        }
    }

    /// The value restricted to `[lo, hi]`.
    pub fn clamp(self, lo: U256, hi: U256) -> (r: U256)
        requires
            lo@ <= hi@,
        ensures
            r@ == if self@ < lo@ { lo@ } else if self@ > hi@ { hi@ } else { self@ },
    {
        if !self.ge(&lo) {
            lo
        } else if hi.ge(&self) {
            self
        } else {
            hi
        }
    }

    /// Bitwise and, word by word.
    pub fn bit_and(self, rhs: U256) -> (r: U256)
        ensures
            r.hi_word() == self.hi_word() & rhs.hi_word(),
            r.lo_word() == self.lo_word() & rhs.lo_word(),
    {
        U256 { lo: self.lo & rhs.lo, hi: self.hi & rhs.hi }
    }

    /// Bitwise or, word by word.
    pub fn bit_or(self, rhs: U256) -> (r: U256)
        ensures
            r.hi_word() == self.hi_word() | rhs.hi_word(),
            r.lo_word() == self.lo_word() | rhs.lo_word(),
    {
        U256 { lo: self.lo | rhs.lo, hi: self.hi | rhs.hi }
    }

    /// Bitwise exclusive or, word by word.
    pub fn bit_xor(self, rhs: U256) -> (r: U256)
        ensures
            r.hi_word() == self.hi_word() ^ rhs.hi_word(),
            r.lo_word() == self.lo_word() ^ rhs.lo_word(),
    {
        U256 { lo: self.lo ^ rhs.lo, hi: self.hi ^ rhs.hi }
    }

    /// Every bit inverted: `2^256 - 1 - self`.
    pub fn bit_not(self) -> (r: U256)
        ensures
            r.hi_word() == !self.hi_word(),
            r.lo_word() == !self.lo_word(),
            r@ == modulus() - 1 - self@,
    {
        let lo = self.lo;
        let hi = self.hi;
        assert(!lo == u128::MAX - lo) by (bit_vector);
        assert(!hi == u128::MAX - hi) by (bit_vector);
        let r = U256 { lo: !lo, hi: !hi };
        assert(u128::MAX as int * word_base() + u128::MAX as int == modulus() - 1) by (nonlinear_arith);
        r
    }
}

impl U256 {
    /// `2^k` as a value, for `k < 256`.
    pub fn pow2_value(k: u32) -> (r: U256)
        requires
            k < 256,
        ensures
            r@ == pow2(k as nat),
    {
        let mut p = U256::one();
        let mut i: u32 = 0;
        proof {
            lemma2_to64();
            lemma_modulus_pow2();
        }
        while i < k
            invariant
                i <= k < 256,
                p@ == pow2(i as nat),
                pow2(256) == modulus(),
            decreases k - i,
        {
            proof {
                lemma_pow2_unfold((i + 1) as nat);
                lemma_pow2_strictly_increases((i + 1) as nat, 256);
                p.lemma_range();
            }
            let (d, _) = p.overflowing_add(p);
            proof {
                d.lemma_range();
            }
            p = d;
            i = i + 1;
        }
        p
    }

    /// Shift left by `n` modulo 256 bits, dropping the bits shifted out.
    pub fn wrapping_shl(self, n: u32) -> (r: U256)
        ensures
            r@ == (self@ * pow2((n % 256) as nat)) % modulus(),
    {
        self.wrapping_mul(U256::pow2_value(n % 256))
    }

    /// Shift right by `n` modulo 256 bits.
    pub fn wrapping_shr(self, n: u32) -> (r: U256)
        ensures
            r@ == self@ / (pow2((n % 256) as nat) as int),
    {
        proof {
            vstd::arithmetic::power2::lemma_pow2_pos((n % 256) as nat);
        }
        self.wrapping_div(U256::pow2_value(n % 256))
    }

    /// Shift left, or `None` when `n` is 256 or more.
    pub fn checked_shl(self, n: u32) -> (r: Option<U256>)
        ensures
            r.is_some() <==> n < 256,
            r.is_some() ==> r->Some_0@ == (self@ * pow2(n as nat)) % modulus(),
    {
        if n < 256 {
            Some(self.wrapping_shl(n))
        } else {
            None
        }
    }

    /// Shift right, or `None` when `n` is 256 or more.
    pub fn checked_shr(self, n: u32) -> (r: Option<U256>)
        ensures
            r.is_some() <==> n < 256,
            r.is_some() ==> r->Some_0@ == self@ / (pow2(n as nat) as int),
    {
        if n < 256 {
            Some(self.wrapping_shr(n))
        } else {
            None
        }
    }

    /// The number of leading zero bits: 256 for zero, otherwise the `z` with
    /// `2^(255 - z) <= self < 2^(256 - z)`.
    pub fn leading_zeros(self) -> (r: u32)
        ensures
            r <= 256,
            self@ == 0 <==> r == 256,
            r < 256 ==> pow2((255 - r) as nat) <= self@ < pow2((256 - r) as nat),
    {
        let mut z: u32 = 0;
        let mut p = U256::pow2_value(255);
        proof {
            self.lemma_range();
            lemma_modulus_pow2();
            lemma2_to64();
        }
        while z < 256 && !self.ge(&p)
            invariant
                z <= 256,
                z < 256 ==> p@ == pow2((255 - z) as nat),
                self@ < pow2((256 - z) as nat),
                self@ >= 0,
                pow2(1) == 2,
            decreases 256 - z,
        {
            if z < 255 {
                proof {
                    lemma_pow2_unfold((255 - z) as nat);
                }
                let ghost old_p = p@;
                p = p.wrapping_shr(1);
                assert(p@ == old_p / 2);
                assert(old_p == 2 * pow2((254 - z) as nat));
                assert(p@ == pow2((254 - z) as nat));
            }
            z = z + 1;
        }
        proof {
            if z < 256 {
                vstd::arithmetic::power2::lemma_pow2_pos((255 - z) as nat);
            }
        }
        z
    }

    /// `self` raised to `exp`, modulo `2^256`, by repeated squaring.
    pub fn wrapping_pow(self, exp: u32) -> (r: U256)
        ensures
            r@ == vstd::arithmetic::power::pow(self@, exp as nat) % modulus(),
    {
        let mut acc = U256::one();
        let mut base = self;
        let mut e: u32 = exp;
        let ghost m = modulus();
        proof {
            assert(m > 1) by (nonlinear_arith)
                requires
                    m == word_base() * word_base(),
                    word_base() > 1,
            ;
            vstd::arithmetic::power::lemma_pow0(self@);
            self.lemma_range();
            vstd::arithmetic::div_mod::lemma_small_mod(1, m as nat);
            vstd::arithmetic::div_mod::lemma_small_mod(self@ as nat, m as nat);
        }
        while e > 0
            invariant
                m == modulus(),
                m > 0,
                (acc@ * vstd::arithmetic::power::pow(base@, e as nat)) % m
                    == vstd::arithmetic::power::pow(self@, exp as nat) % m,
            decreases e,
        {
            let ghost pb = vstd::arithmetic::power::pow(base@, (e / 2) as nat);
            proof {
                vstd::arithmetic::power::lemma_pow_adds(base@, (e / 2) as nat, (e / 2) as nat);
                vstd::arithmetic::power::lemma_pow_multiplies(base@, 2, (e / 2) as nat);
                vstd::arithmetic::power::lemma_pow1(base@);
                vstd::arithmetic::power::lemma_pow_adds(base@, 1, (e - 1) as nat);
                vstd::arithmetic::power::lemma_square_is_pow2(base@);
            }
            if e % 2 == 1 {
                let ghost old_acc = acc@;
                acc = acc.wrapping_mul(base);
                proof {
                    vstd::arithmetic::div_mod::lemma_mul_mod_noop_left(old_acc * base@, vstd::arithmetic::power::pow(base@, (e - 1) as nat), m);
                    vstd::arithmetic::mul::lemma_mul_is_associative(old_acc, base@, vstd::arithmetic::power::pow(base@, (e - 1) as nat));
                }
                e = e - 1;
            } else {
                let ghost old_base = base@;
                base = base.wrapping_mul(base);
                proof {
                    assert(vstd::arithmetic::power::pow(old_base, e as nat) == vstd::arithmetic::power::pow(old_base * old_base, (e / 2) as nat)) by {
                        vstd::arithmetic::power::lemma_pow_multiplies(old_base, 2, (e / 2) as nat);
                        vstd::arithmetic::power::lemma_square_is_pow2(old_base);
                    }
                    vstd::arithmetic::power::lemma_pow_mod_noop(old_base * old_base, (e / 2) as nat, m);
                    vstd::arithmetic::div_mod::lemma_mul_mod_noop_right(acc@, vstd::arithmetic::power::pow(old_base * old_base, (e / 2) as nat), m);
                    vstd::arithmetic::div_mod::lemma_mul_mod_noop_right(acc@, vstd::arithmetic::power::pow((old_base * old_base) % m, (e / 2) as nat), m);
                }
                e = e / 2;
            }
        }
        proof {
            vstd::arithmetic::power::lemma_pow0(base@);
            acc.lemma_range();
            vstd::arithmetic::div_mod::lemma_small_mod(acc@ as nat, m as nat);
        }
        acc
    }
}

/// A pair of words determines the value, and the value determines the pair:
/// splitting a value built from `(hi, lo)` gives `(hi, lo)` back.
pub proof fn law_words_round_trip(hi: u128, lo: u128, v: U256)
    requires
        v@ == hi as int * word_base() + lo as int,
    ensures
        v.hi_word() == hi,
        v.lo_word() == lo,
{
    lemma_word_order(v.hi_word() as int, v.lo_word() as int, hi as int, lo as int);
}

/// Wrapping addition of `b` is undone by wrapping subtraction of `b`, and a
/// value plus its wrapping negation wraps to zero.
pub proof fn law_add_sub_inverse(a: U256, b: U256)
    ensures
        ((a@ + b@) % modulus() - b@) % modulus() == a@,
        (a@ + (-a@) % modulus()) % modulus() == 0,
{
    a.lemma_range();
    b.lemma_range();
    let m = modulus();
    if a@ + b@ < m {
        lemma_wrap_once(a@ + b@, a@ + b@, 0);
        lemma_wrap_once(a@, a@, 0);
    } else {
        lemma_wrap_once(a@ + b@ - m, a@ + b@, 1);
        lemma_wrap_once(a@, a@ + b@ - m - b@, -1);
    }
    if a@ == 0 {
        lemma_wrap_once(0, 0, 0);
    } else {
        lemma_wrap_once(m - a@, -a@, -1);
        lemma_wrap_once(0, m, 1);
    }
}

/// Quotient times divisor plus remainder gives back the dividend, and the
/// remainder is below the divisor.
pub proof fn law_div_rem(a: U256, b: U256)
    requires
        b@ != 0,
    ensures
        (a@ / b@) * b@ + a@ % b@ == a@,
        0 <= a@ % b@ < b@,
{
    a.lemma_range();
    b.lemma_range();
    vstd::arithmetic::div_mod::lemma_fundamental_div_mod(a@, b@);
    vstd::arithmetic::mul::lemma_mul_is_commutative(a@ / b@, b@);
}

/// Values compare as their high words, and on a tie as their low words.
proof fn lemma_word_order(h1: int, l1: int, h2: int, l2: int)
    requires
        0 <= l1 < word_base(),
        0 <= l2 < word_base(),
    ensures
        h1 * word_base() + l1 >= h2 * word_base() + l2 <==> h1 > h2 || (h1 == h2 && l1 >= l2),
        h1 * word_base() + l1 == h2 * word_base() + l2 <==> h1 == h2 && l1 == l2,
{
    let w = word_base();
    if h1 > h2 {
        assert(h1 * w >= h2 * w + w) by (nonlinear_arith)
            requires
                h1 >= h2 + 1,
                w > 0,
        ;
    } else if h1 < h2 {
        assert(h2 * w >= h1 * w + w) by (nonlinear_arith)
            requires
                h2 >= h1 + 1,
                w > 0,
        ;
    }
}

/// `x` is `v` reduced once by a multiple `k` of `2^256`.
proof fn lemma_wrap_once(x: int, v: int, k: int)
    requires
        0 <= x < modulus(),
        x + k * modulus() == v,
    ensures
        x == v % modulus(),
{
    let m = modulus();
    let w = word_base();
    assert(w * w > 0) by (nonlinear_arith)
        requires
            w > 0,
    ;
    vstd::arithmetic::div_mod::lemma_fundamental_div_mod_converse(v, m, k, x);
}

impl U256 {
}

} // verus!
