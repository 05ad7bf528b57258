//! Fixed-width and compressed byte encodings, big- and little-endian.

use vstd::prelude::*;
use vstd::arithmetic::power2::{pow2, lemma2_to64, lemma_pow2_adds};
use crate::error::NumError;
use crate::uint::{U256, modulus, lemma_modulus_pow2};

verus! {

/// `256^n`.
pub open spec fn pow256(n: nat) -> int
    decreases n,
{
    if n == 0 {
        1
    } else {
        256 * pow256((n - 1) as nat)
    }
}

/// The value of bytes read most significant first.
pub open spec fn be_value(s: Seq<u8>) -> int
    decreases s.len(),
{
    if s.len() == 0 {
        0
    } else {
        s[0] * pow256((s.len() - 1) as nat) + be_value(s.skip(1))
    }
}

/// The `n` low bytes of `v`, most significant first.
pub open spec fn be_bytes_of(v: int, n: nat) -> Seq<u8> {
    Seq::new(n, |i: int| ((v / pow256((n - 1 - i) as nat)) % 256) as u8)
}

/// `s` without its leading zero bytes, keeping at least one byte.
pub open spec fn strip_zeros(s: Seq<u8>) -> Seq<u8>
    decreases s.len(),
{
    if s.len() > 1 && s[0] == 0 {
        strip_zeros(s.skip(1))
    } else {
        s
    }
}

/// The compressed big-endian form of `v`: its 32 bytes without the leading
/// zero bytes, one zero byte for zero.
pub open spec fn compressed_be(v: int) -> Seq<u8> {
    strip_zeros(be_bytes_of(v, 32))
}

proof fn lemma_pow256_pos(n: nat)
    ensures
        pow256(n) >= 1,
    decreases n,
{
    if n > 0 {
        lemma_pow256_pos((n - 1) as nat);
    }
}

proof fn lemma_pow256_is_pow2(n: nat)
    ensures
        pow256(n) == pow2(8 * n),
    decreases n,
{
    lemma2_to64();
    if n > 0 {
        lemma_pow256_is_pow2((n - 1) as nat);
        lemma_pow2_adds(8 * (n - 1) as nat, 8);
    }
}

/// 32 bytes hold every 256-bit value, and fewer bytes hold less.
proof fn lemma_pow256_bounds(n: nat)
    requires
        n <= 32,
    ensures
        pow256(n) <= modulus(),
        n == 32 ==> pow256(n) == modulus(),
{
    lemma_pow256_is_pow2(n);
    lemma_pow256_is_pow2(32);
    lemma_modulus_pow2();
    if n < 32 {
        vstd::arithmetic::power2::lemma_pow2_strictly_increases(8 * n, 256);
    }
}

proof fn lemma_be_value_bounds(s: Seq<u8>)
    ensures
        0 <= be_value(s) < pow256(s.len()),
    decreases s.len(),
{
    if s.len() > 0 {
        let n = (s.len() - 1) as nat;
        lemma_be_value_bounds(s.skip(1));
        lemma_pow256_pos(n);
        assert(s[0] * pow256(n) <= 255 * pow256(n)) by (nonlinear_arith)
            requires
                s[0] <= 255,
                pow256(n) >= 1,
        ;
        assert(0 <= s[0] * pow256(n)) by (nonlinear_arith)
            requires
                s[0] >= 0,
                pow256(n) >= 1,
        ;
    }
}

/// Reading the `n` low bytes of `v` gives `v` modulo `256^n`.
proof fn lemma_be_bytes_value(v: int, n: nat)
    requires
        0 <= v,
    ensures
        be_value(be_bytes_of(v, n)) == v % pow256(n),
    decreases n,
{
    lemma_pow256_pos(n);
    if n == 0 {
        assert(v % 1 == 0);
    } else {
        let m = (n - 1) as nat;
        let s = be_bytes_of(v, n);
        assert(s.skip(1) =~= be_bytes_of(v, m));
        lemma_be_bytes_value(v, m);
        lemma_pow256_pos(m);
        vstd::arithmetic::div_mod::lemma_mod_breakdown(v, pow256(m), 256);
        vstd::arithmetic::div_mod::lemma_mod_bound(v / pow256(m), 256);
        assert(0 <= v / pow256(m)) by (nonlinear_arith)
            requires
                v >= 0,
                pow256(m) >= 1,
        ;
        vstd::arithmetic::mul::lemma_mul_is_commutative(pow256(m), 256);
        assert(s[0] as int == (v / pow256(m)) % 256);
    }
}

/// Leading zero bytes do not change the value.
proof fn lemma_strip_zeros_value(s: Seq<u8>)
    ensures
        be_value(strip_zeros(s)) == be_value(s),
        strip_zeros(s).len() <= s.len(),
    decreases s.len(),
{
    if s.len() > 1 && s[0] == 0 {
        lemma_strip_zeros_value(s.skip(1));
    }
}

/// Reading a value's compressed form gives the value back.
proof fn lemma_compressed_value(v: int)
    requires
        0 <= v < modulus(),
    ensures
        be_value(compressed_be(v)) == v,
        compressed_be(v).len() <= 32,
{
    lemma_strip_zeros_value(be_bytes_of(v, 32));
    lemma_be_bytes_value(v, 32);
    lemma_pow256_bounds(32);
    vstd::arithmetic::div_mod::lemma_small_mod(v as nat, modulus() as nat);
}

/// Decoding a compressed big-endian encoding and encoding the value again
/// gives the same bytes.
pub proof fn law_compressed_round_trip(v: U256)
    ensures
        compressed_be(be_value(compressed_be(v@))) == compressed_be(v@),
        compressed_be(be_value(compressed_be(v@).reverse().reverse())).reverse() == compressed_be(v@).reverse(),
{
    v.lemma_range();
    lemma_compressed_value(v@);
    assert(compressed_be(v@).reverse().reverse() =~= compressed_be(v@));
}

proof fn lemma_pow256_adds(a: nat, b: nat)
    ensures
        pow256(a + b) == pow256(a) * pow256(b),
    decreases b,
{
    if b > 0 {
        lemma_pow256_adds(a, (b - 1) as nat);
        assert(pow256(a + b) == 256 * pow256((a + b - 1) as nat));
        assert(256 * (pow256(a) * pow256((b - 1) as nat)) == pow256(a) * (256 * pow256((b - 1) as nat))) by (nonlinear_arith);
    }
}

/// Writing the value of `c` in `c.len()` bytes gives `c` back.
proof fn lemma_be_bytes_of_value(c: Seq<u8>)
    ensures
        be_bytes_of(be_value(c), c.len()) == c,
    decreases c.len(),
{
    let n = c.len();
    if n > 0 {
        let t = c.skip(1);
        let pp = pow256((n - 1) as nat);
        let r = be_value(t);
        let v = be_value(c);
        lemma_be_bytes_of_value(t);
        lemma_be_value_bounds(t);
        lemma_pow256_pos((n - 1) as nat);
        assert forall|i: int| 0 <= i < n implies #[trigger] be_bytes_of(v, n)[i] == c[i] by {
            let e = (n - 1 - i) as nat;
            let q = pow256(e);
            lemma_pow256_pos(e);
            if i == 0 {
                vstd::arithmetic::div_mod::lemma_fundamental_div_mod_converse(v, pp, c[0] as int, r);
                vstd::arithmetic::div_mod::lemma_small_mod(c[0] as nat, 256);
            } else {
                let g = (i - 1) as nat;
                lemma_pow256_adds(e, (i) as nat);
                lemma_pow256_adds(1, g);
                assert(pp == q * pow256(i as nat));
                assert(pow256(0) == 1);
                assert(pow256(1) == 256);
                let a = c[0] * pow256(i as nat);
                assert(v == a * q + r) by (nonlinear_arith)
                    requires
                        v == c[0] * pp + r,
                        pp == q * pow256(i as nat),
                        a == c[0] * pow256(i as nat),
                ;
                vstd::arithmetic::div_mod::lemma_fundamental_div_mod(r, q);
                vstd::arithmetic::div_mod::lemma_mod_bound(r, q);
                assert(v == (a + r / q) * q + r % q) by (nonlinear_arith)
                    requires
                        v == a * q + r,
                        r == q * (r / q) + r % q,
                ;
                vstd::arithmetic::div_mod::lemma_fundamental_div_mod_converse(v, q, a + r / q, r % q);
                assert(a == (c[0] * pow256(g)) * 256) by (nonlinear_arith)
                    requires
                        a == c[0] * pow256(i as nat),
                        pow256(i as nat) == 256 * pow256(g),
                ;
                vstd::arithmetic::div_mod::lemma_div_pos_is_pos(r, q);
                vstd::arithmetic::div_mod::lemma_mod_multiples_vanish(c[0] * pow256(g), r / q, 256);
                assert(256 * (c[0] * pow256(g)) == a) by (nonlinear_arith)
                    requires
                        a == (c[0] * pow256(g)) * 256,
                ;
                assert(be_bytes_of(r, (n - 1) as nat)[i - 1] == t[i - 1]);
                assert((n - 1 - 1 - (i - 1)) as nat == e);
            }
        }
        assert(be_bytes_of(v, n) =~= c);
    } else {
        assert(be_bytes_of(be_value(c), 0) =~= c);
    }
}

/// A value below `256^n` takes `32 - n` leading zero bytes, then its `n`
/// low bytes.
proof fn lemma_be_bytes_leading_zeros(v: int, n: nat)
    requires
        n <= 32,
        0 <= v < pow256(n),
    ensures
        be_bytes_of(v, 32) == Seq::new((32 - n) as nat, |i: int| 0u8) + be_bytes_of(v, n),
{
    let z = Seq::new((32 - n) as nat, |i: int| 0u8);
    assert forall|i: int| 0 <= i < 32 implies #[trigger] be_bytes_of(v, 32)[i] == (z + be_bytes_of(v, n))[i] by {
        let e = (31 - i) as nat;
        if i < 32 - n {
            lemma_pow256_adds(n, (e - n) as nat);
            lemma_pow256_pos((e - n) as nat);
            lemma_pow256_pos(n);
            assert(pow256(e) >= pow256(n)) by (nonlinear_arith)
                requires
                    pow256(e) == pow256(n) * pow256((e - n) as nat),
                    pow256((e - n) as nat) >= 1,
                    pow256(n) >= 1,
            ;
            vstd::arithmetic::div_mod::lemma_basic_div(v, pow256(e));
        } else {
            assert((n - 1 - (i - (32 - n))) as nat == e);
        }
    }
    assert(be_bytes_of(v, 32) =~= z + be_bytes_of(v, n));
}

/// Stripping zero bytes put before a canonical byte string gives it back.
proof fn lemma_strip_prefixed_zeros(z: nat, c: Seq<u8>)
    requires
        c.len() >= 1,
        c[0] != 0 || c.len() == 1,
    ensures
        strip_zeros(Seq::new(z, |i: int| 0u8) + c) == c,
    decreases z,
{
    let s = Seq::new(z, |i: int| 0u8) + c;
    if z > 0 {
        assert(s.skip(1) =~= Seq::new((z - 1) as nat, |i: int| 0u8) + c);
        lemma_strip_prefixed_zeros((z - 1) as nat, c);
    } else {
        assert(s =~= c);
    }
}

/// Every canonical compressed big-endian byte string (1 to 32 bytes, no
/// leading zero byte unless it is the single byte of zero) is the
/// compressed encoding of the value it reads as; the little-endian form
/// likewise, with trailing zeros.
pub proof fn law_canonical_compressed(c: Seq<u8>)
    requires
        1 <= c.len() <= 32,
        c[0] != 0 || c == seq![0u8],
    ensures
        compressed_be(be_value(c)) == c,
        compressed_be(be_value(c.reverse().reverse())).reverse() == c.reverse(),
{
    lemma_be_value_bounds(c);
    lemma_be_bytes_leading_zeros(be_value(c), c.len());
    lemma_be_bytes_of_value(c);
    lemma_strip_prefixed_zeros((32 - c.len()) as nat, c);
    assert(c.reverse().reverse() =~= c);
}

/// Reading the fixed 32-byte big-endian encoding gives the value back.
pub proof fn law_be_round_trip(v: U256)
    ensures
        be_value(be_bytes_of(v@, 32)) == v@,
{
    v.lemma_range();
    lemma_be_bytes_value(v@, 32);
    lemma_pow256_bounds(32);
    vstd::arithmetic::div_mod::lemma_small_mod(v@ as nat, modulus() as nat);
}

/// The value of big-endian bytes, at most 32 of them.
fn value_of_be(b: &[u8]) -> (r: U256)
    requires
        b@.len() <= 32,
    ensures
        r@ == be_value(b@),
{
    let n = b.len();
    let mut j: usize = n;
    let mut acc = U256::zero();
    let mut pow = U256::one();
    proof {
        assert(b@.skip(n as int) =~= Seq::<u8>::empty());
    }
    while j > 0
        invariant
            j <= n,
            n == b@.len(),
            n <= 32,
            acc@ == be_value(b@.skip(j as int)),
            j > 0 ==> pow@ == pow256((n - j) as nat),
        decreases j,
    {
        j = j - 1;
        let ghost k = (n - 1 - j) as nat;
        proof {
            assert(b@.skip(j as int).skip(1) =~= b@.skip(j + 1));
            lemma_be_value_bounds(b@.skip(j as int));
            lemma_pow256_bounds((n - j) as nat);
            lemma_pow256_pos(k);
            assert(b[j as int] * pow256(k) >= 0) by (nonlinear_arith)
                requires
                    b[j as int] >= 0,
                    pow256(k) >= 1,
            ;
        }
        let (term, _) = U256::new(b[j] as u128).overflowing_mul(pow);
        proof {
            vstd::arithmetic::div_mod::lemma_small_mod((b[j as int] * pow256(k)) as nat, modulus() as nat);
        }
        let (sum, _) = acc.overflowing_add(term);
        proof {
            sum.lemma_range();
        }
        acc = sum;
        if j > 0 {
            proof {
                lemma_pow256_bounds((n - j + 1) as nat);
            }
            let (p2, _) = pow.overflowing_mul(U256::new(256));
            proof {
                vstd::arithmetic::div_mod::lemma_small_mod((pow@ * 256) as nat, modulus() as nat);
            }
            pow = p2;
        }
    }
    assert(b@.skip(0) =~= b@);
    acc
}

impl U256 {
    /// The 32 bytes of the value, most significant first.
    pub fn to_be_bytes(&self) -> (r: [u8; 32])
        ensures
            r@ == be_bytes_of(self@, 32),
    {
        let mut out: [u8; 32] = [0u8; 32];
        let mut x = *self;
        let mut k: usize = 0;
        let base = U256::new(256);
        proof {
            self.lemma_range();
            lemma_pow256_pos(0);
        }
        while k < 32
            invariant
                k <= 32,
                out@.len() == 32,
                base@ == 256,
                0 <= self@,
                x@ == self@ / pow256(k as nat),
                forall|i: int| 32 - k <= i < 32 ==> #[trigger] out@[i] == ((self@ / pow256((31 - i) as nat)) % 256) as u8,
            decreases 32 - k,
        {
            let b = x.as_u8();
            out[31 - k] = b;
            proof {
                lemma_pow256_pos(k as nat);
                vstd::arithmetic::div_mod::lemma_div_denominator(self@, pow256(k as nat), 256);
                vstd::arithmetic::mul::lemma_mul_is_commutative(pow256(k as nat), 256);
            }
            x = x.wrapping_div(base);
            k = k + 1;
        }
        assert(out@ =~= be_bytes_of(self@, 32));
        out
    }

    /// The 32 bytes of the value, least significant first.
    pub fn to_le_bytes(&self) -> (r: [u8; 32])
        ensures
            r@ == be_bytes_of(self@, 32).reverse(),
    {
        let be = self.to_be_bytes();
        let mut out: [u8; 32] = [0u8; 32];
        let mut k: usize = 0;
        while k < 32
            invariant
                k <= 32,
                out@.len() == 32,
                be@ == be_bytes_of(self@, 32),
                forall|j: int| 0 <= j < k ==> out@[j] == be@[31 - j],
            decreases 32 - k,
        {
            out[k] = be[31 - k];
            k = k + 1;
        }
        assert(out@ =~= be_bytes_of(self@, 32).reverse());
        out
    }

    /// The value of 32 bytes, most significant first.
    pub fn from_be_bytes(bytes: [u8; 32]) -> (r: U256)
        ensures
            r@ == be_value(bytes@),
    {
        value_of_be(bytes.as_slice())
    }

    /// The value of 32 bytes, least significant first.
    pub fn from_le_bytes(bytes: [u8; 32]) -> (r: U256)
        ensures
            r@ == be_value(bytes@.reverse()),
    {
        let mut be: [u8; 32] = [0u8; 32];
        let mut k: usize = 0;
        while k < 32
            invariant
                k <= 32,
                be@.len() == 32,
                forall|j: int| 0 <= j < k ==> be@[j] == bytes@[31 - j],
            decreases 32 - k,
        {
            be[k] = bytes[31 - k];
            k = k + 1;
        }
        assert(be@ =~= bytes@.reverse());
        value_of_be(be.as_slice())
    }

    /// The value of exactly 32 bytes, most significant first.
    pub fn from_be_slice(bytes: &[u8]) -> (r: Result<U256, NumError>)
        ensures
            bytes@.len() != 32 <==> r == Err::<U256, NumError>(NumError::LengthMismatch),
            r.is_ok() ==> r->Ok_0@ == be_value(bytes@),
    {
        if bytes.len() != 32 {
            Err(NumError::LengthMismatch)
        } else {
            Ok(value_of_be(bytes))
        }
    }

    /// The value of exactly 32 bytes, least significant first.
    pub fn from_le_slice(bytes: &[u8]) -> (r: Result<U256, NumError>)
        ensures
            bytes@.len() != 32 <==> r == Err::<U256, NumError>(NumError::LengthMismatch),
            r.is_ok() ==> r->Ok_0@ == be_value(bytes@.reverse()),
    {
        if bytes.len() != 32 {
            return Err(NumError::LengthMismatch);
        }
        let rev = reversed(bytes);
        Ok(value_of_be(rev.as_slice()))
    }

    /// The compressed big-endian form: the 32 bytes without leading zero
    /// bytes, a single zero byte for zero.
    pub fn to_compressed_be(&self) -> (r: Vec<u8>)
        ensures
            r@ == compressed_be(self@),
    {
        let be = self.to_be_bytes();
        let mut start: usize = 0;
        assert(be@.skip(0) =~= be@);
        while start < 31 && be[start] == 0
            invariant
                start <= 31,
                be@ == be_bytes_of(self@, 32),
                strip_zeros(be@.skip(start as int)) == compressed_be(self@),
            decreases 31 - start,
        {
            assert(be@.skip(start as int).skip(1) =~= be@.skip(start + 1));
            start = start + 1;
        }
        let mut out: Vec<u8> = Vec::new();
        let mut k: usize = start;
        while k < 32
            invariant
                start <= k <= 32,
                be@.len() == 32,
                out@ == be@.subrange(start as int, k as int),
            decreases 32 - k,
        {
            out.push(be[k]);
            assert(be@.subrange(start as int, k + 1) =~= be@.subrange(start as int, k as int).push(be@[k as int]));
            k = k + 1;
        }
        assert(out@ =~= be@.skip(start as int));
        out
    }

    /// The compressed little-endian form: the 32 bytes least significant
    /// first, without trailing zero bytes, a single zero byte for zero.
    pub fn to_compressed_le(&self) -> (r: Vec<u8>)
        ensures
            r@ == compressed_be(self@).reverse(),
    {
        let be = self.to_compressed_be();
        reversed(be.as_slice())
    }

    /// The value of at most 32 bytes, most significant first.
    pub fn from_compressed_be(bytes: &[u8]) -> (r: Result<U256, NumError>)
        ensures
            bytes@.len() > 32 <==> r == Err::<U256, NumError>(NumError::LengthMismatch),
            r.is_ok() ==> r->Ok_0@ == be_value(bytes@),
    {
        if bytes.len() > 32 {
            Err(NumError::LengthMismatch)
        } else {
            Ok(value_of_be(bytes))
        }
    }

    /// The value of at most 32 bytes, least significant first.
    pub fn from_compressed_le(bytes: &[u8]) -> (r: Result<U256, NumError>)
        ensures
            bytes@.len() > 32 <==> r == Err::<U256, NumError>(NumError::LengthMismatch),
            r.is_ok() ==> r->Ok_0@ == be_value(bytes@.reverse()),
    {
        if bytes.len() > 32 {
            return Err(NumError::LengthMismatch);
        }
        let rev = reversed(bytes);
        Ok(value_of_be(rev.as_slice()))
    }
}

/// The bytes in reverse order.
fn reversed(bytes: &[u8]) -> (r: Vec<u8>)
    ensures
        r@ == bytes@.reverse(),
{
    let mut out: Vec<u8> = Vec::new();
    let mut k: usize = bytes.len();
    while k > 0
        invariant
            k <= bytes@.len(),
            out@.len() == bytes@.len() - k,
            forall|j: int| 0 <= j < out@.len() ==> out@[j] == bytes@[bytes@.len() - 1 - j],
        decreases k,
    {
        k = k - 1;
        out.push(bytes[k]);
    }
    assert(out@ =~= bytes@.reverse());
    out
}

} // verus!
