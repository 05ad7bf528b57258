//! A fixed-capacity byte buffer for rendering without the heap, and the
//! decimal form shared by both integer types.

use vstd::prelude::*;
use vstd::string::StringSliceAdditionalSpecFns;
use crate::error::NumError;
use crate::signed::{I256, abs_int};
use crate::text::{digit_char, lemma_decimal_lengths, law_parse_render, parse_spec, render_digits};
use crate::signed::law_signed_parse_render;
use crate::uint::U256;

verus! {

/// The capacity of [`FormatBuffer`]: the 78 digits of the largest unsigned
/// value, or a sign and the 77 digits of the most negative signed one.
pub const FORMAT_CAPACITY: usize = 78;

/// The bytes of ASCII characters.
pub open spec fn ascii_bytes(s: Seq<char>) -> Seq<u8> {
    Seq::new(s.len(), |i: int| s[i] as u8)
}

/// The decimal text of a sign and a magnitude: a `-` when `neg`, then the
/// digits.
pub open spec fn decimal_text(neg: bool, v: int) -> Seq<char> {
    (if neg { seq!['-'] } else { Seq::<char>::empty() }) + render_digits(v as nat, 10)
}

/// The decimal digits of `v`, least significant first, as ASCII bytes, and
/// their number.
fn decimal_digits(v: U256) -> (r: ([u8; 78], usize))
    ensures
        r.1 == render_digits(v@ as nat, 10).len(),
        r.1 <= FORMAT_CAPACITY,
        forall|i: int| 0 <= i < r.1 ==> r.0@[i] == render_digits(v@ as nat, 10)[r.1 - 1 - i] as u8,
{
    let ten = U256::new(10);
    let mut ds: [u8; 78] = [0u8; 78];
    let mut n: usize = 0;
    let mut rest = v;
    let ghost mut tail: Seq<char> = seq![];
    proof {
        v.lemma_range();
        lemma_decimal_lengths(v@);
    }
    loop
        invariant_except_break
            render_digits(v@ as nat, 10) == render_digits(rest@ as nat, 10) + tail,
        invariant
            ten@ == 10,
            ds@.len() == 78,
            n == tail.len(),
            render_digits(v@ as nat, 10).len() <= 78,
            forall|k: int| 0 <= k < n ==> ds@[k] == tail[n - 1 - k] as u8,
        ensures
            render_digits(v@ as nat, 10) == tail,
            n == tail.len(),
            forall|k: int| 0 <= k < n ==> ds@[k] == tail[n - 1 - k] as u8,
        decreases rest@,
    {
        proof {
            rest.lemma_range();
            let r = render_digits(rest@ as nat, 10);
            if rest@ >= 10 {
                assert(r.len() >= 1);
            }
            assert(n < 78);
        }
        let q = rest.wrapping_div(ten);
        let m = rest.wrapping_rem(ten);
        proof {
            vstd::arithmetic::div_mod::lemma_fundamental_div_mod(rest@, 10);
        }
        let d = m.as_u8();
        proof {
            vstd::arithmetic::div_mod::lemma_small_mod(m@ as nat, 0x100);
        }
        let ghost c = digit_char(d as int);
        assert(c as u8 == d + 48);
        ds[n] = d + 48;
        proof {
            tail = seq![c] + tail;
        }
        n = n + 1;
        if q.is_zero() {
            proof {
                assert(rest@ == m@) by (nonlinear_arith)
                    requires
                        rest@ == 10 * q@ + m@,
                        q@ == 0,
                ;
                vstd::arithmetic::div_mod::lemma_small_mod(rest@ as nat, 10);
            }
            assert(render_digits(rest@ as nat, 10) == seq![c]);
            assert(render_digits(v@ as nat, 10) =~= tail);
            break;
        }
        proof {
            q.lemma_range();
            assert(rest@ >= 10) by (nonlinear_arith)
                requires
                    rest@ == 10 * q@ + m@,
                    q@ >= 1,
                    m@ >= 0,
            ;
            assert((rest@ as nat) / 10 == q@ as nat);
            assert((rest@ as nat) % 10 == m@ as nat);
        }
        assert(render_digits(rest@ as nat, 10) == render_digits(q@ as nat, 10).push(c));
        assert(render_digits(v@ as nat, 10) =~= render_digits(q@ as nat, 10) + tail);
        rest = q;
    }
    (ds, n)
}

/// A fixed-capacity byte buffer filled by bounds-checked appends.
pub struct FormatBuffer {
    len: usize,
    bytes: [u8; 78],
}

impl View for FormatBuffer {
    type V = Seq<u8>;

    /// The bytes written so far.
    closed spec fn view(&self) -> Seq<u8> {
        self.bytes@.take(self.len as int)
    }
}

impl FormatBuffer {
    /// The buffer is within its capacity.
    pub closed spec fn wf(&self) -> bool {
        self.len <= FORMAT_CAPACITY
    }

    /// An empty buffer.
    pub fn new() -> (r: FormatBuffer)
        ensures
            r.wf(),
            r@ == Seq::<u8>::empty(),
    {
        let r = FormatBuffer { len: 0, bytes: [0u8; 78] };
        assert(r@ =~= Seq::<u8>::empty());
        r
    }

    /// An empty buffer large enough for any decimal rendering.
    pub fn decimal() -> (r: FormatBuffer)
        ensures
            r.wf(),
            r@ == Seq::<u8>::empty(),
    {
        FormatBuffer::new()
    }

    /// Appends the UTF-8 bytes of `s`, or fails with `Overflow`, leaving the
    /// buffer as it was, when they do not fit.
    pub fn write_str(&mut self, s: &str) -> (r: Result<(), NumError>)
        requires
            old(self).wf(),
        ensures
            final(self).wf(),
            old(self)@.len() + s.spec_bytes().len() <= FORMAT_CAPACITY ==> r is Ok && final(self)@
                == old(self)@ + s.spec_bytes(),
            old(self)@.len() + s.spec_bytes().len() > FORMAT_CAPACITY ==> r == Err::<(), NumError>(NumError::Overflow)
                && final(self)@ == old(self)@,
    {
        let b = s.as_bytes();
        let n = b.len();
        if n > FORMAT_CAPACITY - self.len {
            return Err(NumError::Overflow);
        }
        let ghost start = self@;
        let ghost len0 = self.len;
        let mut i: usize = 0;
        while i < n
            invariant
                i <= n,
                n == b@.len(),
                b@ == s.spec_bytes(),
                len0 + n <= FORMAT_CAPACITY,
                self.len == len0,
                self.bytes@.len() == FORMAT_CAPACITY,
                self.bytes@.take(len0 as int) == start,
                forall|k: int| 0 <= k < i ==> self.bytes@[len0 + k] == b@[k],
            decreases n - i,
        {
            let at = self.len + i;
            self.bytes[at] = b[i];
            assert(self.bytes@.take(len0 as int) =~= start);
            i = i + 1;
        }
        self.len = self.len + n;
        assert(self@ =~= start + s.spec_bytes());
        Ok(())
    }

    /// The number of bytes written so far.
    pub fn len(&self) -> (r: usize)
        requires
            self.wf(),
        ensures
            r == self@.len(),
            r <= FORMAT_CAPACITY,
    {
        self.len
    }

    /// A well-formed buffer holds at most [`FORMAT_CAPACITY`] bytes.
    pub proof fn lemma_len(&self)
        requires
            self.wf(),
        ensures
            self@.len() <= FORMAT_CAPACITY,
    {
    }

    /// Appends the decimal text of a sign and a magnitude, or fails with
    /// `Overflow`, leaving the buffer as it was, when it does not fit.
    fn write_number(&mut self, neg: bool, v: U256) -> (r: Result<(), NumError>)
        requires
            old(self).wf(),
        ensures
            final(self).wf(),
            old(self)@.len() + decimal_text(neg, v@).len() <= FORMAT_CAPACITY ==> r is Ok && final(self)@
                == old(self)@ + ascii_bytes(decimal_text(neg, v@)),
            old(self)@.len() + decimal_text(neg, v@).len() > FORMAT_CAPACITY ==> r == Err::<(), NumError>(NumError::Overflow)
                && final(self)@ == old(self)@,
    {
        let (ds, n) = decimal_digits(v);
        let ghost text = ascii_bytes(decimal_text(neg, v@));
        let extra: usize = if neg { 1 } else { 0 };
        if n + extra > FORMAT_CAPACITY - self.len {
            return Err(NumError::Overflow);
        }
        let ghost start = self@;
        let ghost len0 = self.len;
        if neg {
            self.bytes[self.len] = 45u8;
            self.len = self.len + 1;
            assert(self@ =~= start + text.take(1));
        } else {
            assert(self@ =~= start + text.take(0));
        }
        let mut k: usize = 0;
        while k < n
            invariant
                k <= n,
                n == render_digits(v@ as nat, 10).len(),
                text == ascii_bytes(decimal_text(neg, v@)),
                text.len() == extra + n,
                len0 + extra + n <= FORMAT_CAPACITY,
                self.len == len0 + extra + k,
                self.bytes@.len() == FORMAT_CAPACITY,
                self@ == start + text.take(extra + k),
                start.len() == len0,
                extra == (if neg { 1usize } else { 0usize }),
                forall|i: int| 0 <= i < n ==> ds@[i] == render_digits(v@ as nat, 10)[n - 1 - i] as u8,
            decreases n - k,
        {
            let at = self.len;
            let b = ds[n - 1 - k];
            assert(b == text[extra + k]);
            let ghost before = self@;
            self.bytes[at] = b;
            self.len = self.len + 1;
            assert(self@ =~= before.push(b));
            assert(text.take(extra + k + 1) =~= text.take(extra + k).push(b));
            assert(self@ =~= start + text.take(extra + k + 1));
            k = k + 1;
        }
        assert(text.take(extra + n) =~= text);
        Ok(())
    }

    /// A copy of the bytes written so far.
    pub fn to_bytes(&self) -> (r: Vec<u8>)
        requires
            self.wf(),
        ensures
            r@ == self@,
    {
        let mut out: Vec<u8> = Vec::new();
        let mut i: usize = 0;
        while i < self.len
            invariant
                i <= self.len <= FORMAT_CAPACITY,
                self.bytes@.len() == FORMAT_CAPACITY,
                out@ == self.bytes@.take(i as int),
            decreases self.len - i,
        {
            out.push(self.bytes[i]);
            assert(self.bytes@.take(i + 1) =~= self.bytes@.take(i as int).push(self.bytes@[i as int]));
            i = i + 1;
        }
        out
    }
}

/// The decimal text form of an integer type.
pub trait Decimal: Sized {
    /// Parses an optional sign and decimal digits.
    fn from_str_decimal(src: &str) -> Result<Self, NumError>;

    /// Appends the decimal digits, after a `-` when negative, without
    /// allocating.
    fn write_decimal(&self, f: &mut FormatBuffer) -> (r: Result<(), NumError>)
        requires
            old(f).wf(),
        ensures
            final(f).wf(),
    ;
}

impl Decimal for U256 {
    fn from_str_decimal(src: &str) -> (r: Result<U256, NumError>)
        ensures
            r.is_ok() == parse_spec(src@, 10, Seq::<char>::empty(), false).is_ok(),
            r.is_err() ==> r == Err::<U256, NumError>(parse_spec(src@, 10, Seq::<char>::empty(), false)->Err_0),
            r.is_ok() ==> parse_spec(src@, 10, Seq::<char>::empty(), false) == Ok::<int, NumError>(r->Ok_0@),
    {
        U256::from_str_radix(src, 10)
    }

    /// Writes the digits, at most 78 of them, so an empty buffer always
    /// takes them.
    fn write_decimal(&self, f: &mut FormatBuffer) -> (r: Result<(), NumError>)
        ensures
            render_digits(self@ as nat, 10).len() <= FORMAT_CAPACITY,
            old(f)@.len() + render_digits(self@ as nat, 10).len() <= FORMAT_CAPACITY ==> r is Ok && final(f)@
                == old(f)@ + ascii_bytes(render_digits(self@ as nat, 10)),
            old(f)@.len() + render_digits(self@ as nat, 10).len() > FORMAT_CAPACITY ==> r == Err::<(), NumError>(NumError::Overflow)
                && final(f)@ == old(f)@,
    {
        proof {
            self.lemma_range();
            lemma_decimal_lengths(self@);
            assert(decimal_text(false, self@) =~= render_digits(self@ as nat, 10));
        }
        f.write_number(false, *self)
    }
}

impl Decimal for I256 {
    fn from_str_decimal(src: &str) -> (r: Result<I256, NumError>)
        ensures
            r.is_ok() == parse_spec(src@, 10, Seq::<char>::empty(), true).is_ok(),
            r.is_err() ==> r == Err::<I256, NumError>(parse_spec(src@, 10, Seq::<char>::empty(), true)->Err_0),
            r.is_ok() ==> parse_spec(src@, 10, Seq::<char>::empty(), true) == Ok::<int, NumError>(r->Ok_0@),
    {
        I256::from_str_radix(src, 10)
    }

    /// Writes a `-` when negative and the digits of the magnitude, at most 78
    /// bytes in all, so an empty buffer always takes them.
    fn write_decimal(&self, f: &mut FormatBuffer) -> (r: Result<(), NumError>)
        ensures
            decimal_text(self@ < 0, abs_int(self@)).len() <= FORMAT_CAPACITY,
            old(f)@.len() + decimal_text(self@ < 0, abs_int(self@)).len() <= FORMAT_CAPACITY ==> r is Ok
                && final(f)@ == old(f)@ + ascii_bytes(decimal_text(self@ < 0, abs_int(self@))),
            old(f)@.len() + decimal_text(self@ < 0, abs_int(self@)).len() > FORMAT_CAPACITY ==> r
                == Err::<(), NumError>(NumError::Overflow) && final(f)@ == old(f)@,
    {
        let m = self.magnitude();
        proof {
            self.lemma_range();
            m.lemma_range();
            lemma_decimal_lengths(m@);
        }
        f.write_number(self.is_negative(), m)
    }
}

/// The decimal text that `write_decimal` writes for an unsigned value parses
/// back to that value.
pub proof fn law_decimal_round_trip(v: U256)
    ensures
        parse_spec(decimal_text(false, v@), 10, Seq::<char>::empty(), false) == Ok::<int, NumError>(v@),
{
    law_parse_render(v, 10);
    assert(decimal_text(false, v@) =~= render_digits(v@ as nat, 10));
}

/// The decimal text that `write_decimal` writes for a signed value parses
/// back to that value.
pub proof fn law_signed_decimal_round_trip(v: I256)
    ensures
        parse_spec(decimal_text(v@ < 0, abs_int(v@)), 10, Seq::<char>::empty(), true) == Ok::<int, NumError>(v@),
{
    law_signed_parse_render(v, 10);
}

} // verus!
