//! Reading and writing integers as digit strings in a radix from 2 to 36.

use vstd::prelude::*;
use crate::error::NumError;
use crate::uint::{U256, word_base, modulus};

verus! {

/// `2^255`, half the number of 256-bit values.
pub open spec fn half_modulus() -> int {
    word_base() * 0x8000_0000_0000_0000_0000_0000_0000_0000
}

/// The value of a digit character: `0-9`, then `a-z` or `A-Z` for 10 to 35;
/// 36 for any other character.
pub open spec fn digit_value(c: char) -> int {
    if '0' <= c && c <= '9' {
        c as int - '0' as int
    } else if 'a' <= c && c <= 'z' {
        c as int - 'a' as int + 10
    } else if 'A' <= c && c <= 'Z' {
        c as int - 'A' as int + 10
    } else {
        36
    }
}

/// The lower-case digit character for `d`, from 0 to 35.
pub open spec fn digit_char(d: int) -> char {
    if d < 10 {
        ('0' as int + d) as char
    } else {
        ('a' as int + d - 10) as char
    }
}

/// Reads `s` as digits in `radix` from the left. The first character that
/// is not a digit of the radix gives `Format`; a running value above `limit`
/// gives `Overflow`; whichever comes first decides.
pub open spec fn scan_digits(s: Seq<char>, radix: int, limit: int) -> Result<int, NumError>
    decreases s.len(),
{
    if s.len() == 0 {
        Ok(0)
    } else {
        match scan_digits(s.drop_last(), radix, limit) {
            Err(e) => Err(e),
            Ok(v) => {
                let d = digit_value(s.last());
                if d >= radix {
                    Err(NumError::Format)
                } else if v * radix + d > limit {
                    Err(NumError::Overflow)
                } else {
                    Ok(v * radix + d)
                }
            },
        }
    }
}

/// The largest magnitude that a parse may reach: `2^256 - 1` unsigned,
/// `2^255` for a negative signed value, `2^255 - 1` for another.
pub open spec fn magnitude_limit(signed: bool, neg: bool) -> int {
    if !signed {
        modulus() - 1
    } else if neg {
        half_modulus()
    } else {
        half_modulus() - 1
    }
}

/// Whether `s` starts with a sign that the variant accepts: `+` always,
/// `-` only when signed.
pub open spec fn has_sign(s: Seq<char>, signed: bool) -> bool {
    s.len() > 0 && (s[0] == '+' || (signed && s[0] == '-'))
}

/// What parsing `s` in `radix` gives: an optional sign, then `prefix`, then
/// at least one digit, with no other characters anywhere.
pub open spec fn parse_spec(s: Seq<char>, radix: int, prefix: Seq<char>, signed: bool) -> Result<int, NumError> {
    if s.len() == 0 {
        Err(NumError::Format)
    } else {
        let neg = signed && s[0] == '-';
        let start: int = if has_sign(s, signed) { 1 } else { 0 };
        let rest = s.skip(start);
        if rest.len() <= prefix.len() || rest.take(prefix.len() as int) != prefix {
            Err(NumError::Format)
        } else {
            match scan_digits(rest.skip(prefix.len() as int), radix, magnitude_limit(signed, neg)) {
                Ok(v) => Ok(if neg { -v } else { v }),
                Err(e) => Err(e),
            }
        }
    }
}

/// The digits of `v` in `radix`, most significant first, without leading
/// zeros (zero is the single digit `0`).
pub open spec fn render_digits(v: nat, radix: nat) -> Seq<char>
    decreases v
    via render_digits_decreases
{
    if radix < 2 || v < radix {
        seq![digit_char(v as int)]
    } else {
        render_digits(v / radix, radix).push(digit_char((v % radix) as int))
    }
}

#[via_fn]
proof fn render_digits_decreases(v: nat, radix: nat) {
    if !(radix < 2 || v < radix) {
        vstd::arithmetic::div_mod::lemma_div_decreases(v as int, radix as int);
    }
}

/// Once the scan of a prefix fails, the scan of the whole fails the same way.
proof fn lemma_scan_error_extends(s: Seq<char>, k: int, radix: int, limit: int)
    requires
        0 <= k <= s.len(),
        scan_digits(s.take(k), radix, limit) is Err,
    ensures
        scan_digits(s, radix, limit) == scan_digits(s.take(k), radix, limit),
    decreases s.len() - k,
{
    if k < s.len() {
        assert(s.take(k + 1).drop_last() =~= s.take(k));
        lemma_scan_error_extends(s, k + 1, radix, limit);
    } else {
        assert(s.take(k) =~= s);
    }
}

/// The value of a digit character, by [`digit_value`].
fn digit_of(c: char) -> (d: u32)
    ensures
        d as int == digit_value(c),
{
    if '0' <= c && c <= '9' {
        (c as u32) - ('0' as u32)
    } else if 'a' <= c && c <= 'z' {
        (c as u32) - ('a' as u32) + 10
    } else if 'A' <= c && c <= 'Z' {
        (c as u32) - ('A' as u32) + 10
    } else {
        36
    }
}

/// The largest magnitude of [`magnitude_limit`] as a value.
fn limit_value(signed: bool, neg: bool) -> (r: U256)
    ensures
        r@ == magnitude_limit(signed, neg),
{
    assert(modulus() == 2 * half_modulus()) by (nonlinear_arith);
    if !signed {
        U256::max_value()
    } else if neg {
        U256::from_words(0x8000_0000_0000_0000_0000_0000_0000_0000, 0)
    } else {
        let r = U256::from_words(0x7fff_ffff_ffff_ffff_ffff_ffff_ffff_ffff, u128::MAX);
        assert(0x7fff_ffff_ffff_ffff_ffff_ffff_ffff_ffffint * word_base() + u128::MAX as int == half_modulus() - 1) by (nonlinear_arith);
        r
    }
}

/// Parses `src` as [`parse_spec`] describes, giving the sign and the
/// magnitude.
pub(crate) fn parse_text(src: &str, radix: u32, prefix: &str, signed: bool) -> (r: Result<(bool, U256), NumError>)
    requires
        2 <= radix <= 36,
    ensures
        r.is_ok() == parse_spec(src@, radix as int, prefix@, signed).is_ok(),
        r.is_err() ==> r == Err::<(bool, U256), NumError>(parse_spec(src@, radix as int, prefix@, signed)->Err_0),
        r.is_ok() ==> parse_spec(src@, radix as int, prefix@, signed) == Ok::<int, NumError>(
            if r->Ok_0.0 { -r->Ok_0.1@ } else { r->Ok_0.1@ },
        ),
        r.is_ok() ==> (r->Ok_0.0 <==> signed && src@[0] == '-'),
{
    let ghost s = src@;
    let n = src.unicode_len();
    if n == 0 {
        return Err(NumError::Format);
    }
    let c0 = src.get_char(0);
    let neg = signed && c0 == '-';
    let sign = c0 == '+' || neg;
    let start: usize = if sign { 1 } else { 0 };
    let ghost rest = s.skip(start as int);
    assert(has_sign(s, signed) == sign);
    assert(rest.len() == n - start);
    let pn = prefix.unicode_len();
    if n - start <= pn {
        return Err(NumError::Format);
    }
    let mut j: usize = 0;
    while j < pn
        invariant
            j <= pn,
            pn == prefix@.len(),
            n == s.len(),
            s == src@,
            start + pn < n,
            rest == s.skip(start as int),
            forall|k: int| 0 <= k < j ==> rest[k] == prefix@[k],
            s.len() > 0,
            has_sign(s, signed) == sign,
            neg == (signed && s[0] == '-'),
            start == (if sign { 1usize } else { 0usize }),
        decreases pn - j,
    {
        if src.get_char(start + j) != prefix.get_char(j) {
            assert(rest.take(pn as int)[j as int] != prefix@[j as int]);
            assert(rest.take(pn as int) != prefix@);
            assert(parse_spec(s, radix as int, prefix@, signed) == Err::<int, NumError>(NumError::Format));
            return Err(NumError::Format);
        }
        j = j + 1;
    }
    assert(rest.take(pn as int) =~= prefix@);
    let limit = limit_value(signed, neg);
    let ghost digits = rest.skip(pn as int);
    let first = start + pn;
    let mut i: usize = first;
    let mut v = U256::zero();
    let r10 = U256::new(radix as u128);
    while i < n
        invariant
            first <= i <= n,
            n == s.len(),
            s == src@,
            first == start + pn,
            s.len() > 0,
            has_sign(s, signed) == sign,
            neg == (signed && s[0] == '-'),
            start == (if sign { 1usize } else { 0usize }),
            rest == s.skip(start as int),
            pn == prefix@.len(),
            rest.take(pn as int) == prefix@,
            2 <= radix <= 36,
            r10@ == radix as int,
            limit@ == magnitude_limit(signed, neg),
            digits == s.skip(first as int),
            digits == rest.skip(pn as int),
            scan_digits(digits.take(i - first), radix as int, limit@) == Ok::<int, NumError>(v@),
        decreases n - i,
    {
        let ghost k = (i + 1 - first) as int;
        assert(digits.take(k).drop_last() =~= digits.take(k - 1));
        assert(digits.take(k).last() == s[i as int]);
        let d = digit_of(src.get_char(i));
        if d >= radix {
            proof {
                assert(scan_digits(digits.take(k), radix as int, limit@) == Err::<int, NumError>(NumError::Format));
                lemma_scan_error_extends(digits, k, radix as int, limit@);
                assert(digits.take(digits.len() as int) =~= digits);
                assert(scan_digits(digits, radix as int, limit@) == Err::<int, NumError>(NumError::Format));
            }
            return Err(NumError::Format);
        }
        proof {
            limit.lemma_range();
            v.lemma_range();
        }
        let next = match v.checked_mul(r10) {
            Some(vr) => vr.checked_add(U256::new(d as u128)),
            None => None,
        };
        match next {
            Some(x) if limit.ge(&x) => {
                v = x;
            },
            _ => {
                proof {
                    assert(v@ * radix + d > limit@) by (nonlinear_arith)
                        requires
                            next.is_none() ==> v@ * radix + d >= modulus(),
                            next.is_some() ==> next->Some_0@ == v@ * radix + d && next->Some_0@ > limit@,
                            limit@ < modulus(),
                            0 <= d,
                    ;
                    lemma_scan_error_extends(digits, k, radix as int, limit@);
                    assert(digits.take(digits.len() as int) =~= digits);
                }
                return Err(NumError::Overflow);
            },
        }
        i = i + 1;
    }
    assert(digits.take(n - first) =~= digits);
    Ok((neg, v))
}

/// Relies on `String::push`: appends one character.
#[verifier::external_body]
pub(crate) fn push_char(s: &mut String, c: char)
    ensures
        final(s)@ == old(s)@.push(c),
{
    s.push(c);
}

/// The digit character for `d`, by [`digit_char`].
fn digit_char_of(d: u32) -> (c: char)
    requires
        d < 36,
    ensures
        c == digit_char(d as int),
{
    if d < 10 {
        ((d as u8) + 48) as char
    } else {
        ((d as u8) + 87) as char
    }
}

/// Appends the digits of `v` in `radix` to `out`.
pub(crate) fn push_digits(out: &mut String, v: U256, radix: u32)
    requires
        2 <= radix <= 36,
    ensures
        final(out)@ == old(out)@ + render_digits(v@ as nat, radix as nat),
{
    let r = U256::new(radix as u128);
    let mut rest = v;
    let mut ds: Vec<char> = Vec::new();
    let ghost mut tail: Seq<char> = seq![];
    proof {
        v.lemma_range();
    }
    loop
        invariant_except_break
            render_digits(v@ as nat, radix as nat) == render_digits(rest@ as nat, radix as nat) + tail,
        invariant
            2 <= radix <= 36,
            r@ == radix as int,
            ds@.len() == tail.len(),
            forall|k: int| 0 <= k < tail.len() ==> ds@[k] == tail[tail.len() - 1 - k],
        ensures
            render_digits(v@ as nat, radix as nat) == tail,
            ds@.len() == tail.len(),
            forall|k: int| 0 <= k < tail.len() ==> ds@[k] == tail[tail.len() - 1 - k],
        decreases rest@,
    {
        proof {
            rest.lemma_range();
        }
        let q = rest.wrapping_div(r);
        let m = rest.wrapping_rem(r);
        proof {
            vstd::arithmetic::div_mod::lemma_fundamental_div_mod(rest@, radix as int);
        }
        let d = m.as_u32();
        proof {
            vstd::arithmetic::div_mod::lemma_small_mod(m@ as nat, 0x1_0000_0000);
            assert(d as int == rest@ % radix as int);
        }
        let c = digit_char_of(d);
        ds.push(c);
        let ghost old_tail = tail;
        proof {
            tail = seq![c] + tail;
        }
        if q.is_zero() {
            assert(rest@ == m@) by (nonlinear_arith)
                requires
                    rest@ == radix * q@ + m@,
                    q@ == 0,
            ;
            assert(rest@ < radix);
            proof {
                vstd::arithmetic::div_mod::lemma_small_mod(rest@ as nat, radix as nat);
            }
            assert(render_digits(rest@ as nat, radix as nat) == seq![c]);
            assert(render_digits(v@ as nat, radix as nat) =~= tail);
            break;
        }
        proof {
            q.lemma_range();
            assert(rest@ >= radix) by (nonlinear_arith)
                requires
                    rest@ == radix * q@ + m@,
                    q@ >= 1,
                    m@ >= 0,
            ;
            assert((rest@ as nat) / (radix as nat) == q@ as nat);
            assert((rest@ as nat) % (radix as nat) == m@ as nat);
        }
        assert(render_digits(rest@ as nat, radix as nat) == render_digits(q@ as nat, radix as nat).push(c));
        assert(render_digits(v@ as nat, radix as nat) =~= render_digits(q@ as nat, radix as nat) + tail);
        rest = q;
    }
    let ghost start = out@;
    let mut k: usize = ds.len();
    while k > 0
        invariant
            k <= ds@.len(),
            ds@.len() == tail.len(),
            forall|j: int| 0 <= j < tail.len() ==> ds@[j] == tail[tail.len() - 1 - j],
            out@ == start + tail.take(tail.len() - k),
        decreases k,
    {
        k = k - 1;
        push_char(out, ds[k]);
        assert(tail.take(tail.len() - k) =~= tail.take(tail.len() - k - 1).push(ds@[k as int]));
    }
    assert(tail.take(tail.len() as int) =~= tail);
}

/// `10^n`.
pub open spec fn pow10(n: nat) -> int
    decreases n,
{
    if n == 0 {
        1
    } else {
        10 * pow10((n - 1) as nat)
    }
}

/// A value below `10^k` has at most `k` decimal digits.
pub proof fn lemma_render_len(v: nat, k: nat)
    requires
        k >= 1,
        v < pow10(k),
    ensures
        render_digits(v, 10).len() <= k,
    decreases v,
{
    if v >= 10 {
        let j = (k - 1) as nat;
        assert(k >= 2) by {
            if k == 1 {
                assert(pow10(1) == 10 * pow10(0));
            }
        }
        vstd::arithmetic::div_mod::lemma_div_decreases(v as int, 10);
        vstd::arithmetic::div_mod::lemma_fundamental_div_mod(v as int, 10);
        assert(v / 10 < pow10(j)) by (nonlinear_arith)
            requires
                v < 10 * pow10(j),
                v == 10 * (v / 10) + v % 10,
                v % 10 >= 0,
        ;
        lemma_render_len(v / 10, j);
    }
}

/// Every unsigned magnitude has at most 78 decimal digits, and every signed
/// magnitude at most 77.
pub proof fn lemma_decimal_lengths(v: int)
    requires
        0 <= v < modulus(),
    ensures
        render_digits(v as nat, 10).len() <= 78,
        v <= half_modulus() ==> render_digits(v as nat, 10).len() <= 77,
{
    reveal_with_fuel(pow10, 80);
    let p37 = pow10(37);
    let w = word_base();
    assert(p37 == 10_000_000_000_000_000_000_000_000_000_000_000_000);
    assert(pow10(78) == p37 * p37 * 10000);
    assert(pow10(77) == p37 * p37 * 1000);
    assert(w < 35 * p37);
    assert(0x8000_0000_0000_0000_0000_0000_0000_0000 < 18 * p37);
    assert(modulus() <= pow10(78)) by (nonlinear_arith)
        requires
            modulus() == w * w,
            0 < w < 35 * p37,
            pow10(78) == p37 * p37 * 10000,
            p37 > 0,
    ;
    assert(half_modulus() < pow10(77)) by (nonlinear_arith)
        requires
            half_modulus() == w * 0x8000_0000_0000_0000_0000_0000_0000_0000,
            0 < w < 35 * p37,
            0x8000_0000_0000_0000_0000_0000_0000_0000 < 18 * p37,
            pow10(77) == p37 * p37 * 1000,
            p37 > 0,
    ;
    lemma_render_len(v as nat, 78);
    if v <= half_modulus() {
        lemma_render_len(v as nat, 77);
    }
}

/// Whether `s`, after an optional `+`, starts with `0x`.
pub open spec fn has_hex_prefix(s: Seq<char>) -> bool {
    let rest = s.skip(if has_sign(s, false) { 1int } else { 0 });
    rest.len() >= 2 && rest[0] == '0' && rest[1] == 'x'
}

/// A digit character reads back as its digit.
proof fn lemma_digit_round_trip(d: int)
    requires
        0 <= d < 36,
    ensures
        digit_value(digit_char(d)) == d,
{
}

/// The rendering is never empty and starts with a digit of the radix.
pub(crate) proof fn lemma_render_first(v: nat, radix: nat)
    requires
        2 <= radix <= 36,
    ensures
        render_digits(v, radix).len() >= 1,
        digit_value(render_digits(v, radix)[0]) < radix,
    decreases v,
{
    if v < radix {
        lemma_digit_round_trip(v as int);
    } else {
        vstd::arithmetic::div_mod::lemma_div_decreases(v as int, radix as int);
        lemma_render_first(v / radix, radix);
    }
}

/// Scanning the rendering of `v` gives `v` back, for any limit at least `v`.
pub(crate) proof fn lemma_scan_render(v: nat, radix: nat, limit: int)
    requires
        2 <= radix <= 36,
        v <= limit,
    ensures
        scan_digits(render_digits(v, radix), radix as int, limit) == Ok::<int, NumError>(v as int),
    decreases v,
{
    let s = render_digits(v, radix);
    if v < radix {
        lemma_digit_round_trip(v as int);
        assert(s.drop_last() =~= Seq::<char>::empty());
        assert(scan_digits(Seq::<char>::empty(), radix as int, limit) == Ok::<int, NumError>(0));
        assert(s.last() == digit_char(v as int));
        assert(digit_value(s.last()) == v);
        assert(s.len() == 1);
        assert(0 * (radix as int) + v == v);
        assert(scan_digits(s.drop_last(), radix as int, limit) == Ok::<int, NumError>(0));
        assert(scan_digits(s, radix as int, limit) == Ok::<int, NumError>(v as int));
    } else {
        vstd::arithmetic::div_mod::lemma_div_decreases(v as int, radix as int);
        vstd::arithmetic::div_mod::lemma_fundamental_div_mod(v as int, radix as int);
        lemma_scan_render(v / radix, radix, limit);
        lemma_digit_round_trip((v % radix) as int);
        assert(s.drop_last() =~= render_digits(v / radix, radix));
        assert((v / radix) * radix + v % radix == v) by (nonlinear_arith)
            requires
                v == radix * (v / radix) + v % radix,
        ;
        assert(s.last() == digit_char((v % radix) as int));
        assert(scan_digits(s.drop_last(), radix as int, limit) == Ok::<int, NumError>((v / radix) as int));
        assert(digit_value(s.last()) == v % radix);
        assert(scan_digits(s, radix as int, limit) == Ok::<int, NumError>(v as int));
    }
}

/// Reading the rendering of a value in the same radix, with no sign and no
/// prefix, gives the value back.
pub proof fn law_parse_render(v: U256, radix: u32)
    requires
        2 <= radix <= 36,
    ensures
        parse_spec(render_digits(v@ as nat, radix as nat), radix as int, Seq::<char>::empty(), false)
            == Ok::<int, NumError>(v@),
{
    v.lemma_range();
    let s = render_digits(v@ as nat, radix as nat);
    lemma_render_first(v@ as nat, radix as nat);
    lemma_scan_render(v@ as nat, radix as nat, modulus() - 1);
    assert(!has_sign(s, false));
    assert(s.skip(0) =~= s);
    assert(s.take(0) =~= Seq::<char>::empty());
}

impl U256 {
    /// Parses `src` in `radix`: an optional `+`, then one or more digits.
    pub fn from_str_radix(src: &str, radix: u32) -> (r: Result<U256, NumError>)
        requires
            2 <= radix <= 36,
        ensures
            r.is_ok() == parse_spec(src@, radix as int, Seq::<char>::empty(), false).is_ok(),
            r.is_err() ==> r == Err::<U256, NumError>(parse_spec(src@, radix as int, Seq::<char>::empty(), false)->Err_0),
            r.is_ok() ==> parse_spec(src@, radix as int, Seq::<char>::empty(), false) == Ok::<int, NumError>(r->Ok_0@),
    {
        proof {
            reveal_strlit("");
        }
        assert(""@ =~= Seq::<char>::empty());
        match parse_text(src, radix, "", false) {
            Ok((_, v)) => Ok(v),
            Err(e) => Err(e),
        }
    }

    /// Parses `src` in base 16: an optional `+`, then `0x`, then one or more
    /// hex digits.
    pub fn from_str_hex(src: &str) -> (r: Result<U256, NumError>)
        ensures
            r.is_ok() == parse_spec(src@, 16, seq!['0', 'x'], false).is_ok(),
            r.is_err() ==> r == Err::<U256, NumError>(parse_spec(src@, 16, seq!['0', 'x'], false)->Err_0),
            r.is_ok() ==> parse_spec(src@, 16, seq!['0', 'x'], false) == Ok::<int, NumError>(r->Ok_0@),
    {
        proof {
            reveal_strlit("0x");
        }
        assert("0x"@ =~= seq!['0', 'x']);
        match parse_text(src, 16, "0x", false) {
            Ok((_, v)) => Ok(v),
            Err(e) => Err(e),
        }
    }

    /// Parses `src` in the base its prefix names: `0x` (after an optional
    /// `+`) for base 16, none for base 10.
    pub fn from_str_prefixed(src: &str) -> (r: Result<U256, NumError>)
        ensures
            ({
                let expected = if has_hex_prefix(src@) {
                    parse_spec(src@, 16, seq!['0', 'x'], false)
                } else {
                    parse_spec(src@, 10, Seq::<char>::empty(), false)
                };
                &&& r.is_ok() == expected.is_ok()
                &&& r.is_err() ==> r == Err::<U256, NumError>(expected->Err_0)
                &&& r.is_ok() ==> expected == Ok::<int, NumError>(r->Ok_0@)
            }),
    {
        let n = src.unicode_len();
        let start: usize = if n > 0 && src.get_char(0) == '+' { 1 } else { 0 };
        let hex = n >= start + 2 && src.get_char(start) == '0' && src.get_char(start + 1) == 'x';
        assert(hex == has_hex_prefix(src@));
        if hex {
            U256::from_str_hex(src)
        } else {
            U256::from_str_radix(src, 10)
        }
    }

    /// The digits in `radix`, most significant first, lower-case, without
    /// leading zeros.
    pub fn to_str_radix(&self, radix: u32) -> (r: String)
        requires
            2 <= radix <= 36,
        ensures
            r@ == render_digits(self@ as nat, radix as nat),
    {
        let mut out = String::new();
        push_digits(&mut out, *self, radix);
        assert(out@ =~= render_digits(self@ as nat, radix as nat));
        out
    }

    /// The decimal digits.
    pub fn to_decimal_string(&self) -> (r: String)
        ensures
            r@ == render_digits(self@ as nat, 10),
    {
        self.to_str_radix(10)
    }

    /// The quantity form: `0x` and the hex digits without leading zeros
    /// (zero is `0x0`).
    pub fn to_hex_string(&self) -> (r: String)
        ensures
            r@ == seq!['0', 'x'] + render_digits(self@ as nat, 16),
    {
        let mut out = String::new();
        push_char(&mut out, '0');
        push_char(&mut out, 'x');
        push_digits(&mut out, *self, 16);
        assert(out@ =~= seq!['0', 'x'] + render_digits(self@ as nat, 16));
        out
    }
}

} // verus!
