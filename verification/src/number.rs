//! Hatter's number type: a signed fixed-point decimal with six
//! fractional digits. Every literal the lexer accepts with at most six
//! fractional digits is held exactly; results of arithmetic that leave
//! the range of the type are reported, never wrapped.

use vstd::prelude::*;
use crate::text::{push_char, push_str};

verus! {

/// Units per whole number: six fractional decimal digits.
pub const SCALE: i64 = 1_000_000;

/// A number, held as `raw / SCALE`.
#[derive(Debug, Clone, Copy, PartialEq, Eq, Structural)]
pub struct Number {
    pub raw: i64,
}

/// The character of decimal digit `d` (for `d < 10`).
pub open spec fn digit_char(d: nat) -> char {
    ((d + 48) as u8) as char
}

/// The decimal digits of `n`, most significant first, without leading
/// zeros ("0" for zero).
pub open spec fn decimal(n: nat) -> Seq<char>
    decreases n,
{
    if n < 10 {
        seq![digit_char(n)]
    } else {
        decimal(n / 10).push(digit_char(n % 10))
    }
}

/// The last `k` decimal digits of `n`, zero-padded on the left.
pub open spec fn padded(n: nat, k: nat) -> Seq<char>
    decreases k,
{
    if k == 0 {
        Seq::empty()
    } else {
        padded(n / 10, (k - 1) as nat).push(digit_char(n % 10))
    }
}

/// The fractional digits `f` (of `k` places) with trailing zeros removed.
pub open spec fn fraction(f: nat, k: nat) -> Seq<char>
    decreases k,
{
    if k == 0 || f == 0 {
        Seq::empty()
    } else if f % 10 == 0 {
        fraction(f / 10, (k - 1) as nat)
    } else {
        padded(f, k)
    }
}

/// The absolute value of an integer.
pub open spec fn abs(x: int) -> nat {
    if x < 0 { (-x) as nat } else { x as nat }
}

/// Division that rounds toward zero, as Rust's integer `/` does.
pub open spec fn trunc_div(a: int, b: int) -> int
    recommends
        b != 0,
{
    let q = (abs(a) / abs(b)) as int;
    if (a < 0) != (b < 0) { -q } else { q }
}

/// Remainder with the sign of the dividend, as Rust's `%` does.
pub open spec fn trunc_rem(a: int, b: int) -> int
    recommends
        b != 0,
{
    let r = (abs(a) % abs(b)) as int;
    if a < 0 { -r } else { r }
}

/// Does `x` fit in an `i64`?
pub open spec fn fits(x: int) -> bool {
    i64::MIN <= x <= i64::MAX
}

/// How a number is written: an optional `-`, the whole part, then a
/// `.` and the fractional digits when there are any.
pub open spec fn display(raw: int) -> Seq<char> {
    let a = abs(raw);
    let whole = decimal(a / (SCALE as nat));
    let frac = fraction(a % (SCALE as nat), 6);
    let sign: Seq<char> = if raw < 0 { seq!['-'] } else { Seq::empty() };
    if frac.len() == 0 {
        sign + whole
    } else {
        sign + whole + seq!['.'] + frac
    }
}

impl Number {
    /// The number of units (millionths) this number holds.
    pub open spec fn units(self) -> int {
        self.raw as int
    }

    /// Zero.
    pub fn zero() -> (r: Number)
        ensures
            r.units() == 0,
    {
        Number { raw: 0 }
    }

    /// A number from its count of millionths.
    pub fn from_units(raw: i64) -> (r: Number)
        ensures
            r.units() == raw,
    {
        Number { raw }
    }

    /// The count of millionths.
    pub fn units_of(&self) -> (r: i64)
        ensures
            r == self.units(),
    {
        self.raw
    }

    /// A whole number.
    pub fn from_i32(i: i32) -> (r: Number)
        ensures
            r.units() == i * SCALE,
    {
        Number { raw: (i as i64) * SCALE }
    }

    /// A whole number, or `None` when it is out of range.
    pub fn from_int(i: i64) -> (r: Option<Number>)
        ensures
            r is Some <==> fits(i * SCALE),
            r matches Some(n) ==> n.units() == i * SCALE,
    {
        let ii = i as i128;
        proof {
            assert(-0x8000_0000_0000_0000_0000_0000 <= ii * 1_000_000 <= 0x8000_0000_0000_0000_0000_0000)
                by (nonlinear_arith)
                requires
                    -0x8000_0000_0000_0000 <= ii <= 0x7fff_ffff_ffff_ffff,
            ;
        }
        let x = ii * (SCALE as i128);
        if x < i64::MIN as i128 || x > i64::MAX as i128 {
            None
        } else {
            Some(Number { raw: x as i64 })
        }
    }

    /// A whole number from a count, or `None` when it is out of range.
    pub fn from_usize(u: usize) -> (r: Option<Number>)
        ensures
            r is Some <==> u * SCALE <= i64::MAX,
            r matches Some(n) ==> n.units() == u * SCALE,
    {
        let uu = u as u128;
        proof {
            assert(uu * 1_000_000 <= 0x1_0000_0000_0000_0000_0000_0000) by (nonlinear_arith)
                requires
                    uu <= 0xffff_ffff_ffff_ffff,
            ;
        }
        let x = uu * (SCALE as u128);
        if x > i64::MAX as u128 {
            None
        } else {
            Some(Number { raw: x as i64 })
        }
    }

    /// Is this number zero?
    pub fn is_zero(&self) -> (r: bool)
        ensures
            r == (self.units() == 0),
    {
        self.raw == 0
    }

    /// `self + other`, or `None` when the sum is out of range.
    pub fn add(&self, other: &Number) -> (r: Option<Number>)
        ensures
            r is Some <==> fits(self.units() + other.units()),
            r matches Some(n) ==> n.units() == self.units() + other.units(),
    {
        match self.raw.checked_add(other.raw) {
            Some(x) => Some(Number { raw: x }),
            None => None,
        }
    }

    /// `self - other`, or `None` when the difference is out of range.
    pub fn sub(&self, other: &Number) -> (r: Option<Number>)
        ensures
            r is Some <==> fits(self.units() - other.units()),
            r matches Some(n) ==> n.units() == self.units() - other.units(),
    {
        match self.raw.checked_sub(other.raw) {
            Some(x) => Some(Number { raw: x }),
            None => None,
        }
    }

    /// `self * other`, rounded toward zero to six places, or `None` when
    /// the product is out of range.
    pub fn mul(&self, other: &Number) -> (r: Option<Number>)
        ensures
            r is Some <==> fits(trunc_div(self.units() * other.units(), SCALE as int)),
            r matches Some(n) ==> n.units() == trunc_div(
                self.units() * other.units(),
                SCALE as int,
            ),
    {
        let a = self.raw as i128;
        let b = other.raw as i128;
        proof {
            assert(-0x4000_0000_0000_0000_0000_0000_0000_0000 <= a * b <= 0x4000_0000_0000_0000_0000_0000_0000_0000)
                by (nonlinear_arith)
                requires
                    -0x8000_0000_0000_0000 <= a <= 0x7fff_ffff_ffff_ffff,
                    -0x8000_0000_0000_0000 <= b <= 0x7fff_ffff_ffff_ffff,
            ;
        }
        let p = a * b;
        let q = Self::div_toward_zero(p, SCALE as i128);
        if q < i64::MIN as i128 || q > i64::MAX as i128 {
            None
        } else {
            Some(Number { raw: q as i64 })
        }
    }

    /// `self / other`, rounded toward zero to six places; `None` when
    /// `other` is zero or the quotient is out of range.
    pub fn div(&self, other: &Number) -> (r: Option<Number>)
        ensures
            r is Some <==> other.units() != 0 && fits(
                trunc_div(self.units() * SCALE, other.units()),
            ),
            r matches Some(n) ==> n.units() == trunc_div(self.units() * SCALE, other.units()),
    {
        if other.raw == 0 {
            return None;
        }
        let ii = self.raw as i128;
        proof {
            assert(-0x8000_0000_0000_0000_0000_0000 <= ii * 1_000_000 <= 0x8000_0000_0000_0000_0000_0000)
                by (nonlinear_arith)
                requires
                    -0x8000_0000_0000_0000 <= ii <= 0x7fff_ffff_ffff_ffff,
            ;
        }
        let a = ii * (SCALE as i128);
        let q = Self::div_toward_zero(a, other.raw as i128);
        if q < i64::MIN as i128 || q > i64::MAX as i128 {
            None
        } else {
            Some(Number { raw: q as i64 })
        }
    }

    /// `self % other`, with the sign of `self`; `None` when `other` is
    /// zero.
    pub fn rem(&self, other: &Number) -> (r: Option<Number>)
        ensures
            r is Some <==> other.units() != 0,
            r matches Some(n) ==> n.units() == trunc_rem(self.units(), other.units()),
    {
        if other.raw == 0 {
            return None;
        }
        let a = self.raw as i128;
        let b = other.raw as i128;
        let ua: u128 = if a < 0 { (-a) as u128 } else { a as u128 };
        let ub: u128 = if b < 0 { (-b) as u128 } else { b as u128 };
        let m = ua % ub;
        proof {
            assert(m < ub);
        }
        let r: i64 = if a < 0 { -(m as i64) } else { m as i64 };
        Some(Number { raw: r })
    }

    /// Integer division rounding toward zero.
    fn div_toward_zero(a: i128, b: i128) -> (q: i128)
        requires
            b != 0,
            a > i128::MIN,
            b > i128::MIN,
        ensures
            q == trunc_div(a as int, b as int),
    {
        let ua: u128 = if a < 0 { (-a) as u128 } else { a as u128 };
        let ub: u128 = if b < 0 { (-b) as u128 } else { b as u128 };
        let uq = ua / ub;
        proof {
            assert(uq <= ua) by (nonlinear_arith)
                requires
                    ub >= 1,
                    uq == ua / ub,
            ;
        }
        if (a < 0) != (b < 0) {
            -(uq as i128)
        } else {
            uq as i128
        }
    }

    /// `self < other`
    pub fn lt(&self, other: &Number) -> (r: bool)
        ensures
            r == (self.units() < other.units()),
    {
        self.raw < other.raw
    }

    /// `self <= other`
    pub fn le(&self, other: &Number) -> (r: bool)
        ensures
            r == (self.units() <= other.units()),
    {
        self.raw <= other.raw
    }

    /// Same value?
    pub fn same(&self, other: &Number) -> (r: bool)
        ensures
            r == (self.units() == other.units()),
    {
        self.raw == other.raw
    }

    /// The whole part, rounded toward zero and clamped to the range of
    /// `i32`.
    pub fn to_i32(&self) -> (r: i32)
        ensures
            r == (if trunc_div(self.units(), SCALE as int) < i32::MIN {
                i32::MIN as int
            } else if trunc_div(self.units(), SCALE as int) > i32::MAX {
                i32::MAX as int
            } else {
                trunc_div(self.units(), SCALE as int)
            }),
    {
        let q = Self::div_toward_zero(self.raw as i128, SCALE as i128);
        if q < i32::MIN as i128 {
            i32::MIN
        } else if q > i32::MAX as i128 {
            i32::MAX
        } else {
            q as i32
        }
    }

    /// How this number is written: `3`, `-0.5`, `3.14`.
    pub fn to_string(&self) -> (r: String)
        ensures
            r@ == display(self.units()),
    {
        let a: u64 = if self.raw < 0 {
            (-(self.raw as i128)) as u64
        } else {
            self.raw as u64
        };
        let mut out = String::new();
        if self.raw < 0 {
            push_char(&mut out, '-');
        }
        let whole = decimal_string(a / (SCALE as u64));
        push_str(&mut out, whole.as_str());
        let f = fraction_string(a % (SCALE as u64), 6);
        if !f.as_str().is_empty() {
            push_char(&mut out, '.');
            push_str(&mut out, f.as_str());
        }
        proof {
            let sign: Seq<char> = if self.raw < 0 { seq!['-'] } else { Seq::empty() };
            assert(abs(self.units()) == a);
            if f@.len() == 0 {
                assert(out@ == sign + decimal((a / (SCALE as u64)) as nat));
            } else {
                assert(out@ == sign + decimal((a / (SCALE as u64)) as nat) + seq!['.'] + f@);
            }
        }
        out
    }

    /// The number written by `chars`: an optional `-`, decimal digits,
    /// then optionally `.` and at least one more digit; underscores
    /// between digits are ignored. Digits past the sixth fractional place
    /// are dropped. `None` when `chars` is not of that form or the value
    /// is out of range.
    pub fn parse_decimal(chars: &[char]) -> (r: Option<Number>)
        ensures
            r is Some <==> decimal_form(chars@) && fits(decimal_units(chars@)),
            r matches Some(n) ==> n.units() == decimal_units(chars@),
    {
        let n = chars.len();
        let neg = n > 0 && chars[0] == '-';
        let start: usize = if neg { 1 } else { 0 };
        let ghost body = body_of(chars@);
        assert(body == chars@.subrange(start as int, n as int));
        let mut i: usize = start;
        let mut whole: u128 = 0;
        let mut count: usize = 0;
        while i < n && chars[i] != '.'
            invariant
                start <= i <= n,
                n == chars@.len(),
                body == chars@.subrange(start as int, n as int),
                body == body_of(chars@),
                neg == (chars@.len() > 0 && chars@[0] == '-'),
                forall|j: int| 0 <= j < i - start ==> body[j] != '.',
                whole == capped(whole_value(body.take(i - start))),
                count == digit_count(body.take(i - start)),
                count <= i - start,
                all_digits(body.take(i - start)),
            decreases n - i,
        {
            let c = chars[i];
            proof {
                assert(body.take(i + 1 - start).drop_last() == body.take(i - start));
                assert(body.take(i + 1 - start).last() == c);
            }
            if c == '_' {
            } else if '0' <= c && c <= '9' {
                let d = (c as u32 - '0' as u32) as u128;
                if whole < CAP {
                    whole = whole * 10 + d;
                    if whole > CAP {
                        whole = CAP;
                    }
                }
                count = count + 1;
            } else {
                proof {
                    lemma_first_dot(body, i - start);
                    assert(body.take(first_dot(body))[i - start] == c);
                    assert(!all_digits(body.take(first_dot(body))));
                    assert(body_of(chars@) == body);
                    assert(decimal_form(chars@) ==> all_digits(body.take(first_dot(body))));
                }
                return None;
            }
            i += 1;
        }
        proof {
            lemma_first_dot(body, i - start);
            assert(first_dot(body) == i - start);
        }
        let ghost k = i - start;
        if count == 0 {
            return None;
        }
        let mut frac: u128 = 0;
        let mut places: u32 = 0;
        let ghost mut fp: Seq<char> = Seq::empty();
        if i < n {
            let dot = i;
            let ghost fpart = body.skip(i - start + 1);
            assert(fpart == chars@.subrange(dot + 1, n as int));
            i += 1;
            let mut fcount: usize = 0;
            while i < n
                invariant
                    dot < i <= n,
                    n == chars@.len(),
                    fpart == chars@.subrange(dot + 1, n as int),
                    body == body_of(chars@),
                    fpart == body.skip(dot - start + 1),
                    (frac as nat, places as nat) == frac_acc(fpart.take(i - dot - 1)),
                    places <= 6,
                    frac < pow10(places as nat),
                    all_digits(fpart.take(i - dot - 1)),
                    fcount == digit_count(fpart.take(i - dot - 1)),
                    fcount <= i - dot - 1,
                    first_dot(body) == dot - start,
                    dot - start < body.len(),
                decreases n - i,
            {
                let c = chars[i];
                proof {
                    assert(fpart.take(i - dot).drop_last() == fpart.take(i - dot - 1));
                    assert(fpart.take(i - dot).last() == c);
                }
                if c == '_' {
                } else if '0' <= c && c <= '9' {
                    let d = (c as u32 - '0' as u32) as u128;
                    if places < 6 {
                        proof {
                            lemma_pow10_mono(places as nat, 5);
                            assert(pow10(5) == 100_000) by { reveal_with_fuel(pow10, 6); }
                        }
                        frac = frac * 10 + d;
                        places = places + 1;
                    }
                    fcount = fcount + 1;
                } else {
                    proof {
                        assert(fpart[i - dot - 1] == c);
                        assert(!all_digits(fpart));
                        assert(body_of(chars@) == body);
                        assert(decimal_form(chars@) ==> all_digits(fpart));
                    }
                    return None;
                }
                i += 1;
            }
            proof {
                assert(fpart.take(i - dot - 1) == fpart);
            }
            if fcount == 0 {
                return None;
            }
            proof {
                fp = fpart;
            }
        }
        let mut f = frac;
        let mut p = places;
        assert(f == frac * pow10(0)) by { assert(pow10(0) == 1); }
        while p < 6
            invariant
                places <= p <= 6,
                f == frac * pow10((p - places) as nat),
                f < pow10(p as nat),
            decreases 6 - p,
        {
            proof {
                let e = (p - places) as nat;
                assert(pow10(e + 1) == 10 * pow10(e));
                assert(((p + 1 - places) as nat) == e + 1);
                let x = pow10(e);
                assert(frac * (10 * x) == 10 * (frac * x)) by (nonlinear_arith);
                lemma_pow10_mono(p as nat, 5);
                assert(pow10(5) == 100_000) by { reveal_with_fuel(pow10, 6); }
            }
            f = f * 10;
            p += 1;
        }
        assert(pow10(6) == 1_000_000) by { reveal_with_fuel(pow10, 7); }
        let total = whole * 1_000_000 + f;
        proof {
            let w = body.take(first_dot(body));
            assert(w == body.take(k));
            assert(body_of(chars@) == body);
            assert(decimal_form(chars@));
            assert(frac_acc(fp) == (frac as nat, places as nat));
            let mag = whole_value(w) * 1_000_000 + frac * pow10((6 - places) as nat);
            assert(decimal_units(chars@) == (if neg { -mag } else { mag as int }));
            if whole >= CAP {
                let wv = whole_value(w);
                assert(wv >= CAP);
                assert(wv * 1_000_000 >= 0x1_0000_0000_0000_0000 * 1_000_000) by (nonlinear_arith)
                    requires wv >= 0x1_0000_0000_0000_0000;
                assert(!fits(decimal_units(chars@)));
            } else {
                assert(whole == whole_value(w));
                assert(total == mag);
            }
        }
        if whole >= CAP {
            return None;
        }
        if neg {
            if total > 0x8000_0000_0000_0000 {
                return None;
            }
            Some(Number { raw: (-(total as i128)) as i64 })
        } else {
            if total > 0x7fff_ffff_ffff_ffff {
                return None;
            }
            Some(Number { raw: total as i64 })
        }
    }
}

/// Past this bound a whole part cannot fit any number.
pub const CAP: u128 = 0x1_0000_0000_0000_0000;

/// `v`, or `CAP` when `v` is larger.
pub open spec fn capped(v: nat) -> nat {
    if v > CAP { CAP as nat } else { v }
}

/// Is every character a decimal digit or `_`?
pub open spec fn all_digits(s: Seq<char>) -> bool {
    forall|j: int| 0 <= j < s.len() ==> s[j] == '_' || ('0' <= s[j] && s[j] <= '9')
}

/// The value of the digits in `s`, skipping underscores.
pub open spec fn whole_value(s: Seq<char>) -> nat
    decreases s.len(),
{
    if s.len() == 0 {
        0
    } else if s.last() == '_' {
        whole_value(s.drop_last())
    } else {
        whole_value(s.drop_last()) * 10 + ((s.last() as nat) - 48) as nat
    }
}

/// How many decimal digits `s` holds.
pub open spec fn digit_count(s: Seq<char>) -> nat
    decreases s.len(),
{
    if s.len() == 0 {
        0
    } else if '0' <= s.last() && s.last() <= '9' {
        digit_count(s.drop_last()) + 1
    } else {
        digit_count(s.drop_last())
    }
}

/// The value of the first six digits of `s` and how many were taken.
pub open spec fn frac_acc(s: Seq<char>) -> (nat, nat)
    decreases s.len(),
{
    if s.len() == 0 {
        (0, 0)
    } else {
        let (v, k) = frac_acc(s.drop_last());
        if s.last() == '_' || k >= 6 {
            (v, k)
        } else {
            (v * 10 + ((s.last() as nat) - 48) as nat, k + 1)
        }
    }
}

/// The index of the first `.` in `s`, or its length.
pub open spec fn first_dot(s: Seq<char>) -> int
    decreases s.len(),
{
    if s.len() == 0 {
        0
    } else if s[0] == '.' {
        0
    } else {
        1 + first_dot(s.drop_first())
    }
}

/// `s` without a leading `-`.
pub open spec fn body_of(s: Seq<char>) -> Seq<char> {
    if s.len() > 0 && s[0] == '-' { s.skip(1) } else { s }
}

/// Is `s` a decimal literal: `-`? digits (`.` digits)?, where digits
/// may hold underscores but at least one digit?
pub open spec fn decimal_form(s: Seq<char>) -> bool {
    let b = body_of(s);
    let k = first_dot(b);
    let w = b.take(k);
    let f = if k < b.len() { b.skip(k + 1) } else { Seq::empty() };
    &&& all_digits(w)
    &&& digit_count(w) > 0
    &&& (k < b.len() ==> all_digits(f) && digit_count(f) > 0)
}

/// The value, in millionths, of the decimal literal `s`.
pub open spec fn decimal_units(s: Seq<char>) -> int {
    let b = body_of(s);
    let k = first_dot(b);
    let w = b.take(k);
    let f = if k < b.len() { b.skip(k + 1) } else { Seq::empty() };
    let (fv, places) = frac_acc(f);
    let mag = whole_value(w) * 1_000_000 + fv * pow10((6 - places) as nat);
    if s.len() > 0 && s[0] == '-' { -(mag as int) } else { mag as int }
}

proof fn lemma_first_dot(s: Seq<char>, i: int)
    requires
        0 <= i <= s.len(),
        forall|j: int| 0 <= j < i ==> s[j] != '.',
    ensures
        i == s.len() || s[i] == '.' ==> first_dot(s) == i,
        i < s.len() && s[i] != '.' ==> first_dot(s) > i,
        first_dot(s) >= i,
        first_dot(s) <= s.len(),
    decreases i,
{
    lemma_first_dot_bound(s);
    if i > 0 {
        lemma_first_dot(s.drop_first(), i - 1);
    } else if s.len() > 0 {
        lemma_first_dot_bound(s.drop_first());
    }
}

proof fn lemma_first_dot_bound(s: Seq<char>)
    ensures
        0 <= first_dot(s) <= s.len(),
    decreases s.len(),
{
    if s.len() > 0 && s[0] != '.' {
        lemma_first_dot_bound(s.drop_first());
    }
}

proof fn lemma_pow10_mono(a: nat, b: nat)
    requires
        a <= b,
    ensures
        pow10(a) <= pow10(b),
    decreases b,
{
    if a < b {
        lemma_pow10_mono(a, (b - 1) as nat);
    }
}

proof fn lemma_digit_count_bound(s: Seq<char>)
    ensures
        digit_count(s) <= s.len(),
    decreases s.len(),
{
    if s.len() > 0 {
        lemma_digit_count_bound(s.drop_last());
    }
}


/// The character of digit `d`.
fn digit(d: u64) -> (c: char)
    requires
        d < 10,
    ensures
        c == digit_char(d as nat),
{
    ((d + 48) as u8) as char
}

/// The decimal digits of `n`.
pub fn decimal_string(n: u64) -> (r: String)
    ensures
        r@ == decimal(n as nat),
    decreases n,
{
    if n < 10 {
        let mut s = String::new();
        push_char(&mut s, digit(n));
        s
    } else {
        let mut s = decimal_string(n / 10);
        push_char(&mut s, digit(n % 10));
        s
    }
}

/// The last `k` digits of `n`, zero-padded.
fn padded_string(n: u64, k: u32) -> (r: String)
    ensures
        r@ == padded(n as nat, k as nat),
    decreases k,
{
    if k == 0 {
        String::new()
    } else {
        let mut s = padded_string(n / 10, k - 1);
        push_char(&mut s, digit(n % 10));
        s
    }
}

/// The fractional digits `f` of `k` places, trailing zeros removed.
fn fraction_string(f: u64, k: u32) -> (r: String)
    ensures
        r@ == fraction(f as nat, k as nat),
    decreases k,
{
    if k == 0 || f == 0 {
        String::new()
    } else if f % 10 == 0 {
        fraction_string(f / 10, k - 1)
    } else {
        padded_string(f, k)
    }
}

/// Writing a number and reading its text back as a literal gives the
/// same number: the text is a decimal literal whose value is exactly the
/// number's units, so no digit of the whole part or of the fraction
/// (a leading zero of the fraction among them) is lost or added.
pub proof fn law_display_reads_back(raw: i64)
    ensures
        crate::token::number_units(display(raw as int)) == Some(raw as int),
{
    let a = abs(raw as int);
    let q = a / (SCALE as nat);
    let f = a % (SCALE as nat);
    assert(pow10(6) == 1000000) by {
        reveal_with_fuel(pow10, 7);
    }
    lemma_decimal(q);
    lemma_fraction(f, 6);
    let whole = decimal(q);
    let frac = fraction(f, 6);
    let s = display(raw as int);
    let b = if frac.len() == 0 {
        whole
    } else {
        whole + seq!['.'] + frac
    };
    assert(b.len() > 0 && b[0] == whole[0]);
    if raw < 0 {
        assert(s =~= seq!['-'] + b);
        assert(s.skip(1) =~= b);
    } else {
        assert(s =~= b);
    }
    assert(body_of(s) == b);
    let k = whole.len() as int;
    assert forall|j: int| 0 <= j < k implies b[j] != '.' by {
        assert(b[j] == whole[j]);
    }
    lemma_first_dot(b, k);
    assert(first_dot(b) == k);
    assert(b.take(k) =~= whole);
    let fs = if k < b.len() {
        b.skip(k + 1)
    } else {
        Seq::<char>::empty()
    };
    assert(fs =~= frac);
    assert(all_digits(whole));
    assert(all_digits(frac));
    assert(frac_acc(Seq::<char>::empty()) == (0nat, 0nat));
    let (fv, places) = frac_acc(frac);
    assert(fv * pow10((6 - places) as nat) == f);
    assert(SCALE as nat == 1_000_000nat);
    vstd::arithmetic::div_mod::lemma_fundamental_div_mod(a as int, 1_000_000);
    assert(whole_value(whole) * 1_000_000 + f == a);
    assert(decimal_form(s));
    assert(decimal_units(s) == raw as int);
    if s.len() > 2 && s[0] == '0' {
        assert(raw >= 0);
        if frac.len() == 0 {
            assert(s[1] == whole[1]);
        } else if k > 1 {
            assert(s[1] == whole[1]);
        } else {
            assert(s[1] == '.');
        }
    }
    assert(crate::token::radix_prefix(s) is None);
}

/// The character of a decimal digit stands for that digit.
proof fn lemma_digit_char(d: nat)
    requires
        d < 10,
    ensures
        '0' <= digit_char(d) <= '9',
        (digit_char(d) as nat) - 48 == d,
{
}

/// The decimal digits of `n` are digits, at least one, and read back as
/// `n`.
proof fn lemma_decimal(n: nat)
    ensures
        decimal(n).len() > 0,
        forall|i: int| 0 <= i < decimal(n).len() ==> '0' <= #[trigger] decimal(n)[i] <= '9',
        whole_value(decimal(n)) == n,
        digit_count(decimal(n)) == decimal(n).len(),
    decreases n,
{
    lemma_digit_char(n % 10);
    if n >= 10 {
        lemma_decimal(n / 10);
        let d = decimal(n);
        assert(d.drop_last() =~= decimal(n / 10));
        assert forall|i: int| 0 <= i < d.len() implies '0' <= #[trigger] d[i] <= '9' by {
            if i < d.len() - 1 {
                assert(d[i] == decimal(n / 10)[i]);
            }
        }
        assert(d.last() == digit_char(n % 10));
        assert(whole_value(d) == whole_value(decimal(n / 10)) * 10 + ((d.last() as nat) - 48) as nat);
        assert(digit_count(d) == digit_count(decimal(n / 10)) + 1);
    } else {
        let d = decimal(n);
        assert(d.drop_last() =~= Seq::<char>::empty());
        assert(d.last() == digit_char(n));
        assert(whole_value(d) == whole_value(d.drop_last()) * 10 + ((d.last() as nat) - 48) as nat);
        assert(digit_count(d) == digit_count(d.drop_last()) + 1);
    }
}

/// The last `k` digits of `n`, padded, are `k` digits that read back, as
/// a fraction of up to six places, as `n` modulo `10^k`.
proof fn lemma_padded(n: nat, k: nat)
    requires
        k <= 6,
    ensures
        padded(n, k).len() == k,
        forall|i: int| 0 <= i < k ==> '0' <= #[trigger] padded(n, k)[i] <= '9',
        digit_count(padded(n, k)) == k,
        frac_acc(padded(n, k)) == (n % pow10(k), k),
    decreases k,
{
    if k > 0 {
        let km = (k - 1) as nat;
        lemma_padded(n / 10, km);
        lemma_digit_char(n % 10);
        let p = padded(n, k);
        assert(p.drop_last() =~= padded(n / 10, km));
        assert forall|i: int| 0 <= i < k implies '0' <= #[trigger] p[i] <= '9' by {
            if i < k - 1 {
                assert(p[i] == padded(n / 10, km)[i]);
            }
        }
        assert(pow10(k) == 10 * pow10(km));
        lemma_pow10_pos(km);
        vstd::arithmetic::div_mod::lemma_mod_breakdown(n as int, 10, pow10(km) as int);
        assert((n / 10) % pow10(km) * 10 + n % 10 == n % pow10(k)) by (nonlinear_arith)
            requires
                (n as int) % (10 * pow10(km) as int) == 10 * (((n as int) / 10) % (pow10(km) as int)) + (n as int) % 10,
                pow10(k) == 10 * pow10(km),
                pow10(km) > 0;
    }
}

/// `10^k` is positive.
proof fn lemma_pow10_pos(k: nat)
    ensures
        pow10(k) > 0,
    decreases k,
{
    if k > 0 {
        lemma_pow10_pos((k - 1) as nat);
    }
}

/// The fractional digits `f` of `k` places, trailing zeros removed, are
/// digits, none exactly when `f` is zero, and read back as `f`.
proof fn lemma_fraction(f: nat, k: nat)
    requires
        k <= 6,
        f < pow10(k),
    ensures
        forall|i: int| 0 <= i < fraction(f, k).len() ==> '0' <= #[trigger] fraction(f, k)[i] <= '9',
        digit_count(fraction(f, k)) == fraction(f, k).len(),
        fraction(f, k).len() == 0 <==> f == 0,
        frac_acc(fraction(f, k)).1 <= k,
        frac_acc(fraction(f, k)).0 * pow10((k - frac_acc(fraction(f, k)).1) as nat) == f,
    decreases k,
{
    if k == 0 || f == 0 {
        assert(frac_acc(Seq::<char>::empty()) == (0nat, 0nat));
        assert(pow10(0) == 1);
        assert(f == 0);
        assert(fraction(f, k) == Seq::<char>::empty());
        assert(0 * pow10(k) == 0);
    } else if f % 10 == 0 {
        let km = (k - 1) as nat;
        assert(pow10(k) == 10 * pow10(km));
        assert(f / 10 < pow10(km));
        lemma_fraction(f / 10, km);
        let (v, p) = frac_acc(fraction(f / 10, km));
        assert(pow10((k - p) as nat) == 10 * pow10((km - p) as nat));
        assert(v * pow10((k - p) as nat) == 10 * (v * pow10((km - p) as nat))) by (nonlinear_arith)
            requires
                pow10((k - p) as nat) == 10 * pow10((km - p) as nat);
        if f / 10 == 0 {
            assert(false);
        }
        assert(fraction(f, k) == fraction(f / 10, km));
        assert(v * pow10((k - p) as nat) == f);
    } else {
        lemma_padded(f, k);
        vstd::arithmetic::div_mod::lemma_small_mod(f, pow10(k));
        assert(f % pow10(k) == f);
        assert(fraction(f, k) == padded(f, k));
        assert(pow10(0) == 1);
        let pr = frac_acc(padded(f, k));
        assert(pr.0 == f && pr.1 == k);
        assert(((k - pr.1) as nat) == 0);
        assert(pr.0 * pow10(0) == f);
        assert(frac_acc(fraction(f, k)).0 * pow10((k - frac_acc(fraction(f, k)).1) as nat) == f);
    }
}

/// `10^k`
pub open spec fn pow10(k: nat) -> nat
    decreases k,
{
    if k == 0 { 1 } else { 10 * pow10((k - 1) as nat) }
}

} // verus!
