//! Tokens: what the lexer produces and the parser consumes.

use vstd::prelude::*;
use crate::error::{Error, ErrorKind, Result};
use crate::number::{Number, SCALE, fits, decimal_form, decimal_units};
use crate::symbol::Symbol;
use crate::syntax::Syntax;
use crate::text::{str_to_chars, string_of};

verus! {

/// A token: its kind, where it starts and how long it is (in
/// characters), and the text it stands for.
#[derive(Debug)]
pub struct Token {
    pub pos: usize,
    pub len: usize,
    pub kind: Syntax,
    pub lit: String,
}

impl Clone for Token {
    fn clone(&self) -> (r: Token)
        ensures
            r == *self,
    {
        Token { pos: self.pos, len: self.len, kind: self.kind, lit: self.lit.clone() }
    }
}

/// Does a token of kind `k` carry its source text?
pub open spec fn spec_is_literal(k: Syntax) -> bool {
    !(k is Indent || k is Dedent || k is Semi)
}

/// The value of digit character `c` in base `radix`, if it is one.
pub open spec fn radix_digit(c: char, radix: nat) -> Option<nat> {
    let v: int = if '0' <= c && c <= '9' {
        c as int - 48
    } else if 'a' <= c && c <= 'z' {
        c as int - 97 + 10
    } else if 'A' <= c && c <= 'Z' {
        c as int - 65 + 10
    } else {
        99
    };
    if v < radix { Some(v as nat) } else { None }
}

/// Is every character of `s` a digit of base `radix`?
pub open spec fn radix_digits(s: Seq<char>, radix: nat) -> bool {
    forall|i: int| 0 <= i < s.len() ==> (#[trigger] radix_digit(s[i], radix)) is Some
}

/// The value of the base-`radix` digits `s`.
pub open spec fn radix_value(s: Seq<char>, radix: nat) -> nat
    decreases s.len(),
{
    if s.len() == 0 {
        0
    } else {
        radix_value(s.drop_last(), radix) * radix + radix_digit(s.last(), radix).unwrap()
    }
}

/// An integer written in base `radix`, as `isize::from_str_radix` reads
/// it on a 64-bit machine: an optional `+` or `-`, then at least one
/// digit; `None` when the text is not of that form or the value does not
/// fit.
pub open spec fn int_literal(s: Seq<char>, radix: nat) -> Option<int> {
    let signed = s.len() > 0 && (s[0] == '+' || s[0] == '-');
    let body = if signed { s.skip(1) } else { s };
    let v: int = radix_value(body, radix) as int;
    let x: int = if s.len() > 0 && s[0] == '-' { -v } else { v };
    if body.len() == 0 || !radix_digits(body, radix) || !fits(x) {
        None
    } else {
        Some(x)
    }
}

/// `s` without its underscores.
pub open spec fn without_underscores(s: Seq<char>) -> Seq<char>
    decreases s.len(),
{
    if s.len() == 0 {
        s
    } else if s.last() == '_' {
        without_underscores(s.drop_last())
    } else {
        without_underscores(s.drop_last()).push(s.last())
    }
}

/// The base that the first two characters of `s` announce, if any.
pub open spec fn radix_prefix(s: Seq<char>) -> Option<nat> {
    if s.len() > 2 && s[0] == '0' && s[1] == 'b' {
        Some(2)
    } else if s.len() > 2 && s[0] == '0' && s[1] == 'o' {
        Some(8)
    } else if s.len() > 2 && s[0] == '0' && s[1] == 'x' {
        Some(16)
    } else {
        None
    }
}

/// The value of a number literal, in millionths, if it has one.
pub open spec fn number_units(s: Seq<char>) -> Option<int> {
    match radix_prefix(s) {
        Some(r) => match int_literal(s.skip(2), r) {
            Some(v) => if fits(v * SCALE) { Some(v * SCALE) } else { None },
            None => None,
        },
        None => if decimal_form(s) && fits(decimal_units(s)) {
            Some(decimal_units(s))
        } else {
            None
        },
    }
}

/// The value of an integer literal, if it has one.
pub open spec fn integer_value(s: Seq<char>) -> Option<int> {
    match radix_prefix(s) {
        Some(r) => int_literal(s.skip(2), r),
        None => int_literal(without_underscores(s), 10),
    }
}

/// Reads `s[lo..]` as an integer in base `radix`.
fn parse_int(s: &Vec<char>, lo: usize, radix: u32) -> (r: Option<i64>)
    requires
        lo <= s@.len(),
        2 <= radix <= 36,
    ensures
        r is Some <==> int_literal(s@.skip(lo as int), radix as nat) is Some,
        r matches Some(v) ==> int_literal(s@.skip(lo as int), radix as nat) == Some(v as int),
{
    let ghost t = s@.skip(lo as int);
    let n = s.len();
    let neg = lo < n && s[lo] == '-';
    let signed = lo < n && (s[lo] == '+' || s[lo] == '-');
    let start: usize = if signed { lo + 1 } else { lo };
    let ghost body = if signed { t.skip(1) } else { t };
    assert(body == s@.subrange(start as int, n as int));
    if start == n {
        return None;
    }
    let cap: u128 = 0x1_0000_0000_0000_0000;
    let mut v: u128 = 0;
    let mut i = start;
    while i < n
        invariant
            start <= i <= n,
            n == s@.len(),
            2 <= radix <= 36,
            body == s@.subrange(start as int, n as int),
            lo <= n,
            cap == 0x1_0000_0000_0000_0000,
            t == s@.skip(lo as int),
            body == (if signed { t.skip(1) } else { t }),
            signed == (lo < n && (s@[lo as int] == '+' || s@[lo as int] == '-')),
            neg == (lo < n && s@[lo as int] == '-'),
            radix_digits(body.take(i - start), radix as nat),
            v == (if radix_value(body.take(i - start), radix as nat) > cap {
                cap as nat
            } else {
                radix_value(body.take(i - start), radix as nat)
            }),
        decreases n - i,
    {
        let c = s[i];
        let d: u32 = if '0' <= c && c <= '9' {
            c as u32 - 48
        } else if 'a' <= c && c <= 'z' {
            c as u32 - 97 + 10
        } else if 'A' <= c && c <= 'Z' {
            c as u32 - 65 + 10
        } else {
            99
        };
        proof {
            assert(body.take(i + 1 - start).drop_last() == body.take(i - start));
            assert(body.take(i + 1 - start).last() == c);
            assert(body[i - start] == c);
        }
        if d >= radix {
            proof {
                assert(radix_digit(body[i - start], radix as nat) is None);
                assert(!radix_digits(body, radix as nat));
                assert(t.len() > 0 ==> t[0] == s@[lo as int]);
                assert(int_literal(t, radix as nat) is None);
            }
            return None;
        }
        if v < cap {
            proof {
                assert(v * (radix as u128) <= 0x1_0000_0000_0000_0000 * 36) by (nonlinear_arith)
                    requires v < 0x1_0000_0000_0000_0000, radix <= 36;
            }
            v = v * (radix as u128) + (d as u128);
            if v > cap {
                v = cap;
            }
        } else {
            proof {
                let w = radix_value(body.take(i - start), radix as nat);
                assert(w * radix >= w) by (nonlinear_arith) requires radix >= 2;
            }
        }
        i += 1;
    }
    assert(body.take(n - start) == body);
    assert(t.len() > 0 ==> t[0] == s@[lo as int]);
    if v >= cap {
        return None;
    }
    if neg {
        if v > 0x8000_0000_0000_0000 {
            return None;
        }
        Some((-(v as i128)) as i64)
    } else {
        if v > 0x7fff_ffff_ffff_ffff {
            return None;
        }
        Some(v as i64)
    }
}

impl Token {
    /// Create a Token.
    pub fn new(kind: Syntax, pos: usize, len: usize, lit: &str) -> (r: Token)
        ensures
            r.kind == kind,
            r.pos == pos,
            r.len == len,
            r.lit@ == lit@,
    {
        Token { kind, pos, len, lit: string_of(lit) }
    }

    /// Will it produce a `literal()`?
    pub fn is_literal(&self) -> (r: bool)
        ensures
            r == spec_is_literal(self.kind),
    {
        match self.kind {
            Syntax::Indent | Syntax::Dedent | Syntax::Semi => false,
            _ => true,
        }
    }

    /// The text this token stands for: empty for indents, dedents and
    /// semicolons.
    pub open spec fn spec_literal(&self) -> Seq<char> {
        if spec_is_literal(self.kind) {
            self.lit@
        } else {
            Seq::empty()
        }
    }

    /// Get the literal value in source code, if it has one.
    pub fn literal(&self) -> (r: &str)
        ensures
            r@ == self.spec_literal(),
    {
        if self.is_literal() {
            self.lit.as_str()
        } else {
            proof {
                reveal_strlit("");
            }
            ""
        }
    }

    /// Also the literal.
    pub fn to_str(&self) -> (r: &str)
        ensures
            r@ == self.spec_literal(),
    {
        self.literal()
    }

    /// The literal as a `Symbol`.
    pub fn to_sym(&self) -> (r: Symbol)
        ensures
            r@ == self.spec_literal(),
    {
        Symbol::from(self.to_str())
    }

    /// Create a string of the literal value.
    pub fn to_string(&self) -> (r: String)
        ensures
            r@ == self.spec_literal(),
    {
        string_of(self.literal())
    }

    /// The error for a literal that is not a number.
    fn number_error(&self) -> (e: Error)
        ensures
            e.kind is ParseError,
            e.pos == self.pos,
    {
        Error::new(ErrorKind::ParseError, string_of("invalid number literal"), self.pos, 1)
    }

    /// Convert into a number or error. No weak typing.
    pub fn to_number(&self) -> (r: Result<Number>)
        ensures
            r is Ok <==> number_units(self.spec_literal()) is Some,
            r matches Ok(n) ==> number_units(self.spec_literal()) == Some(n.units()),
            r matches Err(e) ==> e.kind is ParseError,
    {
        let s = str_to_chars(self.literal());
        if s.len() > 2 && s[0] == '0' && (s[1] == 'b' || s[1] == 'o' || s[1] == 'x') {
            let radix: u32 = if s[1] == 'b' { 2 } else if s[1] == 'o' { 8 } else { 16 };
            match parse_int(&s, 2, radix) {
                Some(v) => match Number::from_int(v) {
                    Some(n) => Ok(n),
                    None => Err(self.number_error()),
                },
                None => Err(self.number_error()),
            }
        } else {
            match Number::parse_decimal(s.as_slice()) {
                Some(n) => Ok(n),
                None => Err(self.number_error()),
            }
        }
    }

    /// Convert into an integer or error. No weak typing.
    pub fn to_isize(&self) -> (r: Result<i64>)
        ensures
            r is Ok <==> integer_value(self.spec_literal()) is Some,
            r matches Ok(v) ==> integer_value(self.spec_literal()) == Some(v as int),
            r matches Err(e) ==> e.kind is ParseError,
    {
        let s = str_to_chars(self.literal());
        if s.len() > 2 && s[0] == '0' && (s[1] == 'b' || s[1] == 'o' || s[1] == 'x') {
            let radix: u32 = if s[1] == 'b' { 2 } else if s[1] == 'o' { 8 } else { 16 };
            match parse_int(&s, 2, radix) {
                Some(v) => Ok(v),
                None => Err(self.number_error()),
            }
        } else {
            let t = remove_underscores(&s);
            proof {
                assert(t@.skip(0) == t@);
            }
            match parse_int(&t, 0, 10) {
                Some(v) => Ok(v),
                None => Err(self.number_error()),
            }
        }
    }
}

/// `s` without its underscores.
fn remove_underscores(s: &Vec<char>) -> (r: Vec<char>)
    ensures
        r@ == without_underscores(s@),
{
    let mut r: Vec<char> = Vec::new();
    let mut i: usize = 0;
    while i < s.len()
        invariant
            i <= s@.len(),
            r@ == without_underscores(s@.take(i as int)),
        decreases s.len() - i,
    {
        proof {
            assert(s@.take(i + 1).drop_last() == s@.take(i as int));
        }
        if s[i] != '_' {
            r.push(s[i]);
        }
        i += 1;
    }
    assert(s@.take(s@.len() as int) == s@);
    r
}

} // verus!
