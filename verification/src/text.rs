//! Text helpers: conversions between `&str`, `String` and `Vec<char>`,
//! and the Unicode character classes that the lexer relies on.

use vstd::prelude::*;

verus! {

/// What `char::is_alphabetic` answers for `c` (the Unicode
/// `Alphabetic` property).
pub uninterp spec fn alphabetic(c: char) -> bool;

/// What `char::is_numeric` answers for `c` (Unicode general categories
/// `Nd`, `Nl` and `No`).
pub uninterp spec fn numeric(c: char) -> bool;

/// Is `c` white space: a character with the Unicode `White_Space`
/// property, the class that `char::is_whitespace` answers for?
pub open spec fn whitespace(c: char) -> bool {
    ||| '\u{9}' <= c <= '\u{d}'
    ||| c == ' '
    ||| c == '\u{85}'
    ||| c == '\u{a0}'
    ||| c == '\u{1680}'
    ||| '\u{2000}' <= c <= '\u{200a}'
    ||| c == '\u{2028}'
    ||| c == '\u{2029}'
    ||| c == '\u{202f}'
    ||| c == '\u{205f}'
    ||| c == '\u{3000}'
}

/// What `str::to_uppercase` returns for a string (the Unicode
/// uppercase mapping of every character).
pub uninterp spec fn uppercase(s: Seq<char>) -> Seq<char>;

/// What `str::to_lowercase` returns for a string (the Unicode
/// lowercase mapping of every character).
pub uninterp spec fn lowercase(s: Seq<char>) -> Seq<char>;

/// `char::is_alphabetic`. The contract names the answer, and says only
/// which ASCII characters are alphabetic (the letters): Unicode's
/// `Alphabetic` table is not restated here.
#[verifier::external_body]
pub fn is_alphabetic(c: char) -> (r: bool)
    ensures
        r == alphabetic(c),
        ('a' <= c <= 'z') || ('A' <= c <= 'Z') ==> r,
        (c as int) < 128 && !(('a' <= c <= 'z') || ('A' <= c <= 'Z')) ==> !r,
{
    c.is_alphabetic()
}

/// `char::is_numeric`. The contract names the answer, and says only
/// which ASCII characters are numeric (the digits): the Unicode tables
/// of `Nd`, `Nl` and `No` are not restated here.
#[verifier::external_body]
pub fn is_numeric(c: char) -> (r: bool)
    ensures
        r == numeric(c),
        '0' <= c <= '9' ==> r,
        (c as int) < 128 && !('0' <= c <= '9') ==> !r,
{
    c.is_numeric()
}

/// Is `c` white space (Unicode `White_Space`)?
pub fn is_whitespace(c: char) -> (r: bool)
    ensures
        r == whitespace(c),
{
    ('\u{9}' <= c && c <= '\u{d}') || c == ' ' || c == '\u{85}' || c == '\u{a0}' || c == '\u{1680}'
        || ('\u{2000}' <= c && c <= '\u{200a}') || c == '\u{2028}' || c == '\u{2029}' || c == '\u{202f}'
        || c == '\u{205f}' || c == '\u{3000}'
}

/// `char::is_alphanumeric`, which std documents as "`is_alphabetic()`
/// or `is_numeric()`": computed here from the two.
pub fn is_alphanumeric(c: char) -> (r: bool)
    ensures
        r == (alphabetic(c) || numeric(c)),
        ('a' <= c <= 'z') || ('A' <= c <= 'Z') || ('0' <= c <= '9') ==> r,
        (c as int) < 128 && !(('a' <= c <= 'z') || ('A' <= c <= 'Z') || ('0' <= c <= '9')) ==> !r,
{
    is_alphabetic(c) || is_numeric(c)
}

/// `str::to_uppercase`. The contract names the result; Unicode case
/// mapping is not restated.
#[verifier::external_body]
pub fn to_uppercase(s: &str) -> (r: String)
    ensures
        r@ == uppercase(s@),
{
    s.to_uppercase()
}

/// `str::to_lowercase`. The contract names the result; Unicode case
/// mapping is not restated.
#[verifier::external_body]
pub fn to_lowercase(s: &str) -> (r: String)
    ensures
        r@ == lowercase(s@),
{
    s.to_lowercase()
}

/// `String::push`: appends one character.
#[verifier::external_body]
pub fn push_char(s: &mut String, c: char)
    ensures
        final(s)@ == old(s)@.push(c),
{
    s.push(c);
}

/// The characters of `s`, in order.
pub fn str_to_chars(s: &str) -> (r: Vec<char>)
    ensures
        r@ == s@,
{
    broadcast use vstd::string::group_string_axioms;
    let mut r: Vec<char> = Vec::new();
    for c in it: s.chars()
        invariant
            it.seq() == s@,
            r@ == s@.take(it.index()),
    {
        r.push(c);
        assert(r@ == s@.take(it.index() + 1));
    }
    r
}

/// A `String` holding the characters `v[lo..hi]`.
pub fn chars_to_string(v: &[char], lo: usize, hi: usize) -> (r: String)
    requires
        lo <= hi <= v@.len(),
    ensures
        r@ == v@.subrange(lo as int, hi as int),
{
    let mut r = String::new();
    let mut i = lo;
    while i < hi
        invariant
            lo <= i <= hi <= v@.len(),
            r@ == v@.subrange(lo as int, i as int),
        decreases hi - i,
    {
        push_char(&mut r, v[i]);
        assert(r@ == v@.subrange(lo as int, i + 1));
        i += 1;
    }
    r
}

/// A `String` with the same characters as `s`.
pub fn string_of(s: &str) -> (r: String)
    ensures
        r@ == s@,
{
    s.to_owned()
}

/// Appends the characters of `t` to `s`.
pub fn push_str(s: &mut String, t: &str)
    ensures
        final(s)@ == old(s)@ + t@,
{
    let v = str_to_chars(t);
    let mut i: usize = 0;
    while i < v.len()
        invariant
            i <= v@.len(),
            v@ == t@,
            s@ == old(s)@ + t@.take(i as int),
        decreases v.len() - i,
    {
        push_char(s, v[i]);
        assert(t@.take(i + 1) == t@.take(i as int).push(v@[i as int]));
        i += 1;
    }
    assert(t@.take(v@.len() as int) == t@);
}

/// Do the two strings hold the same characters?
pub fn str_eq(a: &str, b: &str) -> (r: bool)
    ensures
        r == (a@ == b@),
{
    let x = str_to_chars(a);
    let y = str_to_chars(b);
    if x.len() != y.len() {
        return false;
    }
    let mut i: usize = 0;
    while i < x.len()
        invariant
            x@ == a@,
            y@ == b@,
            x@.len() == y@.len(),
            i <= x@.len(),
            forall|j: int| 0 <= j < i ==> x@[j] == y@[j],
        decreases x.len() - i,
    {
        if x[i] != y[i] {
            return false;
        }
        i += 1;
    }
    assert(x@ =~= y@);
    true
}

/// A prefix of a prefix is a prefix.
pub broadcast proof fn lemma_prefix_trans(a: Seq<char>, b: Seq<char>, c: Seq<char>)
    ensures
        #![trigger a.is_prefix_of(b), b.is_prefix_of(c)]
        a.is_prefix_of(b) && b.is_prefix_of(c) ==> a.is_prefix_of(c),
{
    if a.is_prefix_of(b) && b.is_prefix_of(c) {
        assert(a =~= c.subrange(0, a.len() as int)) by {
            assert forall|i: int| 0 <= i < a.len() implies a[i] == c.subrange(0, a.len() as int)[i] by {
                assert(a[i] == b.subrange(0, a.len() as int)[i]);
                assert(b[i] == c.subrange(0, b.len() as int)[i]);
            }
        }
    }
}

} // verus!
