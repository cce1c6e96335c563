//! The lexer turns a string of source code into Tokens.

use vstd::prelude::*;
use crate::error::{Error, ErrorKind, Result};
use crate::syntax::{Syntax, SyntaxTrait, op_char};
use crate::text::{chars_to_string, is_alphabetic, is_numeric, numeric, whitespace, is_whitespace, push_char, push_str, str_to_chars, string_of};
use crate::token::{Token, spec_is_literal, number_units};

verus! {

broadcast use vstd::std_specs::vec::group_vec_axioms;

#[derive(Debug, Clone, Copy, PartialEq, Eq, Structural)]
enum Mode {
    /// Regular
    Plain,
    /// [List] or {Map} or (Sub-Expr)
    Container,
    /// <Tag>
    Tag,
}

#[derive(Debug, Clone, Copy, PartialEq, Eq, Structural)]
enum Style {
    Unknown,
    Tabs,
    Spaces,
}

/// How many tokens of `s` are of kind `k`.
pub open spec fn count_kind(s: Seq<Token>, k: Syntax) -> nat
    decreases s.len(),
{
    if s.len() == 0 {
        0
    } else {
        count_kind(s.drop_last(), k) + if s.last().kind == k { 1nat } else { 0nat }
    }
}

/// Every token's text is no longer than the source, and no token is of
/// kind `Nil`.
pub open spec fn tokens_fit(s: Seq<Token>, n: nat) -> bool {
    forall|i: int| 0 <= i < s.len() ==> (#[trigger] s[i]).lit@.len() <= n && !(s[i].kind is Nil)
}

/// Every token that carries text carries text of the source: the
/// characters found where the token starts. A token that is not a
/// string is as long as its text.
pub open spec fn tokens_sourced(s: Seq<Token>, source: Seq<char>) -> bool {
    forall|i: int|
        0 <= i < s.len() && spec_is_literal((#[trigger] s[i]).kind) ==> token_sourced(s[i], source)
}

/// Token `t` carries the text of `source` found where it starts.
pub open spec fn token_sourced(t: Token, source: Seq<char>) -> bool {
    lit_sourced(t.kind, t.pos as int, t.len as int, t.lit@, source)
}

/// Text `lit` is found in `source` at `pos`; unless the kind is a string,
/// `len` is its length.
pub open spec fn lit_sourced(kind: Syntax, pos: int, len: int, lit: Seq<char>, source: Seq<char>) -> bool {
    &&& pos + lit.len() <= source.len()
    &&& lit == source.subrange(pos, pos + lit.len())
    &&& !(kind is String) ==> len == lit.len()
}

/// The tokens come in source order: none starts after a later one.
pub open spec fn tokens_ordered(s: Seq<Token>) -> bool {
    forall|i: int, j: int| 0 <= i < j < s.len() ==> (#[trigger] s[i]).pos <= (#[trigger] s[j]).pos
}

/// A keyword token's text is its keyword: `def`, `do`, `return`, `if`,
/// `then`, `else`, `for`, `while`, `in`, `fn`, `true` or `false`.
pub open spec fn keyword_text(k: Syntax, lit: Seq<char>) -> bool {
    match k {
        Syntax::Def => lit == "def"@,
        Syntax::Do => lit == "do"@,
        Syntax::Return => lit == "return"@,
        Syntax::If => lit == "if"@,
        Syntax::Then => lit == "then"@,
        Syntax::Else => lit == "else"@,
        Syntax::For => lit == "for"@,
        Syntax::While => lit == "while"@,
        Syntax::In => lit == "in"@,
        Syntax::Fn => lit == "fn"@,
        Syntax::Bool(true) => lit == "true"@,
        Syntax::Bool(false) => lit == "false"@,
        _ => true,
    }
}

/// Is `k` the kind of a keyword?
pub open spec fn is_keyword(k: Syntax) -> bool {
    match k {
        Syntax::Def | Syntax::Do | Syntax::Return | Syntax::If | Syntax::Then | Syntax::Else
        | Syntax::For | Syntax::While | Syntax::In | Syntax::Fn | Syntax::Bool(_) => true,
        _ => false,
    }
}

/// The source text from `lo` to `hi` (both included) is the keyword of
/// kind `k`.
pub open spec fn spelled_at(source: Seq<char>, lo: int, hi: int, k: Syntax) -> bool {
    &&& 0 <= lo <= hi < source.len()
    &&& keyword_text(k, source.subrange(lo, hi + 1))
}

/// Every keyword token's text is its keyword.
pub open spec fn keywords_spelled(s: Seq<Token>) -> bool {
    forall|i: int| 0 <= i < s.len() ==> keyword_text((#[trigger] s[i]).kind, s[i].lit@)
}

/// The characters of `s` from `from` up to `to` all satisfy `p`, and the
/// run stops there: `to` is the end of `s` or a character that does not.
pub open spec fn run_of(s: Seq<char>, from: int, to: int, p: spec_fn(char) -> bool) -> bool {
    &&& 0 <= from <= to <= s.len()
    &&& forall|i: int| from <= i < to ==> #[trigger] p(s[i])
    &&& to < s.len() ==> !p(s[to])
}

/// Is `c` a digit of the radix that `radix` (`b`, `o` or `x`) names, as
/// the lexer reads them (`_` counts for `b` and `o`)?
pub open spec fn radix_digit(radix: char, c: char) -> bool {
    if radix == 'b' {
        c == '0' || c == '1' || c == '_'
    } else if radix == 'o' {
        ('0' <= c && c <= '7') || c == '_'
    } else {
        ('a' <= c && c <= 'f') || ('0' <= c && c <= '9')
    }
}

/// The indentation style that the character at `i` of `s` shows.
spec fn line_style(s: Seq<char>, i: int) -> Style {
    if 0 <= i < s.len() && s[i] == ' ' {
        Style::Spaces
    } else if 0 <= i < s.len() && s[i] == '\t' {
        Style::Tabs
    } else {
        Style::Unknown
    }
}

/// The kind of the token that the single character `c` makes, where it
/// makes one by itself; `in_tag` says whether a tag is being read, and
/// `eq_next` whether `=` follows.
pub open spec fn punct_kind(c: char, in_tag: bool, eq_next: bool) -> Option<Syntax> {
    if c == ';' {
        Some(Syntax::Semi)
    } else if c == ',' {
        Some(Syntax::Comma)
    } else if c == '[' {
        Some(Syntax::LStaple)
    } else if c == ']' {
        Some(Syntax::RStaple)
    } else if c == ')' {
        Some(Syntax::RParen)
    } else if c == '}' {
        Some(Syntax::RCurly)
    } else if c == '(' && !in_tag {
        Some(Syntax::LParen)
    } else if c == '{' && !in_tag {
        Some(Syntax::LCurly)
    } else if c == ':' && !in_tag && !eq_next {
        Some(Syntax::Colon)
    } else if c == '>' && in_tag {
        Some(Syntax::RCaret)
    } else if c == '=' && in_tag {
        Some(Syntax::Equal)
    } else if c == '/' && in_tag {
        Some(Syntax::Slash)
    } else {
        None
    }
}

/// The kind of the first token where the first character of `src` fixes
/// it: a number for a digit, or the token that a punctuation character
/// makes by itself (`;` aside, as leading ones are dropped).
pub open spec fn opening_kind(src: Seq<char>) -> Option<Syntax> {
    if src.len() > 0 && '0' <= src[0] <= '9' {
        Some(Syntax::Number)
    } else if src.len() > 0 {
        match punct_kind(src[0], false, src.len() > 1 && src[1] == '=') {
            Some(k) => if k is Semi {
                None
            } else {
                Some(k)
            },
            None => None,
        }
    } else {
        None
    }
}

/// Does `c` open a string: a double quote, a single quote or a backtick?
pub open spec fn quote_char(c: char) -> bool {
    c == '"' || c == '\'' || c == '`'
}

/// Do three `d` open a long string at `from - 1`: are the characters
/// at `from` and after it `d` too?
pub open spec fn triple_open(s: Seq<char>, from: int, d: char) -> bool {
    from + 1 < s.len() && s[from] == d && s[from + 1] == d
}

/// Is the string opened just before `from` by `d` closed: does an `d`
/// follow, at `from` or after a character other than a backslash?
pub open spec fn closes(s: Seq<char>, from: int, d: char) -> bool {
    exists|j: int| from <= j < s.len() && #[trigger] s[j] == d && (j == from || s[j - 1] != '\\')
}

/// Does `s` hold a quote character?
pub open spec fn has_quote(s: Seq<char>) -> bool {
    exists|i: int| 0 <= i < s.len() && quote_char(#[trigger] s[i])
}

/// Does `s` open with a string that is never closed: a quote character
/// that does not occur again?
pub open spec fn unclosed_first(s: Seq<char>) -> bool {
    &&& s.len() > 0
    &&& quote_char(s[0])
    &&& forall|i: int| 1 <= i < s.len() ==> #[trigger] s[i] != s[0]
}

/// Are the characters of `s` from `from` to its end lowercase ASCII
/// letters?
pub open spec fn lower_from(s: Seq<char>, from: int) -> bool {
    forall|i: int| from <= i < s.len() ==> 'a' <= #[trigger] s[i] <= 'z'
}

/// Are the characters of `s` from `from` to its end ASCII digits?
pub open spec fn digits_from(s: Seq<char>, from: int) -> bool {
    forall|i: int| from <= i < s.len() ==> '0' <= #[trigger] s[i] <= '9'
}

/// Is `s` a run of ASCII digits?
pub open spec fn digit_word(s: Seq<char>) -> bool {
    s.len() > 0 && digits_from(s, 0)
}

/// The tokens of one run of digits `d`: the number, then `;`.
pub open spec fn one_number(toks: Seq<Token>, d: Seq<char>) -> bool {
    &&& toks.len() == 2
    &&& toks[0].kind is Number
    &&& toks[0].lit@ == d
    &&& toks[1].kind is Semi
}

/// From `from` up to `j`, `s` holds digits, and a space or the end
/// follows.
pub open spec fn digit_run_to(s: Seq<char>, from: int, j: int) -> bool {
    &&& from <= j <= s.len()
    &&& forall|k: int| from <= k < j ==> '0' <= #[trigger] s[k] <= '9'
    &&& j < s.len() ==> s[j] == ' '
}

/// From `from` up to `j`, `s` holds lowercase ASCII letters, and a
/// space or the end follows.
pub open spec fn word_run_to(s: Seq<char>, from: int, j: int) -> bool {
    &&& from <= j <= s.len()
    &&& forall|k: int| from <= k < j ==> 'a' <= #[trigger] s[k] <= 'z'
    &&& j < s.len() ==> s[j] == ' '
}

/// From `from` up to `j`, `s` holds lowercase ASCII letters, and the
/// end, a space, a `>` or a newline follows.
pub open spec fn word_stops(s: Seq<char>, from: int, j: int) -> bool {
    &&& from <= j <= s.len()
    &&& forall|k: int| from <= k < j ==> 'a' <= #[trigger] s[k] <= 'z'
    &&& j < s.len() ==> s[j] == ' ' || s[j] == '>' || s[j] == '\n'
}

/// The kind the lexer gives the lowercase word `w` that spells no other
/// keyword: a boolean for `true` and `false`, else a word.
pub open spec fn word_kind(w: Seq<char>) -> Syntax {
    if w == "true"@ {
        Syntax::Bool(true)
    } else if w == "false"@ {
        Syntax::Bool(false)
    } else {
        Syntax::Word
    }
}

/// Is `w` a lowercase ASCII word that is `true`, `false`, or names no
/// keyword (nor `break` or `continue`)?
pub open spec fn operand_word(w: Seq<char>) -> bool {
    &&& w.len() > 0
    &&& lower_from(w, 0)
    &&& w == "true"@ || w == "false"@ || (!keyword_spelling(w) && w != "break"@ && w != "continue"@)
}

/// From `from` up to `j`, `s` holds digits, and a newline follows.
pub open spec fn digit_run_nl(s: Seq<char>, from: int, j: int) -> bool {
    &&& from <= j < s.len()
    &&& forall|k: int| from <= k < j ==> '0' <= #[trigger] s[k] <= '9'
    &&& s[j] == '\n'
}

/// From `from` up to `j`, `s` holds digits, and `..` follows.
pub open spec fn digit_run_dots(s: Seq<char>, from: int, j: int) -> bool {
    &&& from <= j
    &&& j + 1 < s.len()
    &&& forall|k: int| from <= k < j ==> '0' <= #[trigger] s[k] <= '9'
    &&& s[j] == '.'
    &&& s[j + 1] == '.'
}

/// Is `s` a range `a..b` of two runs of digits, the first `n` long?
pub open spec fn range_src(s: Seq<char>, n: int) -> bool {
    &&& n >= 1
    &&& n + 2 < s.len()
    &&& digit_run_dots(s, 0, n)
    &&& digits_from(s, n + 2)
}

/// The tokens of the range `a..b` (see `range_src`): the first number,
/// the operator `..`, the second number, then `;`.
pub open spec fn range_tokens(toks: Seq<Token>, s: Seq<char>, n: int) -> bool {
    &&& toks.len() == 4
    &&& tok_is(toks[0], Syntax::Number, s, 0, n)
    &&& tok_is(toks[1], Syntax::Op, s, n, n + 2)
    &&& tok_is(toks[2], Syntax::Number, s, n + 2, s.len() as int)
    &&& toks[3].kind is Semi
}

/// How far scanning the range `a..b` has come.
spec fn range_progress(toks: Seq<Token>, s: Seq<char>, next: int, n: int) -> bool {
    ||| next == 0 && toks.len() == 0
    ||| next == n && toks.len() == 1 && tok_is(toks[0], Syntax::Number, s, 0, n)
    ||| next == n + 2 && toks.len() == 2 && tok_is(toks[0], Syntax::Number, s, 0, n) && tok_is(
        toks[1],
        Syntax::Op,
        s,
        n,
        n + 2,
    )
    ||| next == s.len() && toks.len() == 3 && tok_is(toks[0], Syntax::Number, s, 0, n) && tok_is(
        toks[1],
        Syntax::Op,
        s,
        n,
        n + 2,
    ) && tok_is(toks[2], Syntax::Number, s, n + 2, s.len() as int)
}

/// From `from` up to `q`, `s` holds spaces, at least one, and a
/// lowercase letter follows: a line indented with spaces.
pub open spec fn line_start(s: Seq<char>, from: int, q: int) -> bool {
    &&& 0 <= from < q < s.len()
    &&& forall|k: int| from <= k < q ==> #[trigger] s[k] == ' '
    &&& 'a' <= s[q] <= 'z'
}

/// From `a` up to `b`, `s` holds lowercase words set off by single
/// spaces, a letter first and last.
pub open spec fn words_between(s: Seq<char>, a: int, b: int) -> bool {
    &&& 0 <= a < b <= s.len()
    &&& 'a' <= s[a] <= 'z'
    &&& 'a' <= s[b - 1] <= 'z'
    &&& forall|k: int| a <= k < b ==> ('a' <= #[trigger] s[k] <= 'z' || s[k] == ' ')
    &&& forall|k: int| a <= k < b - 1 && #[trigger] s[k] == ' ' ==> 'a' <= s[k + 1] <= 'z'
}

/// Is `s` a line of words, a line of words indented with spaces, and a
/// line indented with a tab: the newlines at `p1` and `p2`, the words of
/// the second line from `q` on?
pub open spec fn mixed_src(s: Seq<char>, p1: int, q: int, p2: int) -> bool {
    &&& words_between(s, 0, p1)
    &&& p1 < s.len() && s[p1] == '\n'
    &&& line_start(s, p1 + 1, q)
    &&& words_between(s, q, p2)
    &&& p2 + 1 < s.len()
    &&& s[p2] == '\n'
    &&& s[p2 + 1] == '\t'
}

/// In the words from `a` up to `b`, `n` is where a word starts, a space,
/// or `b`.
pub open spec fn word_place(s: Seq<char>, a: int, b: int, n: int) -> bool {
    ||| n == b
    ||| a <= n < b && s[n] == ' '
    ||| a <= n < b && (n == a || s[n - 1] == ' ')
}

/// The end of the word that starts at `at`: the space or the newline
/// after it.
proof fn lemma_word_end(s: Seq<char>, a: int, b: int, at: int) -> (j: int)
    requires
        words_between(s, a, b),
        b < s.len(),
        s[b] == '\n',
        a <= at < b,
        'a' <= s[at] <= 'z',
    ensures
        at < j <= b,
        word_stops(s, at + 1, j),
        j == b || s[j] == ' ',
    decreases b - at,
{
    if at + 1 == b {
        b
    } else if s[at + 1] == ' ' {
        at + 1
    } else {
        assert('a' <= s[at + 1] <= 'z' || s[at + 1] == ' ');
        lemma_word_end(s, a, b, at + 1)
    }
}

/// From `from` up to the newline at `c`, `s` holds no other newline: a
/// comment that `c` ends.
pub open spec fn comment_to(s: Seq<char>, from: int, c: int) -> bool {
    &&& 0 <= from <= c < s.len()
    &&& s[c] == '\n'
    &&& forall|k: int| from <= k < c ==> #[trigger] s[k] != '\n'
}

/// Is `s` an empty string: two or six equal quote characters?
pub open spec fn empty_quotes(s: Seq<char>) -> bool {
    &&& s.len() == 2 || s.len() == 6
    &&& quote_char(s[0])
    &&& quotes_to_end(s, 1, s[0])
}

/// From `from` to its end, `s` holds `d`, one or five of them.
pub open spec fn quotes_to_end(s: Seq<char>, from: int, d: char) -> bool {
    &&& from + 1 == s.len() || from + 5 == s.len()
    &&& forall|i: int| from <= i < s.len() ==> #[trigger] s[i] == d
}

/// The tokens of an empty string: the string, with no text, then `;`.
pub open spec fn empty_string_tokens(toks: Seq<Token>) -> bool {
    &&& toks.len() == 2
    &&& toks[0].kind == Syntax::String(false)
    &&& toks[0].lit@.len() == 0
    &&& toks[1].kind is Semi
}

/// Is `s` an assignment `w := d` (`k` is 2) or `w = d` (`k` is 1): a
/// lowercase word `n` long that names no keyword, a space, the operator,
/// a space, and a run of digits to the end?
pub open spec fn assign_src(s: Seq<char>, n: int, k: int) -> bool {
    &&& n >= 1
    &&& k == 1 || k == 2
    &&& n + k + 3 <= s.len()
    &&& word_run_to(s, 0, n)
    &&& operand_word(s.subrange(0, n))
    &&& word_kind(s.subrange(0, n)) == Syntax::Word
    &&& if k == 2 {
        s[n + 1] == ':' && s[n + 2] == '='
    } else {
        s[n + 1] == '='
    }
    &&& s[n + 1 + k] == ' '
    &&& digits_from(s, n + 2 + k)
}

/// The tokens of the assignment `w := d` or `w = d` (see `assign_src`):
/// the word, the operator, the number, then `;`.
pub open spec fn assign_tokens(toks: Seq<Token>, s: Seq<char>, n: int, k: int) -> bool {
    &&& toks.len() == 4
    &&& tok_is(toks[0], Syntax::Word, s, 0, n)
    &&& tok_is(toks[1], Syntax::Op, s, n + 1, n + 1 + k)
    &&& tok_is(toks[2], Syntax::Number, s, n + 2 + k, s.len() as int)
    &&& toks[3].kind is Semi
}

/// How far scanning the assignment has come.
spec fn assign_progress(toks: Seq<Token>, s: Seq<char>, next: int, n: int, k: int) -> bool {
    ||| next == 0 && toks.len() == 0
    ||| (next == n || next == n + 1) && toks.len() == 1 && tok_is(toks[0], Syntax::Word, s, 0, n)
    ||| (next == n + 1 + k || next == n + 2 + k) && toks.len() == 2 && tok_is(toks[0], Syntax::Word, s, 0, n)
        && tok_is(toks[1], Syntax::Op, s, n + 1, n + 1 + k)
    ||| next == s.len() && toks.len() == 3 && tok_is(toks[0], Syntax::Word, s, 0, n) && tok_is(
        toks[1],
        Syntax::Op,
        s,
        n + 1,
        n + 1 + k,
    ) && tok_is(toks[2], Syntax::Number, s, n + 2 + k, s.len() as int)
}

/// What the lexer meets where a part of the assignment begins.
proof fn lemma_assign_next(s: Seq<char>, n: int, k: int)
    requires
        assign_src(s, n, k),
    ensures
        'a' <= s[0] <= 'z',
        word_run_to(s, 1, n),
        s[n] == ' ',
        !whitespace(s[n + 1]),
        !whitespace(s[n + 2 + k]),
        '0' <= s[n + 2 + k] <= '9',
        digits_from(s, n + 3 + k),
{
    assert('a' <= s[0] <= 'z');
    assert('0' <= s[n + 2 + k] <= '9');
}

/// An assignment splits into its parts in one way only.
proof fn lemma_assign_unique(s: Seq<char>, a: int, b: int, n: int, k: int)
    requires
        assign_src(s, a, b),
        assign_src(s, n, k),
    ensures
        a == n && b == k,
{
    if a < n {
        assert('a' <= s[a] <= 'z');
    } else if n < a {
        assert('a' <= s[n] <= 'z');
    }
}

/// Does `s` open with a closing tag `</`?
pub open spec fn opens_closing(s: Seq<char>) -> bool {
    s.len() >= 2 && s[0] == '<' && s[1] == '/'
}

/// The tokens open with the `<` and `/` of a closing tag.
pub open spec fn closing_first(toks: Seq<Token>) -> bool {
    toks.len() >= 2 && toks[0].kind is LCaret && toks[1].kind is Slash
}

/// Is `w` a lowercase word that names no keyword, nor `true` or `false`
/// (nor `break` or `continue`)?
pub open spec fn plain_name(w: Seq<char>) -> bool {
    operand_word(w) && word_kind(w) == Syntax::Word
}

/// Is `s` a tag line `<t> w`: a tag name `n` long, `>`, a space, and a
/// word to the end, both plain names?
pub open spec fn tag_word_src(s: Seq<char>, n: int) -> bool {
    &&& n >= 1
    &&& n + 4 <= s.len()
    &&& s[0] == '<'
    &&& word_stops(s, 1, 1 + n)
    &&& s[1 + n] == '>'
    &&& s[2 + n] == ' '
    &&& lower_from(s, 3 + n)
    &&& plain_name(s.subrange(1, 1 + n))
    &&& plain_name(s.subrange(3 + n, s.len() as int))
}

/// The tokens of the tag line `<t> w` (see `tag_word_src`): `<`, the
/// name, `>`, the word, then `;`.
pub open spec fn tag_word_tokens(toks: Seq<Token>, s: Seq<char>, n: int) -> bool {
    &&& toks.len() == 5
    &&& toks[0].kind is LCaret
    &&& tok_is(toks[1], Syntax::Word, s, 1, 1 + n)
    &&& toks[2].kind is RCaret
    &&& tok_is(toks[3], Syntax::Word, s, 3 + n, s.len() as int)
    &&& toks[4].kind is Semi
}

/// How far scanning the tag line has come, and in which mode.
spec fn tag_word_progress(toks: Seq<Token>, s: Seq<char>, next: int, mode: Mode, n: int) -> bool {
    ||| next == 0 && toks.len() == 0 && mode == Mode::Plain
    ||| next == 1 && toks.len() == 1 && toks[0].kind is LCaret && mode == Mode::Tag
    ||| next == 1 + n && toks.len() == 2 && toks[0].kind is LCaret && tok_is(toks[1], Syntax::Word, s, 1, 1 + n)
        && mode == Mode::Tag
    ||| (next == 2 + n || next == 3 + n) && toks.len() == 3 && toks[0].kind is LCaret && tok_is(
        toks[1],
        Syntax::Word,
        s,
        1,
        1 + n,
    ) && toks[2].kind is RCaret && mode == Mode::Plain
    ||| next == s.len() && toks.len() == 4 && toks[0].kind is LCaret && tok_is(toks[1], Syntax::Word, s, 1, 1 + n)
        && toks[2].kind is RCaret && tok_is(toks[3], Syntax::Word, s, 3 + n, s.len() as int)
}

/// What the lexer meets where a part of the tag line begins.
proof fn lemma_tag_word_next(s: Seq<char>, n: int)
    requires
        tag_word_src(s, n),
    ensures
        'a' <= s[1] <= 'z',
        word_stops(s, 2, 1 + n),
        !whitespace(s[3 + n]),
        'a' <= s[3 + n] <= 'z',
        lower_from(s, 4 + n),
        !keyword_spelling(s.subrange(3 + n, s.len() as int)),
{
    assert('a' <= s[1] <= 'z');
    assert('a' <= s[3 + n] <= 'z');
    reveal_strlit("true");
    reveal_strlit("false");
}

/// A tag line splits at its first `>` only.
proof fn lemma_tag_word_unique(s: Seq<char>, a: int, n: int)
    requires
        tag_word_src(s, a),
        tag_word_src(s, n),
    ensures
        a == n,
{
    if a < n {
        assert('a' <= s[1 + a] <= 'z');
    } else if n < a {
        assert('a' <= s[1 + n] <= 'z');
    }
}

/// Is `s` a run of digits `a` long, a newline, a comment line up to the
/// newline at `c`, and a run of digits to the end?
pub open spec fn comment_src(s: Seq<char>, a: int, c: int) -> bool {
    &&& a >= 1
    &&& digit_run_nl(s, 0, a)
    &&& s[a + 1] == '#'
    &&& comment_to(s, a + 1, c)
    &&& c + 1 < s.len()
    &&& digits_from(s, c + 1)
}

/// The tokens of such a source: the first number, `;`, the second
/// number, `;`; the comment makes none.
pub open spec fn comment_tokens(toks: Seq<Token>, s: Seq<char>, a: int, c: int) -> bool {
    &&& toks.len() == 4
    &&& tok_is(toks[0], Syntax::Number, s, 0, a)
    &&& toks[1].kind is Semi
    &&& tok_is(toks[2], Syntax::Number, s, c + 1, s.len() as int)
    &&& toks[3].kind is Semi
}

/// How far scanning such a source has come.
spec fn comment_progress(toks: Seq<Token>, s: Seq<char>, next: int, a: int, c: int) -> bool {
    ||| next == 0 && toks.len() == 0
    ||| next == a && toks.len() == 1 && tok_is(toks[0], Syntax::Number, s, 0, a)
    ||| next == c + 1 && toks.len() == 2 && tok_is(toks[0], Syntax::Number, s, 0, a) && toks[1].kind is Semi
    ||| next == s.len() && toks.len() == 3 && tok_is(toks[0], Syntax::Number, s, 0, a) && toks[1].kind is Semi
        && tok_is(toks[2], Syntax::Number, s, c + 1, s.len() as int)
}

/// What the lexer meets where a part of such a source begins.
proof fn lemma_comment_next(s: Seq<char>, a: int, c: int)
    requires
        comment_src(s, a, c),
    ensures
        '0' <= s[0] <= '9',
        digit_run_nl(s, 1, a),
        s[a] == '\n',
        s[a + 1] == '#',
        comment_to(s, a + 1, c),
        c + 1 < s.len(),
        '0' <= s[c + 1] <= '9',
        digits_from(s, c + 2),
{
    assert('0' <= s[0] <= '9');
    assert('0' <= s[c + 1] <= '9');
}

/// Such a source splits in one way only.
proof fn lemma_comment_unique(s: Seq<char>, a: int, c: int, a2: int, c2: int)
    requires
        comment_src(s, a, c),
        comment_src(s, a2, c2),
    ensures
        a == a2 && c == c2,
{
    if a < a2 {
        assert('0' <= s[a] <= '9');
    } else if a2 < a {
        assert('0' <= s[a2] <= '9');
    }
    if c < c2 {
        assert(s[c] != '\n');
    } else if c2 < c {
        assert(s[c2] != '\n');
    }
}

/// Where line `k` begins: at the start, or just past the newline that
/// ends line `k - 1`.
pub open spec fn line_begin(ends: Seq<int>, k: int) -> int {
    if k == 0 {
        0
    } else {
        ends[k - 1] + 1
    }
}

/// The text of line `k`.
pub open spec fn line_text(s: Seq<char>, ends: Seq<int>, k: int) -> Seq<char> {
    s.subrange(line_begin(ends, k), ends[k])
}

/// Is `w` a lone operand: a lowercase word, `true`, `false`, or a run
/// of digits whose number the library holds?
#[verifier::opaque]
pub open spec fn operand_line(w: Seq<char>) -> bool {
    operand_word(w) || (digit_word(w) && number_units(w) is Some)
}

/// The kind of the token of the lone operand `w`.
pub open spec fn line_kind(w: Seq<char>) -> Syntax {
    if digit_word(w) {
        Syntax::Number
    } else {
        word_kind(w)
    }
}

/// Is `s` lines of one lone operand each, line `k` ending at
/// `ends[k]`: at a newline, or for the last line at the end of `s` or at
/// a newline that ends `s`?
pub open spec fn lines_src(s: Seq<char>, ends: Seq<int>) -> bool {
    &&& ends.len() > 0
    &&& ends.last() == s.len() || (ends.last() + 1 == s.len() && s[ends.last()] == '\n')
    &&& forall|k: int|
        0 <= k < ends.len() ==> 0 <= line_begin(ends, k) < ends[k] <= s.len() && operand_line(
            #[trigger] line_text(s, ends, k),
        )
    &&& forall|k: int| 0 <= k < ends.len() - 1 ==> s[#[trigger] ends[k]] == '\n'
}

/// Tokens `2 * k` and `2 * k + 1` are line `k`'s operand and `;`.
pub open spec fn line_toks(toks: Seq<Token>, s: Seq<char>, ends: Seq<int>, k: int) -> bool {
    &&& tok_is(toks[2 * k], line_kind(line_text(s, ends, k)), s, line_begin(ends, k), ends[k])
    &&& toks[2 * k + 1].kind is Semi
}

/// The tokens of such a source: each line's operand, then `;`.
pub open spec fn lines_tokens(toks: Seq<Token>, s: Seq<char>, ends: Seq<int>) -> bool {
    &&& toks.len() == 2 * ends.len()
    &&& forall|k: int| 0 <= k < ends.len() ==> #[trigger] line_toks(toks, s, ends, k)
}

/// How far scanning such a source has come: the first `k` lines are
/// done, and the lexer is at the start of line `k`, or past its operand.
spec fn lines_progress(toks: Seq<Token>, s: Seq<char>, next: int, ends: Seq<int>, k: int) -> bool {
    &&& 0 <= k < ends.len()
    &&& forall|i: int| 0 <= i < k ==> #[trigger] line_toks(toks, s, ends, i)
    &&& {
        ||| next == line_begin(ends, k) && toks.len() == 2 * k
        ||| (next == ends[k] || next == ends[k] + 1 == s.len()) && toks.len() == 2 * k + 1 && tok_is(
            toks[2 * k],
            line_kind(line_text(s, ends, k)),
            s,
            line_begin(ends, k),
            ends[k],
        )
    }
}

/// What the lexer meets on line `k` of such a source.
proof fn lemma_lines_next(s: Seq<char>, ends: Seq<int>, k: int)
    requires
        lines_src(s, ends),
        0 <= k < ends.len(),
    ensures
        0 <= line_begin(ends, k) < ends[k] <= s.len(),
        forall|i: int| line_begin(ends, k) <= i < ends[k] ==> line_char(#[trigger] s[i]),
        'a' <= s[line_begin(ends, k)] <= 'z' ==> word_stops(s, line_begin(ends, k) + 1, ends[k]) && operand_word(
            s.subrange(line_begin(ends, k), ends[k]),
        ) && !digit_word(s.subrange(line_begin(ends, k), ends[k])),
        '0' <= s[line_begin(ends, k)] <= '9' ==> digit_word(s.subrange(line_begin(ends, k), ends[k])) && (ends[k]
            < s.len() ==> digit_run_nl(s, line_begin(ends, k) + 1, ends[k])) && (ends[k] == s.len() ==> digits_from(
            s,
            line_begin(ends, k) + 1,
        )),
        k < ends.len() - 1 ==> s[ends[k]] == '\n' && ends[k] + 1 < s.len() && line_char(s[ends[k] + 1])
            && line_begin(ends, k + 1) == ends[k] + 1,
        k == ends.len() - 1 ==> ends[k] == s.len() || (ends[k] + 1 == s.len() && s[ends[k]] == '\n'),
{
    reveal(operand_line);
    assert(operand_line(line_text(s, ends, k)));
    lemma_sub_line(s, line_begin(ends, k), ends[k]);
    if k < ends.len() - 1 {
        assert(s[ends[k]] == '\n');
        assert(operand_line(line_text(s, ends, k + 1)));
        lemma_sub_line(s, line_begin(ends, k + 1), ends[k + 1]);
    }
}

/// A character of a lone operand: a lowercase letter or a digit.
pub open spec fn line_char(c: char) -> bool {
    'a' <= c <= 'z' || '0' <= c <= '9'
}

/// A lone operand found in `s` from `b` up to `e` is a word, lowercase
/// throughout, or a run of digits.
proof fn lemma_sub_line(s: Seq<char>, b: int, e: int)
    requires
        0 <= b < e <= s.len(),
        operand_line(s.subrange(b, e)),
    ensures
        forall|i: int| b <= i < e ==> line_char(#[trigger] s[i]),
        'a' <= s[b] <= 'z' ==> forall|i: int| b <= i < e ==> 'a' <= #[trigger] s[i] <= 'z',
        'a' <= s[b] <= 'z' ==> operand_word(s.subrange(b, e)) && !digit_word(s.subrange(b, e)),
        '0' <= s[b] <= '9' ==> digit_word(s.subrange(b, e)),
        '0' <= s[b] <= '9' ==> forall|i: int| b <= i < e ==> '0' <= #[trigger] s[i] <= '9',
{
    reveal(operand_line);
    let w = s.subrange(b, e);
    assert(w[0] == s[b]);
    if operand_word(w) {
        assert(lower_from(w, 0));
        assert forall|i: int| b <= i < e implies 'a' <= #[trigger] s[i] <= 'z' by {
            assert(w[i - b] == s[i]);
        }
        assert(!('0' <= w[0] <= '9'));
    } else {
        assert(digit_word(w));
        assert forall|i: int| b <= i < e implies '0' <= #[trigger] s[i] <= '9' by {
            assert(w[i - b] == s[i]);
        }
    }
}

/// Two ways of reading a source as such lines agree on lines `0..=k`.
proof fn lemma_lines_agree(s: Seq<char>, e1: Seq<int>, e2: Seq<int>, k: int)
    requires
        lines_src(s, e1),
        lines_src(s, e2),
        0 <= k < e1.len(),
        k < e2.len(),
    ensures
        forall|i: int| 0 <= i <= k ==> e1[i] == e2[i],
    decreases k,
{
    if k > 0 {
        lemma_lines_agree(s, e1, e2, k - 1);
    }
    lemma_lines_next(s, e1, k);
    lemma_lines_next(s, e2, k);
    let b = line_begin(e1, k);
    assert(b == line_begin(e2, k));
    if e1[k] < e2[k] {
        assert(line_char(s[e1[k]]));
        assert(s[e1[k]] == '\n');
    } else if e2[k] < e1[k] {
        assert(line_char(s[e2[k]]));
        assert(s[e2[k]] == '\n');
    }
}

/// A source reads as such lines in one way only.
proof fn lemma_lines_unique(s: Seq<char>, e1: Seq<int>, e2: Seq<int>)
    requires
        lines_src(s, e1),
        lines_src(s, e2),
    ensures
        e1 == e2,
{
    let n: int = if e1.len() < e2.len() {
        e1.len() as int
    } else {
        e2.len() as int
    };
    lemma_lines_agree(s, e1, e2, n - 1);
    if e1.len() < e2.len() {
        lemma_lines_next(s, e1, n - 1);
        lemma_lines_next(s, e2, n - 1);
        assert(e1[n - 1] == e2[n - 1]);
    } else if e2.len() < e1.len() {
        lemma_lines_next(s, e1, n - 1);
        lemma_lines_next(s, e2, n - 1);
        assert(e1[n - 1] == e2[n - 1]);
    }
    assert(e1 =~= e2);
}

/// What the lexer meets where a part of the range `a..b` begins.
proof fn lemma_range_next(s: Seq<char>, n: int)
    requires
        range_src(s, n),
    ensures
        '0' <= s[0] <= '9',
        digit_run_dots(s, 1, n),
        s[n] == '.' && s[n + 1] == '.' && n + 2 < s.len(),
        '0' <= s[n + 2] <= '9',
        digits_from(s, n + 3),
{
    assert('0' <= s[n + 2] <= '9');
}

/// A range `a..b` splits at its first `.` only.
proof fn lemma_range_unique(s: Seq<char>, a: int, n: int)
    requires
        range_src(s, a),
        range_src(s, n),
    ensures
        a == n,
{
    if a < n {
        assert('0' <= s[a] <= '9');
    } else if n < a {
        assert('0' <= s[n] <= '9');
    }
}

/// Is `c` one of the operator characters `+ * % & | ^`?
pub open spec fn infix_char(c: char) -> bool {
    c == '+' || c == '*' || c == '%' || c == '&' || c == '|' || c == '^'
}

/// From `from` up to `j`, `s` holds operator characters, and a space
/// follows.
pub open spec fn op_run_to(s: Seq<char>, from: int, j: int) -> bool {
    &&& from <= j < s.len()
    &&& forall|k: int| from <= k < j ==> infix_char(#[trigger] s[k])
    &&& s[j] == ' '
}

/// Is `c` a character of an operand: an ASCII digit or lowercase letter?
pub open spec fn operand_char(c: char) -> bool {
    ('0' <= c <= '9') || ('a' <= c <= 'z')
}

/// From `from` up to `j`, `s` holds one operand, a space or the end
/// following: a run of digits, or a lowercase word that is `true`,
/// `false` or names no keyword.
pub open spec fn operand_run_to(s: Seq<char>, from: int, j: int) -> bool {
    &&& from < j
    &&& digit_run_to(s, from, j) || (word_run_to(s, from, j) && operand_word(s.subrange(from, j)))
}

/// The kind of token that the operand `w` scans to: a number for
/// digits, else that of the word.
pub open spec fn operand_kind(w: Seq<char>) -> Syntax {
    if '0' <= w[0] <= '9' {
        Syntax::Number
    } else {
        word_kind(w)
    }
}

/// Is `s` a line `a op b op c`: three operands (see `operand_run_to`),
/// of lengths `n1`, `n2` and `n3`, between them two runs of operator
/// characters, of lengths `m1` and `m2`, each part set off by one space?
pub open spec fn infix_src(s: Seq<char>, n1: int, m1: int, n2: int, m2: int, n3: int) -> bool {
    &&& n1 >= 1 && m1 >= 1 && n2 >= 1 && m2 >= 1 && n3 >= 1
    &&& s.len() == n1 + m1 + n2 + m2 + n3 + 4
    &&& operand_run_to(s, 0, n1)
    &&& op_run_to(s, n1 + 1, n1 + 1 + m1)
    &&& operand_run_to(s, n1 + m1 + 2, n1 + m1 + 2 + n2)
    &&& op_run_to(s, n1 + m1 + n2 + 3, n1 + m1 + n2 + 3 + m2)
    &&& operand_run_to(s, n1 + m1 + n2 + m2 + 4, s.len() as int)
}

/// Token `t` is of kind `k`, with the text of `s` from `lo` up to `hi`.
pub open spec fn tok_is(t: Token, k: Syntax, s: Seq<char>, lo: int, hi: int) -> bool {
    t.kind == k && t.lit@ == s.subrange(lo, hi)
}

/// Token `t` is the operand of `s` from `lo` up to `hi`.
pub open spec fn operand_tok(t: Token, s: Seq<char>, lo: int, hi: int) -> bool {
    tok_is(t, operand_kind(s.subrange(lo, hi)), s, lo, hi)
}

/// The tokens of the line `a op b op c` (see `infix_src`): the five
/// parts, then `;`.
pub open spec fn infix_tokens(toks: Seq<Token>, s: Seq<char>, n1: int, m1: int, n2: int, m2: int, n3: int) -> bool {
    &&& toks.len() == 6
    &&& operand_tok(toks[0], s, 0, n1)
    &&& tok_is(toks[1], Syntax::Op, s, n1 + 1, n1 + 1 + m1)
    &&& operand_tok(toks[2], s, n1 + m1 + 2, n1 + m1 + 2 + n2)
    &&& tok_is(toks[3], Syntax::Op, s, n1 + m1 + n2 + 3, n1 + m1 + n2 + 3 + m2)
    &&& operand_tok(toks[4], s, n1 + m1 + n2 + m2 + 4, s.len() as int)
    &&& toks[5].kind is Semi
}

/// How far scanning the line `a op b op c` has come: the parts before
/// `next` are its tokens.
spec fn infix_progress(toks: Seq<Token>, s: Seq<char>, next: int, n1: int, m1: int, n2: int, m2: int, n3: int) -> bool {
    let c1 = n1 + 1;
    let e1 = c1 + m1;
    let c2 = e1 + 1;
    let e2 = c2 + n2;
    let c3 = e2 + 1;
    let e3 = c3 + m2;
    let c4 = e3 + 1;
    ||| next == 0 && toks.len() == 0
    ||| (next == n1 || next == c1) && toks.len() == 1 && operand_tok(toks[0], s, 0, n1)
    ||| (next == e1 || next == c2) && toks.len() == 2 && operand_tok(toks[0], s, 0, n1) && tok_is(
        toks[1],
        Syntax::Op,
        s,
        c1,
        e1,
    )
    ||| (next == e2 || next == c3) && toks.len() == 3 && operand_tok(toks[0], s, 0, n1) && tok_is(
        toks[1],
        Syntax::Op,
        s,
        c1,
        e1,
    ) && operand_tok(toks[2], s, c2, e2)
    ||| (next == e3 || next == c4) && toks.len() == 4 && operand_tok(toks[0], s, 0, n1) && tok_is(
        toks[1],
        Syntax::Op,
        s,
        c1,
        e1,
    ) && operand_tok(toks[2], s, c2, e2) && tok_is(toks[3], Syntax::Op, s, c3, e3)
    ||| next == s.len() && toks.len() == 5 && operand_tok(toks[0], s, 0, n1) && tok_is(
        toks[1],
        Syntax::Op,
        s,
        c1,
        e1,
    ) && operand_tok(toks[2], s, c2, e2) && tok_is(toks[3], Syntax::Op, s, c3, e3) && operand_tok(
        toks[4],
        s,
        c4,
        s.len() as int,
    )
}

/// The characters of an operand, and the space or end after it.
pub proof fn lemma_operand_run(s: Seq<char>, from: int, j: int)
    requires
        operand_run_to(s, from, j),
    ensures
        forall|k: int| from <= k < j ==> operand_char(#[trigger] s[k]),
        j < s.len() ==> s[j] == ' ',
        j <= s.len(),
        '0' <= s[from] <= '9' ==> digit_run_to(s, from + 1, j),
        'a' <= s[from] <= 'z' ==> word_run_to(s, from + 1, j) && operand_word(s.subrange(from, j)),
{
    if digit_run_to(s, from, j) {
        assert forall|k: int| from <= k < j implies operand_char(#[trigger] s[k]) by {
            assert('0' <= s[k] <= '9');
        }
    } else {
        assert forall|k: int| from <= k < j implies operand_char(#[trigger] s[k]) by {
            assert('a' <= s[k] <= 'z');
        }
        assert('a' <= s[from] <= 'z');
    }
    if '0' <= s[from] <= '9' && !digit_run_to(s, from, j) {
        assert('a' <= s[from] <= 'z');
    }
    if 'a' <= s[from] <= 'z' && digit_run_to(s, from, j) {
        assert('0' <= s[from] <= '9');
    }
}

/// What the lexer meets at each place where a part of the line `a op b
/// op c` begins or ends.
proof fn lemma_infix_next(s: Seq<char>, at: int, n1: int, m1: int, n2: int, m2: int, n3: int)
    requires
        infix_src(s, n1, m1, n2, m2, n3),
    ensures
        ({
            let c1 = n1 + 1;
            let e1 = c1 + m1;
            let c2 = e1 + 1;
            let e2 = c2 + n2;
            let c3 = e2 + 1;
            let e3 = c3 + m2;
            let c4 = e3 + 1;
            let end = if at == 0 {
                n1
            } else if at == c2 {
                e2
            } else {
                s.len() as int
            };
            &&& at == 0 || at == c2 || at == c4 ==> operand_char(s[at]) && ('0' <= s[at] <= '9' ==> digit_run_to(
                s,
                at + 1,
                end,
            )) && ('a' <= s[at] <= 'z' ==> word_run_to(s, at + 1, end) && operand_word(s.subrange(at, end)))
            &&& at == c1 || at == c3 ==> infix_char(s[at])
            &&& at == c1 ==> op_run_to(s, at + 1, e1)
            &&& at == c3 ==> op_run_to(s, at + 1, e3)
            &&& at == n1 || at == e1 || at == e2 || at == e3 ==> s[at] == ' ' && !whitespace(s[at + 1])
        }),
{
    let c1 = n1 + 1;
    let e1 = c1 + m1;
    let c2 = e1 + 1;
    let e2 = c2 + n2;
    let c3 = e2 + 1;
    let e3 = c3 + m2;
    let c4 = e3 + 1;
    lemma_operand_run(s, 0, n1);
    lemma_operand_run(s, c2, e2);
    lemma_operand_run(s, c4, s.len() as int);
    assert(operand_char(s[0]));
    assert(operand_char(s[c2]));
    assert(operand_char(s[c4]));
    assert(infix_char(s[c1]));
    assert(infix_char(s[c3]));
}

/// A line `a op b op c` splits into its parts in one way only.
proof fn lemma_infix_unique(
    s: Seq<char>,
    a: int,
    b: int,
    c: int,
    d: int,
    e: int,
    n1: int,
    m1: int,
    n2: int,
    m2: int,
    n3: int,
)
    requires
        infix_src(s, a, b, c, d, e),
        infix_src(s, n1, m1, n2, m2, n3),
    ensures
        a == n1 && b == m1 && c == n2 && d == m2 && e == n3,
{
    lemma_operand_run(s, 0, a);
    lemma_operand_run(s, 0, n1);
    if a < n1 {
        assert(operand_char(s[a]));
    } else if n1 < a {
        assert(operand_char(s[n1]));
    }
    let p = a + 1;
    if b < m1 {
        assert(infix_char(s[p + b]));
    } else if m1 < b {
        assert(infix_char(s[p + m1]));
    }
    let q = a + b + 2;
    lemma_operand_run(s, q, q + c);
    lemma_operand_run(s, q, q + n2);
    if c < n2 {
        assert(operand_char(s[q + c]));
    } else if n2 < c {
        assert(operand_char(s[q + n2]));
    }
    let t = a + b + c + 3;
    if d < m2 {
        assert(infix_char(s[t + d]));
    } else if m2 < d {
        assert(infix_char(s[t + m2]));
    }
}

/// Is `t` spelled as a keyword?
pub open spec fn keyword_spelling(t: Seq<char>) -> bool {
    ||| t == "def"@ || t == "do"@ || t == "return"@ || t == "if"@ || t == "then"@ || t == "else"@
    ||| t == "for"@ || t == "while"@ || t == "in"@ || t == "fn"@ || t == "true"@ || t == "false"@
}

/// Is `s` one plain word: lowercase ASCII letters, spelling no keyword
/// (nor `break` or `continue`)?
pub open spec fn plain_word(s: Seq<char>) -> bool {
    &&& s.len() > 0
    &&& lower_from(s, 0)
    &&& !keyword_spelling(s)
    &&& s != "break"@
    &&& s != "continue"@
}

/// The tokens of one plain word `w`: the word, then `;`.
pub open spec fn one_word(toks: Seq<Token>, w: Seq<char>) -> bool {
    &&& toks.len() == 2
    &&& toks[0].kind is Word
    &&& toks[0].lit@ == w
    &&& toks[1].kind is Semi
}

/// From `from` up to `to`, `s` holds spaces and tabs, and no more follow.
pub open spec fn indent_run(s: Seq<char>, from: int, to: int) -> bool {
    run_of(s, from, to, |c: char| indent_char(c))
}

/// Is `c` a character of indentation?
pub open spec fn indent_char(c: char) -> bool {
    c == ' ' || c == '\t'
}

struct Lexer {
    tokens: Vec<Token>,
    source: Vec<char>,
    pos: usize,
    next: usize,
    indents: Vec<usize>,
    cur: char,
    mode: Mode,
    modes: Vec<Mode>,
    style: Style,
}

/// What scanning `source` into `toks` guarantees: every token fits in
/// the source and carries its text, every indent is matched by a
/// dedent, and the tokens neither start with a `;` nor end but in a `;`
/// or a dedent.
pub open spec fn scan_admits(source: Seq<char>, toks: Seq<Token>) -> bool {
    &&& tokens_fit(toks, source.len())
    &&& tokens_sourced(toks, source)
    &&& keywords_spelled(toks)
    &&& tokens_ordered(toks)
    &&& count_kind(toks, Syntax::Indent) == count_kind(toks, Syntax::Dedent)
    &&& dedents_matched(toks)
    &&& toks.len() > 0 ==> !(toks[0].kind is Semi)
    &&& toks.len() > 0 ==> (toks.last().kind is Semi || toks.last().kind is Dedent)
}

/// Scans source code and produces a list of `Token`s.
pub fn scan(source: &str) -> (r: Result<Vec<Token>>)
    ensures
        r matches Ok(toks) ==> scan_admits(source@, toks@),
        r matches Err(e) ==> e.kind is SyntaxError,
        source@.len() == 0 ==> (r matches Ok(toks) && toks@.len() == 0),
        opening_kind(source@) matches Some(k) ==> (r matches Ok(toks) ==> toks@.len() > 0 && toks@[0].kind == k),
        !has_quote(source@) && !source@.contains('\t') ==> r is Ok,
        unclosed_first(source@) ==> (r matches Err(e) && e.kind is SyntaxError && e.pos == 1),
        plain_word(source@) ==> (r matches Ok(toks) && one_word(toks@, source@)),
        digit_word(source@) ==> (r matches Ok(toks) && one_number(toks@, source@)),
        forall|a: int, b: int, c: int, d: int, e: int| #[trigger]
            infix_src(source@, a, b, c, d, e) ==> (r matches Ok(toks) && infix_tokens(toks@, source@, a, b, c, d, e)),
        forall|n: int| #[trigger] range_src(source@, n) ==> (r matches Ok(toks) && range_tokens(toks@, source@, n)),
        empty_quotes(source@) ==> (r matches Ok(toks) && empty_string_tokens(toks@)),
        opens_closing(source@) ==> (r matches Ok(toks) ==> closing_first(toks@)),
        forall|p1: int, q: int, p2: int| #[trigger] mixed_src(source@, p1, q, p2) ==> r is Err,
        forall|n: int| #[trigger]
            tag_word_src(source@, n) ==> (r matches Ok(toks) && tag_word_tokens(toks@, source@, n)),
        forall|n: int, k: int| #[trigger]
            assign_src(source@, n, k) ==> (r matches Ok(toks) && assign_tokens(toks@, source@, n, k)),
        forall|a: int, c: int| #[trigger]
            comment_src(source@, a, c) ==> (r matches Ok(toks) && comment_tokens(toks@, source@, a, c)),
        forall|e: Seq<int>| #[trigger]
            lines_src(source@, e) ==> (r matches Ok(toks) && lines_tokens(toks@, source@, e)),
{
    let mut lexer = Lexer::from(source);
    lexer.scan()?;
    Ok(lexer.tokens)
}

proof fn lemma_count_push(s: Seq<Token>, t: Token, k: Syntax)
    ensures
        count_kind(s.push(t), k) == count_kind(s, k) + if t.kind == k { 1nat } else { 0nat },
{
    assert(s.push(t).drop_last() == s);
}

/// No prefix of `s` closes more indents than it opens.
pub open spec fn dedents_matched(s: Seq<Token>) -> bool {
    forall|k: int|
        0 <= k <= s.len() ==> count_kind(#[trigger] s.take(k), Syntax::Dedent) <= count_kind(
            s.take(k),
            Syntax::Indent,
        )
}

/// Pushing a token keeps the dedents matched, a dedent only where an
/// indent is open.
proof fn lemma_matched_push(s: Seq<Token>, t: Token)
    requires
        dedents_matched(s),
        t.kind is Dedent ==> count_kind(s, Syntax::Dedent) < count_kind(s, Syntax::Indent),
    ensures
        dedents_matched(s.push(t)),
{
    let s2 = s.push(t);
    assert forall|k: int| 0 <= k <= s2.len() implies count_kind(#[trigger] s2.take(k), Syntax::Dedent)
        <= count_kind(s2.take(k), Syntax::Indent) by {
        if k <= s.len() {
            assert(s2.take(k) == s.take(k));
        } else {
            assert(s2.take(k) == s2);
            assert(s.take(s.len() as int) == s);
            lemma_count_push(s, t, Syntax::Dedent);
            lemma_count_push(s, t, Syntax::Indent);
        }
    }
}

/// Dropping a leading `;` keeps the dedents matched.
proof fn lemma_matched_drop_first(s: Seq<Token>)
    requires
        dedents_matched(s),
        s.len() > 0,
        s[0].kind is Semi,
    ensures
        dedents_matched(s.drop_first()),
{
    let s2 = s.drop_first();
    assert forall|k: int| 0 <= k <= s2.len() implies count_kind(#[trigger] s2.take(k), Syntax::Dedent)
        <= count_kind(s2.take(k), Syntax::Indent) by {
        let p = s.take(k + 1);
        assert(p.drop_first() == s2.take(k));
        assert(p[0] == s[0]);
        lemma_count_drop_first(p, Syntax::Dedent);
        lemma_count_drop_first(p, Syntax::Indent);
        assert(count_kind(s.take(k + 1), Syntax::Dedent) <= count_kind(s.take(k + 1), Syntax::Indent));
    }
}

proof fn lemma_count_drop_first(s: Seq<Token>, k: Syntax)
    requires
        s.len() > 0,
    ensures
        count_kind(s, k) == count_kind(s.drop_first(), k) + if s[0].kind == k { 1nat } else { 0nat },
    decreases s.len(),
{
    if s.len() > 1 {
        lemma_count_drop_first(s.drop_last(), k);
        assert(s.drop_last().drop_first() == s.drop_first().drop_last());
        assert(s.drop_first().last() == s.last());
        assert(s.drop_last()[0] == s[0]);
    } else {
        assert(s.drop_first().len() == 0);
        assert(s.drop_last().len() == 0);
        assert(s.last() == s[0]);
        assert(count_kind(s.drop_last(), k) == 0);
        assert(count_kind(s.drop_first(), k) == 0);
    }
}

impl Lexer {
    spec fn wf(&self) -> bool {
        &&& self.next <= self.source@.len()
        &&& self.pos < self.next || (self.pos == 0 && self.next == 0)
        &&& tokens_fit(self.tokens@, self.source@.len())
        &&& tokens_sourced(self.tokens@, self.source@)
        &&& keywords_spelled(self.tokens@)
        &&& tokens_ordered(self.tokens@)
        &&& self.tokens@.len() > 0 ==> self.tokens@.last().pos <= self.pos
        &&& count_kind(self.tokens@, Syntax::Indent) == count_kind(self.tokens@, Syntax::Dedent)
            + self.indents@.len()
        &&& self.style == Style::Tabs ==> self.source@.contains('\t')
        &&& dedents_matched(self.tokens@)
    }

    /// Create a lexer from source code.
    fn from(source: &str) -> (r: Lexer)
        ensures
            r.wf(),
            r.source@ == source@,
            r.tokens@.len() == 0,
            r.indents@.len() == 0,
            r.next == 0,
            r.mode == Mode::Plain,
    {
        Lexer {
            source: str_to_chars(source),
            tokens: Vec::new(),
            pos: 0,
            next: 0,
            indents: Vec::new(),
            cur: '0',
            style: Style::Unknown,
            mode: Mode::Plain,
            modes: Vec::new(),
        }
    }

    /// Peek at next `char` without iterating.
    fn peek(&self) -> (r: Option<char>)
        ensures
            self.next < self.source@.len() ==> r == Some(self.source@[self.next as int]),
            self.next >= self.source@.len() ==> r is None,
    {
        if self.next < self.source.len() {
            Some(self.source[self.next])
        } else {
            None
        }
    }

    /// Check the next char.
    fn peek_is(&self, c: char) -> (r: bool)
        ensures
            r == (self.next < self.source@.len() && self.source@[self.next as int] == c),
    {
        self.next < self.source.len() && self.source[self.next] == c
    }

    /// Is the next char numeric?
    fn peek_numeric(&self) -> (r: bool)
        ensures
            r == (self.next < self.source@.len() && numeric(self.source@[self.next as int])),
    {
        match self.peek() {
            Some(c) => is_numeric(c),
            None => false,
        }
    }

    /// Check the type of the just-created token.
    fn prev_is(&self, kind: Syntax) -> (r: bool)
        ensures
            r == (self.tokens@.len() > 0 && self.tokens@.last().kind == kind),
    {
        if self.tokens.len() == 0 {
            return false;
        }
        self.tokens[self.tokens.len() - 1].kind == kind
    }

    /// Did we just see =?
    fn prev_is_equal_sign(&self) -> (r: bool)
        ensures
            r == (self.tokens@.len() > 0 && self.tokens@.last().spec_literal() == "="@),
    {
        if self.tokens.len() == 0 {
            return false;
        }
        let lit = self.tokens[self.tokens.len() - 1].literal();
        crate::text::str_eq(lit, "=")
    }

    /// Advance position in `source` and return next `char`.
    fn next(&mut self) -> (r: Option<char>)
        requires
            old(self).wf(),
        ensures
            final(self).style == old(self).style,
            final(self).wf(),
            final(self).source == old(self).source,
            final(self).tokens == old(self).tokens,
            final(self).indents == old(self).indents,
            final(self).mode == old(self).mode,
            old(self).next < old(self).source@.len() ==> {
                &&& r == Some(old(self).source@[old(self).next as int])
                &&& final(self).next == old(self).next + 1
                &&& final(self).pos == old(self).next
            },
            old(self).next >= old(self).source@.len() ==> r is None && *final(self) == *old(self),
    {
        if self.next < self.source.len() {
            let c = self.source[self.next];
            self.pos = self.next;
            self.cur = c;
            self.next = self.next + 1;
            Some(c)
        } else {
            None
        }
    }

    /// Add single Syntax to tokens list.
    fn append(&mut self, kind: Syntax)
        requires
            old(self).wf(),
            kind is Semi,
        ensures
            final(self).style == old(self).style,
            final(self).wf(),
            final(self).source == old(self).source,
            final(self).next == old(self).next,
            final(self).pos == old(self).pos,
            final(self).indents == old(self).indents,
            final(self).mode == old(self).mode,
            final(self).tokens@.len() == old(self).tokens@.len() + 1,
            final(self).tokens@.last().kind == kind,
            final(self).tokens@.drop_last() == old(self).tokens@,
    {
        proof {
            reveal_strlit("");
        }
        self.push_token(kind, self.pos, 1, "");
    }

    /// Add a token, keeping the tally of indents.
    fn push_token(&mut self, kind: Syntax, pos: usize, len: usize, lit: &str)
        requires
            old(self).wf(),
            !(kind is Nil),
            !(kind is Indent),
            !(kind is Dedent),
            lit@.len() <= old(self).source@.len(),
            spec_is_literal(kind) ==> lit_sourced(kind, pos as int, len as int, lit@, old(self).source@),
            keyword_text(kind, lit@),
            pos <= old(self).pos,
            old(self).tokens@.len() > 0 ==> old(self).tokens@.last().pos <= pos,
        ensures
            final(self).style == old(self).style,
            final(self).wf(),
            final(self).source == old(self).source,
            final(self).next == old(self).next,
            final(self).pos == old(self).pos,
            final(self).indents == old(self).indents,
            final(self).mode == old(self).mode,
            final(self).tokens@.len() == old(self).tokens@.len() + 1,
            final(self).tokens@.last().kind == kind,
            final(self).tokens@.last().lit@ == lit@,
            final(self).tokens@.drop_last() == old(self).tokens@,
    {
        let t = Token::new(kind, pos, len, lit);
        proof {
            lemma_count_push(self.tokens@, t, Syntax::Indent);
            lemma_count_push(self.tokens@, t, Syntax::Dedent);
            lemma_matched_push(self.tokens@, t);
        }
        self.tokens.push(t);
        proof {
            assert(self.tokens@.drop_last() == old(self).tokens@);
        }
    }

    /// Add the token for the source text `source[start..start + len]`.
    fn push_slice(&mut self, kind: Syntax, start: usize, len: usize)
        requires
            old(self).wf(),
            !(kind is Nil),
            !(kind is Indent),
            !(kind is Dedent),
            start + len <= old(self).source@.len(),
            keyword_text(kind, old(self).source@.subrange(start as int, start + len)),
            start <= old(self).pos,
            old(self).tokens@.len() > 0 ==> old(self).tokens@.last().pos <= start,
        ensures
            final(self).style == old(self).style,
            final(self).wf(),
            final(self).source == old(self).source,
            final(self).next == old(self).next,
            final(self).pos == old(self).pos,
            final(self).indents == old(self).indents,
            final(self).mode == old(self).mode,
            final(self).tokens@.len() == old(self).tokens@.len() + 1,
            final(self).tokens@.last().kind == kind,
            final(self).tokens@.last().lit@ == old(self).source@.subrange(start as int, start + len),
            final(self).tokens@.drop_last() == old(self).tokens@,
    {
        let n = self.source.len();
        let lit = chars_to_string(self.source.as_slice(), start, start + len);
        self.push_token(kind, start, len, lit.as_str());
    }

    /// Change the lexing mode.
    fn set_mode(&mut self, mode: Mode)
        requires
            old(self).wf(),
        ensures
            final(self).style == old(self).style,
            final(self).wf(),
            final(self).source == old(self).source,
            final(self).next == old(self).next,
            final(self).pos == old(self).pos,
            final(self).tokens == old(self).tokens,
            final(self).indents == old(self).indents,
            final(self).mode == mode,
            final(self).modes@ == old(self).modes@.push(old(self).mode),
    {
        let m = self.mode;
        self.modes.push(m);
        self.mode = mode;
    }

    /// Set lexing mode to most recent mode, i.e. pop the mode stack.
    fn pop_mode(&mut self)
        requires
            old(self).wf(),
        ensures
            final(self).style == old(self).style,
            final(self).wf(),
            final(self).source == old(self).source,
            final(self).next == old(self).next,
            final(self).pos == old(self).pos,
            final(self).tokens == old(self).tokens,
            final(self).indents == old(self).indents,
            old(self).modes@.len() > 0 ==> final(self).mode == old(self).modes@.last()
                && final(self).modes@ == old(self).modes@.drop_last(),
            old(self).modes@.len() == 0 ==> *final(self) == *old(self),
    {
        if self.modes.len() > 0 {
            let n = self.modes.len() - 1;
            self.mode = self.modes.remove(n);
        }
    }

    /// `after` is this lexer further along the same source.
    spec fn moved_to(&self, after: Lexer) -> bool {
        &&& after.wf()
        &&& after.source == self.source
        &&& after.next >= self.next
        &&& after.pos >= self.pos
        &&& self.style != Style::Unknown ==> after.style == self.style
    }

    /// The error for `msg` at `pos`.
    fn error(pos: usize, msg: String) -> (e: Error)
        ensures
            e == (Error { kind: ErrorKind::SyntaxError, details: msg, pos, len: 1 }),
    {
        Error::new(ErrorKind::SyntaxError, msg, pos, 1)
    }

    /// Consume and discard newlines.
    fn eat_newlines(&mut self)
        requires
            old(self).wf(),
        ensures
            old(self).moved_to(*final(self)),
            final(self).tokens == old(self).tokens,
            final(self).indents == old(self).indents,
            final(self).mode == old(self).mode,
            final(self).next >= final(self).source@.len() || final(self).source@[final(self).next as int]
                != '\n',
            old(self).next < old(self).source@.len() && old(self).source@[old(self).next as int] != '\n'
                ==> final(self).next == old(self).next,
            old(self).next + 1 < old(self).source@.len() && old(self).source@[old(self).next as int] == '\n'
                && old(self).source@[old(self).next + 1] != '\n' ==> final(self).next == old(self).next + 1,
    {
        while self.peek_is('\n')
            invariant
                old(self).next + 1 < old(self).source@.len() && old(self).source@[old(self).next as int] == '\n'
                    && old(self).source@[old(self).next + 1] != '\n' ==> self.next <= old(self).next + 1,
                old(self).next < old(self).source@.len() && old(self).source@[old(self).next as int] != '\n'
                    ==> self.next == old(self).next,
                old(self).moved_to(*self),
                self.tokens == old(self).tokens,
                self.indents == old(self).indents,
                self.mode == old(self).mode,
            decreases self.source@.len() - self.next,
        {
            self.next();
        }
    }

    /// Consume and discard whitespace.
    fn eat_whitespace(&mut self)
        requires
            old(self).wf(),
        ensures
            old(self).moved_to(*final(self)),
            final(self).tokens == old(self).tokens,
            final(self).indents == old(self).indents,
            final(self).mode == old(self).mode,
            run_of(final(self).source@, old(self).next as int, final(self).next as int, |c: char| whitespace(c)),
    {
        while self.next < self.source.len() && is_whitespace(self.source[self.next])
            invariant
                old(self).moved_to(*self),
                self.tokens == old(self).tokens,
                self.indents == old(self).indents,
                self.mode == old(self).mode,
                forall|i: int| old(self).next <= i < self.next ==> #[trigger] whitespace(self.source@[i]),
            decreases self.source@.len() - self.next,
        {
            self.next();
        }
    }

    /// Consume operator characters.
    fn eat_op(&mut self)
        requires
            old(self).wf(),
        ensures
            old(self).moved_to(*final(self)),
            final(self).tokens == old(self).tokens,
            final(self).indents == old(self).indents,
            final(self).mode == old(self).mode,
            run_of(final(self).source@, old(self).next as int, final(self).next as int, |c: char| op_char(c)),
            old(self).pos + 1 == old(self).next ==> final(self).pos + 1 == final(self).next,
            forall|j: int| #[trigger] op_run_to(old(self).source@, old(self).next as int, j) ==> final(self).next == j,
            old(self).next + 1 < old(self).source@.len() && old(self).source@[old(self).next as int] == '.' && '0'
                <= old(self).source@[old(self).next + 1] <= '9' ==> final(self).next == old(self).next + 1,
            old(self).next + 1 < old(self).source@.len() && old(self).source@[old(self).next as int] == '='
                && old(self).source@[old(self).next + 1] == ' ' ==> final(self).next == old(self).next + 1,
            old(self).next < old(self).source@.len() && old(self).source@[old(self).next as int] == ' '
                ==> final(self).next == old(self).next,
    {
        let ghost sp = old(self).next < old(self).source@.len() && old(self).source@[old(self).next as int] == ' ';
        let ghost eqs = old(self).next + 1 < old(self).source@.len() && old(self).source@[old(self).next as int] == '='
            && old(self).source@[old(self).next + 1] == ' ';
        let ghost dot = old(self).next + 1 < old(self).source@.len() && old(self).source@[old(self).next as int] == '.'
            && '0' <= old(self).source@[old(self).next + 1] <= '9';
        while self.next < self.source.len() && self.source[self.next].is_op()
            invariant
                dot == (old(self).next + 1 < old(self).source@.len() && old(self).source@[old(self).next as int] == '.'
                    && '0' <= old(self).source@[old(self).next + 1] <= '9'),
                dot ==> self.next <= old(self).next + 1,
                eqs == (old(self).next + 1 < old(self).source@.len() && old(self).source@[old(self).next as int] == '='
                    && old(self).source@[old(self).next + 1] == ' '),
                eqs ==> self.next <= old(self).next + 1,
                sp == (old(self).next < old(self).source@.len() && old(self).source@[old(self).next as int] == ' '),
                sp ==> self.next == old(self).next,
                old(self).moved_to(*self),
                self.tokens == old(self).tokens,
                self.indents == old(self).indents,
                self.mode == old(self).mode,
                forall|i: int| old(self).next <= i < self.next ==> #[trigger] op_char(self.source@[i]),
                old(self).pos + 1 == old(self).next ==> self.pos + 1 == self.next,
                forall|j: int| #[trigger] op_run_to(old(self).source@, old(self).next as int, j) ==> self.next <= j,
            decreases self.source@.len() - self.next,
        {
            proof {
                if dot {
                    assert(self.source@ == old(self).source@);
                    assert(op_char(self.source@[self.next as int]));
                    if self.next == old(self).next + 1 {
                        assert('0' <= self.source@[self.next as int] <= '9');
                    }
                }
                if sp {
                    assert(self.source@ == old(self).source@);
                    assert(op_char(self.source@[self.next as int]));
                }
                if eqs {
                    assert(self.source@ == old(self).source@);
                    assert(op_char(self.source@[self.next as int]));
                    if self.next == old(self).next + 1 {
                        assert(self.source@[self.next as int] == ' ');
                    }
                }
            }
            self.next();
        }
    }

    /// Scan a single line comment.
    fn scan_comment(&mut self) -> (r: Result<Syntax>)
        requires
            old(self).wf(),
        ensures
            old(self).moved_to(*final(self)),
            final(self).tokens == old(self).tokens,
            final(self).indents == old(self).indents,
            final(self).mode == old(self).mode,
            r matches Ok(k) && k is Nil,
            old(self).next < old(self).source@.len() && old(self).source@[old(self).next as int]
                != '\n' ==> final(self).next > old(self).next,
            forall|c: int| #[trigger] comment_to(old(self).source@, old(self).next as int, c) ==> final(self).next == c,
    {
        let first = self.next;
        while self.next < self.source.len() && self.source[self.next] != '\n'
            invariant
                old(self).moved_to(*self),
                self.tokens == old(self).tokens,
                self.indents == old(self).indents,
                self.mode == old(self).mode,
                first == old(self).next,
                self.next == first ==> self.source == old(self).source,
                forall|c: int| #[trigger] comment_to(old(self).source@, old(self).next as int, c) ==> self.next <= c,
            decreases self.source@.len() - self.next,
        {
            self.next();
        }
        Ok(Syntax::Nil)
    }

    /// Consume characters of the given radix digit set.
    fn eat_radix(&mut self, radix: char)
        requires
            old(self).wf(),
        ensures
            old(self).moved_to(*final(self)),
            final(self).tokens == old(self).tokens,
            final(self).indents == old(self).indents,
            final(self).mode == old(self).mode,
            run_of(final(self).source@, old(self).next as int, final(self).next as int, |c: char| radix_digit(radix, c)),
    {
        while self.next < self.source.len() && radix_char(radix, self.source[self.next])
            invariant
                old(self).moved_to(*self),
                self.tokens == old(self).tokens,
                self.indents == old(self).indents,
                self.mode == old(self).mode,
                forall|i: int| old(self).next <= i < self.next ==> #[trigger] radix_digit(radix, self.source@[i]),
            decreases self.source@.len() - self.next,
        {
            self.next();
        }
    }

    /// Scan until we find a non-number.
    fn scan_number(&mut self) -> (r: Result<Syntax>)
        requires
            old(self).wf(),
        ensures
            old(self).moved_to(*final(self)),
            final(self).tokens == old(self).tokens,
            final(self).indents == old(self).indents,
            final(self).mode == old(self).mode,
            r matches Ok(k) && k is Number,
            old(self).pos + 1 == old(self).next && digits_from(old(self).source@, old(self).next as int)
                ==> final(self).next == final(self).source@.len() && final(self).pos + 1 == final(self).next,
            forall|j: int|
                old(self).pos + 1 == old(self).next && #[trigger] digit_run_to(old(self).source@, old(self).next as int, j)
                    ==> final(self).next == j && final(self).pos + 1 == j,
            forall|j: int|
                old(self).pos + 1 == old(self).next && '0' <= old(self).source@[old(self).pos as int] <= '9'
                    && #[trigger] digit_run_dots(old(self).source@, old(self).next as int, j) ==> final(self).next == j
                    && final(self).pos + 1 == j,
            forall|j: int|
                old(self).pos + 1 == old(self).next && '0' <= old(self).source@[old(self).pos as int] <= '9'
                    && #[trigger] digit_run_nl(old(self).source@, old(self).next as int, j) ==> final(self).next == j
                    && final(self).pos + 1 == j,
    {
        let ghost dn = old(self).pos + 1 == old(self).next && '0' <= old(self).source@[old(self).pos as int] <= '9'
            && exists|j: int| #[trigger] digit_run_nl(old(self).source@, old(self).next as int, j);
        let ghost dnj = choose|j: int| #[trigger] digit_run_nl(old(self).source@, old(self).next as int, j);
        let ghost dd = old(self).pos + 1 == old(self).next && '0' <= old(self).source@[old(self).pos as int] <= '9'
            && exists|j: int| #[trigger] digit_run_dots(old(self).source@, old(self).next as int, j);
        let ghost ddj = choose|j: int| #[trigger] digit_run_dots(old(self).source@, old(self).next as int, j);
        let ghost dg = old(self).pos + 1 == old(self).next && digits_from(old(self).source@, old(self).next as int);
        let ghost dj = choose|j: int| #[trigger] digit_run_to(old(self).source@, old(self).next as int, j);
        let ghost dr = old(self).pos + 1 == old(self).next && digit_run_to(old(self).source@, old(self).next as int, dj);
        // check for 0xdead and stuff
        if self.cur == '0' {
            if let Some(c) = self.peek() {
                if c == 'b' || c == 'o' || c == 'x' {
                    self.next();
                    self.eat_radix(c);
                    return Ok(Syntax::Number);
                }
            }
        }
        let mut saw_dot = false;
        while self.next < self.source.len()
            invariant
                old(self).moved_to(*self),
                self.tokens == old(self).tokens,
                self.indents == old(self).indents,
                self.mode == old(self).mode,
                dg == (old(self).pos + 1 == old(self).next && digits_from(old(self).source@, old(self).next as int)),
                dg ==> self.pos + 1 == self.next,
                dr == (old(self).pos + 1 == old(self).next && digit_run_to(old(self).source@, old(self).next as int, dj)),
                dr ==> self.pos + 1 == self.next && self.next <= dj,
                dd ==> digit_run_dots(old(self).source@, old(self).next as int, ddj),
                dd ==> self.pos + 1 == self.next && self.next <= ddj && !saw_dot,
                dn ==> digit_run_nl(old(self).source@, old(self).next as int, dnj),
                dn ==> self.pos + 1 == self.next && self.next <= dnj,
            ensures
                dd ==> self.next == ddj && self.pos + 1 == self.next,
                dn ==> self.next == dnj && self.pos + 1 == self.next,
                old(self).moved_to(*self),
                self.tokens == old(self).tokens,
                self.indents == old(self).indents,
                self.mode == old(self).mode,
                dg ==> self.next == self.source@.len() && self.pos + 1 == self.next,
                dr ==> self.next == dj && self.pos + 1 == self.next,
            decreases self.source@.len() - self.next,
        {
            let c = self.source[self.next];
            if is_numeric(c) || c == '_' {
                self.next();
            } else if !saw_dot && c == '.' {
                if self.next + 1 < self.source.len() && is_numeric(self.source[self.next + 1]) {
                    saw_dot = true;
                    self.next();
                } else {
                    break;
                }
            } else {
                break;
            }
        }
        proof {
            if dn {
                assert forall|j: int| #[trigger] digit_run_nl(old(self).source@, old(self).next as int, j) implies j
                    == dnj by {
                    if j < dnj {
                        assert('0' <= self.source@[j] <= '9');
                    } else if dnj < j {
                        assert('0' <= self.source@[dnj] <= '9');
                    }
                }
            }
        }
        Ok(Syntax::Number)
    }

    /// Scan until closing delimiter.
    /// Call when the first char of the string will be `next()`.
    fn scan_string(&mut self, delimiter: char) -> (r: Result<Syntax>)
        requires
            old(self).wf(),
            old(self).next > 0,
        ensures
            old(self).moved_to(*final(self)),
            final(self).indents == old(self).indents,
            final(self).mode == old(self).mode,
            r matches Ok(k) ==> k is Nil,
            r is Ok ==> final(self).tokens@.len() == old(self).tokens@.len() + 1
                && final(self).tokens@.drop_last() == old(self).tokens@
                && final(self).tokens@.last().kind is String
                && final(self).source@[final(self).pos as int] == delimiter,
            r matches Err(e) ==> e.kind is SyntaxError,
            r is Err ==> final(self).tokens == old(self).tokens
                && final(self).next == final(self).source@.len(),
            (forall|i: int| old(self).next <= i < old(self).source@.len() ==> old(self).source@[i] != delimiter)
                ==> (r matches Err(e) && e.pos == old(self).pos + 1),
            !triple_open(old(self).source@, old(self).next as int, delimiter) && closes(
                old(self).source@,
                old(self).next as int,
                delimiter,
            ) ==> r is Ok,
            old(self).pos + 1 == old(self).next && quotes_to_end(old(self).source@, old(self).next as int, delimiter)
                ==> r == Ok::<Syntax, Error>(Syntax::Nil) && final(self).next == old(self).source@.len()
                && final(self).tokens@.last().kind == Syntax::String(false) && final(self).tokens@.last().lit@.len()
                == 0,
    {
        let ghost from = self.next as int;
        let ghost plain = !triple_open(old(self).source@, old(self).next as int, delimiter);
        let mut start = self.pos + 1;
        let mut prev = '0';
        let mut triple = false;

        // """ or ''' or ```
        if self.peek_is(delimiter) {
            self.next();
            if self.peek_is(delimiter) {
                self.next();
                triple = true;
                start = start + 2;
            } else {
                // empty string
                proof {
                    reveal_strlit("");
                    assert(self.source@.subrange(start - 1, start - 1) =~= ""@);
                }
                self.push_token(Syntax::String(false), start - 1, 2, "");
                return Ok(Syntax::Nil);
            }
        }

        while self.next < self.source.len()
            invariant
                old(self).moved_to(*self),
                self.indents == old(self).indents,
                self.mode == old(self).mode,
                self.tokens == old(self).tokens,
                old(self).wf(),
                start > old(self).pos,
                start <= self.next,
                start >= 1,
                triple ==> start >= 3,
                triple ==> start - 3 >= old(self).pos,
                from == old(self).next as int,
                plain == !triple_open(old(self).source@, from, delimiter),
                plain ==> !triple,
                plain ==> self.next == from || prev == self.source@[self.next - 1],
                plain && self.next == from ==> prev == '0',
                plain ==> self.next >= from,
                !(old(self).next + 1 == old(self).source@.len() && old(self).source@[old(self).next as int]
                    == delimiter),
                old(self).pos + 1 == old(self).next && quotes_to_end(old(self).source@, old(self).next as int, delimiter)
                    ==> triple && start == old(self).next + 2 && self.next == old(self).next + 2 && prev == '0',
                plain ==> forall|k: int|
                    from <= k < self.next ==> !(#[trigger] self.source@[k] == delimiter && (k == from
                        || self.source@[k - 1] != '\\')),
            decreases self.source@.len() - self.next,
        {
            let c = self.source[self.next];
            self.next();
            if c == delimiter && prev != '\\' {
                if !triple {
                    let len = if self.pos > start { self.pos - start - 1 } else { 0 };
                    let lit = chars_to_string(self.source.as_slice(), start, self.pos);
                    let interpolated = delimiter == '"' && contains_curly(&self.source, start, self.pos);
                    self.push_token(Syntax::String(interpolated), start, len, lit.as_str());
                    return Ok(Syntax::Nil);
                } else if self.peek_is(delimiter) {
                    self.next();
                    if self.peek_is(delimiter) {
                        self.next();
                        // empty string
                        if self.pos == start + 2 {
                            proof {
                                reveal_strlit("");
                                assert(self.source@.subrange(start - 3, start - 3) =~= ""@);
                            }
                            self.push_token(Syntax::String(false), start - 3, 6, "");
                            return Ok(Syntax::Nil);
                        }
                        let len = self.pos - start - 3;
                        let lit = chars_to_string(self.source.as_slice(), start, start + len + 1);
                        self.push_token(Syntax::String(false), start, len, lit.as_str());
                        return Ok(Syntax::Nil);
                    }
                }
            }
            prev = c;
        }
        let mut msg = string_of("Unclosed string. Expected closing quote: ");
        push_char(&mut msg, delimiter);
        push_str(&mut msg, "  ");
        Err(Self::error(start, msg))
    }

    /// Scan an operator.
    fn scan_op(&mut self) -> (r: Result<Syntax>)
        requires
            old(self).wf(),
        ensures
            old(self).moved_to(*final(self)),
            final(self).tokens == old(self).tokens,
            final(self).indents == old(self).indents,
            final(self).mode == old(self).mode,
            r matches Ok(k) && k is Op,
            old(self).pos + 1 == old(self).next ==> final(self).pos + 1 == final(self).next,
            run_of(final(self).source@, old(self).next as int, final(self).next as int, |c: char| op_char(c)),
            forall|j: int| #[trigger] op_run_to(old(self).source@, old(self).next as int, j) ==> final(self).next == j,
            old(self).next + 1 < old(self).source@.len() && old(self).source@[old(self).next as int] == '.' && '0'
                <= old(self).source@[old(self).next + 1] <= '9' ==> final(self).next == old(self).next + 1,
            old(self).next + 1 < old(self).source@.len() && old(self).source@[old(self).next as int] == '='
                && old(self).source@[old(self).next + 1] == ' ' ==> final(self).next == old(self).next + 1,
            old(self).next < old(self).source@.len() && old(self).source@[old(self).next as int] == ' '
                ==> final(self).next == old(self).next,
    {
        self.eat_op();
        Ok(Syntax::Op)
    }

    /// Is the source text `source[lo..=hi]` equal to `w`?
    fn slice_is(&self, lo: usize, hi: usize, w: &str) -> (r: bool)
        requires
            lo <= hi < self.source@.len(),
        ensures
            r == (self.source@.subrange(lo as int, hi + 1) == w@),
    {
        let t = str_to_chars(w);
        let n = self.source.len();
        if t.len() != hi - lo + 1 {
            return false;
        }
        let mut i: usize = 0;
        while i < t.len()
            invariant
                t.len() == hi - lo + 1,
                hi < self.source@.len(),
                lo <= hi,
                t@ == w@,
                forall|j: int| 0 <= j < i ==> t@[j] == self.source@[lo + j],
            decreases t.len() - i,
        {
            if t[i] != self.source[lo + i] {
                assert(self.source@.subrange(lo as int, hi + 1)[i as int] != w@[i as int]);
                return false;
            }
            i += 1;
        }
        assert(self.source@.subrange(lo as int, hi + 1) =~= w@);
        true
    }

    /// Scan a word, which may have {interpolation.with(some, whitespace)}.
    /// Set `in_code` to `true` if the first char of the word is `{`
    fn scan_word(&mut self, in_code: bool) -> (r: Result<Syntax>)
        requires
            old(self).wf(),
        ensures
            old(self).moved_to(*final(self)),
            final(self).tokens == old(self).tokens,
            final(self).indents == old(self).indents,
            final(self).mode == old(self).mode,
            r matches Ok(k) && !(k is Nil) && !(k is Indent) && !(k is Dedent),
            r matches Ok(k) ==> (is_keyword(k) ==> spelled_at(
                final(self).source@,
                old(self).pos as int,
                final(self).pos as int,
                k,
            )),
            !in_code && old(self).pos + 1 == old(self).next && lower_from(old(self).source@, old(self).next as int)
                ==> final(self).next == final(self).source@.len() && final(self).pos + 1 == final(self).source@.len()
                && (!keyword_spelling(final(self).source@.subrange(old(self).pos as int, final(self).source@.len() as int))
                ==> r == Ok::<Syntax, Error>(Syntax::Word)),
            forall|j: int|
                !in_code && old(self).pos + 1 == old(self).next && #[trigger] word_stops(
                    old(self).source@,
                    old(self).next as int,
                    j,
                ) ==> final(self).next == j && final(self).pos + 1 == j && (operand_word(
                    old(self).source@.subrange(old(self).pos as int, j),
                ) ==> r == Ok::<Syntax, Error>(word_kind(old(self).source@.subrange(old(self).pos as int, j)))),
    {
        let start = self.pos;
        let ghost low = !in_code && old(self).pos + 1 == old(self).next && lower_from(old(self).source@, old(self).next as int);
        let ghost wr = !in_code && old(self).pos + 1 == old(self).next && exists|j: int|
            #[trigger] word_stops(old(self).source@, old(self).next as int, j);
        let ghost wj = choose|j: int| #[trigger] word_stops(old(self).source@, old(self).next as int, j);
        let mut in_code = in_code;
        let mut curlies: usize = 0;
        while self.next < self.source.len()
            invariant
                old(self).moved_to(*self),
                self.tokens == old(self).tokens,
                self.indents == old(self).indents,
                self.mode == old(self).mode,
                curlies <= self.next,
                low == (!in_code && old(self).pos + 1 == old(self).next && lower_from(old(self).source@, old(self).next as int)),
                low ==> !in_code && self.pos + 1 == self.next,
                start == old(self).pos,
                wr ==> word_stops(old(self).source@, old(self).next as int, wj),
                wr ==> !in_code && self.pos + 1 == self.next && self.next <= wj,
            ensures
                old(self).moved_to(*self),
                self.tokens == old(self).tokens,
                self.indents == old(self).indents,
                self.mode == old(self).mode,
                low ==> self.next == self.source@.len() && self.pos + 1 == self.next,
                wr ==> self.next == wj && self.pos + 1 == self.next,
            decreases self.source@.len() - self.next,
        {
            let c = self.source[self.next];
            if in_code {
                if c == '}' {
                    if curlies == 0 {
                        in_code = false;
                    }
                } else if c == '{' {
                    curlies += 1;
                }
            } else {
                if c == '{' {
                    in_code = true;
                } else if !c.is_word_char() {
                    break;
                }
            }
            self.next();
        }

        if self.peek_is('?') {
            self.next();
        }
        proof {
            if wr {
                assert forall|j: int| #[trigger] word_stops(old(self).source@, old(self).next as int, j) implies j
                    == wj by {
                    if j < wj {
                        assert('a' <= self.source@[j] <= 'z');
                    } else if wj < j {
                        assert('a' <= self.source@[wj] <= 'z');
                    }
                }
                reveal_strlit("def");
                reveal_strlit("do");
                reveal_strlit("return");
                reveal_strlit("if");
                reveal_strlit("then");
                reveal_strlit("else");
                reveal_strlit("for");
                reveal_strlit("while");
                reveal_strlit("in");
                reveal_strlit("fn");
                reveal_strlit("true");
                reveal_strlit("false");
            }
        }
        let end = self.pos;
        proof {
            if wr {
                assert(self.next == wj);
                assert(end + 1 == wj);
                assert(start <= end);
                assert(self.source@.subrange(start as int, end + 1) == old(self).source@.subrange(
                    old(self).pos as int,
                    wj,
                ));
                let w = self.source@.subrange(start as int, end + 1);
                if w == "true"@ {
                    assert(w.len() == 4 && w[0] == 't' && w[1] == 'r');
                }
                if w == "false"@ {
                    assert(w.len() == 5 && w[0] == 'f' && w[1] == 'a');
                }
            }
        }
        if start > end || end >= self.source.len() {
            return Ok(Syntax::Word);
        }
        Ok(
            if self.slice_is(start, end, "def") {
                Syntax::Def
            } else if self.slice_is(start, end, "do") {
                Syntax::Do
            } else if self.slice_is(start, end, "return") {
                Syntax::Return
            } else if self.slice_is(start, end, "if") {
                Syntax::If
            } else if self.slice_is(start, end, "then") {
                Syntax::Then
            } else if self.slice_is(start, end, "else") {
                Syntax::Else
            } else if self.slice_is(start, end, "for") {
                Syntax::For
            } else if self.slice_is(start, end, "while") {
                Syntax::While
            } else if self.slice_is(start, end, "in") {
                Syntax::In
            } else if self.slice_is(start, end, "fn") {
                Syntax::Fn
            } else if self.slice_is(start, end, "true") {
                Syntax::Bool(true)
            } else if self.slice_is(start, end, "false") {
                Syntax::Bool(false)
            } else {
                Syntax::Word
            },
        )
    }

    /// Determines if < is opening a tag or just a regular `<` sign
    fn scan_left_arrow(&mut self) -> (r: Result<Syntax>)
        requires
            old(self).wf(),
        ensures
            old(self).moved_to(*final(self)),
            final(self).tokens == old(self).tokens,
            final(self).indents == old(self).indents,
            r matches Ok(k) && !(k is Nil) && !(k is Indent) && !(k is Dedent) && !is_keyword(k),
            old(self).mode != Mode::Tag && old(self).next < old(self).source@.len() && (old(
                self,
            ).source@[old(self).next as int] == '/' || 'a' <= old(self).source@[old(self).next as int] <= 'z') ==> r == Ok::<Syntax, Error>(Syntax::LCaret) && final(self).mode
                == Mode::Tag && final(self).next == old(self).next && final(self).pos == old(self).pos,
    {
        let p = match self.peek() {
            Some(c) => c,
            None => '0',
        };
        if !self.in_tag() && p.is_tag_opener() {
            // <tag>
            self.mode = Mode::Tag;
            Ok(Syntax::LCaret)
        } else if !self.in_tag() && p == '!' {
            self.next(); // skip !
            let mut comment = false;
            if self.peek_is('-') {
                self.next();
                if self.peek_is('-') {
                    self.next();
                    comment = true;
                }
            }
            while self.next < self.source.len()
                invariant
                    old(self).moved_to(*self),
                    self.tokens == old(self).tokens,
                    self.indents == old(self).indents,
                decreases self.source@.len() - self.next,
            {
                let c = self.source[self.next];
                self.next();
                if comment && c == '-' {
                    if let Some(c2) = self.next() {
                        if c2 == '-' {
                            if let Some(c3) = self.next() {
                                if c3 == '>' {
                                    break;
                                }
                            }
                        }
                    }
                } else if c == '>' {
                    self.next();
                    break;
                }
            }
            Ok(Syntax::String(true))
        } else {
            // <= << <
            self.scan_op()
        }
    }

    /// Scan an open paren `(` seen in a tag declaration.
    fn scan_open_paren_in_tag(&mut self) -> (r: Result<Syntax>)
        requires
            old(self).wf(),
        ensures
            old(self).moved_to(*final(self)),
            final(self).tokens == old(self).tokens,
            final(self).indents == old(self).indents,
            r matches Ok(k) && !(k is Nil) && !(k is Indent) && !(k is Dedent) && !is_keyword(k),
    {
        if self.prev_is_equal_sign() {
            let mut open: usize = 0;
            while self.next < self.source.len()
                invariant
                    old(self).moved_to(*self),
                    self.tokens == old(self).tokens,
                    self.indents == old(self).indents,
                    self.mode == old(self).mode,
                    open <= self.next,
                decreases self.source@.len() - self.next,
            {
                let c = self.source[self.next];
                if c == ')' && open == 0 {
                    self.next();
                    break;
                } else if c == '(' {
                    open += 1;
                } else if c == ')' {
                    open -= 1;
                }
                self.next();
            }
            Ok(Syntax::JS)
        } else {
            self.set_mode(Mode::Container);
            Ok(Syntax::LParen)
        }
    }

    /// Make sure tabs vs spaces use is consistent.
    fn check_indent_style(&mut self) -> (r: Result<()>)
        requires
            old(self).wf(),
        ensures
            old(self).moved_to(*final(self)),
            final(self).next == old(self).next,
            final(self).tokens == old(self).tokens,
            final(self).indents == old(self).indents,
            final(self).mode == old(self).mode,
            r is Err <==> (old(self).style != Style::Unknown && line_style(old(self).source@, old(self).next as int)
                != Style::Unknown && line_style(old(self).source@, old(self).next as int) != old(self).style),
            r is Ok ==> final(self).style == if old(self).style == Style::Unknown {
                line_style(old(self).source@, old(self).next as int)
            } else {
                old(self).style
            },
            r matches Err(e) ==> e.kind is SyntaxError && e.pos == old(self).pos,
            r is Err ==> old(self).source@.contains('\t'),
    {
        let style = if self.peek_is(' ') {
            Style::Spaces
        } else if self.peek_is('\t') {
            Style::Tabs
        } else {
            Style::Unknown
        };
        if self.style == Style::Unknown {
            proof {
                if style == Style::Tabs {
                    assert(self.source@[self.next as int] == '\t');
                }
            }
            self.style = style;
        } else if style != Style::Unknown && self.style != style {
            proof {
                if style == Style::Tabs {
                    assert(self.source@[self.next as int] == '\t');
                }
            }
            let mut msg = string_of("Can't mix tabs and spaces. Expected ");
            push_str(&mut msg, style_name(self.style));
            push_str(&mut msg, ", found ");
            push_str(&mut msg, style_name(style));
            return Err(Self::error(self.pos, msg));
        }
        Ok(())
    }

    /// Count the spaces and tabs that start a line.
    fn eat_indent(&mut self) -> (n: usize)
        requires
            old(self).wf(),
        ensures
            old(self).moved_to(*final(self)),
            final(self).tokens == old(self).tokens,
            final(self).indents == old(self).indents,
            final(self).mode == old(self).mode,
            n == final(self).next - old(self).next,
            run_of(final(self).source@, old(self).next as int, final(self).next as int, |c: char| indent_char(c)),
            final(self).next >= final(self).source@.len() || !indent_char(final(self).source@[final(self).next as int]),
    {
        let mut n: usize = 0;
        let total = self.source.len();
        while self.next < total && (self.peek_is(' ') || self.peek_is('\t'))
            invariant
                old(self).moved_to(*self),
                self.tokens == old(self).tokens,
                self.indents == old(self).indents,
                self.mode == old(self).mode,
                n == self.next - old(self).next,
                total == self.source@.len(),
                forall|i: int| old(self).next <= i < self.next ==> #[trigger] indent_char(self.source@[i]),
            decreases self.source@.len() - self.next,
        {
            n += 1;
            self.next();
        }
        n
    }

    /// The indent that the lexer is at: the innermost open indent, or 0.
    spec fn depth(&self) -> int {
        if self.indents@.len() > 0 {
            self.indents@.last() as int
        } else {
            0
        }
    }

    /// From `self` to `after` a line of indent `n` began: at the end of
    /// the source, or before an operator that continues the last line,
    /// nothing changes; a deeper line opens an indent, a shallower one
    /// ends the statement and closes every indent deeper than `n`, and a
    /// line at the same depth ends the statement.
    spec fn newline_scanned(&self, after: Lexer, k: Syntax, n: int) -> bool {
        let s = after.source@;
        let old_toks = self.tokens@;
        let toks = after.tokens@;
        if after.next >= s.len() || (op_char(s[after.next as int]) && s[after.next as int] != '<') {
            k is Nil && after.tokens == self.tokens && after.indents == self.indents
        } else if n > self.depth() {
            &&& k is Nil
            &&& toks.len() == old_toks.len() + 1
            &&& toks.drop_last() == old_toks
            &&& toks.last().kind is Indent
            &&& after.indents@ == self.indents@.push(n as usize)
        } else if n < self.depth() {
            &&& k is Nil
            &&& after.indents@.len() < self.indents@.len()
            &&& after.indents@ == self.indents@.take(after.indents@.len() as int)
            &&& after.indents@.len() > 0 ==> after.indents@.last() <= n
            &&& toks.len() == old_toks.len() + 1 + (self.indents@.len() - after.indents@.len())
            &&& toks.take(old_toks.len() as int) == old_toks
            &&& toks[old_toks.len() as int].kind is Semi
            &&& forall|i: int| old_toks.len() < i < toks.len() ==> (#[trigger] toks[i]).kind is Dedent
        } else {
            k is Semi && after.tokens == self.tokens && after.indents == self.indents
        }
    }

    /// Figure out indents and dedents.
    fn scan_newline(&mut self) -> (r: Result<Syntax>)
        requires
            old(self).wf(),
        ensures
            old(self).moved_to(*final(self)),
            final(self).mode == old(self).mode,
            r matches Ok(k) ==> k is Nil || k is Semi,
            r matches Ok(k) ==> (k is Semi ==> final(self).tokens == old(self).tokens),
            r matches Err(e) ==> e.kind is SyntaxError,
            old(self).mode == Mode::Tag || old(self).mode == Mode::Container ==> r == Ok::<Syntax, Error>(
                Syntax::Semi,
            ) && *final(self) == *old(self),
            old(self).mode == Mode::Plain ==> (r matches Ok(k) ==> exists|m: int|
                #![trigger indent_run(final(self).source@, m, final(self).next as int)]
                {
                    &&& old(self).next <= m
                    &&& indent_run(final(self).source@, m, final(self).next as int)
                    &&& old(self).newline_scanned(*final(self), k, final(self).next - m)
                }),
            r is Err ==> final(self).tokens == old(self).tokens && final(self).indents == old(self).indents,
            r is Err ==> old(self).source@.contains('\t'),
            final(self).tokens@.len() >= old(self).tokens@.len(),
            final(self).tokens@.take(old(self).tokens@.len() as int) == old(self).tokens@,
            forall|q: int|
                old(self).mode == Mode::Plain && r is Ok && #[trigger] line_start(
                    old(self).source@,
                    old(self).next as int,
                    q,
                ) ==> final(self).next == q && final(self).style == Style::Spaces,
            old(self).mode == Mode::Plain && old(self).style == Style::Spaces && old(self).next < old(
                self,
            ).source@.len() && old(self).source@[old(self).next as int] == '\t' ==> r is Err,
            forall|c: int|
                old(self).mode == Mode::Plain && old(self).indents@.len() == 0 && #[trigger] comment_to(
                    old(self).source@,
                    old(self).next as int,
                    c,
                ) && old(self).source@[old(self).next as int] == '#' && c + 1 < old(self).source@.len() && '0'
                    <= old(self).source@[c + 1] <= '9' ==> r == Ok::<Syntax, Error>(Syntax::Semi)
                    && final(self).next == c + 1 && final(self).tokens == old(self).tokens
                    && final(self).indents == old(self).indents,
            old(self).mode == Mode::Plain && old(self).indents@.len() == 0 && old(self).next < old(
                self,
            ).source@.len() && line_char(old(self).source@[old(self).next as int]) ==> r == Ok::<
                Syntax,
                Error,
            >(Syntax::Semi) && final(self).next == old(self).next && final(self).tokens == old(self).tokens
                && final(self).indents == old(self).indents,
            old(self).mode == Mode::Plain && old(self).next == old(self).source@.len() ==> r == Ok::<
                Syntax,
                Error,
            >(Syntax::Nil) && final(self).tokens == old(self).tokens && final(self).indents == old(self).indents,
    {
        let ghost lz = old(self).mode == Mode::Plain && old(self).next == old(self).source@.len();
        let ghost lw = old(self).mode == Mode::Plain && old(self).indents@.len() == 0 && old(self).next < old(
            self,
        ).source@.len() && line_char(old(self).source@[old(self).next as int]);
        let ghost cm = old(self).mode == Mode::Plain && old(self).indents@.len() == 0 && old(self).next < old(
            self,
        ).source@.len() && old(self).source@[old(self).next as int] == '#' && exists|c: int|
            #[trigger] comment_to(old(self).source@, old(self).next as int, c) && c + 1 < old(self).source@.len()
                && '0' <= old(self).source@[c + 1] <= '9';
        let ghost cc = choose|c: int|
            #[trigger] comment_to(old(self).source@, old(self).next as int, c) && c + 1 < old(self).source@.len()
                && '0' <= old(self).source@[c + 1] <= '9';
        let ghost lq = exists|q: int| #[trigger] line_start(old(self).source@, old(self).next as int, q);
        let ghost qq = choose|q: int| #[trigger] line_start(old(self).source@, old(self).next as int, q);
        let ghost tb = old(self).mode == Mode::Plain && old(self).style == Style::Spaces && old(self).next < old(
            self,
        ).source@.len() && old(self).source@[old(self).next as int] == '\t';
        if self.in_tag() || self.in_container() {
            return Ok(Syntax::Semi);
        }

        let start = self.pos;
        let mut indent: usize = 0;
        let ghost mut line: int = self.next as int;
        loop
            invariant_except_break
                lq ==> self.next == old(self).next,
                cm ==> self.next == old(self).next || self.next == cc,
                tb ==> self.next == old(self).next && self.style == Style::Spaces,
                lw ==> self.next == old(self).next,
                lz ==> self.next == old(self).next,
            invariant
                lz == (old(self).mode == Mode::Plain && old(self).next == old(self).source@.len()),
                lw == (old(self).mode == Mode::Plain && old(self).indents@.len() == 0 && old(self).next < old(
                    self,
                ).source@.len() && line_char(old(self).source@[old(self).next as int])),
                old(self).moved_to(*self),
                self.tokens == old(self).tokens,
                self.indents == old(self).indents,
                self.mode == old(self).mode,
                old(self).mode == Mode::Plain,
                lq ==> line_start(old(self).source@, old(self).next as int, qq),
                tb == (old(self).mode == Mode::Plain && old(self).style == Style::Spaces && old(self).next < old(
                    self,
                ).source@.len() && old(self).source@[old(self).next as int] == '\t'),
                cm ==> comment_to(old(self).source@, old(self).next as int, cc) && cc + 1 < old(self).source@.len()
                    && '0' <= old(self).source@[cc + 1] <= '9' && old(self).source@[old(self).next as int] == '#',
                cm == (old(self).mode == Mode::Plain && old(self).indents@.len() == 0 && old(self).next < old(
                    self,
                ).source@.len() && old(self).source@[old(self).next as int] == '#' && exists|c: int|
                    #[trigger] comment_to(old(self).source@, old(self).next as int, c) && c + 1 < old(
                        self,
                    ).source@.len() && '0' <= old(self).source@[c + 1] <= '9'),
            ensures
                cm ==> self.next == cc + 1 && indent == 0,
                lw ==> self.next == old(self).next && indent == 0,
                lz ==> self.next == old(self).next,
                old(self).moved_to(*self),
                self.tokens == old(self).tokens,
                self.indents == old(self).indents,
                self.mode == old(self).mode,
                lq ==> self.next == qq && self.style == Style::Spaces,
                !tb,
                old(self).next <= line,
                indent_run(self.source@, line, self.next as int),
                indent == self.next - line,
            decreases self.source@.len() - self.next,
        {
            let before = self.next;
            proof {
                if tb {
                    assert(before < self.source@.len());
                    assert(self.source@[before as int] == '\t');
                }
            }
            // ignore stacked newlines
            self.eat_newlines();
            proof {
                if tb {
                    assert(self.source@ == old(self).source@);
                    assert(before == old(self).next);
                    assert(self.next == old(self).next);
                    assert(self.source@[self.next as int] == '\t');
                    assert(line_style(self.source@, self.next as int) == Style::Tabs);
                }
                if lq {
                    assert(self.source@[old(self).next as int] == ' ');
                    assert(line_style(self.source@, self.next as int) == Style::Spaces);
                }
                if cm {
                    if before == old(self).next {
                        assert(self.next == old(self).next);
                    } else {
                        assert(before == cc);
                        assert(self.source@[cc + 1] != '\n');
                        assert(self.next == cc + 1);
                    }
                    assert(line_style(self.source@, self.next as int) == Style::Unknown);
                }
                if lw {
                    assert(self.next == old(self).next);
                    assert(line_style(self.source@, self.next as int) == Style::Unknown);
                }
            }
            // tabs vs spaces error checking
            self.check_indent_style()?;
            let mid = self.next;
            // count indent
            indent = self.eat_indent();
            proof {
                if lq {
                    let f = |c: char| indent_char(c);
                    if self.next > qq {
                        assert(f(self.source@[qq]));
                    }
                    if self.next < qq {
                        assert(self.source@[self.next as int] == ' ');
                    }
                    assert(self.next == qq);
                }
                if cm || lw {
                    let f = |c: char| indent_char(c);
                    if self.next > mid {
                        assert(f(self.source@[mid as int]));
                    }
                    assert(self.next == mid);
                }
            }
            proof {
                line = mid as int;
            }
            // start over if we hit another newline or a comment
            match self.peek() {
                Some(c) => {
                    if c == '\n' {
                        assert(self.next > mid);
                    } else if c == '#' {
                        self.scan_comment()?;
                    } else {
                        break;
                    }
                },
                None => break,
            }
        }
        proof {
            assert(indent_run(self.source@, line, self.next as int));
            assert forall|c: int| #[trigger] comment_to(old(self).source@, old(self).next as int, c) && cm implies c
                == cc by {
                if c < cc {
                    assert(self.source@[c] != '\n');
                } else if cc < c {
                    assert(self.source@[cc] != '\n');
                }
            }
            assert forall|q: int| #[trigger] line_start(old(self).source@, old(self).next as int, q) implies q == qq
                && self.next == q && self.style == Style::Spaces by {
                if q < qq {
                    assert(self.source@[q] == ' ');
                } else if qq < q {
                    assert(self.source@[qq] == ' ');
                }
            }
        }

        // EOF
        if self.peek().is_none() {
            return Ok(Syntax::Nil);
        }

        // if the next token is an operator, continue the last line
        match self.peek() {
            Some(c) => {
                if c.is_op() && c != '<' {
                    return Ok(Syntax::Nil);
                }
            },
            None => {},
        }

        // what indent level are we at?
        let last = if self.indents.len() > 0 {
            self.indents[self.indents.len() - 1]
        } else {
            0
        };

        // greater indent than current depth: Indent
        if indent > last {
            proof {
                reveal_strlit("");
            }
            let t = Token::new(Syntax::Indent, start, 1, "");
            proof {
                lemma_count_push(self.tokens@, t, Syntax::Indent);
                lemma_count_push(self.tokens@, t, Syntax::Dedent);
                lemma_matched_push(self.tokens@, t);
            lemma_matched_push(self.tokens@, t);
            }
            self.tokens.push(t);
            self.indents.push(indent);
            proof {
                assert(self.tokens@.drop_last() == old(self).tokens@);
                assert(self.tokens@.take(old(self).tokens@.len() as int) == self.tokens@.drop_last());
                assert(indent_run(self.source@, line, self.next as int));
            }
            return Ok(Syntax::Nil);
        }

        // lesser indent than current depth: Dedent
        if indent < last {
            self.append(Syntax::Semi);
            let ghost base = self.tokens@;
            let ghost nx = self.next;
            let ghost st = self.style;
            while self.indents.len() > 0
                invariant
                    old(self).moved_to(*self),
                    self.mode == old(self).mode,
                    self.next == nx,
                    self.style == st,
                    indent < last,
                    last == old(self).depth(),
                    old(self).indents@.len() > 0,
                    base.len() == old(self).tokens@.len() + 1,
                    base.drop_last() == old(self).tokens@,
                    base.last().kind is Semi,
                    self.indents@.len() <= old(self).indents@.len(),
                    self.indents@ == old(self).indents@.take(self.indents@.len() as int),
                    self.indents@.len() == old(self).indents@.len() ==> indent < self.indents@.last(),
                    self.tokens@.len() == base.len() + (old(self).indents@.len() - self.indents@.len()),
                    self.tokens@.take(base.len() as int) == base,
                    forall|i: int| base.len() <= i < self.tokens@.len() ==> (#[trigger] self.tokens@[i]).kind is Dedent,
                ensures
                    old(self).moved_to(*self),
                    self.mode == old(self).mode,
                    self.next == nx,
                    self.style == st,
                    self.indents@.len() < old(self).indents@.len(),
                    self.indents@ == old(self).indents@.take(self.indents@.len() as int),
                    self.indents@.len() > 0 ==> self.indents@.last() <= indent,
                    self.tokens@.len() == base.len() + (old(self).indents@.len() - self.indents@.len()),
                    self.tokens@.take(base.len() as int) == base,
                    forall|i: int| base.len() <= i < self.tokens@.len() ==> (#[trigger] self.tokens@[i]).kind is Dedent,
                decreases self.indents@.len(),
            {
                if indent < self.indents[self.indents.len() - 1] {
                    let ghost before = self.tokens@;
                    self.close_indent();
                    proof {
                        assert(self.tokens@.take(base.len() as int) == before.take(base.len() as int));
                        assert forall|i: int| base.len() <= i < self.tokens@.len() implies (#[trigger] self.tokens@[i]).kind is Dedent by {
                            if i < before.len() {
                                assert(self.tokens@[i] == before[i]);
                            }
                        }
                    }
                } else {
                    break;
                }
            }
            proof {
                assert(self.tokens@[old(self).tokens@.len() as int] == base.last());
                assert(self.tokens@.take(old(self).tokens@.len() as int) == base.drop_last());
                assert(self.tokens@.take(old(self).tokens@.len() as int) == self.tokens@.take(
                    base.len() as int,
                ).take(old(self).tokens@.len() as int));
                assert(indent_run(self.source@, line, self.next as int));
            }
            return Ok(Syntax::Nil);
        }

        proof {
            assert(indent_run(self.source@, line, self.next as int));
        }
        // current depth == current indent
        Ok(Syntax::Semi)
    }

    /// Close the innermost indent with a Dedent token.
    fn close_indent(&mut self)
        requires
            old(self).wf(),
            old(self).indents@.len() > 0,
        ensures
            final(self).style == old(self).style,
            old(self).moved_to(*final(self)),
            final(self).next == old(self).next,
            final(self).mode == old(self).mode,
            final(self).indents@ == old(self).indents@.drop_last(),
            final(self).tokens@.len() == old(self).tokens@.len() + 1,
            final(self).tokens@.drop_last() == old(self).tokens@,
            final(self).tokens@.last().kind is Dedent,
    {
        self.indents.pop();
        proof {
            reveal_strlit("");
        }
        let t = Token::new(Syntax::Dedent, self.pos, 1, "");
        proof {
            lemma_count_push(self.tokens@, t, Syntax::Indent);
            lemma_count_push(self.tokens@, t, Syntax::Dedent);
            lemma_matched_push(self.tokens@, t);
        }
        self.tokens.push(t);
        proof {
            assert(self.tokens@.drop_last() == old(self).tokens@);
        }
    }

    /// Scan the token that starts with `c`, just read.
    fn scan_one(&mut self, c: char) -> (r: Result<Syntax>)
        requires
            old(self).wf(),
            old(self).next > 0,
        ensures
            old(self).moved_to(*final(self)),
            r matches Err(e) ==> e.kind is SyntaxError,
            r matches Ok(k) ==> !(k is Indent) && !(k is Dedent),
            r matches Ok(k) ==> (!(k is Nil) ==> final(self).tokens == old(self).tokens),
            r matches Ok(k) ==> (is_keyword(k) ==> spelled_at(
                final(self).source@,
                old(self).pos as int,
                final(self).pos as int,
                k,
            )),
            punct_kind(c, old(self).mode == Mode::Tag, old(self).next < old(self).source@.len()
                && old(self).source@[old(self).next as int] == '=') matches Some(k) ==> r == Ok::<Syntax, Error>(k)
                && final(self).tokens == old(self).tokens && final(self).indents == old(self).indents
                && final(self).next == old(self).next && final(self).pos == old(self).pos,
            final(self).tokens@.len() >= old(self).tokens@.len(),
            final(self).tokens@.take(old(self).tokens@.len() as int) == old(self).tokens@,
            c == '[' || (c == '(' || c == '{') && old(self).mode != Mode::Tag ==> final(self).mode == Mode::Container
                && final(self).modes@ == old(self).modes@.push(old(self).mode),
            c == '>' && old(self).mode == Mode::Tag ==> final(self).mode == Mode::Plain,
            (c == ']' || c == '}' || c == ')' && old(self).mode != Mode::Tag) && old(self).modes@.len() > 0
                ==> final(self).mode == old(self).modes@.last() && final(self).modes@ == old(self).modes@.drop_last(),
            quote_char(c) && old(self).pos + 1 == old(self).next && quotes_to_end(
                old(self).source@,
                old(self).next as int,
                c,
            ) ==> r == Ok::<Syntax, Error>(Syntax::Nil) && final(self).next == old(self).source@.len()
                && final(self).tokens@.len() == old(self).tokens@.len() + 1 && final(self).tokens@.drop_last()
                == old(self).tokens@ && final(self).tokens@.last().kind == Syntax::String(false)
                && final(self).tokens@.last().lit@.len() == 0 && final(self).indents == old(self).indents,
            c == '"' || c == '\'' || c == '`' ==> (r is Ok ==> r == Ok::<Syntax, Error>(Syntax::Nil)
                && final(self).tokens@.len() == old(self).tokens@.len() + 1
                && final(self).tokens@.drop_last() == old(self).tokens@
                && final(self).tokens@.last().kind is String),
            c == '\n' && (old(self).mode == Mode::Tag || old(self).mode == Mode::Container) ==> r == Ok::<
                Syntax,
                Error,
            >(Syntax::Semi) && *final(self) == *old(self),
            c == '\n' && old(self).mode == Mode::Plain ==> (r matches Ok(k) ==> exists|m: int|
                #![trigger indent_run(final(self).source@, m, final(self).next as int)]
                {
                    &&& old(self).next <= m
                    &&& indent_run(final(self).source@, m, final(self).next as int)
                    &&& old(self).newline_scanned(*final(self), k, final(self).next - m)
                }),
            r is Err ==> quote_char(c) && (triple_open(old(self).source@, old(self).next as int, c) || !closes(
                old(self).source@,
                old(self).next as int,
                c,
            )) || old(self).source@.contains('\t'),
            '0' <= c <= '9' ==> r == Ok::<Syntax, Error>(Syntax::Number) && final(self).tokens == old(self).tokens,
            forall|j: int|
                '0' <= c <= '9' && old(self).pos + 1 == old(self).next && #[trigger] digit_run_to(
                    old(self).source@,
                    old(self).next as int,
                    j,
                ) ==> final(self).next == j && final(self).pos + 1 == j && final(self).indents == old(self).indents,
            c == ' ' ==> r == Ok::<Syntax, Error>(Syntax::Nil) && final(self).tokens == old(self).tokens
                && final(self).indents == old(self).indents && final(self).mode == old(self).mode
                && (old(self).next < old(self).source@.len() && !whitespace(old(self).source@[old(self).next as int])
                ==> final(self).next == old(self).next),
            forall|j: int|
                infix_char(c) && old(self).pos + 1 == old(self).next && #[trigger] op_run_to(
                    old(self).source@,
                    old(self).next as int,
                    j,
                ) ==> r == Ok::<Syntax, Error>(Syntax::Op) && final(self).next == j && final(self).pos + 1 == j
                    && final(self).tokens == old(self).tokens && final(self).indents == old(self).indents
                    && final(self).mode == old(self).mode,
            '0' <= c <= '9' && old(self).pos + 1 == old(self).next && digits_from(old(self).source@, old(self).next as int)
                ==> final(self).next == final(self).source@.len() && final(self).pos + 1 == final(self).next
                && final(self).indents == old(self).indents,
            'a' <= c <= 'z' && old(self).pos + 1 == old(self).next && lower_from(old(self).source@, old(self).next as int)
                ==> final(self).next == final(self).source@.len() && final(self).pos + 1 == final(self).source@.len()
                && final(self).tokens == old(self).tokens && final(self).indents == old(self).indents
                && (!keyword_spelling(final(self).source@.subrange(old(self).pos as int, final(self).source@.len() as int))
                ==> r == Ok::<Syntax, Error>(Syntax::Word)),
            quote_char(c) && (forall|i: int| old(self).next <= i < old(self).source@.len() ==> old(self).source@[i] != c)
                ==> (r matches Err(e) && e.pos == old(self).pos + 1),
            forall|j: int|
                '0' <= c <= '9' && old(self).pos + 1 == old(self).next && #[trigger] digit_run_nl(
                    old(self).source@,
                    old(self).next as int,
                    j,
                ) && old(self).source@[old(self).pos as int] == c ==> final(self).next == j && final(self).pos + 1
                    == j && final(self).indents == old(self).indents && final(self).mode == old(self).mode,
            forall|cn: int|
                c == '\n' && old(self).mode == Mode::Plain && old(self).indents@.len() == 0 && #[trigger] comment_to(
                    old(self).source@,
                    old(self).next as int,
                    cn,
                ) && old(self).source@[old(self).next as int] == '#' && cn + 1 < old(self).source@.len() && '0'
                    <= old(self).source@[cn + 1] <= '9' ==> r == Ok::<Syntax, Error>(Syntax::Semi)
                    && final(self).next == cn + 1 && final(self).tokens == old(self).tokens
                    && final(self).indents == old(self).indents && final(self).mode == old(self).mode,
            c == '\n' && old(self).mode == Mode::Plain && old(self).indents@.len() == 0 && old(self).next < old(
                self,
            ).source@.len() && line_char(old(self).source@[old(self).next as int]) ==> r == Ok::<
                Syntax,
                Error,
            >(Syntax::Semi) && final(self).next == old(self).next && final(self).tokens == old(self).tokens
                && final(self).indents == old(self).indents && final(self).mode == old(self).mode,
            c == '\n' && old(self).mode == Mode::Plain && old(self).next == old(self).source@.len() ==> r == Ok::<
                Syntax,
                Error,
            >(Syntax::Nil) && final(self).tokens == old(self).tokens && final(self).indents == old(self).indents
                && final(self).mode == old(self).mode,
            forall|j: int|
                '0' <= c <= '9' && old(self).pos + 1 == old(self).next && #[trigger] digit_run_dots(
                    old(self).source@,
                    old(self).next as int,
                    j,
                ) && old(self).source@[old(self).pos as int] == c ==> final(self).next == j && final(self).pos + 1
                    == j && final(self).indents == old(self).indents,
            forall|q: int|
                c == '\n' && old(self).mode == Mode::Plain && r is Ok && #[trigger] line_start(
                    old(self).source@,
                    old(self).next as int,
                    q,
                ) ==> final(self).next == q && final(self).style == Style::Spaces && final(self).mode == old(
                    self,
                ).mode,
            c == '\n' && old(self).mode == Mode::Plain && old(self).style == Style::Spaces && old(self).next < old(
                self,
            ).source@.len() && old(self).source@[old(self).next as int] == '\t' ==> r is Err,
            c == '<' && old(self).mode != Mode::Tag && old(self).next < old(self).source@.len()
                && (old(self).source@[old(self).next as int] == '/' || 'a' <= old(self).source@[old(self).next as int]
                <= 'z') ==> r == Ok::<Syntax, Error>(Syntax::LCaret)
                && final(self).mode == Mode::Tag && final(self).next == old(self).next && final(self).pos == old(
                self,
            ).pos && final(self).tokens == old(self).tokens && final(self).indents == old(self).indents,
            c == ':' && old(self).pos + 1 == old(self).next && old(self).next + 1 < old(self).source@.len()
                && old(self).source@[old(self).next as int] == '=' && old(self).source@[old(self).next + 1] == ' '
                ==> r == Ok::<Syntax, Error>(Syntax::Op) && final(self).next == old(self).next + 1
                && final(self).pos + 1 == final(self).next && final(self).tokens == old(self).tokens
                && final(self).indents == old(self).indents,
            c == '=' && old(self).mode != Mode::Tag && old(self).pos + 1 == old(self).next && old(self).next
                < old(self).source@.len() && old(self).source@[old(self).next as int] == ' ' ==> r == Ok::<
                Syntax,
                Error,
            >(Syntax::Op) && final(self).next == old(self).next && final(self).pos + 1 == final(self).next
                && final(self).tokens == old(self).tokens && final(self).indents == old(self).indents,
            c == '.' && old(self).pos + 1 == old(self).next && old(self).next + 1 < old(self).source@.len()
                && old(self).source@[old(self).next as int] == '.' && '0' <= old(self).source@[old(self).next + 1]
                <= '9' ==> r == Ok::<Syntax, Error>(Syntax::Op) && final(self).next == old(self).next + 1
                && final(self).pos + 1 == final(self).next && final(self).tokens == old(self).tokens
                && final(self).indents == old(self).indents,
            forall|j: int|
                'a' <= c <= 'z' && old(self).pos + 1 == old(self).next && #[trigger] word_run_to(
                    old(self).source@,
                    old(self).next as int,
                    j,
                ) ==> final(self).next == j && final(self).pos + 1 == j && final(self).tokens == old(self).tokens
                    && final(self).indents == old(self).indents && final(self).mode == old(self).mode && (operand_word(
                    old(self).source@.subrange(old(self).pos as int, j),
                ) ==> r == Ok::<Syntax, Error>(word_kind(old(self).source@.subrange(old(self).pos as int, j)))),
            forall|j: int|
                'a' <= c <= 'z' && old(self).pos + 1 == old(self).next && #[trigger] word_stops(
                    old(self).source@,
                    old(self).next as int,
                    j,
                ) ==> final(self).next == j && final(self).pos + 1 == j && final(self).tokens == old(self).tokens
                    && final(self).indents == old(self).indents && final(self).mode == old(self).mode && (operand_word(
                    old(self).source@.subrange(old(self).pos as int, j),
                ) ==> r == Ok::<Syntax, Error>(word_kind(old(self).source@.subrange(old(self).pos as int, j)))),
    {
        if c == '\n' {
            self.scan_newline()
        } else if c == ';' {
            Ok(Syntax::Semi)
        } else if c == ',' {
            Ok(Syntax::Comma)
        } else if c == '"' || c == '\'' || c == '`' {
            self.scan_string(c)
        } else if c == '!' {
            if self.peek_is('!') {
                Ok(Syntax::Op)
            } else {
                self.scan_op()
            }
        } else if c == ':' {
            if self.peek_is('=') || self.in_tag() {
                self.scan_op()
            } else {
                Ok(Syntax::Colon)
            }
        } else if c == '-' {
            if self.peek_numeric() {
                self.scan_number()
            } else {
                self.scan_op()
            }
        } else if c == '#' {
            let opens = match self.peek() {
                Some(p) => p == '{' || is_alphabetic(p),
                None => false,
            };
            if opens {
                self.scan_op()
            } else {
                self.scan_comment()
            }
        } else if c == '[' {
            self.set_mode(Mode::Container);
            Ok(Syntax::LStaple)
        } else if c == ']' {
            self.pop_mode();
            Ok(Syntax::RStaple)
        } else if c == '(' {
            if self.in_tag() {
                self.scan_open_paren_in_tag()
            } else {
                self.set_mode(Mode::Container);
                Ok(Syntax::LParen)
            }
        } else if c == ')' {
            if !self.in_tag() {
                self.pop_mode();
            }
            Ok(Syntax::RParen)
        } else if c == '{' {
            if self.in_tag() {
                self.scan_word(true)
            } else {
                self.set_mode(Mode::Container);
                Ok(Syntax::LCurly)
            }
        } else if c == '}' {
            self.pop_mode();
            Ok(Syntax::RCurly)
        } else if c == '<' {
            self.scan_left_arrow()
        } else if c == '>' {
            if self.in_tag() {
                self.mode = Mode::Plain;
                Ok(Syntax::RCaret)
            } else {
                self.scan_op()
            }
        } else if c == '=' {
            if self.in_tag() {
                Ok(Syntax::Equal)
            } else {
                self.scan_op()
            }
        } else if c == '/' {
            if self.in_tag() {
                Ok(Syntax::Slash)
            } else {
                self.scan_op()
            }
        } else if is_whitespace(c) {
            let ghost n0 = self.next as int;
            self.eat_whitespace();
            proof {
                if self.next > n0 {
                    let f = |x: char| whitespace(x);
                    assert(f(self.source@[n0]));
                }
            }
            Ok(Syntax::Nil)
        } else if is_numeric(c) {
            self.scan_number()
        } else if is_alphabetic(c) || c == '_' {
            let ghost s0 = *self;
            let r = self.scan_word(false);
            proof {
                assert forall|j: int| #[trigger] word_run_to(s0.source@, s0.next as int, j) implies word_stops(
                    s0.source@,
                    s0.next as int,
                    j,
                ) by {}
            }
            r
        } else {
            self.scan_op()
        }
    }

    /// Turn `source` into vector of `Token`, or error.
    #[verifier::rlimit(100)]
    #[verifier::spinoff_prover]
    fn scan(&mut self) -> (r: Result<()>)
        requires
            old(self).wf(),
        ensures
            final(self).wf(),
            final(self).source == old(self).source,
            r is Ok ==> final(self).indents@.len() == 0,
            r is Ok ==> final(self).tokens@.len() > 0 ==> !(final(self).tokens@[0].kind is Semi),
            r is Ok ==> final(self).tokens@.len() > 0 ==> (final(self).tokens@.last().kind is Semi
                || final(self).tokens@.last().kind is Dedent),
            r matches Err(e) ==> e.kind is SyntaxError,
            old(self).source@.len() == 0 && old(self).tokens@.len() == 0 && old(self).indents@.len() == 0
                ==> r is Ok && final(self).tokens@.len() == 0,
            old(self).next == 0 && old(self).tokens@.len() == 0 && old(self).mode == Mode::Plain ==> (opening_kind(
                old(self).source@,
            ) matches Some(k) ==> (r is Ok ==> final(self).tokens@.len() > 0 && final(self).tokens@[0].kind == k)),
            r is Err ==> has_quote(old(self).source@) || old(self).source@.contains('\t'),
            old(self).next == 0 && unclosed_first(old(self).source@) ==> (r matches Err(e) && e.pos == 1),
            old(self).next == 0 && old(self).tokens@.len() == 0 && old(self).indents@.len() == 0 && plain_word(
                old(self).source@,
            ) ==> r is Ok && one_word(final(self).tokens@, old(self).source@),
            old(self).next == 0 && old(self).tokens@.len() == 0 && old(self).indents@.len() == 0 && digit_word(
                old(self).source@,
            ) ==> r is Ok && one_number(final(self).tokens@, old(self).source@),
            forall|a: int, b: int, c: int, d: int, e: int|
                old(self).next == 0 && old(self).tokens@.len() == 0 && old(self).indents@.len() == 0
                    && #[trigger] infix_src(old(self).source@, a, b, c, d, e) ==> r is Ok && infix_tokens(
                    final(self).tokens@,
                    old(self).source@,
                    a,
                    b,
                    c,
                    d,
                    e,
                ),
            forall|n: int|
                old(self).next == 0 && old(self).tokens@.len() == 0 && old(self).indents@.len() == 0
                    && #[trigger] range_src(old(self).source@, n) ==> r is Ok && range_tokens(
                    final(self).tokens@,
                    old(self).source@,
                    n,
                ),
            old(self).next == 0 && old(self).tokens@.len() == 0 && old(self).indents@.len() == 0 && empty_quotes(
                old(self).source@,
            ) ==> r is Ok && empty_string_tokens(final(self).tokens@),
            forall|n: int, k: int|
                old(self).next == 0 && old(self).tokens@.len() == 0 && old(self).indents@.len() == 0 && old(
                    self,
                ).mode == Mode::Plain && #[trigger] assign_src(old(self).source@, n, k) ==> r is Ok && assign_tokens(
                    final(self).tokens@,
                    old(self).source@,
                    n,
                    k,
                ),
            old(self).next == 0 && old(self).tokens@.len() == 0 && old(self).mode == Mode::Plain && opens_closing(
                old(self).source@,
            ) ==> (r is Ok ==> closing_first(final(self).tokens@)),
            forall|n: int|
                old(self).next == 0 && old(self).tokens@.len() == 0 && old(self).indents@.len() == 0 && old(
                    self,
                ).mode == Mode::Plain && #[trigger] tag_word_src(old(self).source@, n) ==> r is Ok && tag_word_tokens(
                    final(self).tokens@,
                    old(self).source@,
                    n,
                ),
            forall|p1: int, q: int, p2: int|
                old(self).next == 0 && old(self).mode == Mode::Plain && #[trigger] mixed_src(
                    old(self).source@,
                    p1,
                    q,
                    p2,
                ) ==> r is Err,
            forall|a: int, c: int|
                old(self).next == 0 && old(self).tokens@.len() == 0 && old(self).indents@.len() == 0 && old(
                    self,
                ).mode == Mode::Plain && #[trigger] comment_src(old(self).source@, a, c) ==> r is Ok && comment_tokens(
                    final(self).tokens@,
                    old(self).source@,
                    a,
                    c,
                ),
            forall|e: Seq<int>|
                old(self).next == 0 && old(self).tokens@.len() == 0 && old(self).indents@.len() == 0 && old(
                    self,
                ).mode == Mode::Plain && #[trigger] lines_src(old(self).source@, e) ==> r is Ok && lines_tokens(
                    final(self).tokens@,
                    old(self).source@,
                    e,
                ),
    {
        let ghost cs = old(self).next == 0 && old(self).tokens@.len() == 0 && old(self).indents@.len() == 0
            && old(self).mode == Mode::Plain && exists|a: int, c: int| #[trigger] comment_src(old(self).source@, a, c);
        let ghost (ca, cc) = choose|a: int, c: int| #[trigger] comment_src(old(self).source@, a, c);
        let ghost ls = old(self).next == 0 && old(self).tokens@.len() == 0 && old(self).indents@.len() == 0
            && old(self).mode == Mode::Plain && exists|e: Seq<int>| #[trigger] lines_src(old(self).source@, e);
        let ghost le = choose|e: Seq<int>| #[trigger] lines_src(old(self).source@, e);
        let ghost mut lk: int = 0;
        let ghost mx = old(self).next == 0 && old(self).mode == Mode::Plain && exists|p1: int, q: int, p2: int|
            #[trigger] mixed_src(old(self).source@, p1, q, p2);
        let ghost (x1, xq, x2) = choose|p1: int, q: int, p2: int| #[trigger] mixed_src(old(self).source@, p1, q, p2);
        proof {
            if mx {
                assert(mixed_src(old(self).source@, x1, xq, x2));
                assert(word_place(self.source@, 0, x1, 0));
            }
        }
        let ghost tw = old(self).next == 0 && old(self).tokens@.len() == 0 && old(self).indents@.len() == 0
            && old(self).mode == Mode::Plain && exists|n: int| #[trigger] tag_word_src(old(self).source@, n);
        let ghost tn = choose|n: int| #[trigger] tag_word_src(old(self).source@, n);
        let ghost cf = old(self).next == 0 && old(self).tokens@.len() == 0 && old(self).mode == Mode::Plain
            && opens_closing(old(self).source@);
        let ghost ag = old(self).next == 0 && old(self).tokens@.len() == 0 && old(self).indents@.len() == 0
            && old(self).mode == Mode::Plain && exists|n: int, k: int| #[trigger] assign_src(old(self).source@, n, k);
        let ghost (an, ak) = choose|n: int, k: int| #[trigger] assign_src(old(self).source@, n, k);
        let ghost eq = old(self).next == 0 && old(self).tokens@.len() == 0 && old(self).indents@.len() == 0
            && empty_quotes(old(self).source@);
        let ghost rg = old(self).next == 0 && old(self).tokens@.len() == 0 && old(self).indents@.len() == 0
            && exists|n: int| #[trigger] range_src(old(self).source@, n);
        let ghost rn = choose|n: int| #[trigger] range_src(old(self).source@, n);
        let ghost ix = old(self).next == 0 && old(self).tokens@.len() == 0 && old(self).indents@.len() == 0
            && exists|a: int, b: int, c: int, d: int, e: int| #[trigger] infix_src(old(self).source@, a, b, c, d, e);
        let ghost (n1, m1, n2, m2, n3) = if ix {
            choose|a: int, b: int, c: int, d: int, e: int| #[trigger] infix_src(old(self).source@, a, b, c, d, e)
        } else {
            (0int, 0int, 0int, 0int, 0int)
        };
        let ghost dw = old(self).next == 0 && old(self).tokens@.len() == 0 && old(self).indents@.len() == 0
            && digit_word(old(self).source@);
        let ghost pw = old(self).next == 0 && old(self).tokens@.len() == 0 && old(self).indents@.len() == 0
            && plain_word(old(self).source@);
        let ghost blank = old(self).source@.len() == 0 && old(self).tokens@.len() == 0
            && old(self).indents@.len() == 0;
        let ghost fk = if old(self).next == 0 && old(self).tokens@.len() == 0 && old(self).mode == Mode::Plain {
            opening_kind(old(self).source@)
        } else {
            None
        };
        proof {
            if mx {
                assert(self.mode == Mode::Plain);
                assert(self.next == 0);
                assert(self.source@ == old(self).source@);
                assert(word_place(self.source@, 0, x1, self.next as int));
            }
        }
        while self.next < self.source.len()
            invariant
                self.wf(),
                self.source == old(self).source,
                old(self).next == 0 && unclosed_first(old(self).source@) ==> self.next == 0,
                pw == (old(self).next == 0 && old(self).tokens@.len() == 0 && old(self).indents@.len() == 0
                    && plain_word(old(self).source@)),
                pw ==> (self.next == 0 && self.tokens@.len() == 0 && self.indents@.len() == 0) || (self.next
                    == self.source@.len() && self.tokens@.len() == 1 && self.tokens@[0].kind is Word
                    && self.tokens@[0].lit@ == self.source@ && self.indents@.len() == 0),
                dw == (old(self).next == 0 && old(self).tokens@.len() == 0 && old(self).indents@.len() == 0
                    && digit_word(old(self).source@)),
                dw ==> (self.next == 0 && self.tokens@.len() == 0 && self.indents@.len() == 0) || (self.next
                    == self.source@.len() && self.tokens@.len() == 1 && self.tokens@[0].kind is Number
                    && self.tokens@[0].lit@ == self.source@ && self.indents@.len() == 0),
                fk == (if old(self).next == 0 && old(self).tokens@.len() == 0 && old(self).mode == Mode::Plain {
                    opening_kind(old(self).source@)
                } else {
                    None
                }),
                fk is Some && self.next == 0 ==> self.tokens@.len() == 0 && self.mode == Mode::Plain,
                fk is Some && self.next > 0 ==> self.tokens@.len() > 0 && self.tokens@[0].kind == fk->0,
                blank == (old(self).source@.len() == 0 && old(self).tokens@.len() == 0
                    && old(self).indents@.len() == 0),
                blank ==> self.tokens@.len() == 0 && self.indents@.len() == 0,
                ix ==> infix_src(old(self).source@, n1, m1, n2, m2, n3) && self.indents@.len() == 0
                    && infix_progress(self.tokens@, self.source@, self.next as int, n1, m1, n2, m2, n3),
                rg ==> range_src(old(self).source@, rn) && self.indents@.len() == 0 && range_progress(
                    self.tokens@,
                    self.source@,
                    self.next as int,
                    rn,
                ),
                ag ==> assign_src(old(self).source@, an, ak) && self.indents@.len() == 0 && assign_progress(
                    self.tokens@,
                    self.source@,
                    self.next as int,
                    an,
                    ak,
                ) && (self.next <= an + 1 ==> self.mode == Mode::Plain),
                tw ==> tag_word_src(old(self).source@, tn) && self.indents@.len() == 0 && tag_word_progress(
                    self.tokens@,
                    self.source@,
                    self.next as int,
                    self.mode,
                    tn,
                ),
                ls == (old(self).next == 0 && old(self).tokens@.len() == 0 && old(self).indents@.len() == 0
                    && old(self).mode == Mode::Plain && exists|e: Seq<int>| #[trigger] lines_src(old(self).source@, e)),
                ls ==> lines_src(old(self).source@, le) && self.indents@.len() == 0 && (self.next
                    < self.source@.len() ==> self.mode == Mode::Plain) && lines_progress(self.tokens@, self.source@, self.next as int, le, lk),
                cs == (old(self).next == 0 && old(self).tokens@.len() == 0 && old(self).indents@.len() == 0
                    && old(self).mode == Mode::Plain && exists|a: int, c: int|
                    #[trigger] comment_src(old(self).source@, a, c)),
                cs ==> comment_src(old(self).source@, ca, cc) && self.indents@.len() == 0 && (self.next
                    < self.source@.len() ==> self.mode == Mode::Plain) && comment_progress(self.tokens@, self.source@, self.next as int, ca, cc),
                mx ==> mixed_src(old(self).source@, x1, xq, x2),
                mx ==> self.mode == Mode::Plain,
                mx ==> (self.next <= x1 && word_place(self.source@, 0, x1, self.next as int)) || (xq <= self.next
                    && self.next <= x2 && self.style == Style::Spaces && word_place(
                    self.source@,
                    xq,
                    x2,
                    self.next as int,
                )),
                cf == (old(self).next == 0 && old(self).tokens@.len() == 0 && old(self).mode == Mode::Plain
                    && opens_closing(old(self).source@)),
                cf ==> self.next == 0 && self.tokens@.len() == 0 && self.mode == Mode::Plain || self.next == 1
                    && self.tokens@.len() == 1 && self.tokens@[0].kind is LCaret && self.mode == Mode::Tag
                    || self.next >= 2 && closing_first(self.tokens@),
                eq == (old(self).next == 0 && old(self).tokens@.len() == 0 && old(self).indents@.len() == 0
                    && empty_quotes(old(self).source@)),
                eq ==> self.indents@.len() == 0 && (self.next == 0 && self.tokens@.len() == 0 || self.next
                    == self.source@.len() && self.tokens@.len() == 1 && self.tokens@[0].kind == Syntax::String(false)
                    && self.tokens@[0].lit@.len() == 0),
            decreases self.source@.len() - self.next,
        {
            let c = self.source[self.next];
            let ghost first = self.next == 0;
            let ghost at = self.next as int;
            self.next();
            let start = self.pos;
            let ghost toks0 = self.tokens@;
            proof {
                if ix {
                    lemma_infix_next(self.source@, at, n1, m1, n2, m2, n3);
                }
                if rg {
                    lemma_range_next(self.source@, rn);
                }
                if ag {
                    lemma_assign_next(self.source@, an, ak);
                }
                if tw {
                    lemma_tag_word_next(self.source@, tn);
                }
                if cs {
                    lemma_comment_next(self.source@, ca, cc);
                    if at == ca {
                        assert(comment_to(self.source@, self.next as int, cc));
                        assert('0' <= self.source@[cc + 1] <= '9');
                    }
                }
                if ls {
                    lemma_lines_next(self.source@, le, lk);
                }
                if mx {
                    let src = self.source@;
                    if at < x1 && 'a' <= src[at] <= 'z' {
                        let j = lemma_word_end(src, 0, x1, at);
                    } else if xq <= at < x2 && 'a' <= src[at] <= 'z' {
                        let j = lemma_word_end(src, xq, x2, at);
                    }
                    if at < x1 && src[at] == ' ' {
                        assert('a' <= src[at + 1] <= 'z');
                    }
                    if xq <= at < x2 && src[at] == ' ' {
                        assert('a' <= src[at + 1] <= 'z');
                    }
                }
                if pw {
                    assert(first);
                    assert(self.source@.subrange(0, self.source@.len() as int) =~= self.source@);
                    assert('a' <= c <= 'z');
                    assert(lower_from(self.source@, self.next as int));
                }
                if dw {
                    assert(first);
                    assert('0' <= c <= '9');
                    assert(digits_from(self.source@, self.next as int));
                }
            }
            let kind = match self.scan_one(c) {
                Ok(k) => k,
                Err(e) => {
                    proof {
                        if quote_char(c) {
                            assert(quote_char(self.source@[at]));
                        }
                        assert forall|a: int, c: int|
                            old(self).next == 0 && old(self).tokens@.len() == 0 && old(self).indents@.len() == 0
                                && old(self).mode == Mode::Plain && #[trigger] comment_src(
                                old(self).source@,
                                a,
                                c,
                            ) implies false by {
                            assert(cs);
                            assert(at == 0 || at == ca || at == cc + 1);
                        }
                        assert forall|e: Seq<int>|
                            old(self).next == 0 && old(self).tokens@.len() == 0 && old(self).indents@.len() == 0
                                && old(self).mode == Mode::Plain && #[trigger] lines_src(
                                old(self).source@,
                                e,
                            ) implies false by {
                            assert(ls);
                        }
                    }
                    return Err(e);
                },
            };
            proof {
                if fk is Some && !first {
                    assert(self.tokens@.take(toks0.len() as int)[0] == toks0[0]);
                }
            }
            // skip empty tokens
            if kind == Syntax::Nil {
                proof {
                    if ix {
                        assert(c == ' ');
                    }
                }
                continue;
            }
            if start <= self.pos && self.pos < self.source.len() {
                let len = self.pos - start + 1;
                proof {
                    if is_keyword(kind) {
                        assert(spelled_at(self.source@, start as int, self.pos as int, kind));
                    }
                    assert(self.source@.subrange(start as int, start + len) == self.source@.subrange(
                        start as int,
                        self.pos + 1,
                    ));
                }
                let ghost toks1 = self.tokens@;
                self.push_slice(kind, start, len);
                proof {
                    if cf {
                        assert(self.tokens@.drop_last() == toks1);
                        if toks1.len() >= 2 {
                            assert(self.tokens@[0] == toks1[0] && self.tokens@[1] == toks1[1]);
                        }
                        if toks1.len() == 1 {
                            assert(self.tokens@[0] == toks1[0]);
                        }
                    }
                    if ix || rg || ag || tw || cs || ls {
                        assert(self.tokens@.drop_last() == toks1);
                        assert(forall|i: int| 0 <= i < toks1.len() ==> self.tokens@[i] == toks1[i]);
                    }
                    if ls {
                        let src = old(self).source@;
                        assert forall|i: int| 0 <= i < lk implies #[trigger] line_toks(
                            self.tokens@,
                            src,
                            le,
                            i,
                        ) by {
                            assert(line_toks(toks1, src, le, i));
                        }
                        if at == le[lk] {
                            assert(line_toks(self.tokens@, src, le, lk));
                            lk = lk + 1;
                        }
                    }
                    if fk is Some {
                        if first {
                            assert(self.tokens@.len() == 1);
                        } else {
                            assert(self.tokens@.drop_last()[0] == toks1[0]);
                        }
                    }
                }
            }
        }

        // Add final semicolon before EOF, if not present.
        proof {
            if ix {
                assert(self.tokens@.len() == 5);
            }
            if rg {
                assert(self.tokens@.len() == 3);
            }
            if eq {
                assert(self.tokens@.len() == 1);
            }
            if ag {
                assert(self.tokens@.len() == 3);
            }
            if tw {
                assert(self.tokens@.len() == 4);
            }
            if cs {
                assert(self.tokens@.len() == 3);
            }
            if ls {
                lemma_lines_next(self.source@, le, lk);
                assert(lk == le.len() - 1);
                assert(self.tokens@.len() == 2 * lk + 1);
            }
        }
        if !self.prev_is(Syntax::Semi) && !self.prev_is(Syntax::Dedent) {
            let ghost toks1 = self.tokens@;
            self.append(Syntax::Semi);
            proof {
                if ix {
                    assert(forall|i: int| 0 <= i < toks1.len() ==> self.tokens@[i] == toks1[i]);
                    assert(infix_tokens(self.tokens@, old(self).source@, n1, m1, n2, m2, n3));
                }
                if rg {
                    assert(forall|i: int| 0 <= i < toks1.len() ==> self.tokens@[i] == toks1[i]);
                    assert(range_tokens(self.tokens@, old(self).source@, rn));
                }
                if eq {
                    assert(self.tokens@[0] == toks1[0]);
                }
                if cf {
                    assert(self.tokens@[0] == toks1[0] && self.tokens@[1] == toks1[1]);
                }
                if ag {
                    assert(forall|i: int| 0 <= i < toks1.len() ==> self.tokens@[i] == toks1[i]);
                    assert(assign_tokens(self.tokens@, old(self).source@, an, ak));
                }
                if tw {
                    assert(forall|i: int| 0 <= i < toks1.len() ==> self.tokens@[i] == toks1[i]);
                    assert(tag_word_tokens(self.tokens@, old(self).source@, tn));
                }
                if cs {
                    assert(forall|i: int| 0 <= i < toks1.len() ==> self.tokens@[i] == toks1[i]);
                    assert(comment_tokens(self.tokens@, old(self).source@, ca, cc));
                }
                if ls {
                    let src = old(self).source@;
                    assert(forall|i: int| 0 <= i < toks1.len() ==> self.tokens@[i] == toks1[i]);
                    assert forall|i: int| 0 <= i < le.len() implies #[trigger] line_toks(
                        self.tokens@,
                        src,
                        le,
                        i,
                    ) by {
                        if i < lk {
                            assert(line_toks(toks1, src, le, i));
                        }
                    }
                    assert(lines_tokens(self.tokens@, src, le));
                }
                if fk is Some && toks1.len() > 0 {
                    assert(self.tokens@.drop_last()[0] == toks1[0]);
                }
            }
        }

        // Close open indents
        while self.indents.len() > 0
            invariant
                self.wf(),
                self.source == old(self).source,
                blank ==> self.indents@.len() == 0 && self.tokens@.len() == 1 && self.tokens@[0].kind is Semi,
                pw ==> self.indents@.len() == 0 && one_word(self.tokens@, old(self).source@),
                dw ==> self.indents@.len() == 0 && one_number(self.tokens@, old(self).source@),
                ix ==> self.indents@.len() == 0 && infix_tokens(self.tokens@, old(self).source@, n1, m1, n2, m2, n3),
                rg ==> self.indents@.len() == 0 && range_tokens(self.tokens@, old(self).source@, rn),
                eq ==> self.indents@.len() == 0 && empty_string_tokens(self.tokens@),
                ag ==> self.indents@.len() == 0 && assign_tokens(self.tokens@, old(self).source@, an, ak),
                tw ==> self.indents@.len() == 0 && tag_word_tokens(self.tokens@, old(self).source@, tn),
                cs ==> self.indents@.len() == 0 && comment_tokens(self.tokens@, old(self).source@, ca, cc),
                ls ==> self.indents@.len() == 0 && lines_tokens(self.tokens@, old(self).source@, le),
                cf ==> closing_first(self.tokens@),
                fk is Some ==> self.tokens@.len() > 0 && self.tokens@[0].kind == fk->0 && !(fk->0 is Semi),
                self.tokens@.len() > 0,
                self.tokens@.last().kind is Semi || self.tokens@.last().kind is Dedent,
            decreases self.indents@.len(),
        {
            let ghost toks1 = self.tokens@;
            self.close_indent();
            proof {
                if fk is Some {
                    assert(self.tokens@.drop_last()[0] == toks1[0]);
                }
                if cf {
                    assert(self.tokens@.drop_last()[0] == toks1[0] && self.tokens@.drop_last()[1] == toks1[1]);
                }
            }
        }

        // Trim leading ;
        while self.tokens.len() > 0 && self.tokens[0].kind == Syntax::Semi
            invariant
                self.wf(),
                self.source == old(self).source,
                blank ==> forall|i: int| 0 <= i < self.tokens@.len() ==> (#[trigger] self.tokens@[i]).kind is Semi,
                pw ==> one_word(self.tokens@, old(self).source@),
                dw ==> one_number(self.tokens@, old(self).source@),
                ix ==> infix_tokens(self.tokens@, old(self).source@, n1, m1, n2, m2, n3),
                rg ==> range_tokens(self.tokens@, old(self).source@, rn),
                eq ==> empty_string_tokens(self.tokens@),
                ag ==> assign_tokens(self.tokens@, old(self).source@, an, ak),
                tw ==> tag_word_tokens(self.tokens@, old(self).source@, tn),
                cs ==> comment_tokens(self.tokens@, old(self).source@, ca, cc),
                ls ==> lines_tokens(self.tokens@, old(self).source@, le),
                cf ==> closing_first(self.tokens@),
                fk is Some ==> self.tokens@.len() > 0 && self.tokens@[0].kind == fk->0 && !(fk->0 is Semi),
                self.indents@.len() == 0,
                self.tokens@.len() > 0 ==> (self.tokens@.last().kind is Semi
                    || self.tokens@.last().kind is Dedent),
            decreases self.tokens@.len(),
        {
            proof {
                if ls {
                    assert(line_toks(self.tokens@, old(self).source@, le, 0));
                }
                lemma_count_drop_first(self.tokens@, Syntax::Indent);
                lemma_count_drop_first(self.tokens@, Syntax::Dedent);
            }
            let ghost before = self.tokens@;
            proof {
                lemma_matched_drop_first(self.tokens@);
            }
            self.tokens.remove(0);
            proof {
                assert(self.tokens@ == before.drop_first());
                assert(forall|i: int| 0 <= i < self.tokens@.len() ==> self.tokens@[i] == before[i + 1]);
                if self.tokens@.len() > 0 {
                    assert(self.tokens@.last() == before.last());
                }
            }
        }
        proof {
            assert forall|a: int, b: int, c: int, d: int, e: int|
                old(self).next == 0 && old(self).tokens@.len() == 0 && old(self).indents@.len() == 0
                    && #[trigger] infix_src(old(self).source@, a, b, c, d, e) implies infix_tokens(
                    self.tokens@,
                    old(self).source@,
                    a,
                    b,
                    c,
                    d,
                    e,
                ) by {
                lemma_infix_unique(old(self).source@, a, b, c, d, e, n1, m1, n2, m2, n3);
            }
            assert forall|n: int|
                old(self).next == 0 && old(self).tokens@.len() == 0 && old(self).indents@.len() == 0
                    && #[trigger] range_src(old(self).source@, n) implies range_tokens(self.tokens@, old(self).source@, n)
                by {
                lemma_range_unique(old(self).source@, n, rn);
            }
            assert forall|n: int, k: int|
                old(self).next == 0 && old(self).tokens@.len() == 0 && old(self).indents@.len() == 0 && old(
                    self,
                ).mode == Mode::Plain && #[trigger] assign_src(old(self).source@, n, k) implies assign_tokens(
                self.tokens@,
                old(self).source@,
                n,
                k,
            ) by {
                lemma_assign_unique(old(self).source@, n, k, an, ak);
            }
            assert forall|n: int|
                old(self).next == 0 && old(self).tokens@.len() == 0 && old(self).indents@.len() == 0 && old(
                    self,
                ).mode == Mode::Plain && #[trigger] tag_word_src(old(self).source@, n) implies tag_word_tokens(
                self.tokens@,
                old(self).source@,
                n,
            ) by {
                lemma_tag_word_unique(old(self).source@, n, tn);
            }
            assert forall|a: int, c: int|
                old(self).next == 0 && old(self).tokens@.len() == 0 && old(self).indents@.len() == 0 && old(
                    self,
                ).mode == Mode::Plain && #[trigger] comment_src(old(self).source@, a, c) implies comment_tokens(
                self.tokens@,
                old(self).source@,
                a,
                c,
            ) by {
                lemma_comment_unique(old(self).source@, a, c, ca, cc);
            }
            assert forall|e: Seq<int>|
                old(self).next == 0 && old(self).tokens@.len() == 0 && old(self).indents@.len() == 0 && old(
                    self,
                ).mode == Mode::Plain && #[trigger] lines_src(old(self).source@, e) implies lines_tokens(
                self.tokens@,
                old(self).source@,
                e,
            ) by {
                lemma_lines_unique(old(self).source@, e, le);
            }
        }
        Ok(())
    }

    /// Are we lexing a tag?
    fn in_tag(&self) -> (r: bool)
        ensures
            r == (self.mode == Mode::Tag),
    {
        self.mode == Mode::Tag
    }

    /// Are we lexing a container?
    fn in_container(&self) -> (r: bool)
        ensures
            r == (self.mode == Mode::Container),
    {
        self.mode == Mode::Container
    }
}

/// Is `c` a digit of the radix that `radix` (`b`, `o` or `x`) names, as
/// the lexer reads them (`_` counts for `b` and `o`)?
fn radix_char(radix: char, c: char) -> (r: bool)
    ensures
        r == radix_digit(radix, c),
{
    if radix == 'b' {
        c == '0' || c == '1' || c == '_'
    } else if radix == 'o' {
        ('0' <= c && c <= '7') || c == '_'
    } else {
        ('a' <= c && c <= 'f') || ('0' <= c && c <= '9')
    }
}

/// Does `v[lo..hi]` hold a `{`?
fn contains_curly(v: &Vec<char>, lo: usize, hi: usize) -> (r: bool)
    requires
        lo <= hi <= v@.len(),
    ensures
        r == v@.subrange(lo as int, hi as int).contains('{'),
{
    let mut i = lo;
    while i < hi
        invariant
            lo <= i <= hi <= v@.len(),
            forall|j: int| lo <= j < i ==> v@[j] != '{',
        decreases hi - i,
    {
        if v[i] == '{' {
            assert(v@.subrange(lo as int, hi as int)[i - lo] == '{');
            return true;
        }
        i += 1;
    }
    assert forall|j: int| 0 <= j < hi - lo implies v@.subrange(lo as int, hi as int)[j] != '{' by {
        assert(v@.subrange(lo as int, hi as int)[j] == v@[lo + j]);
    }
    false
}

/// The name of an indentation style, for error messages.
fn style_name(s: Style) -> (r: &'static str)
    ensures
        r@ == match s {
            Style::Unknown => "None"@,
            Style::Tabs => "Tabs"@,
            Style::Spaces => "Spaces"@,
        },
{
    match s {
        Style::Unknown => "None",
        Style::Tabs => "Tabs",
        Style::Spaces => "Spaces",
    }
}

} // verus!
