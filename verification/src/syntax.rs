//! The kinds of token that the lexer recognizes.

use vstd::prelude::*;
use crate::text::{alphabetic, numeric, whitespace, is_alphabetic, is_alphanumeric, is_whitespace};

verus! {

/// The different kinds of syntax that the lexer recognizes.
#[derive(Debug, Clone, Copy, PartialEq, Eq, Structural)]
pub enum Syntax {
    Nil,
    Indent,
    Dedent,
    /// `true` `false`
    Bool(bool),
    /// `123` `3.14`
    Number,
    /// a string; the flag says whether it is interpolated
    String(bool),
    /// identifier, symbol, etc.
    Word,
    /// `(JavaScript)` in a tag attribute
    JS,
    /// `+` `-` `:=` etc.
    Op,
    Semi,
    Colon,
    Comma,
    LParen,
    RParen,
    LCurly,
    RCurly,
    LStaple,
    RStaple,
    LCaret,
    RCaret,
    /// `/` inside a tag
    Slash,
    /// `=` inside a tag
    Equal,
    Def,
    Do,
    Return,
    If,
    Then,
    Else,
    For,
    While,
    In,
    Fn,
}

/// Can a token of this kind begin an expression?
pub open spec fn spec_starts_expr(s: Syntax) -> bool {
    match s {
        Syntax::String(_) | Syntax::Bool(_) | Syntax::Number | Syntax::Word | Syntax::Fn
        | Syntax::Op | Syntax::LCaret | Syntax::LParen | Syntax::LStaple | Syntax::LCurly => true,
        _ => false,
    }
}

/// Is this kind a word or a keyword?
pub open spec fn spec_word_or_keyword(s: Syntax) -> bool {
    match s {
        Syntax::Word | Syntax::Def | Syntax::Do | Syntax::Return | Syntax::If | Syntax::Then
        | Syntax::Else | Syntax::For | Syntax::While | Syntax::In | Syntax::Fn => true,
        _ => false,
    }
}

impl Syntax {
    /// Does this syntax start an expression?
    pub fn starts_expr(&self) -> (r: bool)
        ensures
            r == spec_starts_expr(*self),
    {
        match self {
            Syntax::String(_) | Syntax::Bool(_) | Syntax::Number | Syntax::Word | Syntax::Fn
            | Syntax::Op | Syntax::LCaret | Syntax::LParen | Syntax::LStaple | Syntax::LCurly => true,
            _ => false,
        }
    }

    /// Is this a word or a keyword? Used for implicit body text in tags.
    pub fn is_word_or_keyword(&self) -> (r: bool)
        ensures
            r == spec_word_or_keyword(*self),
    {
        match self {
            Syntax::Word | Syntax::Def | Syntax::Do | Syntax::Return | Syntax::If | Syntax::Then
            | Syntax::Else | Syntax::For | Syntax::While | Syntax::In | Syntax::Fn => true,
            _ => false,
        }
    }
}

/// Valid in a `Syntax::Word`?
pub open spec fn word_char(c: char) -> bool {
    alphabetic(c) || numeric(c) || c == '-' || c == '_' || c == '\''
}

/// Valid right after the `<` that opens a tag?
pub open spec fn tag_opener(c: char) -> bool {
    alphabetic(c) || c == '#' || c == '.' || c == ':' || c == '@' || c == '/'
}

/// One of `( ) [ ] { }`?
pub open spec fn bracket(c: char) -> bool {
    c == '(' || c == ')' || c == '[' || c == ']' || c == '{' || c == '}'
}

/// Part of an operator?
pub open spec fn op_char(c: char) -> bool {
    !whitespace(c) && !(alphabetic(c) || numeric(c)) && !bracket(c) && c != '#' && c != '"'
        && c != '`' && c != '\''
}

/// Character classes the lexer asks about.
pub trait SyntaxTrait {
    fn is_word_char(&self) -> bool;

    fn is_tag_opener(&self) -> bool;

    fn is_op(&self) -> bool;

    fn is_bracket(&self) -> bool;
}

impl SyntaxTrait for char {
    /// Is this char valid in a `Syntax::Word`?
    fn is_word_char(&self) -> (r: bool)
        ensures
            r == word_char(*self),
            'a' <= *self <= 'z' ==> r,
            *self == ' ' || *self == '>' || *self == '\n' ==> !r,
    {
        is_alphanumeric(*self) || *self == '-' || *self == '_' || *self == '\''
    }

    /// Is this valid in the opening section of a <tag>?
    fn is_tag_opener(&self) -> (r: bool)
        ensures
            r == tag_opener(*self),
            'a' <= *self <= 'z' ==> r,
    {
        is_alphabetic(*self) || *self == '#' || *self == '.' || *self == ':' || *self == '@'
            || *self == '/'
    }

    /// Operator?
    fn is_op(&self) -> (r: bool)
        ensures
            r == op_char(*self),
            *self == '+' || *self == '*' || *self == '%' || *self == '&' || *self == '|' || *self == '^' ==> r,
            *self == '.' || *self == '=' ==> r,
            '0' <= *self <= '9' || *self == ' ' ==> !r,
            'a' <= *self <= 'z' ==> !r,
    {
        !is_whitespace(*self) && !is_alphanumeric(*self) && !self.is_bracket() && *self != '#'
            && *self != '"' && *self != '`' && *self != '\''
    }

    /// ( ) [ ] { }
    fn is_bracket(&self) -> (r: bool)
        ensures
            r == bracket(*self),
    {
        *self == '(' || *self == ')' || *self == '[' || *self == ']' || *self == '{' || *self == '}'
    }
}

} // verus!
