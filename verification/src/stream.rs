//! A cursor over the tokens of a source text, and a token seen together
//! with that text.

use vstd::prelude::*;
use crate::syntax::Syntax;
use crate::text::{chars_to_string, str_to_chars, string_of};
use crate::token::Token;

verus! {

/// A token together with the source text it was scanned from.
pub struct TokenPos<'s> {
    pub source: &'s str,
    pub tok: &'s Token,
}

/// The source text a token covers: characters `pos..pos + len`, cut
/// short at the end of the source.
pub open spec fn covered(source: Seq<char>, tok: Token) -> Seq<char> {
    if source.len() <= tok.pos {
        Seq::empty()
    } else if tok.pos + tok.len <= source.len() {
        source.subrange(tok.pos as int, tok.pos + tok.len)
    } else {
        source.subrange(tok.pos as int, source.len() as int)
    }
}

/// What a token stands for in its source: a name for indents and
/// dedents, `;` for a semicolon, else the text it covers.
pub open spec fn pos_literal(source: Seq<char>, tok: Token) -> Seq<char> {
    match tok.kind {
        Syntax::Indent => "INDENT"@,
        Syntax::Dedent => "DEDENT"@,
        Syntax::Semi => ";"@,
        _ => covered(source, tok),
    }
}

impl<'s> TokenPos<'s> {
    /// A token seen in `source`.
    pub fn new(tok: &'s Token, source: &'s str) -> (r: TokenPos<'s>)
        ensures
            r.tok == tok,
            r.source == source,
    {
        TokenPos { source, tok }
    }

    /// What the token stands for in the source; see `pos_literal`.
    pub fn literal(&self) -> (r: String)
        ensures
            r@ == pos_literal(self.source@, *self.tok),
    {
        proof {
            reveal_strlit("INDENT");
            reveal_strlit("DEDENT");
            reveal_strlit(";");
        }
        match self.tok.kind {
            Syntax::Indent => string_of("INDENT"),
            Syntax::Dedent => string_of("DEDENT"),
            Syntax::Semi => string_of(";"),
            _ => {
                let chars = str_to_chars(self.source);
                let n = chars.len();
                let pos = self.tok.pos;
                if n <= pos {
                    String::new()
                } else if self.tok.len <= n - pos {
                    chars_to_string(chars.as_slice(), pos, pos + self.tok.len)
                } else {
                    chars_to_string(chars.as_slice(), pos, n)
                }
            },
        }
    }

    /// Same as `literal`.
    pub fn to_string(&self) -> (r: String)
        ensures
            r@ == pos_literal(self.source@, *self.tok),
    {
        self.literal()
    }
}

/// A cursor over tokens, with the source they were scanned from.
pub struct TokenStream {
    tokens: Vec<Token>,
    source: String,
    pos: usize,
}

impl TokenStream {
    /// The tokens.
    pub closed spec fn spec_tokens(&self) -> Seq<Token> {
        self.tokens@
    }

    /// The source text.
    pub closed spec fn spec_source(&self) -> Seq<char> {
        self.source@
    }

    /// How many tokens have been taken.
    pub closed spec fn spec_pos(&self) -> nat {
        self.pos as nat
    }

    /// The count of tokens taken, and that of all the tokens, are machine
    /// words; so while a token is left, another can be taken.
    pub proof fn lemma_pos_fits(&self)
        ensures
            self.spec_pos() <= usize::MAX,
            self.spec_tokens().len() <= usize::MAX,
            self.spec_pos() < self.spec_tokens().len() ==> self.spec_pos() < usize::MAX,
    {
        assert(self.tokens@.len() == self.tokens.len());
    }

    /// A cursor at the first of `tokens`.
    pub fn from(source: String, tokens: Vec<Token>) -> (r: TokenStream)
        ensures
            r.spec_tokens() == tokens@,
            r.spec_source() == source@,
            r.spec_pos() == 0,
    {
        TokenStream { source, tokens, pos: 0 }
    }

    /// The token at `i`, seen in the source, if there is one.
    fn at(&self, i: usize) -> (r: Option<TokenPos<'_>>)
        ensures
            match r {
                Some(t) => i < self.spec_tokens().len() && *t.tok == self.spec_tokens()[i as int]
                    && t.source@ == self.spec_source(),
                None => i >= self.spec_tokens().len(),
            },
    {
        if i < self.tokens.len() {
            Some(TokenPos::new(&self.tokens[i], self.source.as_str()))
        } else {
            None
        }
    }

    /// The next token, without taking it.
    pub fn peek(&self) -> (r: Option<TokenPos<'_>>)
        ensures
            match r {
                Some(t) => self.spec_pos() < self.spec_tokens().len() && *t.tok
                    == self.spec_tokens()[self.spec_pos() as int] && t.source@ == self.spec_source(),
                None => self.spec_pos() >= self.spec_tokens().len(),
            },
    {
        self.at(self.pos)
    }

    /// The token after the next one, without taking anything.
    pub fn peek2(&self) -> (r: Option<TokenPos<'_>>)
        ensures
            match r {
                Some(t) => self.spec_pos() + 1 < self.spec_tokens().len() && *t.tok
                    == self.spec_tokens()[self.spec_pos() + 1int] && t.source@ == self.spec_source(),
                None => self.spec_pos() + 1 >= self.spec_tokens().len(),
            },
    {
        if self.pos < self.tokens.len() {
            self.at(self.pos + 1)
        } else {
            None
        }
    }

    /// The token taken last, if any.
    pub fn current(&self) -> (r: Option<TokenPos<'_>>)
        ensures
            match r {
                Some(t) => 0 < self.spec_pos() <= self.spec_tokens().len() && *t.tok
                    == self.spec_tokens()[self.spec_pos() - 1int] && t.source@ == self.spec_source(),
                None => self.spec_pos() == 0 || self.spec_pos() > self.spec_tokens().len(),
            },
    {
        if self.pos == 0 {
            None
        } else {
            self.at(self.pos - 1)
        }
    }

    /// Takes the next token. Taking past the end still moves the
    /// cursor, as long as there are tokens at all.
    pub fn next(&mut self) -> (r: Option<TokenPos<'_>>)
        ensures
            final(self).spec_tokens() == old(self).spec_tokens(),
            final(self).spec_source() == old(self).spec_source(),
            old(self).spec_tokens().len() == 0 ==> final(self).spec_pos() == old(self).spec_pos(),
            old(self).spec_tokens().len() > 0 && old(self).spec_pos() < usize::MAX ==> final(self).spec_pos() == old(self).spec_pos() + 1,
            old(self).spec_pos() < old(self).spec_tokens().len() ==> final(self).spec_pos() == old(self).spec_pos() + 1,
            match r {
                Some(t) => old(self).spec_pos() < old(self).spec_tokens().len() && *t.tok
                    == old(self).spec_tokens()[old(self).spec_pos() as int] && t.source@
                    == old(self).spec_source(),
                None => old(self).spec_pos() >= old(self).spec_tokens().len(),
            },
    {
        if self.tokens.len() == 0 {
            return None;
        }
        let pos = self.pos;
        assert(self.tokens@.len() == self.tokens.len());
        if self.pos < usize::MAX {
            self.pos = self.pos + 1;
        }
        self.at(pos)
    }

    /// The source text.
    pub fn source(&self) -> (r: &str)
        ensures
            r@ == self.spec_source(),
    {
        self.source.as_str()
    }
}

} // verus!
