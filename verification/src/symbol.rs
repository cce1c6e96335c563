//! Names: variable names, map keys, function parameters.

use vstd::prelude::*;
use crate::text::{str_eq, string_of};

verus! {

/// A name, held as its text.
#[derive(Debug)]
pub struct Symbol(pub String);

impl View for Symbol {
    type V = Seq<char>;

    open spec fn view(&self) -> Seq<char> {
        self.0@
    }
}

impl Clone for Symbol {
    fn clone(&self) -> (r: Symbol)
        ensures
            r == *self,
    {
        Symbol(self.0.clone())
    }
}

impl Symbol {
    /// A symbol with the text of `s`.
    pub fn from(s: &str) -> (r: Symbol)
        ensures
            r@ == s@,
    {
        Symbol(string_of(s))
    }

    /// A symbol holding `s`.
    pub fn from_string(s: String) -> (r: Symbol)
        ensures
            r@ == s@,
    {
        Symbol(s)
    }

    /// The empty symbol.
    pub fn empty() -> (r: Symbol)
        ensures
            r@ == Seq::<char>::empty(),
    {
        Symbol(String::new())
    }

    /// The text of the symbol.
    pub fn to_str(&self) -> (r: &str)
        ensures
            r@ == self@,
    {
        self.0.as_str()
    }

    /// The text of the symbol.
    pub fn as_ref(&self) -> (r: &str)
        ensures
            r@ == self@,
    {
        self.0.as_str()
    }

    /// The text of the symbol, as a new `String`.
    pub fn to_string(&self) -> (r: String)
        ensures
            r@ == self@,
    {
        self.0.clone()
    }

    /// Is the text of this symbol `s`?
    pub fn is(&self, s: &str) -> (r: bool)
        ensures
            r == (self@ == s@),
    {
        str_eq(self.0.as_str(), s)
    }

    /// Do the two symbols have the same text?
    pub fn same(&self, other: &Symbol) -> (r: bool)
        ensures
            r == (self@ == other@),
    {
        str_eq(self.0.as_str(), other.0.as_str())
    }
}

} // verus!
