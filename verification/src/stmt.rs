//! The syntax tree that the parser builds and the evaluator walks.

use vstd::prelude::*;
use std::rc::Rc;
use crate::symbol::Symbol;
use crate::value::Value;

verus! {

/// A node of the syntax tree.
#[derive(Debug)]
pub enum Stmt {
    Nil,
    Value(Value),
    Word(Symbol),
    List(Vec<Stmt>),
    Dict(Vec<(Symbol, Stmt)>),
    /// function, arguments
    Call(Box<Stmt>, Vec<Stmt>),
    Return(Box<Stmt>),
    /// (test, body) pairs
    If(Vec<(Stmt, Vec<Stmt>)>),
    /// key, value, iterable, body
    For(Option<Symbol>, Symbol, Box<Stmt>, Vec<Stmt>),
    While(Box<Stmt>, Vec<Stmt>),
    /// name, value, is it a reassignment (`=`) rather than a creation (`:=`)?
    Assign(Symbol, Box<Stmt>, bool),
    Tag(Tag),
    /// parameters, body
    Fn(Vec<Symbol>, Rc<Vec<Stmt>>),
    /// keyword arguments
    Args(Vec<(Symbol, Stmt)>),
}

/// An HTML tag in the syntax tree.
#[derive(Debug)]
pub struct Tag {
    pub tag: Box<Stmt>,
    pub id: Box<Stmt>,
    pub classes: Vec<Stmt>,
    pub attrs: Vec<(Stmt, Stmt)>,
    pub body: Vec<Stmt>,
    pub closed: bool,
}

impl Stmt {
    /// Is this Stmt an actual statement?
    pub fn is_some(&self) -> (r: bool)
        ensures
            r == !(*self is Nil),
    {
        !self.is_none()
    }

    /// Is this Stmt::Nil?
    pub fn is_none(&self) -> (r: bool)
        ensures
            r == (*self is Nil),
    {
        match self {
            Stmt::Nil => true,
            _ => false,
        }
    }

    /// The text of a string value or a word; empty for anything else.
    pub open spec fn spec_text(&self) -> Seq<char> {
        match self {
            Stmt::Value(Value::String(s)) => s@,
            Stmt::Word(w) => w@,
            _ => Seq::empty(),
        }
    }

    /// If this is a String or a Word, get a &str of its literal value.
    pub fn to_str(&self) -> (r: &str)
        ensures
            r@ == self.spec_text(),
    {
        match self {
            Stmt::Value(Value::String(s)) => s.as_str(),
            Stmt::Word(w) => w.to_str(),
            _ => {
                proof {
                    reveal_strlit("");
                }
                ""
            },
        }
    }

    /// A string value.
    pub fn from_string(s: String) -> (r: Stmt)
        ensures
            r == Stmt::Value(Value::String(s)),
    {
        Stmt::Value(Value::String(s))
    }

    /// A string value with the text of `s`.
    pub fn from_str(s: &str) -> (r: Stmt)
        ensures
            r matches Stmt::Value(Value::String(t)) && t@ == s@,
    {
        Stmt::Value(Value::String(s.to_owned()))
    }

    /// A word.
    pub fn word(s: &str) -> (r: Stmt)
        ensures
            r matches Stmt::Word(w) && w@ == s@,
    {
        Stmt::Word(Symbol::from(s))
    }

    /// Do the two statements name the same attribute? Strings and words
    /// are compared by their text; anything else is never the same.
    pub fn same_name(&self, other: &Stmt) -> (r: bool)
        ensures
            r == (self.is_text() && other.is_text() && self.spec_text() == other.spec_text()),
    {
        if self.text_kind() && other.text_kind() {
            crate::text::str_eq(self.to_str(), other.to_str())
        } else {
            false
        }
    }

    /// Is this a string value or a word?
    pub open spec fn is_text(&self) -> bool {
        self matches Stmt::Value(Value::String(_)) || self is Word
    }

    /// Is this a string value or a word?
    pub fn text_kind(&self) -> (r: bool)
        ensures
            r == self.is_text(),
    {
        match self {
            Stmt::Value(Value::String(_)) => true,
            Stmt::Word(_) => true,
            _ => false,
        }
    }
}

impl Tag {
    /// A tag named by `tag`, with no id, classes, attributes or body.
    pub fn new(tag: Stmt) -> (r: Tag)
        ensures
            *r.tag == tag,
            *r.id is Nil,
            r.classes@.len() == 0,
            r.attrs@.len() == 0,
            r.body@.len() == 0,
            !r.closed,
    {
        Tag {
            tag: Box::new(tag),
            id: Box::new(Stmt::Nil),
            classes: Vec::new(),
            attrs: Vec::new(),
            closed: false,
            body: Vec::new(),
        }
    }

    /// Is this a self-closing tag?
    pub fn is_closed(&self) -> (r: bool)
        ensures
            r == self.closed,
    {
        self.closed
    }

    /// Mark the tag self-closing.
    pub fn close(&mut self)
        ensures
            final(self).closed,
            final(self).tag == old(self).tag,
            final(self).id == old(self).id,
            final(self).classes == old(self).classes,
            final(self).attrs == old(self).attrs,
            final(self).body == old(self).body,
    {
        self.closed = true;
    }

    /// Set the id.
    pub fn set_id(&mut self, id: Stmt)
        ensures
            *final(self).id == id,
            final(self).closed == old(self).closed,
            final(self).tag == old(self).tag,
            final(self).classes == old(self).classes,
            final(self).attrs == old(self).attrs,
            final(self).body == old(self).body,
    {
        self.id = Box::new(id);
    }

    /// Set the body.
    pub fn set_body(&mut self, body: Vec<Stmt>)
        ensures
            final(self).body == body,
            final(self).closed == old(self).closed,
            final(self).tag == old(self).tag,
            final(self).id == old(self).id,
            final(self).classes == old(self).classes,
            final(self).attrs == old(self).attrs,
    {
        self.body = body;
    }

    /// Add a class.
    pub fn add_class(&mut self, class: Stmt)
        ensures
            final(self).classes@ == old(self).classes@.push(class),
            final(self).closed == old(self).closed,
            final(self).tag == old(self).tag,
            final(self).id == old(self).id,
            final(self).attrs == old(self).attrs,
            final(self).body == old(self).body,
    {
        self.classes.push(class);
    }

    /// Set attribute `name` to `val`: in place of an attribute of the same
    /// name, else as the last attribute.
    pub fn add_attr(&mut self, name: Stmt, val: Stmt)
        ensures
            (exists|i: int| 0 <= i < old(self).attrs@.len() && #[trigger] old(self).attrs@[i].0.same_text(name))
                ==> exists|i: int|
                0 <= i < old(self).attrs@.len() && old(self).attrs@[i].0.same_text(name)
                    && final(self).attrs@ == old(self).attrs@.update(i, (name, val)),
            !(exists|i: int| 0 <= i < old(self).attrs@.len() && #[trigger] old(self).attrs@[i].0.same_text(name))
                ==> final(self).attrs@ == old(self).attrs@.push((name, val)),
            final(self).closed == old(self).closed,
            final(self).tag == old(self).tag,
            final(self).id == old(self).id,
            final(self).classes == old(self).classes,
            final(self).body == old(self).body,
    {
        let mut i: usize = 0;
        while i < self.attrs.len()
            invariant
                i <= self.attrs@.len(),
                self.attrs == old(self).attrs,
                self.closed == old(self).closed,
                self.tag == old(self).tag,
                self.id == old(self).id,
                self.classes == old(self).classes,
                self.body == old(self).body,
                forall|j: int| 0 <= j < i ==> !(#[trigger] self.attrs@[j].0.same_text(name)),
            decreases self.attrs.len() - i,
        {
            if self.attrs[i].0.same_name(&name) {
                self.attrs.set(i, (name, val));
                return;
            }
            i += 1;
        }
        self.attrs.push((name, val));
    }
}

impl Stmt {
    /// Do the two statements name the same attribute?
    pub open spec fn same_text(&self, other: Stmt) -> bool {
        self.is_text() && other.is_text() && self.spec_text() == other.spec_text()
    }
}

} // verus!
