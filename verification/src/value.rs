//! The dynamic values that Hatter code computes with.

use vstd::prelude::*;
use std::rc::Rc;
use crate::number::{Number, SCALE, display};
use crate::text::{push_str, push_char, str_eq, string_of};
use vstd::std_specs::cmp::PartialEqSpecImpl;
use vstd::std_specs::convert::FromSpecImpl;
use crate::omap::OMap;
use crate::rc::share;
use crate::stmt::Stmt;
use crate::symbol::Symbol;

verus! {

broadcast use vstd::std_specs::vec::group_vec_axioms;

/// A Hatter value. Lists, maps and functions are shared: copying a
/// value never copies them.
#[derive(Debug)]
pub enum Value {
    Nil,
    Bool(bool),
    Number(Number),
    String(String),
    List(Rc<Vec<Value>>),
    Dict(Rc<OMap>),
    Fn(Rc<Fn>),
}

/// A function value.
#[derive(Debug)]
pub enum Fn {
    /// Defined in Hatter: parameters, body, and the scope it was
    /// created in (by its number in the environment).
    Fn(Vec<Symbol>, Rc<Vec<Stmt>>, usize),
    /// A builtin whose arguments are evaluated first.
    Native(Native),
    /// A builtin that receives its arguments unevaluated, as syntax,
    /// and decides itself when and whether to evaluate them.
    Special(Special),
}

/// The builtins whose arguments are evaluated before the call.
#[derive(Debug, Clone, Copy, PartialEq, Eq, Structural)]
pub enum Native {
    Type,
    When,
    Eq,
    Neq,
    Not,
    Concat,
    Index,
    Range,
    RangeInclusive,
    Add,
    Sub,
    Mul,
    Div,
    Rem,
    Gt,
    Gte,
    Lt,
    Lte,
    Print,
    Puts,
    ToUppercase,
    ToLowercase,
    Replace,
    Len,
    Empty,
    Contains,
    Split,
    Count,
}

/// The builtins that receive their arguments as syntax.
#[derive(Debug, Clone, Copy, PartialEq, Eq, Structural)]
pub enum Special {
    /// Short-circuiting `&&`.
    And,
    /// Short-circuiting `||`.
    Or,
    /// `push(list, value)` and `list << value`: appends to the list
    /// stored at the place the first argument names.
    Push,
    /// `place[key] = value` and `place.key = value`.
    SetIndex,
    /// `pop(list)`: removes the last item of the list stored at the
    /// place the argument names, and gives it.
    Pop,
}

impl Clone for Value {
    fn clone(&self) -> (r: Value)
        ensures
            r == *self,
    {
        match self {
            Value::Nil => Value::Nil,
            Value::Bool(b) => Value::Bool(*b),
            Value::Number(n) => Value::Number(*n),
            Value::String(s) => Value::String(s.clone()),
            Value::List(l) => Value::List(share(l)),
            Value::Dict(m) => Value::Dict(share(m)),
            Value::Fn(f) => Value::Fn(share(f)),
        }
    }
}

impl PartialEq for Value {
    fn eq(&self, other: &Value) -> (r: bool) {
        self.equals(other)
    }
}

impl PartialEqSpecImpl for Value {
    open spec fn obeys_eq_spec() -> bool {
        true
    }

    open spec fn eq_spec(&self, other: &Value) -> bool {
        spec_equals(*self, *other)
    }
}

impl From<bool> for Value {
    fn from(b: bool) -> (r: Value) {
        Value::Bool(b)
    }
}

impl FromSpecImpl<bool> for Value {
    open spec fn obeys_from_spec() -> bool {
        true
    }

    open spec fn from_spec(b: bool) -> Value {
        Value::Bool(b)
    }
}

impl From<i32> for Value {
    fn from(i: i32) -> (r: Value) {
        Value::Number(Number::from_i32(i))
    }
}

impl FromSpecImpl<i32> for Value {
    open spec fn obeys_from_spec() -> bool {
        true
    }

    open spec fn from_spec(i: i32) -> Value {
        Value::Number(Number { raw: (i * SCALE) as i64 })
    }
}

impl From<String> for Value {
    fn from(s: String) -> (r: Value) {
        Value::String(s)
    }
}

impl FromSpecImpl<String> for Value {
    open spec fn obeys_from_spec() -> bool {
        true
    }

    open spec fn from_spec(s: String) -> Value {
        Value::String(s)
    }
}

impl Value {
    /// Are the two values equal? See `spec_equals`.
    pub fn equals(&self, other: &Value) -> (r: bool)
        ensures
            r == spec_equals(*self, *other),
        decreases self,
    {
        match self {
            Value::Nil => match other {
                Value::Nil => true,
                _ => false,
            },
            Value::Bool(x) => match other {
                Value::Bool(y) => *x == *y,
                _ => false,
            },
            Value::Number(x) => match other {
                Value::Number(y) => x.same(y),
                _ => false,
            },
            Value::String(x) => match other {
                Value::String(y) => str_eq(x.as_str(), y.as_str()),
                _ => false,
            },
            Value::List(x) => match other {
                Value::List(y) => {
                    if x.len() != y.len() {
                        return false;
                    }
                    let mut i: usize = 0;
                    while i < x.len()
                        invariant
                            i <= x@.len(),
                            x@.len() == y@.len(),
                            *self == Value::List(*x),
                            *other == Value::List(*y),
                            forall|j: int| 0 <= j < i ==> spec_equals(x@[j], y@[j]),
                        decreases x.len() - i,
                    {
                        proof {
                            assert(decreases_to!(*self => (*self)->List_0));
                            assert((*self)->List_0 == *x);
                            assert(decreases_to!(*self => x@[i as int]));
                        }
                        if !x[i].equals(&y[i]) {
                            return false;
                        }
                        i += 1;
                    }
                    true
                },
                _ => false,
            },
            Value::Dict(x) => match other {
                Value::Dict(y) => {
                    if x.entries.len() != y.entries.len() {
                        return false;
                    }
                    let mut i: usize = 0;
                    while i < x.entries.len()
                        invariant
                            i <= x.entries@.len(),
                            x.entries@.len() == y.entries@.len(),
                            *self == Value::Dict(*x),
                            *other == Value::Dict(*y),
                            forall|j: int|
                                #![trigger x.entries@[j]]
                                0 <= j < i ==> y.has_key(x.entries@[j].0@) && spec_equals(
                                    x.entries@[j].1,
                                    y.spec_get(x.entries@[j].0@).unwrap(),
                                ),
                        decreases x.entries.len() - i,
                    {
                        proof {
                            assert(decreases_to!(x.entries => x.entries@[i as int]));
                            assert(decreases_to!(x.entries@[i as int] => x.entries@[i as int].1));
                            assert(decreases_to!(*self => (*self)->Dict_0));
                            assert((*self)->Dict_0 == *x);
                            assert(decreases_to!(**x => x.entries));
                            assert(decreases_to!(*self => x.entries@[i as int].1));
                        }
                        let key = &x.entries[i].0;
                        match y.get(key.to_str()) {
                            Some(v) => {
                                if !x.entries[i].1.equals(v) {
                                    return false;
                                }
                            },
                            None => {
                                return false;
                            },
                        }
                        i += 1;
                    }
                    true
                },
                _ => false,
            },
            Value::Fn(_) => false,
        }
    }

    /// Is the value truthy? Only `None` and `false` are not.
    pub fn to_bool(&self) -> (r: bool)
        ensures
            r == !(*self is Nil || *self == Value::Bool(false)),
    {
        match self {
            Value::Nil => false,
            Value::Bool(b) => *b,
            _ => true,
        }
    }

    /// The name of the value's type.
    pub fn typename(&self) -> (r: &'static str)
        ensures
            r@ == spec_typename(*self),
    {
        proof {
            reveal_strlit("none");
            reveal_strlit("bool");
            reveal_strlit("number");
            reveal_strlit("string");
            reveal_strlit("fn");
            reveal_strlit("list");
            reveal_strlit("map");
        }
        match self {
            Value::Nil => "none",
            Value::Bool(_) => "bool",
            Value::Number(_) => "number",
            Value::String(_) => "string",
            Value::Fn(_) => "fn",
            Value::List(_) => "list",
            Value::Dict(_) => "map",
        }
    }

    /// The number of items of a list or map, or bytes of a string (in
    /// UTF-8); zero for anything else.
    pub fn len(&self) -> (r: usize)
        ensures
            r == spec_len(*self),
    {
        match self {
            Value::List(l) => l.len(),
            Value::Dict(m) => m.len(),
            Value::String(s) => s.as_str().len(),
            _ => 0,
        }
    }

    /// Is `len()` zero?
    pub fn is_empty(&self) -> (r: bool)
        ensures
            r == (spec_len(*self) == 0),
    {
        self.len() == 0
    }

    /// Wrap in `Ok`.
    pub fn ok(self) -> (r: crate::error::Result<Value>)
        ensures
            r == crate::error::Result::<Value>::Ok(self),
    {
        Ok(self)
    }

    /// Wrap in `Some`.
    pub fn some(self) -> (r: Option<Value>)
        ensures
            r == Some(self),
    {
        Some(self)
    }

    /// A short description: the text of a string, `true`/`false`, or a
    /// placeholder such as `(list)` for other values.
    pub fn to_str(&self) -> (r: &str)
        ensures
            r@ == spec_to_str(*self),
    {
        proof {
            reveal_strlit("");
            reveal_strlit("(number)");
            reveal_strlit("{function}");
            reveal_strlit("(list)");
            reveal_strlit("(map)");
            reveal_strlit("true");
            reveal_strlit("false");
        }
        match self {
            Value::Nil => "",
            Value::String(s) => s.as_str(),
            Value::Number(_) => "(number)",
            Value::Fn(_) => "{function}",
            Value::List(_) => "(list)",
            Value::Dict(_) => "(map)",
            Value::Bool(b) => if *b { "true" } else { "false" },
        }
    }

    /// How the value prints: numbers and strings as themselves, lists in
    /// their debug form, everything else as `to_str()`.
    pub fn to_string(&self) -> (r: String)
        ensures
            r@ == spec_display(*self),
    {
        match self {
            Value::Number(n) => n.to_string(),
            Value::String(s) => s.clone(),
            Value::List(_) => self.debug_string(),
            _ => string_of(self.to_str()),
        }
    }

    /// The debug form: strings quoted, lists bracketed.
    pub fn debug_string(&self) -> (r: String)
        ensures
            r@ == spec_debug(*self),
        decreases self,
    {
        proof {
            reveal_strlit("None");
            reveal_strlit("true");
            reveal_strlit("false");
            reveal_strlit("\"");
            reveal_strlit("Function { val: \"?\" }");
            reveal_strlit("Map { val: \"?\" }");
            reveal_strlit("[");
        }
        match self {
            Value::Nil => string_of("None"),
            Value::Bool(b) => string_of(if *b { "true" } else { "false" }),
            Value::Number(n) => n.to_string(),
            Value::String(s) => {
                let mut r = string_of("\"");
                push_str(&mut r, s.as_str());
                push_char(&mut r, '"');
                r
            },
            Value::Fn(_) => string_of("Function { val: \"?\" }"),
            Value::Dict(_) => string_of("Map { val: \"?\" }"),
            Value::List(l) => {
                let mut r = string_of("[");
                let mut i: usize = 0;
                while i < l.len()
                    invariant
                        i <= l@.len(),
                        *self == Value::List(*l),
                        r@ == seq!['['] + debug_items(*self, i as int),
                    decreases l.len() - i,
                {
                    if i > 0 {
                        push_str(&mut r, ", ");
                    }
                    proof {
                        assert(decreases_to!(*self => (*self)->List_0));
                        assert((*self)->List_0 == *l);
                        assert(decreases_to!(*self => l@[i as int]));
                    }
                    let item = l[i].debug_string();
                    push_str(&mut r, item.as_str());
                    proof {
                        reveal_strlit(", ");
                    }
                    i += 1;
                }
                push_char(&mut r, ']');
                r
            },
        }
    }
}

/// The name of the value's type.
pub open spec fn spec_typename(v: Value) -> Seq<char> {
    match v {
        Value::Nil => "none"@,
        Value::Bool(_) => "bool"@,
        Value::Number(_) => "number"@,
        Value::String(_) => "string"@,
        Value::Fn(_) => "fn"@,
        Value::List(_) => "list"@,
        Value::Dict(_) => "map"@,
    }
}

/// The number of items of a list or map, or UTF-8 bytes of a string
/// (as `str::len` counts them).
pub open spec fn spec_len(v: Value) -> nat {
    match v {
        Value::List(l) => l@.len(),
        Value::Dict(m) => m.entries@.len(),
        Value::String(s) => vstd::utf8::encode_utf8(s@).len() as usize as nat,
        _ => 0,
    }
}

/// See `Value::to_str`.
pub open spec fn spec_to_str(v: Value) -> Seq<char> {
    match v {
        Value::Nil => ""@,
        Value::String(s) => s@,
        Value::Number(_) => "(number)"@,
        Value::Fn(_) => "{function}"@,
        Value::List(_) => "(list)"@,
        Value::Dict(_) => "(map)"@,
        Value::Bool(b) => if b { "true"@ } else { "false"@ },
    }
}

/// See `Value::to_string`.
pub open spec fn spec_display(v: Value) -> Seq<char> {
    match v {
        Value::Number(n) => display(n.units()),
        Value::String(s) => s@,
        Value::List(_) => spec_debug(v),
        _ => spec_to_str(v),
    }
}

/// See `Value::debug_string`.
pub open spec fn spec_debug(v: Value) -> Seq<char>
    decreases v, spec_len(v) + 1,
{
    match v {
        Value::Nil => "None"@,
        Value::Bool(b) => if b { "true"@ } else { "false"@ },
        Value::Number(n) => display(n.units()),
        Value::String(s) => seq!['"'] + s@ + seq!['"'],
        Value::Fn(_) => "Function { val: \"?\" }"@,
        Value::Dict(_) => "Map { val: \"?\" }"@,
        Value::List(l) => seq!['['] + debug_items(v, l@.len() as int) + seq![']'],
    }
}

/// The debug forms of the first `n` items of the list `v`, joined by
/// `, `.
pub open spec fn debug_items(v: Value, n: int) -> Seq<char>
    decreases v, n,
{
    match v {
        Value::List(l) => {
            if n <= 0 || n > l@.len() {
                Seq::empty()
            } else {
                proof {
                    vstd::std_specs::vec::axiom_vec_index_decreases(*l, n - 1);
                }
                if n == 1 {
                    spec_debug(l@[0])
                } else {
                    debug_items(v, n - 1) + ", "@ + spec_debug(l@[n - 1])
                }
            }
        },
        _ => Seq::empty(),
    }
}

/// Are the two values equal, as Hatter's `==` on containers sees it:
/// functions are never equal, lists compare element by element, maps
/// compare by key whatever the order.
pub open spec fn spec_equals(a: Value, b: Value) -> bool
    decreases a,
{
    match a {
        Value::Nil => b is Nil,
        Value::Bool(x) => b matches Value::Bool(y) && x == y,
        Value::Number(x) => b matches Value::Number(y) && x.units() == y.units(),
        Value::String(x) => b matches Value::String(y) && x@ == y@,
        Value::List(x) => match b {
            Value::List(y) => x@.len() == y@.len() && forall|i: int|
                #![trigger x@[i]]
                0 <= i < x@.len() ==> {
                    proof {
                        vstd::std_specs::vec::axiom_vec_index_decreases(*x, i);
                    }
                    spec_equals(x@[i], y@[i])
                },
            _ => false,
        },
        Value::Dict(x) => match b {
            Value::Dict(y) => x.entries@.len() == y.entries@.len() && forall|i: int|
                #![trigger x.entries@[i]]
                0 <= i < x.entries@.len() ==> y.has_key(x.entries@[i].0@) && {
                    proof {
                        vstd::std_specs::vec::axiom_vec_index_decreases(x.entries, i);
                    }
                    spec_equals(x.entries@[i].1, y.spec_get(x.entries@[i].0@).unwrap())
                },
            _ => false,
        },
        Value::Fn(_) => false,
    }
}

} // verus!
