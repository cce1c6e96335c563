//! The environment a template is evaluated and rendered in: a stack of
//! scopes and an output buffer.
//!
//! Scopes live in an arena and the stack holds their numbers. A function
//! value remembers the number of the scope it was created in; calling it
//! puts that scope back on the stack, under a fresh scope for its
//! parameters. A scope that a function captured stays in the arena for
//! as long as the environment lives; one that nothing captured is freed
//! when it leaves the top of the stack.

use vstd::prelude::*;
use std::rc::Rc;
use crate::builtin::{call_native, fails_with, truthy, native_table, natives, popped, pushed, put, special_table, specials};
use crate::error::{Error, ErrorKind, Jump, Result, error_of};
use crate::compile::{binary_call, compile, compile_admits, infix_numbers, infix_stmt, tag_word_stmt, line_stmt};
use crate::lexer::{
    digit_word, infix_src, lemma_operand_run, operand_char, plain_word, tag_word_src, lines_src, line_text,
    operand_line, operand_word,
};
use crate::token::number_units;
use crate::parser::failed_compiling;
use crate::html::{attr_views, write_head, write_tag};
use crate::omap::{OMap, stored};
use crate::rc::share;
use crate::stmt::{Stmt, Tag};
use crate::symbol::Symbol;
use crate::text::{push_str, str_eq, string_of};
use crate::value::{Fn, Native, Special, Value, spec_display, spec_typename};

verus! {

broadcast use {vstd::std_specs::vec::group_vec_axioms, crate::text::lemma_prefix_trans};

/// The top-level environment in which a Hatter template is evaluated
/// and rendered.
#[derive(Debug)]
pub struct Env {
    scopes: Vec<OMap>,
    captured: Vec<bool>,
    stack: Vec<usize>,
    out: String,
    fuel: u64,
}

/// The value a builtin native is bound to.
pub open spec fn is_native_value(v: Value, n: crate::value::Native) -> bool {
    v matches Value::Fn(f) && *f == Fn::Native(n)
}

/// The value a builtin special is bound to.
pub open spec fn is_special_value(v: Value, s: crate::value::Special) -> bool {
    v matches Value::Fn(f) && *f == Fn::Special(s)
}

/// `after` is `before` with a fresh, empty scope pushed.
pub open spec fn scope_pushed(before: Env, after: Env) -> bool {
    &&& after.wf()
    &&& after.ids().len() == before.ids().len() + 1
    &&& after.ids().drop_last() == before.ids()
    &&& after.ids().last() == before.maps().len()
    &&& after.maps().len() == before.maps().len() + 1
    &&& forall|i: int| 0 <= i < before.maps().len() ==> #[trigger] after.maps()[i] == before.maps()[i]
    &&& after.maps().last().entries@.len() == 0
    &&& after.kept() == before.kept().push(false)
    &&& after.output() == before.output()
    &&& after.steps() == before.steps()
}

/// `after` is `before` with its innermost scope popped (unless it is the
/// only one); the arena may lose scopes from its end.
pub open spec fn scope_popped(before: Env, after: Env) -> bool {
    &&& after.wf()
    &&& before.depth() > 1 ==> after.ids() == before.ids().drop_last()
    &&& before.depth() <= 1 ==> after.ids() == before.ids()
    &&& after.maps().len() <= before.maps().len()
    &&& forall|i: int| 0 <= i < after.maps().len() ==> #[trigger] after.maps()[i] == before.maps()[i]
    &&& after.kept() == before.kept().take(after.maps().len() as int)
    &&& frees_top(before) ==> after.maps().len() == before.maps().len() - 1
    &&& !frees_top(before) ==> after.maps().len() == before.maps().len()
    &&& after.output() == before.output()
    &&& after.steps() == before.steps()
}

/// Does popping the innermost scope free it: it is not the only one, it
/// is the newest in the arena, and no function captured it?
pub open spec fn frees_top(e: Env) -> bool {
    &&& e.depth() > 1
    &&& e.ids().last() == e.maps().len() - 1
    &&& !e.kept()[e.ids().last() as int]
}

/// `after` is `before` with `val` stored under `key` in the scope at
/// position `t` of the arena, and nothing else changed.
pub open spec fn scope_stored(before: Env, t: int, key: Seq<char>, val: Value, after: Env) -> bool {
    &&& after.wf()
    &&& after.ids() == before.ids()
    &&& after.kept() == before.kept()
    &&& after.maps().len() == before.maps().len()
    &&& forall|i: int| 0 <= i < before.maps().len() && i != t ==> #[trigger] after.maps()[i] == before.maps()[i]
    &&& exists|s: Symbol| s@ == key && stored(before.maps()[t], s, val, after.maps()[t])
    &&& after.output() == before.output()
    &&& after.steps() == before.steps()
}

/// `after` is `before` with `val` stored under `key` in the innermost
/// scope.
pub open spec fn top_stored(before: Env, key: Seq<char>, val: Value, after: Env) -> bool {
    scope_stored(before, before.ids().last() as int, key, val, after)
}

/// `after` is `before` with `val` stored under `key` in the innermost
/// scope that binds `key`, or in the innermost scope if none does.
pub open spec fn var_updated(before: Env, key: Seq<char>, val: Value, after: Env) -> bool {
    if before.spec_lookup(key) is Some {
        exists|n: int| #[trigger] before.binds_at(key, n) && scope_stored(before, before.ids()[n] as int, key, val, after)
    } else {
        top_stored(before, key, val, after)
    }
}

/// What evaluating anything keeps: the environment stays well formed,
/// every scope pushed is popped again, steps are only spent (at least
/// one on success), and output is only added to.
pub open spec fn stepped(before: Env, after: Env, ok: bool) -> bool {
    &&& after.wf()
    &&& after.ids() == before.ids()
    &&& after.steps() <= before.steps()
    &&& ok ==> after.steps() < before.steps()
    &&& before.output().is_prefix_of(after.output())
}

/// A page's text: `body` wrapped in a doctype and `<html>` when `head`.
pub open spec fn wrapped(head: bool, body: Seq<char>) -> Seq<char> {
    if head {
        "<!DOCTYPE html>\n<html>"@ + body + "\n</html>\n"@
    } else {
        body
    }
}

/// Is the first statement a `<head>` tag?
pub open spec fn first_is_head(stmts: Seq<Stmt>) -> bool {
    stmts.len() > 0 && (stmts[0] matches Stmt::Tag(t) && (*t.tag matches Stmt::Value(Value::String(s))
        && s@ == "head"@))
}

/// Is the first statement a `<head>` tag?
fn starts_with_head(stmts: &Vec<Stmt>) -> (r: bool)
    ensures
        r == first_is_head(stmts@),
{
    if stmts.len() > 0 {
        match &stmts[0] {
            Stmt::Tag(t) => match &*t.tag {
                Stmt::Value(Value::String(s)) => str_eq(s.as_str(), "head"),
                _ => false,
            },
            _ => false,
        }
    } else {
        false
    }
}

/// The native that word `w` is bound to in `vars`, if it is one that
/// prints nothing.
pub open spec fn quiet_native(vars: Map<Seq<char>, Value>, w: Seq<char>) -> Option<Native> {
    if vars.contains_key(w) && (vars[w] matches Value::Fn(f) && (*f matches Fn::Native(n) && !(
    n is Print || n is Puts))) {
        Some(vars[w]->Fn_0->Native_0)
    } else {
        None
    }
}

/// The special that word `w` is bound to in `vars`, if it is `&&` or
/// `||`.
pub open spec fn logic_special(vars: Map<Seq<char>, Value>, w: Seq<char>) -> Option<Special> {
    if vars.contains_key(w) && (vars[w] matches Value::Fn(f) && (*f matches Fn::Special(sp) && (
    sp is And || sp is Or))) {
        Some(vars[w]->Fn_0->Special_0)
    } else {
        None
    }
}

/// Are `args` the two pure arguments of `&&` or `||` (as `s`)?
pub open spec fn logic_args(vars: Map<Seq<char>, Value>, s: Special, args: Seq<Stmt>) -> bool {
    &&& s is And || s is Or
    &&& args.len() == 2
    &&& pure_stmt(vars, args[0])
    &&& pure_stmt(vars, args[1])
}

/// Is `s` an expression whose evaluation touches nothing: a literal, a
/// variable, a list or map of such, a call of a native that prints
/// nothing on such arguments, `&&` or `||` on two such, or a tag whose
/// parts are such and whose body holds such, text words, or loops over
/// such whose body is such in every round? (A tag prints its body into
/// its own text, not to the output.)
pub open spec fn pure_stmt(vars: Map<Seq<char>, Value>, s: Stmt) -> bool
    decreases s,
{
    match s {
        Stmt::Nil => true,
        Stmt::Value(_) => true,
        Stmt::Word(w) => w@ != "break"@ && w@ != "continue"@,
        Stmt::List(items) => forall|i: int|
            #![trigger items@[i]]
            0 <= i < items@.len() ==> {
                proof {
                    vstd::std_specs::vec::axiom_vec_index_decreases(items, i);
                }
                pure_stmt(vars, items@[i])
            },
        Stmt::Dict(pairs) => forall|i: int|
            #![trigger pairs@[i]]
            0 <= i < pairs@.len() ==> {
                proof {
                    vstd::std_specs::vec::axiom_vec_index_decreases(pairs, i);
                }
                pure_stmt(vars, pairs@[i].1)
            },
        Stmt::Call(f, args) => (*f matches Stmt::Word(w) && w@ != "break"@ && w@ != "continue"@
            && (quiet_native(vars, w@) is Some || (logic_special(vars, w@) is Some && args@.len()
            == 2))) && forall|i: int|
            #![trigger args@[i]]
            0 <= i < args@.len() ==> {
                proof {
                    vstd::std_specs::vec::axiom_vec_index_decreases(args, i);
                }
                pure_stmt(vars, args@[i])
            },
        Stmt::Tag(t) => pure_stmt(vars, *t.tag) && pure_stmt(vars, *t.id) && (forall|i: int|
            #![trigger t.classes@[i]]
            0 <= i < t.classes@.len() ==> {
                proof {
                    vstd::std_specs::vec::axiom_vec_index_decreases(t.classes, i);
                }
                pure_stmt(vars, t.classes@[i])
            }) && (forall|i: int|
            #![trigger t.attrs@[i]]
            0 <= i < t.attrs@.len() ==> {
                proof {
                    vstd::std_specs::vec::axiom_vec_index_decreases(t.attrs, i);
                }
                pure_stmt(vars, t.attrs@[i].0) && pure_stmt(vars, t.attrs@[i].1)
            }) && (forall|i: int|
            #![trigger t.body@[i]]
            0 <= i < t.body@.len() ==> {
                proof {
                    vstd::std_specs::vec::axiom_vec_index_decreases(t.body, i);
                }
                text_word(vars, t.body@[i]) || pure_stmt(vars, t.body@[i]) || match t.body@[i] {
                    Stmt::For(key, var, e, fbody) => pure_stmt(vars, *e) && forall|
                        v: Value,
                        items: Seq<(Value, Value)>,
                    |
                        #![trigger loop_items(v, items)]
                        pure_evals(vars, *e, v) && loop_items(v, items) ==> forall|r: int, j: int|
                            #![trigger items[r], fbody@[j]]
                            0 <= r < items.len() && 0 <= j < fbody@.len() ==> {
                                proof {
                                    vstd::std_specs::vec::axiom_vec_index_decreases(fbody, j);
                                }
                                pure_stmt(round_vars(vars, key, var, items[r]), fbody@[j])
                            },
                    _ => false,
                }
            }),
        _ => false,
    }
}

/// The value a pure expression `s` has where the variables are `vars`.
pub open spec fn pure_evals(vars: Map<Seq<char>, Value>, s: Stmt, v: Value) -> bool
    decreases s,
{
    match s {
        Stmt::Nil => v == Value::Nil,
        Stmt::Value(x) => v == x,
        Stmt::Word(w) => vars.contains_key(w@) && vars[w@] == v,
        Stmt::List(items) => v matches Value::List(l) && l@.len() == items@.len() && forall|i: int|
            #![trigger items@[i]]
            0 <= i < items@.len() ==> {
                proof {
                    vstd::std_specs::vec::axiom_vec_index_decreases(items, i);
                }
                pure_evals(vars, items@[i], l@[i])
            },
        Stmt::Dict(pairs) => v matches Value::Dict(m) && exists|vals: Seq<Value>|
            #![trigger built(pairs@, vals, *m)]
            {
                &&& vals.len() == pairs@.len()
                &&& built(pairs@, vals, *m)
                &&& forall|i: int|
                    #![trigger pairs@[i]]
                    0 <= i < pairs@.len() ==> {
                        proof {
                            vstd::std_specs::vec::axiom_vec_index_decreases(pairs, i);
                        }
                        pure_evals(vars, pairs@[i].1, vals[i])
                    }
            },
        Stmt::Call(f, args) => match *f {
            Stmt::Word(w) => match quiet_native(vars, w@) {
                Some(n) => exists|vs: Seq<Value>|
                    #[trigger] crate::builtin::pure_native_post(n, vs, Ok(v)) && vs.len()
                        == args@.len() && forall|i: int|
                        #![trigger args@[i]]
                        0 <= i < args@.len() ==> {
                            proof {
                                vstd::std_specs::vec::axiom_vec_index_decreases(args, i);
                            }
                            pure_evals(vars, args@[i], vs[i])
                        },
                None => match logic_special(vars, w@) {
                    Some(sp) => args@.len() == 2 && exists|va: Value|
                        #![trigger truthy(va)]
                        pure_evals(vars, args@[0], va) && if (sp is And) != truthy(va) {
                            v == Value::Bool(truthy(va))
                        } else {
                            exists|vb: Value|
                                #![trigger truthy(vb)]
                                pure_evals(vars, args@[1], vb) && v == Value::Bool(truthy(vb))
                        },
                    None => false,
                },
            },
            _ => false,
        },
        Stmt::Tag(t) => exists|
            name_v: Value,
            id_o: Option<Value>,
            cs: Seq<Value>,
            an: Seq<Value>,
            av: Seq<Value>,
            texts: Seq<Seq<char>>,
        |
            #![trigger tag_output(t, name_v, id_o, cs, an, av, texts)]
            {
                &&& pure_evals(vars, *t.tag, name_v)
                &&& if *t.id is Nil {
                    id_o is None
                } else {
                    id_o is Some && pure_evals(vars, *t.id, id_o->0)
                }
                &&& cs.len() == t.classes@.len()
                &&& forall|i: int|
                    #![trigger t.classes@[i]]
                    0 <= i < t.classes@.len() ==> {
                        proof {
                            vstd::std_specs::vec::axiom_vec_index_decreases(t.classes, i);
                        }
                        pure_evals(vars, t.classes@[i], cs[i])
                    }
                &&& an.len() == t.attrs@.len()
                &&& av.len() == t.attrs@.len()
                &&& forall|i: int|
                    #![trigger t.attrs@[i]]
                    0 <= i < t.attrs@.len() ==> {
                        proof {
                            vstd::std_specs::vec::axiom_vec_index_decreases(t.attrs, i);
                        }
                        pure_evals(vars, t.attrs@[i].1, av[i]) && (truthy(av[i]) ==> pure_evals(
                            vars,
                            t.attrs@[i].0,
                            an[i],
                        ))
                    }
                &&& !t.closed ==> texts.len() == t.body@.len()
                &&& !t.closed ==> forall|i: int|
                    #![trigger t.body@[i]]
                    0 <= i < t.body@.len() ==> {
                        proof {
                            vstd::std_specs::vec::axiom_vec_index_decreases(t.body, i);
                        }
                        if text_word(vars, t.body@[i]) {
                            texts[i] == t.body@[i]->Word_0@
                        } else if t.body@[i] is For {
                            loop_text(vars, t.body@[i], texts[i])
                        } else {
                            exists|bv: Value|
                                #![trigger printed_text(bv)]
                                pure_evals(vars, t.body@[i], bv) && texts[i] == printed_text(bv)
                        }
                    }
                &&& if !t.closed && spec_display(name_v) == "debug"@ {
                    v == Value::Nil
                } else {
                    v matches Value::String(h) && h@ == tag_output(
                        t,
                        name_v,
                        id_o,
                        cs,
                        an,
                        av,
                        texts,
                    )
                }
            },
        _ => false,
    }
}

/// What a statement prints when its value is `v`, in a tag's body or a
/// page: nothing for `None`, else the printed form.
pub open spec fn printed_text(v: Value) -> Seq<char> {
    if v is Nil {
        Seq::empty()
    } else {
        spec_display(v)
    }
}

/// Is `s` a word that is printed as text: neither a keyword nor a
/// variable?
pub open spec fn text_word(vars: Map<Seq<char>, Value>, s: Stmt) -> bool {
    s matches Stmt::Word(w) && !vars.contains_key(w@) && w@ != "return"@ && w@ != "break"@ && w@
        != "continue"@
}

/// Is `s` sure to evaluate, in one step, where `vars` are bound: `None`,
/// a value, or a bound variable other than `break` and `continue`?
pub open spec fn sure_stmt(vars: Map<Seq<char>, Value>, s: Stmt) -> bool {
    match s {
        Stmt::Nil => true,
        Stmt::Value(_) => true,
        Stmt::Word(w) => vars.contains_key(w@) && w@ != "break"@ && w@ != "continue"@,
        _ => false,
    }
}

/// What the sure statement `s` evaluates to where `vars` are bound.
pub open spec fn sure_value(vars: Map<Seq<char>, Value>, s: Stmt) -> Value {
    match s {
        Stmt::Value(x) => x,
        Stmt::Word(w) => vars[w@],
        _ => Value::Nil,
    }
}

/// Is every statement of `stmts` sure to evaluate?
pub open spec fn all_sure(vars: Map<Seq<char>, Value>, stmts: Seq<Stmt>) -> bool {
    forall|i: int| 0 <= i < stmts.len() ==> sure_stmt(vars, #[trigger] stmts[i])
}

/// Is every statement of `stmts` sure to evaluate, or a word printed as
/// text?
pub open spec fn body_sure(vars: Map<Seq<char>, Value>, stmts: Seq<Stmt>) -> bool {
    forall|i: int| 0 <= i < stmts.len() ==> sure_stmt(vars, #[trigger] stmts[i]) || text_word(vars, stmts[i])
}

/// Does `place` name a place to store into: a variable, or an item (by
/// `index` or `.`) of a container?
pub open spec fn names_place(place: Stmt) -> bool {
    ||| place is Word
    ||| place matches Stmt::Call(f, a) && a@.len() == 2 && *f is Word && ((*f).spec_text() == "index"@
        || (*f).spec_text() == "."@)
}

/// Is `s` a literal: `None` or a value?
pub open spec fn literal_stmt(s: Stmt) -> bool {
    s is Nil || s is Value
}

/// Is every statement of `stmts` a literal?
pub open spec fn all_literal(stmts: Seq<Stmt>) -> bool {
    forall|i: int| 0 <= i < stmts.len() ==> literal_stmt(#[trigger] stmts[i])
}

/// Is `s` a literal, or a word (other than `break` and `continue`) that
/// names one of `params`?
pub open spec fn param_or_literal(params: Seq<Symbol>, s: Stmt) -> bool {
    ||| literal_stmt(s)
    ||| s matches Stmt::Word(w) && w@ != "break"@ && w@ != "continue"@ && exists|j: int|
        0 <= j < params.len() && #[trigger] params[j]@ == w@
}

/// Does the body `stmts` use nothing but literals and the parameters?
pub open spec fn uses_params(params: Seq<Symbol>, stmts: Seq<Stmt>) -> bool {
    forall|i: int| 0 <= i < stmts.len() ==> param_or_literal(params, #[trigger] stmts[i])
}

/// A parameter bound among the first `n` is a key of the bindings.
proof fn lemma_bound_has(vars: Map<Seq<char>, Value>, params: Seq<Symbol>, vals: Seq<Value>, n: int, j: int)
    requires
        0 <= j < n,
    ensures
        bound(vars, params, vals, n).contains_key(params[j]@),
    decreases n,
{
    if j < n - 1 {
        lemma_bound_has(vars, params, vals, n - 1, j);
    }
}

/// What `pop(name)` does where `name` is bound: to a non-empty list,
/// it gives the last item and binds `name` to the list without it; to
/// anything else, it gives `None`.
pub open spec fn pop_result(before: Env, name: Seq<char>, after: Env, r: Result<Value>) -> bool {
    match before.bindings()[name] {
        Value::List(l) => if l@.len() > 0 {
            &&& r == Ok::<Value, Error>(l@.last())
            &&& after.spec_lookup(name) matches Some(Value::List(l2)) && l2@ == l@.drop_last()
        } else {
            r == Ok::<Value, Error>(Value::Nil)
        },
        _ => r == Ok::<Value, Error>(Value::Nil),
    }
}

/// Statements sure to evaluate are pure.
proof fn lemma_sure_pure(vars: Map<Seq<char>, Value>, stmts: Seq<Stmt>)
    requires
        all_sure(vars, stmts),
    ensures
        all_pure(vars, stmts),
{
    assert forall|i: int| 0 <= i < stmts.len() implies pure_stmt(vars, #[trigger] stmts[i]) by {
        assert(sure_stmt(vars, stmts[i]));
    }
}

/// The truthy ones of `cs`, in order.
pub open spec fn kept_classes(cs: Seq<Value>) -> Seq<Value>
    decreases cs.len(),
{
    if cs.len() == 0 {
        Seq::empty()
    } else if truthy(cs.last()) {
        kept_classes(cs.drop_last()).push(cs.last())
    } else {
        kept_classes(cs.drop_last())
    }
}

/// The attributes whose values are truthy, as (printed name, value).
pub open spec fn kept_attrs(an: Seq<Value>, av: Seq<Value>) -> Seq<(Seq<char>, Value)>
    decreases av.len(),
{
    if av.len() == 0 {
        Seq::empty()
    } else if truthy(av.last()) {
        kept_attrs(an.drop_last(), av.drop_last()).push((spec_display(an.last()), av.last()))
    } else {
        kept_attrs(an.drop_last(), av.drop_last())
    }
}

/// The id a tag shows: its value, when truthy.
pub open spec fn kept_id(id: Option<Value>) -> Option<Value> {
    match id {
        Some(v) => if truthy(v) {
            Some(v)
        } else {
            None
        },
        None => None,
    }
}

/// The texts run together.
pub open spec fn joined_texts(texts: Seq<Seq<char>>) -> Seq<char>
    decreases texts.len(),
{
    if texts.len() == 0 {
        Seq::empty()
    } else {
        joined_texts(texts.drop_last()) + texts.last()
    }
}

/// The HTML of tag `t`, from the values of its parts: its name, its id,
/// all its classes, the names and values of its attributes, and what
/// each statement of its body prints.
pub open spec fn tag_output(
    t: Tag,
    name_v: Value,
    id_o: Option<Value>,
    cs: Seq<Value>,
    an: Seq<Value>,
    av: Seq<Value>,
    texts: Seq<Seq<char>>,
) -> Seq<char> {
    let name = spec_display(name_v);
    crate::html::tag_html(
        crate::html::tag_head(
            name,
            kept_id(id_o),
            t.classes@.len() > 0,
            kept_classes(cs),
            kept_attrs(an, av),
        ),
        name,
        t.closed,
        joined_texts(texts),
    )
}


/// `m` is the map that storing `vals` under the keys of `pairs`, one
/// after the other, into an empty map gives.
pub open spec fn built(pairs: Seq<(Symbol, Stmt)>, vals: Seq<Value>, m: OMap) -> bool
    decreases pairs.len(),
{
    if pairs.len() == 0 {
        m.entries@.len() == 0
    } else {
        exists|m0: OMap|
            #![trigger stored(m0, pairs.last().0, vals[pairs.len() - 1], m)]
            built(pairs.drop_last(), vals, m0) && stored(m0, pairs.last().0, vals[pairs.len() - 1], m)
    }
}

/// What a loop `s` in a tag's body prints: what its body prints in each
/// round, run together (as `pure_evals` has it for a tag's body).
pub open spec fn loop_text(vars: Map<Seq<char>, Value>, s: Stmt, text: Seq<char>) -> bool
    decreases s,
{
    match s {
        Stmt::For(key, var, e, fbody) => exists|fv: Value, items: Seq<(Value, Value)>|
            #![trigger loop_items(fv, items)]
            pure_evals(vars, *e, fv) && loop_items(fv, items) && exists|rt: Seq<Seq<Seq<char>>>|
                #![trigger rounds_text(rt)]
                rt.len() == items.len() && text == rounds_text(rt) && forall|r: int, j: int|
                    #![trigger rt[r], fbody@[j]]
                    0 <= r < items.len() && 0 <= j < fbody@.len() ==> {
                        proof {
                            vstd::std_specs::vec::axiom_vec_index_decreases(fbody, j);
                        }
                        rt[r].len() == fbody@.len() && if fbody@[j] is Tag {
                            exists|w: Value|
                                #![trigger spec_display(w)]
                                pure_evals(round_vars(vars, key, var, items[r]), fbody@[j], w) && rt[r][j]
                                    == spec_display(w)
                        } else {
                            rt[r][j] == Seq::<char>::empty()
                        }
                    },
        _ => false,
    }
}

/// What statement `s` puts in a page or a tag's body where the
/// variables are `vars`: a text word itself, else the printed form of
/// its value.
pub open spec fn printed_by(vars: Map<Seq<char>, Value>, s: Stmt, text: Seq<char>) -> bool {
    if text_word(vars, s) {
        text == s->Word_0@
    } else if pure_stmt(vars, s) {
        exists|bv: Value| #![trigger printed_text(bv)] pure_evals(vars, s, bv) && text == printed_text(bv)
    } else {
        prints_as(vars, s, text)
    }
}

/// Does `s` print without touching a variable: a `for` loop over a pure
/// expression whose body is pure in every round, an `if` whose tests and
/// bodies are pure, or a call of `print` or `puts` on pure arguments?
pub open spec fn printing_stmt(vars: Map<Seq<char>, Value>, s: Stmt) -> bool {
    match s {
        Stmt::For(key, var, e, body) => for_printing(vars, key, var, *e, body@),
        Stmt::If(conds) => branches_pure(vars, conds@),
        Stmt::Call(f, args) => printing(vars, *f, args@),
        _ => false,
    }
}

/// Is `for var in e` with this body a loop over a pure expression whose
/// body is pure in every round?
pub open spec fn for_printing(
    vars: Map<Seq<char>, Value>,
    key: Option<Symbol>,
    var: Symbol,
    e: Stmt,
    body: Seq<Stmt>,
) -> bool {
    &&& pure_stmt(vars, e)
    &&& forall|v: Value, items: Seq<(Value, Value)>|
        #![trigger loop_items(v, items)]
        pure_evals(vars, e, v) && loop_items(v, items) ==> rounds_pure(vars, key, var, items, body)
}

/// What a printing statement `s` prints: each round of the loop, the
/// branch taken, or the arguments of `print` or `puts`.
pub open spec fn prints_as(vars: Map<Seq<char>, Value>, s: Stmt, text: Seq<char>) -> bool {
    match s {
        Stmt::For(key, var, e, body) => exists|v: Value, items: Seq<(Value, Value)>|
            #![trigger loop_items(v, items)]
            pure_evals(vars, *e, v) && loop_items(v, items) && exists|texts: Seq<Seq<Seq<char>>>|
                #[trigger] rounds_printed(vars, key, var, items, body@, texts) && text == joined_rounds(texts),
        Stmt::If(conds) => exists|n: int|
            #[trigger] takes_branch(vars, conds@, n) && if n < conds@.len() {
                exists|texts: Seq<Seq<char>>|
                    #[trigger] tags_printed(vars, conds@[n].1@, texts) && text == joined_texts(texts)
            } else {
                text == Seq::<char>::empty()
            },
        Stmt::Call(f, args) => exists|vals: Seq<Value>|
            #![trigger crate::builtin::printed(vals)]
            {
                &&& vals.len() == args@.len()
                &&& forall|i: int| 0 <= i < args@.len() ==> pure_evals(vars, #[trigger] args@[i], vals[i])
                &&& text == crate::builtin::printed(vals) + line_end(
                    print_native(vars, f->Word_0@) == Some(Native::Puts),
                )
            },
        _ => false,
    }
}

/// Is every statement of `stmts` a text word, a pure expression or a
/// printing statement?
pub open spec fn body_ok(vars: Map<Seq<char>, Value>, stmts: Seq<Stmt>) -> bool {
    forall|i: int|
        0 <= i < stmts.len() ==> text_word(vars, #[trigger] stmts[i]) || pure_stmt(vars, stmts[i])
            || printing_stmt(vars, stmts[i])
}

/// `texts` are what the statements `stmts` put in a page, one each.
pub open spec fn printed_all(vars: Map<Seq<char>, Value>, stmts: Seq<Stmt>, texts: Seq<Seq<char>>) -> bool {
    &&& texts.len() == stmts.len()
    &&& forall|i: int| 0 <= i < stmts.len() ==> printed_by(vars, #[trigger] stmts[i], texts[i])
}

/// Is every statement of `stmts` a pure expression?
pub open spec fn all_pure(vars: Map<Seq<char>, Value>, stmts: Seq<Stmt>) -> bool {
    forall|i: int| 0 <= i < stmts.len() ==> pure_stmt(vars, #[trigger] stmts[i])
}

/// The value of a block: that of its last statement, `None` when it is
/// empty.
pub open spec fn block_value(vars: Map<Seq<char>, Value>, stmts: Seq<Stmt>, v: Value) -> bool {
    if stmts.len() == 0 {
        v == Value::Nil
    } else {
        pure_evals(vars, stmts.last(), v)
    }
}

/// `texts` are what the statements `stmts` of a block print, one each:
/// a tag its value, anything else nothing.
pub open spec fn tags_printed(vars: Map<Seq<char>, Value>, stmts: Seq<Stmt>, texts: Seq<Seq<char>>) -> bool {
    &&& texts.len() == stmts.len()
    &&& forall|i: int|
        0 <= i < stmts.len() ==> if (#[trigger] stmts[i]) is Tag {
            exists|v: Value| #![trigger spec_display(v)] pure_evals(vars, stmts[i], v) && texts[i] == spec_display(v)
        } else {
            texts[i] == Seq::<char>::empty()
        }
}

/// Is `e` an environment as `Env::new` makes it: one scope, which binds
/// the builtins by name, nothing printed, and every step left?
pub open spec fn fresh_env(e: Env) -> bool {
    &&& e.wf()
    &&& e.depth() == 1
    &&& e.maps().len() == 1
    &&& e.output().len() == 0
    &&& e.steps() == u64::MAX
    &&& e.maps()[0].entries@.len() == native_table().len() + special_table().len()
    &&& forall|i: int|
        0 <= i < native_table().len() ==> (#[trigger] e.maps()[0].entries@[i]).0@ == native_table()[i].0
            && is_native_value(e.maps()[0].entries@[i].1, native_table()[i].1)
    &&& forall|i: int|
        0 <= i < special_table().len() ==> (#[trigger] e.maps()[0].entries@[i
            + native_table().len()]).0@ == special_table()[i].0 && is_special_value(
            e.maps()[0].entries@[i + native_table().len()].1,
            special_table()[i].1,
        )
    &&& forall|i: int|
        0 <= i < native_table().len() ==> (#[trigger] e.spec_lookup(native_table()[i].0) matches Some(v)
            && is_native_value(v, native_table()[i].1))
    &&& forall|i: int|
        0 <= i < special_table().len() ==> (#[trigger] e.spec_lookup(special_table()[i].0) matches Some(v)
            && is_special_value(v, special_table()[i].1))
}

/// What rendering `stmts` from environment `e` gives as the page `s`:
/// what was printed before, then what the statements print, wrapped in a
/// doctype and `<html>` when the first is a `<head>` tag. Where every
/// statement is text or pure, what they print is what each of them puts
/// in a page, in order.
pub open spec fn render_admits(e: Env, stmts: Seq<Stmt>, s: Seq<char>) -> bool {
    &&& exists|body: Seq<char>| s == e.output() + #[trigger] wrapped(first_is_head(stmts), body)
    &&& body_ok(e.bindings(), stmts) ==> exists|texts: Seq<Seq<char>>|
        #[trigger] printed_all(e.bindings(), stmts, texts) && s == e.output() + wrapped(
            first_is_head(stmts),
            joined_texts(texts),
        )
}

/// What evaluating the block `stmts` from environment `e` gives: where
/// every statement is pure, the value of the last one (`None` for none).
pub open spec fn eval_admits(e: Env, stmts: Seq<Stmt>, v: Value) -> bool {
    all_pure(e.bindings(), stmts) ==> block_value(e.bindings(), stmts, v)
}

/// `r` is no jump: not a `break`, `continue` or `return`.
pub open spec fn no_jump(r: Result<Value>) -> bool {
    r matches Err(e) ==> !(e.kind is Jump)
}

/// Nothing but the steps changed.
pub open spec fn same_state(before: Env, after: Env) -> bool {
    &&& after.maps() == before.maps()
    &&& after.ids() == before.ids()
    &&& after.kept() == before.kept()
    &&& after.output() == before.output()
}

/// Does `r` fail with jump `j`?
pub open spec fn jumps(r: Result<Value>, j: Jump) -> bool {
    r matches Err(e) && e.kind == ErrorKind::Jump(j)
}

/// What a word evaluates to: `break` and `continue` jump, any other
/// word is a variable.
pub open spec fn word_result(e: Env, w: Seq<char>, r: Result<Value>) -> bool {
    if w == "break"@ {
        jumps(r, Jump::Break)
    } else if w == "continue"@ {
        jumps(r, Jump::Continue)
    } else {
        match e.spec_lookup(w) {
            Some(v) => r == Ok::<Value, Error>(v),
            None => fails_with(r, ErrorKind::RuntimeError),
        }
    }
}

/// What an assignment to `name` does: `:=` refuses a name that the
/// innermost scope binds, `=` one that no scope binds; either returns
/// `None`.
pub open spec fn assign_result(e: Env, name: Seq<char>, reassign: bool, r: Result<Value>) -> bool {
    &&& e.binds_nearest(name) && !reassign ==> fails_with(r, ErrorKind::RuntimeError)
    &&& e.spec_lookup(name) is None && reassign ==> fails_with(r, ErrorKind::RuntimeError)
    &&& r is Ok ==> r == Ok::<Value, Error>(Value::Nil)
}

/// What a successful assignment of a pure expression `rhs` to `name`
/// does: `name` is bound to the value of `rhs` and every other variable
/// is as it was; `=` keeps the type of the value it replaces.
pub open spec fn assigned(
    before: Env,
    name: Seq<char>,
    rhs: Stmt,
    reassign: bool,
    after: Env,
    r: Result<Value>,
) -> bool {
    pure_stmt(before.bindings(), rhs) && r is Ok ==> exists|v: Value|
        #![trigger pure_evals(before.bindings(), rhs, v)]
        {
            &&& pure_evals(before.bindings(), rhs, v)
            &&& after.bindings() == before.bindings().insert(name, v)
            &&& reassign ==> spec_typename(v) == spec_typename(before.bindings()[name])
        }
}

/// Is `n` the branch an `if` takes: every test before it is false, and
/// its own is true (or `n` is past the last branch, when none is)?
pub open spec fn takes_branch(vars: Map<Seq<char>, Value>, conds: Seq<(Stmt, Vec<Stmt>)>, n: int) -> bool {
    &&& 0 <= n <= conds.len()
    &&& forall|j: int| 0 <= j < n ==> tests_to(vars, (#[trigger] conds[j]).0, false)
    &&& n < conds.len() ==> tests_to(vars, conds[n].0, true)
}

/// Does the pure test `c` have a value whose truth is `b`?
pub open spec fn tests_to(vars: Map<Seq<char>, Value>, c: Stmt, b: bool) -> bool {
    exists|v: Value| #![trigger truthy(v)] pure_evals(vars, c, v) && truthy(v) == b
}

/// Are the tests and bodies of an `if` all pure?
pub open spec fn branches_pure(vars: Map<Seq<char>, Value>, conds: Seq<(Stmt, Vec<Stmt>)>) -> bool {
    forall|i: int| 0 <= i < conds.len() ==> pure_stmt(vars, (#[trigger] conds[i]).0) && all_pure(vars, conds[i].1@)
}

/// What a successful `if` whose tests and bodies are pure does: every
/// variable is as it was, and the body of the branch it takes prints
/// what it prints (nothing, when it takes none).
pub open spec fn branched(before: Env, conds: Seq<(Stmt, Vec<Stmt>)>, after: Env, r: Result<Value>) -> bool {
    branches_pure(before.bindings(), conds) && r is Ok ==> {
        &&& after.maps() == before.maps()
        &&& after.kept() == before.kept()
        &&& exists|n: int|
            #[trigger] takes_branch(before.bindings(), conds, n) && if n < conds.len() {
                exists|texts: Seq<Seq<char>>|
                    #[trigger] tags_printed(before.bindings(), conds[n].1@, texts) && after.output()
                        == before.output() + joined_texts(texts)
            } else {
                after.output() == before.output()
            }
    }
}

/// The native that word `w` is bound to in `vars`, if it is `print` or
/// `puts`.
pub open spec fn print_native(vars: Map<Seq<char>, Value>, w: Seq<char>) -> Option<Native> {
    if vars.contains_key(w) && (vars[w] matches Value::Fn(f) && (*f matches Fn::Native(n) && (n is Print
        || n is Puts))) {
        Some(vars[w]->Fn_0->Native_0)
    } else {
        None
    }
}

/// A newline when `puts`, else nothing.
pub open spec fn line_end(puts: bool) -> Seq<char> {
    if puts {
        seq!['\n']
    } else {
        Seq::empty()
    }
}

/// Is `f(args)` a call of `print` or `puts` on pure arguments?
pub open spec fn printing(vars: Map<Seq<char>, Value>, f: Stmt, args: Seq<Stmt>) -> bool {
    &&& f matches Stmt::Word(w) && w@ != "break"@ && w@ != "continue"@ && print_native(vars, w@) is Some
    &&& forall|i: int| 0 <= i < args.len() ==> pure_stmt(vars, #[trigger] args[i])
}

/// What a successful call of `print` or `puts` on pure arguments does:
/// every variable is as it was, the arguments' printed forms are printed,
/// separated by spaces (and a newline after them, for `puts`), and the
/// call gives `None`.
pub open spec fn printed_call(before: Env, f: Stmt, args: Seq<Stmt>, after: Env, r: Result<Value>) -> bool {
    printing(before.bindings(), f, args) && r is Ok ==> {
        &&& r == Ok::<Value, Error>(Value::Nil)
        &&& after.maps() == before.maps()
        &&& after.kept() == before.kept()
        &&& exists|vals: Seq<Value>|
            #![trigger crate::builtin::printed(vals)]
            {
                &&& vals.len() == args.len()
                &&& forall|i: int|
                    0 <= i < args.len() ==> pure_evals(before.bindings(), #[trigger] args[i], vals[i])
                &&& after.output() == before.output() + crate::builtin::printed(vals) + line_end(
                    print_native(before.bindings(), f->Word_0@) == Some(Native::Puts),
                )
            }
    }
}

/// A call of `&&` or `||` whose first operand is pure and decides it:
/// the result is that operand's truth, and the second operand is never
/// evaluated, whatever it would print or change.
pub open spec fn short_circuited(before: Env, f: Stmt, args: Seq<Stmt>, after: Env, r: Result<Value>) -> bool {
    let vars = before.bindings();
    f is Word && logic_special(vars, f->Word_0@) is Some && args.len() == 2 && pure_stmt(vars, args[0]) && r is Ok
        ==> exists|va: Value|
        #![trigger truthy(va)]
        pure_evals(vars, args[0], va) && ((logic_special(vars, f->Word_0@)->0 is And) != truthy(va) ==> r
            == Ok::<Value, Error>(Value::Bool(truthy(va))) && same_state(before, after))
}

/// What an assignment of `rhs` to `name` does, pure or not: when it is
/// refused nothing changes; when it succeeds, `rhs` was evaluated first
/// (from a state that differs from `before` only in its steps) and `name`
/// is then bound to its value, every other variable as that evaluation
/// left it; `=` keeps the type of the value it replaces.
pub open spec fn assigned_any(
    before: Env,
    name: Seq<char>,
    rhs: Stmt,
    reassign: bool,
    after: Env,
    r: Result<Value>,
) -> bool {
    &&& (before.binds_nearest(name) && !reassign || before.spec_lookup(name) is None && reassign) ==> same_state(
        before,
        after,
    )
    &&& r is Ok ==> exists|b: Env, m: Env, v: Value|
        #![trigger stmt_post(b, rhs, m, Ok::<Value, Error>(v))]
        {
            &&& same_state(before, b)
            &&& stmt_post(b, rhs, m, Ok::<Value, Error>(v))
            &&& after.bindings() == m.bindings().insert(name, v)
            &&& reassign ==> spec_typename(v) == spec_typename(m.bindings()[name])
        }
}

/// An `if`, pure or not: its first test is evaluated first (from a
/// state that differs from `before` only in its steps). When that test is
/// falsy and there is no other branch, nothing more happens. When it is
/// truthy and the first body is pure where the test left the variables,
/// that body runs: the variables are as the test left them, and what the
/// body's tags print is printed after what the test printed.
pub open spec fn first_test(before: Env, conds: Seq<(Stmt, Vec<Stmt>)>, after: Env, r: Result<Value>) -> bool {
    conds.len() > 0 && r is Ok ==> exists|b: Env, m: Env, v: Value|
        #![trigger stmt_post(b, conds[0].0, m, Ok::<Value, Error>(v))]
        {
            &&& same_state(before, b)
            &&& stmt_post(b, conds[0].0, m, Ok::<Value, Error>(v))
            &&& !truthy(v) && conds.len() == 1 ==> after == m
            &&& truthy(v) && all_pure(m.bindings(), conds[0].1@) ==> {
                &&& after.maps() == m.maps()
                &&& after.kept() == m.kept()
                &&& exists|texts: Seq<Seq<char>>|
                    #[trigger] tags_printed(m.bindings(), conds[0].1@, texts) && after.output() == m.output()
                        + joined_texts(texts)
            }
        }
}

/// A call of `&&` or `||` on `args`: the first operand is evaluated
/// first (from a state that differs from `before` only in its steps), and
/// when its value decides the call, the result is that value's truth and
/// nothing more is evaluated: the state is the one the first operand
/// left, whatever it printed and whatever the second would print.
pub open spec fn first_decides(before: Env, sp: Special, args: Seq<Stmt>, after: Env, r: Result<Value>) -> bool {
    args.len() == 2 && r is Ok ==> exists|b: Env, m: Env, va: Value|
        #![trigger stmt_post(b, args[0], m, Ok::<Value, Error>(va))]
        {
            &&& same_state(before, b)
            &&& stmt_post(b, args[0], m, Ok::<Value, Error>(va))
            &&& (sp is And) != truthy(va) ==> r == Ok::<Value, Error>(Value::Bool(truthy(va))) && after == m
        }
}

/// A call of the word `f` bound to `&&` or `||`: see `first_decides`.
pub open spec fn logic_called(before: Env, f: Stmt, args: Seq<Stmt>, after: Env, r: Result<Value>) -> bool {
    f is Word && logic_special(before.bindings(), f->Word_0@) is Some ==> first_decides(
        before,
        logic_special(before.bindings(), f->Word_0@)->0,
        args,
        after,
        r,
    )
}

/// The variables `vars` seen through scope `m` on top of them: what `m`
/// binds, it binds; anything else is as in `vars`.
pub open spec fn overlaid(vars: Map<Seq<char>, Value>, m: OMap) -> Map<Seq<char>, Value> {
    Map::new(
        |k: Seq<char>| vars.contains_key(k) || m.has_key(k),
        |k: Seq<char>|
            if m.has_key(k) {
                m.spec_get(k)->0
            } else {
                vars[k]
            },
    )
}

/// `vars` with the first `n` parameters bound to their values, one after
/// the other.
pub open spec fn bound(vars: Map<Seq<char>, Value>, params: Seq<Symbol>, vals: Seq<Value>, n: int) -> Map<
    Seq<char>,
    Value,
>
    decreases n,
{
    if n <= 0 {
        vars
    } else {
        bound(vars, params, vals, n - 1).insert(params[n - 1]@, vals[n - 1])
    }
}

/// Are the first `n` arguments pure, each where the parameters before it
/// are bound?
pub open spec fn args_pure(
    inner: Map<Seq<char>, Value>,
    params: Seq<Symbol>,
    chosen: Seq<Stmt>,
    vals: Seq<Value>,
    n: int,
) -> bool {
    forall|j: int| 0 <= j < n ==> pure_stmt(bound(inner, params, vals, j), #[trigger] chosen[j])
}

/// What a call of the function with `params` and `body` gives on the
/// arguments `chosen`, as `v`, where `inner` are the variables seen in
/// the function (the caller's, through the scope it captured): the
/// arguments are evaluated in turn where the parameters before each are
/// bound; there are values for them such that each pure one (after pure
/// ones) has its value, and, the body being pure where all the
/// parameters are bound, `v` is the value of its last statement.
pub open spec fn called(
    inner: Map<Seq<char>, Value>,
    params: Seq<Symbol>,
    body: Seq<Stmt>,
    chosen: Seq<Stmt>,
    v: Value,
) -> bool {
    exists|vals: Seq<Value>|
        #![trigger args_pure(inner, params, chosen, vals, chosen.len() as int)]
        {
            &&& vals.len() == chosen.len()
            &&& forall|i: int|
                0 <= i < chosen.len() && args_pure(inner, params, chosen, vals, i + 1) ==> pure_evals(
                    bound(inner, params, vals, i),
                    #[trigger] chosen[i],
                    vals[i],
                )
            &&& args_pure(inner, params, chosen, vals, chosen.len() as int) && all_pure(
                bound(inner, params, vals, chosen.len() as int),
                body,
            ) ==> block_value(bound(inner, params, vals, chosen.len() as int), body, v)
        }
}

/// Is `f` a word other than `break` and `continue`?
pub open spec fn names_word(f: Stmt) -> bool {
    f matches Stmt::Word(w) && w@ != "break"@ && w@ != "continue"@
}

/// A call of the function that the word `f` names: what it gives when it
/// succeeds (see `called`), and that it fails when the arguments do not
/// match the parameters one for one.
pub open spec fn user_called(before: Env, f: Stmt, args: Seq<Stmt>, r: Result<Value>) -> bool {
    match f {
        Stmt::Word(w) => {
            let vars = before.bindings();
            if w@ != "break"@ && w@ != "continue"@ && vars.contains_key(w@) {
                match vars[w@] {
                    Value::Fn(rc) => match *rc {
                        Fn::Fn(params, body, scope) => (r is Ok ==> called(
                            overlaid(vars, before.maps()[scope as int]),
                            params@,
                            body@,
                            chosen_args(params@, args),
                            r->Ok_0,
                        )) && (chosen_args(params@, args).len() != params@.len() ==> r is Err),
                        _ => true,
                    },
                    _ => true,
                }
            } else {
                true
            }
        },
        _ => true,
    }
}

/// What a successful `for` loop over a pure expression `e` does, where
/// its body is pure in every round: every variable is as it was, and
/// what each round's body prints is printed, round after round.
pub open spec fn looped(
    before: Env,
    key: Option<Symbol>,
    var: Symbol,
    e: Stmt,
    body: Seq<Stmt>,
    after: Env,
    r: Result<Value>,
) -> bool {
    pure_stmt(before.bindings(), e) && r is Ok ==> exists|v: Value, items: Seq<(Value, Value)>|
        #![trigger pure_evals(before.bindings(), e, v), loop_items(v, items)]
        {
            &&& pure_evals(before.bindings(), e, v)
            &&& loop_items(v, items)
            &&& rounds_pure(before.bindings(), key, var, items, body) ==> {
                &&& after.maps() == before.maps()
                &&& after.kept() == before.kept()
                &&& exists|texts: Seq<Seq<Seq<char>>>|
                    #[trigger] rounds_printed(before.bindings(), key, var, items, body, texts)
                        && after.output() == before.output() + joined_rounds(texts)
            }
        }
}

/// What a successful `while` whose test and body are pure does: the
/// body cannot change what the test gives, so the loop ends only where
/// the test is false; every variable is as it was.
pub open spec fn whiled(before: Env, test: Stmt, body: Seq<Stmt>, after: Env, r: Result<Value>) -> bool {
    pure_stmt(before.bindings(), test) && all_pure(before.bindings(), body) && r is Ok ==> {
        &&& tests_to(before.bindings(), test, false)
        &&& after.maps() == before.maps()
        &&& after.kept() == before.kept()
    }
}

/// What evaluating `stmt` gives, by the kind of statement, when there
/// are steps left to take.
pub open spec fn stmt_post(before: Env, stmt: Stmt, after: Env, r: Result<Value>) -> bool {
    match stmt {
        Stmt::Nil => r == Ok::<Value, Error>(Value::Nil) && same_state(before, after),
        Stmt::Value(v) => r == Ok::<Value, Error>(v) && same_state(before, after),
        Stmt::Word(w) => word_result(before, w@, r) && same_state(before, after),
        Stmt::Assign(name, rhs, reassign) => assign_result(before, name@, reassign, r) && assigned(
            before,
            name@,
            *rhs,
            reassign,
            after,
            r,
        ),
        Stmt::Return(_) => r is Err,
        Stmt::If(conds) => (r is Ok ==> r == Ok::<Value, Error>(Value::Nil)) && branched(
            before,
            conds@,
            after,
            r,
        ),
        Stmt::For(key, var, e, body) => (r is Ok ==> r == Ok::<Value, Error>(Value::Nil)) && looped(
            before,
            key,
            var,
            *e,
            body@,
            after,
            r,
        ),
        Stmt::While(test, body) => (r is Ok ==> r == Ok::<Value, Error>(Value::Nil)) && whiled(
            before,
            *test,
            body@,
            after,
            r,
        ),
        Stmt::Call(f, args) => printed_call(before, *f, args@, after, r) && user_called(
            before,
            *f,
            args@,
            r,
        ) && short_circuited(before, *f, args@, after, r),
        Stmt::Fn(params, body) => r matches Ok(Value::Fn(f)) && (*f matches Fn::Fn(p, b, id) && p@
            == params@ && b == body && id == before.ids().last()),
        Stmt::Args(_) => fails_with(r, ErrorKind::RuntimeError) && same_state(before, after),
        Stmt::List(items) => r matches Ok(v) ==> (v matches Value::List(l) && l@.len() == items@.len()),
        Stmt::Dict(_) => r matches Ok(v) ==> v is Dict,
        Stmt::Tag(_) => r matches Ok(v) ==> (v is String || v is Nil),
    }
}

/// The text `a` followed by `b`.
fn message(a: &str, b: &str) -> (r: String)
    ensures
        r@ == a@ + b@,
{
    let mut s = string_of(a);
    push_str(&mut s, b);
    s
}

/// A runtime error whose message is `a` followed by `b`.
fn fail(a: &str, b: &str) -> (r: Error)
    ensures
        r.kind == ErrorKind::RuntimeError,
{
    Error { kind: ErrorKind::RuntimeError, details: message(a, b), pos: 0, len: 0 }
}

/// A jump, which travels as an error.
fn jump(j: Jump) -> (r: Error)
    ensures
        r.kind == ErrorKind::Jump(j),
{
    Error { kind: ErrorKind::Jump(j), details: String::new(), pos: 0, len: 0 }
}

/// A copy of a list of names.
fn clone_symbols(v: &Vec<Symbol>) -> (r: Vec<Symbol>)
    ensures
        r@ == v@,
{
    let mut r: Vec<Symbol> = Vec::new();
    let mut i: usize = 0;
    while i < v.len()
        invariant
            i <= v@.len(),
            r@ == v@.take(i as int),
        decreases v.len() - i,
    {
        r.push(v[i].clone());
        assert(r@ == v@.take(i + 1));
        i += 1;
    }
    assert(v@.take(v@.len() as int) == v@);
    r
}

/// The first keyword argument named `p` among the first `n`, if any.
pub open spec fn keyword_in(pairs: Seq<(Symbol, Stmt)>, p: Seq<char>, n: int) -> Option<int>
    decreases n,
{
    if n <= 0 {
        None
    } else {
        match keyword_in(pairs, p, n - 1) {
            Some(j) => Some(j),
            None => if pairs[n - 1].0@ == p {
                Some(n - 1)
            } else {
                None
            },
        }
    }
}

/// A keyword found is one of the first `n`, with that name.
proof fn lemma_keyword_in(pairs: Seq<(Symbol, Stmt)>, p: Seq<char>, n: int)
    ensures
        keyword_in(pairs, p, n) matches Some(j) ==> 0 <= j < n && pairs[j].0@ == p,
    decreases n,
{
    if n > 0 {
        lemma_keyword_in(pairs, p, n - 1);
    }
}

/// The keyword arguments for the first `n` parameters, in parameter
/// order; a parameter no keyword names is left out.
pub open spec fn keyword_args(params: Seq<Symbol>, pairs: Seq<(Symbol, Stmt)>, n: int) -> Seq<Stmt>
    decreases n,
{
    if n <= 0 {
        Seq::empty()
    } else {
        let prev = keyword_args(params, pairs, n - 1);
        match keyword_in(pairs, params[n - 1]@, pairs.len() as int) {
            Some(j) => prev.push(pairs[j].1),
            None => prev,
        }
    }
}

/// The arguments a function with `params` is called with: when the
/// call's one argument is a list of keyword arguments that names at
/// least one parameter, those, in parameter order; else the arguments
/// as written.
pub open spec fn chosen_args(params: Seq<Symbol>, args: Seq<Stmt>) -> Seq<Stmt> {
    if args.len() == 1 && args[0] is Args {
        let kw = keyword_args(params, args[0]->Args_0@, params.len() as int);
        if kw.len() > 0 {
            kw
        } else {
            args
        }
    } else {
        args
    }
}

/// The arguments to bind to `params`, which must be as many as them.
pub fn bind_args<'a>(params: &Vec<Symbol>, args: &'a Vec<Stmt>) -> (r: Result<Vec<&'a Stmt>>)
    ensures
        chosen_args(params@, args@).len() == params@.len() ==> (r matches Ok(v) && v@.len()
            == params@.len() && forall|i: int| 0 <= i < v@.len() ==> *v@[i] == chosen_args(
            params@,
            args@,
        )[i]),
        chosen_args(params@, args@).len() != params@.len() ==> (r matches Err(e) && e.kind
            == ErrorKind::RuntimeError),
{
    let mut chosen: Vec<&'a Stmt> = Vec::new();
    if args.len() == 1 {
        match &args[0] {
            Stmt::Args(pairs) => {
                let mut i: usize = 0;
                while i < params.len()
                    invariant
                        i <= params@.len(),
                        args@.len() == 1,
                        args@[0] == Stmt::Args(*pairs),
                        chosen@.len() == keyword_args(params@, pairs@, i as int).len(),
                        forall|j: int| 0 <= j < chosen@.len() ==> *chosen@[j] == keyword_args(
                            params@,
                            pairs@,
                            i as int,
                        )[j],
                    decreases params.len() - i,
                {
                    let mut k: usize = 0;
                    let mut found: Option<usize> = None;
                    assert(keyword_in(pairs@, params@[i as int]@, 0) is None);
                    while k < pairs.len()
                        invariant
                            i < params@.len(),
                            k <= pairs@.len(),
                            found == (match keyword_in(pairs@, params@[i as int]@, k as int) {
                                Some(j) => Some(j as usize),
                                None => None::<usize>,
                            }),
                            found matches Some(j) ==> j < k,
                        decreases pairs.len() - k,
                    {
                        if found.is_none() && pairs[k].0.same(&params[i]) {
                            found = Some(k);
                        }
                        k += 1;
                    }
                    let ghost before = chosen@;
                    proof {
                        lemma_keyword_in(pairs@, params@[i as int]@, pairs@.len() as int);
                    }
                    match found {
                        Some(j) => {
                            chosen.push(&pairs[j].1);
                            assert(chosen@ == before.push(&pairs@[j as int].1));
                        },
                        None => {},
                    }
                    proof {
                        let prev = keyword_args(params@, pairs@, i as int);
                        let kw = keyword_args(params@, pairs@, i + 1);
                        assert(k == pairs@.len());
                        match keyword_in(pairs@, params@[i as int]@, pairs@.len() as int) {
                            Some(j) => {
                                assert(kw == prev.push(pairs@[j].1));
                            },
                            None => {
                                assert(kw == prev);
                            },
                        }
                        assert(chosen@.len() == kw.len());
                        assert forall|j: int| 0 <= j < chosen@.len() implies *chosen@[j] == kw[j] by {}
                    }
                    i += 1;
                }
            },
            _ => {},
        }
    }
    if chosen.len() == 0 {
        chosen = Vec::new();
        let mut i: usize = 0;
        while i < args.len()
            invariant
                i <= args@.len(),
                chosen@.len() == i,
                forall|j: int| 0 <= j < i ==> *chosen@[j] == args@[j],
            decreases args.len() - i,
        {
            chosen.push(&args[i]);
            i += 1;
        }
    }
    if chosen.len() != params.len() {
        return Err(fail("wrong number of arguments", ""));
    }
    Ok(chosen)
}

/// The key and value of each round of a `for` loop: a list gives each
/// position (as a number) and item, a map each key (as a string) and
/// value. A list too long for its positions to be numbers is refused.
pub open spec fn for_items_post(v: Value, r: Result<Vec<(Value, Value)>>) -> bool {
    match v {
        Value::List(l) => if l@.len() <= 9_223_372_036_855 {
            r matches Ok(items) && loop_items(v, items@)
        } else {
            r matches Err(e) && e.kind == ErrorKind::RuntimeError
        },
        Value::Dict(m) => r matches Ok(items) && loop_items(v, items@),
        _ => r matches Err(e) && e.kind == ErrorKind::RuntimeError,
    }
}

/// The rounds of a `for` loop over `v`, as (key, value): a list gives
/// each position (as a number) and item, a map each key (as a string)
/// and value, in order.
pub open spec fn loop_items(v: Value, items: Seq<(Value, Value)>) -> bool {
    match v {
        Value::List(l) => items.len() == l@.len() && forall|i: int|
            0 <= i < l@.len() ==> (#[trigger] items[i]).0 == crate::builtin::whole(i) && items[i].1
                == l@[i],
        Value::Dict(m) => items.len() == m.entries@.len() && forall|i: int|
            0 <= i < items.len() ==> ((#[trigger] items[i]).0 matches Value::String(s) && s@
                == m.key_at(i)) && items[i].1 == m.val_at(i),
        _ => false,
    }
}

/// The variables in round `item` of a `for` loop: the key (when named)
/// and the value bound over `vars`.
pub open spec fn round_vars(
    vars: Map<Seq<char>, Value>,
    key: Option<Symbol>,
    var: Symbol,
    item: (Value, Value),
) -> Map<Seq<char>, Value> {
    match key {
        Some(k) => vars.insert(k@, item.0).insert(var@, item.1),
        None => vars.insert(var@, item.1),
    }
}

/// Is the body pure in every round?
pub open spec fn rounds_pure(
    vars: Map<Seq<char>, Value>,
    key: Option<Symbol>,
    var: Symbol,
    items: Seq<(Value, Value)>,
    body: Seq<Stmt>,
) -> bool {
    forall|i: int| 0 <= i < items.len() ==> all_pure(round_vars(vars, key, var, #[trigger] items[i]), body)
}

/// `texts[i]` are what the body prints in round `i`, one text per
/// statement.
pub open spec fn rounds_printed(
    vars: Map<Seq<char>, Value>,
    key: Option<Symbol>,
    var: Symbol,
    items: Seq<(Value, Value)>,
    body: Seq<Stmt>,
    texts: Seq<Seq<Seq<char>>>,
) -> bool {
    &&& texts.len() == items.len()
    &&& forall|i: int|
        0 <= i < items.len() ==> tags_printed(round_vars(vars, key, var, #[trigger] items[i]), body, texts[i])
}

/// What the rounds print, run together; see `joined_rounds`.
pub open spec fn rounds_text(texts: Seq<Seq<Seq<char>>>) -> Seq<char> {
    joined_rounds(texts)
}

/// What the rounds print, run together.
pub open spec fn joined_rounds(texts: Seq<Seq<Seq<char>>>) -> Seq<char>
    decreases texts.len(),
{
    if texts.len() == 0 {
        Seq::empty()
    } else {
        joined_rounds(texts.drop_last()) + joined_texts(texts.last())
    }
}

/// What a `for` loop walks over.
pub fn for_items(v: &Value) -> (r: Result<Vec<(Value, Value)>>)
    ensures
        for_items_post(*v, r),
{
    let mut items: Vec<(Value, Value)> = Vec::new();
    match v {
        Value::List(l) => {
            let mut i: usize = 0;
            while i < l.len()
                invariant
                    *v == Value::List(*l),
                    i <= l@.len(),
                    i <= 9_223_372_036_855,
                    items@.len() == i,
                    forall|j: int|
                        0 <= j < i ==> (#[trigger] items@[j]).0 == crate::builtin::whole(j) && items@[j].1
                            == l@[j],
                decreases l.len() - i,
            {
                let n = match crate::number::Number::from_usize(i) {
                    Some(n) => n,
                    None => {
                        assert(i >= 9_223_372_036_855) by (nonlinear_arith)
                            requires
                                i * 1_000_000 > 0x7fff_ffff_ffff_ffff,
                        ;
                        assert(l@.len() > 9_223_372_036_855);
                        let e = fail("list too long", "");
                        let rr: Result<Vec<(Value, Value)>> = Err(e);
                        return rr;
                    },
                };
                assert(i <= 9_223_372_036_854) by (nonlinear_arith)
                    requires
                        i * 1_000_000 <= 0x7fff_ffff_ffff_ffff,
                ;
                items.push((Value::Number(n), l[i].clone()));
                i += 1;
            }
            Ok(items)
        },
        Value::Dict(m) => {
            let mut i: usize = 0;
            while i < m.entries.len()
                invariant
                    i <= m.entries@.len(),
                    items@.len() == i,
                    forall|j: int|
                        0 <= j < i ==> ((#[trigger] items@[j]).0 matches Value::String(s) && s@
                            == m.key_at(j)) && items@[j].1 == m.val_at(j),
                decreases m.entries.len() - i,
            {
                items.push((Value::String(m.entries[i].0.to_string()), m.entries[i].1.clone()));
                i += 1;
            }
            Ok(items)
        },
        _ => Err(fail("expected List or Map, got ", v.typename())),
    }
}

impl Env {
    /// The arena of scopes.
    pub closed spec fn maps(&self) -> Seq<OMap> {
        self.scopes@
    }

    /// The stack: numbers of scopes in the arena, innermost last.
    pub closed spec fn ids(&self) -> Seq<usize> {
        self.stack@
    }

    /// Which scopes of the arena a function has captured.
    pub closed spec fn kept(&self) -> Seq<bool> {
        self.captured@
    }

    /// What has been printed so far.
    pub closed spec fn output(&self) -> Seq<char> {
        self.out@
    }

    /// How many more evaluation steps may be taken.
    pub closed spec fn steps(&self) -> nat {
        self.fuel as nat
    }

    /// The environment is well formed: every number on the stack names a
    /// scope, the global scope is at the bottom, and a scope that no
    /// function captured is on the stack at most once.
    pub open spec fn wf(&self) -> bool {
        &&& self.maps().len() == self.kept().len()
        &&& self.ids().len() >= 1
        &&& self.ids()[0] == 0
        &&& forall|i: int| 0 <= i < self.ids().len() ==> #[trigger] self.ids()[i] < self.maps().len()
        &&& forall|i: int, j: int|
            0 <= i < j < self.ids().len() && #[trigger] self.ids()[i] == #[trigger] self.ids()[j]
                ==> self.kept()[self.ids()[i] as int]
    }

    /// The number of scopes on the stack.
    pub open spec fn depth(&self) -> int {
        self.ids().len() as int
    }

    /// Does the innermost scope bind `k`?
    pub open spec fn binds_nearest(&self, k: Seq<char>) -> bool {
        self.frame(self.depth() - 1).has_key(k)
    }

    /// The scope `i` places up from the bottom of the stack.
    pub open spec fn frame(&self, i: int) -> OMap {
        self.maps()[self.ids()[i] as int]
    }

    /// Looks `k` up in the bottom `n` scopes of the stack, innermost
    /// first.
    pub open spec fn lookup_in(&self, n: int, k: Seq<char>) -> Option<Value>
        decreases n,
    {
        if n <= 0 {
            None
        } else if self.frame(n - 1).has_key(k) {
            self.frame(n - 1).spec_get(k)
        } else {
            self.lookup_in(n - 1, k)
        }
    }

    /// Frame `n` is the innermost scope that binds `k`.
    pub open spec fn binds_at(&self, k: Seq<char>, n: int) -> bool {
        &&& 0 <= n < self.depth()
        &&& self.frame(n).has_key(k)
        &&& forall|m: int| n < m < self.depth() ==> !#[trigger] self.frame(m).has_key(k)
    }

    /// Every variable in sight, with its value.
    pub open spec fn bindings(&self) -> Map<Seq<char>, Value> {
        Map::new(|k: Seq<char>| self.spec_lookup(k) is Some, |k: Seq<char>| self.spec_lookup(k)->0)
    }

    /// The value of variable `k`, looked up from the innermost scope out.
    pub open spec fn spec_lookup(&self, k: Seq<char>) -> Option<Value> {
        self.lookup_in(self.depth(), k)
    }

    /// A new top-level environment: one scope, which binds the builtins
    /// by name, and nothing printed.
    pub fn new() -> (r: Env)
        ensures
            fresh_env(r),
    {
        let ns = natives();
        let ss = specials();
        let mut entries: Vec<(Symbol, Value)> = Vec::new();
        let mut i: usize = 0;
        while i < ns.len()
            invariant
                i <= ns@.len(),
                ns@.len() == native_table().len(),
                forall|j: int|
                    0 <= j < ns@.len() ==> (#[trigger] ns@[j]).0@ == native_table()[j].0 && ns@[j].1
                        == native_table()[j].1,
                entries@.len() == i,
                forall|j: int|
                    0 <= j < i ==> (#[trigger] entries@[j]).0@ == native_table()[j].0
                        && is_native_value(entries@[j].1, native_table()[j].1),
            decreases ns.len() - i,
        {
            let name = Symbol(ns[i].0.clone());
            entries.push((name, Value::Fn(Rc::new(Fn::Native(ns[i].1)))));
            i += 1;
        }
        let mut i: usize = 0;
        while i < ss.len()
            invariant
                i <= ss@.len(),
                ss@.len() == special_table().len(),
                forall|j: int|
                    0 <= j < ss@.len() ==> (#[trigger] ss@[j]).0@ == special_table()[j].0
                        && ss@[j].1 == special_table()[j].1,
                entries@.len() == native_table().len() + i,
                forall|j: int|
                    0 <= j < native_table().len() ==> (#[trigger] entries@[j]).0@
                        == native_table()[j].0 && is_native_value(
                        entries@[j].1,
                        native_table()[j].1,
                    ),
                forall|j: int|
                    0 <= j < i ==> (#[trigger] entries@[j + native_table().len()]).0@
                        == special_table()[j].0 && is_special_value(
                        entries@[j + native_table().len()].1,
                        special_table()[j].1,
                    ),
            decreases ss.len() - i,
        {
            let name = Symbol(ss[i].0.clone());
            entries.push((name, Value::Fn(Rc::new(Fn::Special(ss[i].1)))));
            i += 1;
        }
        let mut scopes: Vec<OMap> = Vec::new();
        scopes.push(OMap { entries });
        let mut captured: Vec<bool> = Vec::new();
        captured.push(true);
        let mut stack: Vec<usize> = Vec::new();
        stack.push(0);
        let env = Env { scopes, captured, stack, out: String::new(), fuel: u64::MAX };
        proof {
            lemma_builtin_names_distinct();
            let m = env.maps()[0];
            let n = native_table().len() as int;
            assert forall|i: int| 0 <= i < n + special_table().len() implies m.key_at(i) == builtin_name(i) by {
                if i >= n {
                    assert(m.entries@[(i - n) + n] == m.entries@[i]);
                }
            }
            assert forall|i: int| 0 <= i < n + special_table().len() implies #[trigger] m.first_index(
                builtin_name(i),
                i,
            ) by {
                assert forall|j: int| 0 <= j < i implies #[trigger] m.key_at(j) != builtin_name(i) by {
                    assert(builtin_name(j) != builtin_name(i));
                }
            }
            assert forall|i: int|
                0 <= i < native_table().len() implies (#[trigger] env.spec_lookup(native_table()[i].0) matches Some(
                    v,
                ) && is_native_value(v, native_table()[i].1)) by {
                assert(m.first_index(builtin_name(i), i));
                crate::omap::lemma_first_unique(&m, builtin_name(i), i);
            }
            assert forall|i: int|
                0 <= i < special_table().len() implies (#[trigger] env.spec_lookup(special_table()[i].0) matches Some(
                    v,
                ) && is_special_value(v, special_table()[i].1)) by {
                assert(m.first_index(builtin_name(i + n), i + n));
                crate::omap::lemma_first_unique(&m, builtin_name(i + n), i + n);
            }
        }
        env
    }

    /// Returns what has been printed, and clears it.
    pub fn out(&mut self) -> (r: String)
        ensures
            r@ == old(self).output(),
            final(self).output().len() == 0,
            final(self).maps() == old(self).maps(),
            final(self).ids() == old(self).ids(),
            final(self).kept() == old(self).kept(),
            final(self).steps() == old(self).steps(),
    {
        let mut s = String::new();
        std::mem::swap(&mut s, &mut self.out);
        s
    }

    /// The innermost scope.
    pub fn scope(&self) -> (r: &OMap)
        requires
            self.wf(),
        ensures
            *r == self.frame(self.depth() - 1),
    {
        &self.scopes[self.stack[self.stack.len() - 1]]
    }

    /// Adds a fresh, empty scope to the stack, which becomes the
    /// innermost.
    pub fn push_scope(&mut self)
        requires
            old(self).wf(),
        ensures
            scope_pushed(*old(self), *final(self)),
    {
        let id = self.scopes.len();
        self.scopes.push(OMap::new());
        self.captured.push(false);
        self.stack.push(id);
        proof {
            assert forall|i: int, j: int|
                0 <= i < j < self.ids().len() && #[trigger] self.ids()[i] == #[trigger] self.ids()[j]
                implies self.kept()[self.ids()[i] as int] by {
                if j == self.ids().len() - 1 {
                    assert(old(self).ids()[i] < old(self).maps().len());
                }
            }
            assert(self.ids().drop_last() =~= old(self).ids());
        }
    }

    /// Removes the innermost scope from the stack, unless it is the
    /// global one. A scope that no function captured is freed.
    pub fn pop_scope(&mut self)
        requires
            old(self).wf(),
        ensures
            scope_popped(*old(self), *final(self)),
    {
        if self.stack.len() <= 1 {
            assert(self.kept() == self.kept().take(self.maps().len() as int));
            return;
        }
        let id = self.stack.pop().unwrap();
        let ghost rest = self.stack@;
        assert(id < self.scopes@.len());
        if id == self.scopes.len() - 1 && !self.captured[id] {
            self.scopes.pop();
            self.captured.pop();
            proof {
                assert forall|i: int| 0 <= i < rest.len() implies #[trigger] rest[i] < self.scopes@.len() by {
                    if rest[i] == id {
                        assert(old(self).ids()[i] == old(self).ids()[rest.len() as int]);
                    }
                }
            }
        } else {
            assert(self.kept() == self.kept().take(self.maps().len() as int));
        }
    }

    /// Marks the innermost scope as captured by a function.
    fn capture_top(&mut self) -> (r: usize)
        requires
            old(self).wf(),
        ensures
            final(self).wf(),
            r == old(self).ids().last(),
            final(self).maps() == old(self).maps(),
            final(self).ids() == old(self).ids(),
            final(self).kept() == old(self).kept().update(r as int, true),
            final(self).output() == old(self).output(),
            final(self).steps() == old(self).steps(),
    {
        let id = self.stack[self.stack.len() - 1];
        self.captured.set(id, true);
        id
    }

    /// Does variable `key` exist in this or an enclosing scope?
    pub fn var_exists(&self, key: &str) -> (r: bool)
        requires
            self.wf(),
        ensures
            r == self.spec_lookup(key@) is Some,
    {
        self.lookup(key).is_some()
    }

    /// The position on the stack of the innermost scope that binds `key`.
    fn find_frame(&self, key: &str) -> (r: Option<usize>)
        requires
            self.wf(),
        ensures
            match r {
                Some(n) => n < self.depth() && self.frame(n as int).has_key(key@) && self.spec_lookup(
                    key@,
                ) == self.frame(n as int).spec_get(key@) && forall|m: int|
                    n < m < self.depth() ==> !#[trigger] self.frame(m).has_key(key@),
                None => forall|m: int|
                    0 <= m < self.depth() ==> !#[trigger] self.frame(m).has_key(key@),
            },
    {
        let mut n = self.stack.len();
        while n > 0
            invariant
                n <= self.depth(),
                self.wf(),
                self.lookup_in(self.depth(), key@) == self.lookup_in(n as int, key@),
                forall|m: int| n <= m < self.depth() ==> !#[trigger] self.frame(m).has_key(key@),
            decreases n,
        {
            if self.scopes[self.stack[n - 1]].position(key).is_some() {
                return Some(n - 1);
            }
            n -= 1;
        }
        None
    }

    /// The value of variable `key`, looked up from the innermost scope
    /// out.
    pub fn lookup(&self, key: &str) -> (r: Option<&Value>)
        requires
            self.wf(),
        ensures
            match r {
                Some(v) => self.spec_lookup(key@) == Some(*v),
                None => self.spec_lookup(key@) is None,
            },
    {
        match self.find_frame(key) {
            Some(n) => {
                let m = &self.scopes[self.stack[n]];
                m.get(key)
            },
            None => {
                proof {
                    self.lemma_lookup_none(self.depth(), key@);
                }
                None
            },
        }
    }

    /// Stores `val` under `key` in the innermost scope.
    pub fn set(&mut self, key: &str, val: Value)
        requires
            old(self).wf(),
        ensures
            top_stored(*old(self), key@, val, *final(self)),
            final(self).spec_lookup(key@) == Some(val),
            final(self).frame(final(self).depth() - 1).spec_get(key@) == Some(val),
            forall|k: Seq<char>| k != key@ ==> #[trigger] final(self).spec_lookup(k) == old(self).spec_lookup(k),
    {
        let t = self.stack[self.stack.len() - 1];
        self.store_in(t, key, val);
        proof {
            lemma_has_top(self, key@);
        }
    }

    /// Stores `val` under `key` in the innermost scope that binds it, or
    /// in the innermost scope when none does.
    pub fn update(&mut self, key: &str, val: Value)
        requires
            old(self).wf(),
        ensures
            var_updated(*old(self), key@, val, *final(self)),
            final(self).spec_lookup(key@) == Some(val),
            forall|k: Seq<char>| k != key@ ==> #[trigger] final(self).spec_lookup(k) == old(self).spec_lookup(k),
    {
        match self.find_frame(key) {
            Some(n) => {
                let id = self.stack[n];
                let ghost before = *self;
                self.store_in(id, key, val);
                proof {
                    assert forall|m: int| n < m < self.depth() implies !#[trigger] self.frame(m).has_key(key@) by {
                        assert(!before.frame(m).has_key(key@));
                        if self.ids()[m] == id {
                            assert(before.frame(m) == before.frame(n as int));
                        }
                    }
                    assert(self.frame(n as int).has_key(key@));
                    lemma_lookup_skip(self, n + 1, self.depth(), key@);
                    assert(before.binds_at(key@, n as int));
                    assert forall|m: int| #[trigger] before.binds_at(key@, m) implies m == n by {
                        if m < n {
                            assert(before.frame(n as int).has_key(key@));
                        } else if m > n {
                            assert(!before.frame(m).has_key(key@));
                        }
                    }
                }
            },
            None => {
                proof {
                    self.lemma_lookup_none(self.depth(), key@);
                }
                self.set(key, val);
            },
        }
    }

    /// Stores `val` under `key` in scope `t` of the arena.
    fn store_in(&mut self, t: usize, key: &str, val: Value)
        requires
            old(self).wf(),
            t < old(self).maps().len(),
        ensures
            scope_stored(*old(self), t as int, key@, val, *final(self)),
            final(self).maps()[t as int].spec_get(key@) == Some(val),
            forall|k: Seq<char>| k != key@ ==> #[trigger] final(self).spec_lookup(k) == old(self).spec_lookup(k),
            final(self).output() == old(self).output(),
            final(self).steps() == old(self).steps(),
    {
        let sym = Symbol::from(key);
        let ghost s = sym;
        let ghost before = *self;
        self.scopes[t].insert(sym, val);
        proof {
            crate::omap::law_get_after_insert(&before.maps()[t as int], &self.maps()[t as int], s, val);
            assert forall|k: Seq<char>| k != key@ implies #[trigger] self.spec_lookup(k) == before.spec_lookup(k) by {
                assert forall|i: int| 0 <= i < before.depth() implies (before.frame(i).has_key(k)
                    == self.frame(i).has_key(k) && before.frame(i).spec_get(k) == self.frame(i).spec_get(k)) by {
                    if before.ids()[i] == t {
                        crate::omap::law_insert_others(before.maps()[t as int], self.maps()[t as int], s, val, k);
                    }
                }
                lemma_lookup_agree(&before, self, before.depth(), k);
            }
        }
    }

    /// Appends the printed form of `v` to the output.
    pub fn print(&mut self, v: &Value)
        requires
            old(self).wf(),
        ensures
            final(self).output() == old(self).output() + spec_display(*v),
            final(self).maps() == old(self).maps(),
            final(self).ids() == old(self).ids(),
            final(self).kept() == old(self).kept(),
            final(self).steps() == old(self).steps(),
            final(self).wf(),
    {
        let t = v.to_string();
        push_str(&mut self.out, t.as_str());
    }

    /// Appends `s` to the output.
    fn print_str(&mut self, s: &str)
        requires
            old(self).wf(),
        ensures
            final(self).output() == old(self).output() + s@,
            final(self).maps() == old(self).maps(),
            final(self).ids() == old(self).ids(),
            final(self).kept() == old(self).kept(),
            final(self).steps() == old(self).steps(),
            final(self).wf(),
    {
        push_str(&mut self.out, s);
    }

    /// Spends one step, or fails when none are left.
    fn tick(&mut self) -> (r: Result<()>)
        requires
            old(self).wf(),
        ensures
            same_state(*old(self), *final(self)),
            final(self).wf(),
            r is Ok <==> old(self).steps() > 0,
            r is Ok ==> final(self).steps() == old(self).steps() - 1,
            r is Err ==> final(self).steps() == old(self).steps(),
            r matches Err(e) ==> e.kind == ErrorKind::RuntimeError,
    {
        if self.fuel == 0 {
            return Err(fail("evaluation ran out of steps", ""));
        }
        self.fuel = self.fuel - 1;
        Ok(())
    }

    /// Puts the captured scope `id` back on the stack, for a call.
    fn push_captured(&mut self, id: usize)
        requires
            old(self).wf(),
            id < old(self).maps().len(),
            old(self).kept()[id as int],
        ensures
            final(self).wf(),
            final(self).ids() == old(self).ids().push(id),
            final(self).maps() == old(self).maps(),
            final(self).kept() == old(self).kept(),
            final(self).output() == old(self).output(),
            final(self).steps() == old(self).steps(),
    {
        self.stack.push(id);
    }

    /// Empties the innermost scope, between rounds of a loop.
    fn clear_top(&mut self)
        requires
            old(self).wf(),
        ensures
            final(self).wf(),
            final(self).ids() == old(self).ids(),
            final(self).kept() == old(self).kept(),
            final(self).maps().len() == old(self).maps().len(),
            final(self).maps()[old(self).ids().last() as int].entries@.len() == 0,
            forall|i: int|
                0 <= i < old(self).maps().len() && i != old(self).ids().last()
                    ==> #[trigger] final(self).maps()[i] == old(self).maps()[i],
            final(self).output() == old(self).output(),
            final(self).steps() == old(self).steps(),
    {
        let t = self.stack[self.stack.len() - 1];
        self.scopes.set(t, OMap::new());
    }

    /// Is `w` a keyword (`return`, `break`, `continue`) or a variable?
    fn is_keyword_or_var(&self, w: &str) -> (r: bool)
        requires
            self.wf(),
        ensures
            r == (self.spec_lookup(w@) is Some || w@ == "return"@ || w@ == "break"@ || w@
                == "continue"@),
    {
        self.var_exists(w) || str_eq(w, "return") || str_eq(w, "break") || str_eq(w, "continue")
    }

    /// Evaluates one statement.
    pub fn eval(&mut self, stmt: &Stmt) -> (r: Result<Value>)
        requires
            old(self).wf(),
        ensures
            stepped(*old(self), *final(self), r is Ok),
            old(self).steps() > 0 ==> stmt_post(*old(self), *stmt, *final(self), r),
            *stmt matches Stmt::Call(f, args) ==> logic_called(*old(self), *f, args@, *final(self), r),
            *stmt matches Stmt::If(conds) ==> first_test(*old(self), conds@, *final(self), r),
            *stmt matches Stmt::Assign(name, rhs, reassign) ==> assigned_any(
                *old(self),
                name@,
                *rhs,
                reassign,
                *final(self),
                r,
            ),
            pure_stmt(old(self).bindings(), *stmt) ==> same_state(*old(self), *final(self)),
            pure_stmt(old(self).bindings(), *stmt) ==> (r matches Ok(v) ==> pure_evals(
                old(self).bindings(),
                *stmt,
                v,
            )),
            pure_stmt(old(self).bindings(), *stmt) ==> no_jump(r),
            printing_stmt(old(self).bindings(), *stmt) ==> {
                &&& final(self).maps() == old(self).maps()
                &&& final(self).kept() == old(self).kept()
                &&& no_jump(r)
            },
            old(self).steps() > 0 && sure_stmt(old(self).bindings(), *stmt) ==> r == Ok::<Value, Error>(
                sure_value(old(self).bindings(), *stmt),
            ) && final(self).steps() == old(self).steps() - 1,
        decreases old(self).steps(),
    {
        let ghost start = *self;
        let ghost vars = start.bindings();
        self.tick()?;
        proof {
            reveal_strlit("break");
            reveal_strlit("continue");
            lemma_same_lookups(&start, self);
            lemma_same_bindings(&start, self);
        }
        match stmt {
            Stmt::Nil => Ok(Value::Nil),
            Stmt::Value(v) => Ok(v.clone()),
            Stmt::Word(w) => {
                if w.is("break") {
                    return Err(jump(Jump::Break));
                }
                if w.is("continue") {
                    return Err(jump(Jump::Continue));
                }
                match self.lookup(w.to_str()) {
                    Some(v) => Ok(v.clone()),
                    None => Err(fail("can't find var: ", w.to_str())),
                }
            },
            Stmt::List(items) => {
                let mut vals: Vec<Value> = Vec::new();
                let mut i: usize = 0;
                while i < items.len()
                    invariant
                        *stmt == Stmt::List(*items),
                        i <= items@.len(),
                        vals@.len() == i,
                        vars == old(self).bindings(),
                        pure_stmt(vars, *stmt) ==> same_state(*old(self), *self),
                        pure_stmt(vars, *stmt) ==> forall|j: int|
                            #![trigger items@[j]]
                            0 <= j < i ==> pure_evals(vars, items@[j], vals@[j]),
                        self.wf(),
                        self.ids() == old(self).ids(),
                        self.steps() < old(self).steps(),
                        old(self).output().is_prefix_of(self.output()),
                    decreases items.len() - i,
                {
                    let ghost before = *self;
                    proof {
                        if pure_stmt(vars, *stmt) {
                            assert((*stmt)->List_0 == *items);
                            assert((*stmt)->List_0@[i as int] == items@[i as int]);
                            assert(pure_stmt(vars, items@[i as int]));
                            lemma_same_bindings(old(self), &before);
                        }
                    }
                    let v = self.eval(&items[i])?;
                    vals.push(v);
                    i += 1;
                }
                assert((*stmt)->List_0 == *items);
                Ok(Value::List(Rc::new(vals)))
            },
            Stmt::Dict(pairs) => {
                let mut m = OMap::new();
                let ghost mut vals: Seq<Value> = Seq::empty();
                let mut i: usize = 0;
                while i < pairs.len()
                    invariant
                        *stmt == Stmt::Dict(*pairs),
                        i <= pairs@.len(),
                        self.wf(),
                        self.ids() == old(self).ids(),
                        self.steps() < old(self).steps(),
                        old(self).output().is_prefix_of(self.output()),
                        vars == old(self).bindings(),
                        pure_stmt(vars, *stmt) ==> same_state(*old(self), *self),
                        vals.len() == i,
                        built(pairs@.take(i as int), vals, m),
                        pure_stmt(vars, *stmt) ==> forall|j: int|
                            #![trigger pairs@[j]]
                            0 <= j < i ==> pure_evals(vars, pairs@[j].1, vals[j]),
                    decreases pairs.len() - i,
                {
                    let ghost before = *self;
                    proof {
                        if pure_stmt(vars, *stmt) {
                            assert((*stmt)->Dict_0 == *pairs);
                            assert((*stmt)->Dict_0@[i as int] == pairs@[i as int]);
                            assert(pure_stmt(vars, pairs@[i as int].1));
                            lemma_same_bindings(old(self), &before);
                        }
                    }
                    let v = self.eval(&pairs[i].1)?;
                    let ghost m0 = m;
                    let key = pairs[i].0.clone();
                    m.insert(key, v);
                    proof {
                        let t = pairs@.take(i + 1);
                        assert(t.drop_last() == pairs@.take(i as int));
                        assert(t.last() == pairs@[i as int]);
                        let prev = vals;
                        vals = vals.push(v);
                        assert(vals[t.len() - 1] == v);
                        assert(stored(m0, t.last().0, vals[t.len() - 1], m));
                        lemma_built_extends(pairs@.take(i as int), prev, v, m0);
                        assert(built(t.drop_last(), vals, m0));
                    }
                    i += 1;
                }
                assert(pairs@.take(pairs@.len() as int) == pairs@);
                assert((*stmt)->Dict_0 == *pairs);
                let r = Rc::new(m);
                assert(built(pairs@, vals, *r));
                proof {
                    if pure_stmt(vars, *stmt) {
                        assert(forall|j: int|
                            #![trigger pairs@[j]]
                            0 <= j < pairs@.len() ==> pure_evals(vars, pairs@[j].1, vals[j]));
                        let d = Value::Dict(r);
                        assert(d matches Value::Dict(m2) && *m2 == *r);
                        assert(vals.len() == pairs@.len());
                        assert(pure_evals(vars, *stmt, d));
                    }
                }
                Ok(Value::Dict(r))
            },
            Stmt::Call(target, args) => {
                proof {
                    lemma_same_bindings(&start, self);
                }
                self.eval_call(target, args)
            },
            Stmt::Return(e) => {
                let v = self.eval(e)?;
                Err(jump(Jump::Return(v)))
            },
            Stmt::If(conds) => self.eval_if(conds),
            Stmt::For(key, var, e, body) => self.eval_for(key, var, e, body),
            Stmt::While(test, body) => self.eval_while(test, body),
            Stmt::Assign(name, e, reassign) => self.eval_assign(name, e, *reassign),
            Stmt::Tag(tag) => {
                proof {
                    lemma_same_bindings(&start, self);
                }
                self.eval_tag(tag)
            },
            Stmt::Fn(params, body) => {
                let id = self.capture_top();
                Ok(Value::Fn(Rc::new(Fn::Fn(clone_symbols(params), share(body), id))))
            },
            Stmt::Args(_) => Err(fail("keyword arguments outside a call", "")),
        }
    }

    /// Evaluates a block, returning the value of its last statement.
    /// Tags are printed.
    pub fn block(&mut self, stmts: &Vec<Stmt>) -> (r: Result<Value>)
        requires
            old(self).wf(),
        ensures
            stepped(*old(self), *final(self), r is Ok),
            all_pure(old(self).bindings(), stmts@) ==> {
                &&& final(self).maps() == old(self).maps()
                &&& final(self).kept() == old(self).kept()
            },
            all_pure(old(self).bindings(), stmts@) ==> (r matches Ok(v) ==> {
                &&& block_value(old(self).bindings(), stmts@, v)
                &&& exists|texts: Seq<Seq<char>>|
                    #[trigger] tags_printed(old(self).bindings(), stmts@, texts) && final(self).output()
                        == old(self).output() + joined_texts(texts)
            }),
            all_pure(old(self).bindings(), stmts@) ==> no_jump(r),
            all_sure(old(self).bindings(), stmts@) && old(self).steps() > stmts@.len() ==> r is Ok
                && final(self).steps() == old(self).steps() - 1 - stmts@.len(),
        decreases old(self).steps(),
    {
        let ghost vars = old(self).bindings();
        let ghost ok = all_pure(vars, stmts@);
        let ghost sure = all_sure(vars, stmts@) && old(self).steps() > stmts@.len();
        proof {
            if sure {
                lemma_sure_pure(vars, stmts@);
            }
        }
        self.tick()?;
        let mut out = Value::Nil;
        let mut i: usize = 0;
        let ghost mut texts: Seq<Seq<char>> = Seq::empty();
        while i < stmts.len()
            invariant
                i <= stmts@.len(),
                self.wf(),
                self.ids() == old(self).ids(),
                self.steps() < old(self).steps(),
                old(self).output().is_prefix_of(self.output()),
                vars == old(self).bindings(),
                ok == all_pure(vars, stmts@),
                ok ==> self.maps() == old(self).maps() && self.kept() == old(self).kept(),
                ok ==> block_value(vars, stmts@.take(i as int), out),
                ok ==> texts.len() == i,
                ok ==> forall|j: int|
                    0 <= j < i ==> if (#[trigger] stmts@[j]) is Tag {
                        exists|v: Value|
                            #![trigger spec_display(v)]
                            pure_evals(vars, stmts@[j], v) && texts[j] == spec_display(v)
                    } else {
                        texts[j] == Seq::<char>::empty()
                    },
                ok ==> self.output() == old(self).output() + joined_texts(texts),
                sure ==> ok && self.steps() == old(self).steps() - 1 - i,
                sure == (all_sure(vars, stmts@) && old(self).steps() > stmts@.len()),
            decreases stmts.len() - i,
        {
            let ghost before = *self;
            proof {
                if ok {
                    lemma_same_bindings(old(self), &before);
                    assert(pure_stmt(vars, stmts@[i as int]));
                }
            }
            let is_tag = match &stmts[i] {
                Stmt::Tag(_) => true,
                _ => false,
            };
            out = self.eval(&stmts[i])?;
            let ghost mid = self.output();
            if is_tag {
                self.print(&out);
                assert(mid.is_prefix_of(self.output()));
            }
            proof {
                if ok {
                    let t = if is_tag { spec_display(out) } else { Seq::<char>::empty() };
                    assert(self.output() == mid + t);
                    let prev = texts;
                    texts = texts.push(t);
                    assert(texts.drop_last() == prev);
                    assert(stmts@.take(i + 1).last() == stmts@[i as int]);
                }
            }
            i += 1;
        }
        proof {
            if ok {
                assert(stmts@.take(stmts@.len() as int) == stmts@);
                assert(tags_printed(vars, stmts@, texts));
            }
        }
        Ok(out)
    }

    /// Evaluates a block and prints what each statement gives, other than
    /// `None`. A word that is neither a keyword nor a variable is printed
    /// as text.
    pub fn printed_block(&mut self, stmts: &Vec<Stmt>) -> (r: Result<Value>)
        requires
            old(self).wf(),
        ensures
            stepped(*old(self), *final(self), r is Ok),
            body_ok(old(self).bindings(), stmts@) ==> {
                &&& final(self).maps() == old(self).maps()
                &&& final(self).kept() == old(self).kept()
            },
            body_ok(old(self).bindings(), stmts@) && r is Ok ==> exists|texts: Seq<Seq<char>>|
                #[trigger] printed_all(old(self).bindings(), stmts@, texts) && final(self).output()
                    == old(self).output() + joined_texts(texts),
            body_ok(old(self).bindings(), stmts@) ==> no_jump(r),
            body_sure(old(self).bindings(), stmts@) && old(self).steps() > stmts@.len() ==> r is Ok,
        decreases old(self).steps(),
    {
        let ghost vars = old(self).bindings();
        let ghost ok = body_ok(vars, stmts@);
        let ghost sure = body_sure(vars, stmts@) && old(self).steps() > stmts@.len();
        proof {
            if sure {
                assert forall|i: int| 0 <= i < stmts@.len() implies text_word(vars, #[trigger] stmts@[i])
                    || pure_stmt(vars, stmts@[i]) || printing_stmt(vars, stmts@[i]) by {
                    assert(sure_stmt(vars, stmts@[i]) || text_word(vars, stmts@[i]));
                }
            }
        }
        self.tick()?;
        let mut out = Value::Nil;
        let mut i: usize = 0;
        let ghost mut texts: Seq<Seq<char>> = Seq::empty();
        while i < stmts.len()
            invariant
                i <= stmts@.len(),
                self.wf(),
                self.ids() == old(self).ids(),
                self.steps() < old(self).steps(),
                old(self).output().is_prefix_of(self.output()),
                vars == old(self).bindings(),
                ok == body_ok(vars, stmts@),
                ok ==> self.maps() == old(self).maps() && self.kept() == old(self).kept(),
                ok ==> texts.len() == i,
                ok ==> forall|j: int| 0 <= j < i ==> printed_by(vars, #[trigger] stmts@[j], texts[j]),
                ok ==> self.output() == old(self).output() + joined_texts(texts),
                sure ==> ok && self.steps() + i >= old(self).steps() - 1,
                sure == (body_sure(vars, stmts@) && old(self).steps() > stmts@.len()),
            decreases stmts.len() - i,
        {
            let ghost before = *self;
            proof {
                if ok {
                    lemma_same_bindings(old(self), &before);
                    assert(text_word(vars, stmts@[i as int]) || pure_stmt(vars, stmts@[i as int])
                        || printing_stmt(vars, stmts@[i as int]));
                }
            }
            let mut text = false;
            match &stmts[i] {
                Stmt::Word(w) => {
                    if !self.is_keyword_or_var(w.to_str()) {
                        self.print_str(w.to_str());
                        assert(before.output().is_prefix_of(self.output()));
                        text = true;
                        proof {
                            if ok {
                                assert(text_word(vars, stmts@[i as int]));
                                let prev = texts;
                                texts = texts.push(w@);
                                assert(texts.drop_last() == prev);
                            }
                        }
                    }
                },
                _ => {},
            }
            if !text {
                proof {
                    if ok {
                        assert(!text_word(vars, stmts@[i as int]));
                    }
                }
                out = self.eval(&stmts[i])?;
                let ghost post = *self;
                let ghost mid = self.output();
                match out {
                    Value::Nil => {},
                    _ => {
                        self.print(&out);
                        assert(mid.is_prefix_of(self.output()));
                    },
                }
                proof {
                    if ok {
                        let s = stmts@[i as int];
                        if pure_stmt(vars, s) {
                            let t = printed_text(out);
                            assert(self.output() == mid + t);
                            assert(pure_evals(vars, s, out));
                            assert(printed_by(vars, s, t));
                            let prev = texts;
                            texts = texts.push(t);
                            assert(texts.drop_last() == prev);
                        } else {
                            let t = lemma_printing_stmt(&before, &post, s, out);
                            assert(self.output() == before.output() + t);
                            assert(printed_by(vars, s, t));
                            let prev = texts;
                            texts = texts.push(t);
                            assert(texts.drop_last() == prev);
                        }
                    }
                }
            }
            i += 1;
        }
        proof {
            if ok {
                assert(printed_all(vars, stmts@, texts));
            }
        }
        Ok(out)
    }

    /// Calls what `target` evaluates to with `args`.
    fn eval_call(&mut self, target: &Stmt, args: &Vec<Stmt>) -> (r: Result<Value>)
        requires
            old(self).wf(),
        ensures
            stepped(*old(self), *final(self), r is Ok),
            pure_stmt(old(self).bindings(), Stmt::Call(Box::new(*target), *args)) ==> same_state(
                *old(self),
                *final(self),
            ),
            pure_stmt(old(self).bindings(), Stmt::Call(Box::new(*target), *args)) ==> (r matches Ok(
                v,
            ) ==> pure_evals(old(self).bindings(), Stmt::Call(Box::new(*target), *args), v)),
            pure_stmt(old(self).bindings(), Stmt::Call(Box::new(*target), *args)) ==> no_jump(r),
            printed_call(*old(self), *target, args@, *final(self), r),
            user_called(*old(self), *target, args@, r),
            short_circuited(*old(self), *target, args@, *final(self), r),
            logic_called(*old(self), *target, args@, *final(self), r),
            printing(old(self).bindings(), *target, args@) ==> {
                &&& final(self).maps() == old(self).maps()
                &&& final(self).kept() == old(self).kept()
                &&& no_jump(r)
            },
        decreases old(self).steps(),
    {
        let ghost vars = old(self).bindings();
        let ghost call = Stmt::Call(Box::new(*target), *args);
        let ghost pure = pure_stmt(vars, call);
        let ghost prints = printing(vars, *target, args@);
        let ghost names = names_word(*target);
        let ghost start = *self;
        self.tick()?;
        proof {
            lemma_same_bindings(&start, self);
            if names {
                assert(pure_stmt(vars, *target));
            }
            if pure {
                assert(*call->Call_0 == *target);
                assert(*target matches Stmt::Word(_));
                assert(pure_stmt(vars, *target));
            }
            if prints {
                assert(pure_stmt(vars, *target));
            }
        }
        let f = self.eval(target)?;
        proof {
            if pure || prints || names {
                lemma_same_bindings(&start, self);
            }
        }
        match f {
            Value::Fn(rc) => match &*rc {
                Fn::Special(s) => {
                    proof {
                        if pure {
                            assert(call->Call_1 == *args);
                            assert(*call->Call_0 == *target);
                            assert(logic_special(vars, target->Word_0@) == Some(*s));
                            assert(call->Call_1@[0] == args@[0]);
                            assert(call->Call_1@[1] == args@[1]);
                            assert(logic_args(vars, *s, args@));
                        }
                    }
                    let r = self.call_special(*s, args);
                    proof {
                        if pure && r is Ok {
                            assert(call->Call_1 == *args);
                            assert(*call->Call_0 == *target);
                            assert(quiet_native(vars, target->Word_0@) is None);
                            let v = r->Ok_0;
                            let va = choose|va: Value|
                                #![trigger truthy(va)]
                                pure_evals(vars, args@[0], va) && if (*s is And) != truthy(va) {
                                    v == Value::Bool(truthy(va))
                                } else {
                                    exists|vb: Value|
                                        #![trigger truthy(vb)]
                                        pure_evals(vars, args@[1], vb) && v == Value::Bool(truthy(vb))
                                };
                            assert(pure_evals(vars, call->Call_1@[0], va));
                            if (*s is And) == truthy(va) {
                                let vb = choose|vb: Value|
                                    #![trigger truthy(vb)]
                                    pure_evals(vars, args@[1], vb) && v == Value::Bool(truthy(vb));
                                assert(pure_evals(vars, call->Call_1@[1], vb));
                                assert(v == Value::Bool(truthy(vb)));
                            }
                            assert(pure_evals(vars, call, v));
                        }
                    }
                    r
                },
                Fn::Native(n) => {
                    let mut vals: Vec<Value> = Vec::new();
                    let mut i: usize = 0;
                    while i < args.len()
                        invariant
                            i <= args@.len(),
                            self.wf(),
                            self.ids() == old(self).ids(),
                            self.steps() < old(self).steps(),
                            old(self).output().is_prefix_of(self.output()),
                            vals@.len() == i,
                            vars == old(self).bindings(),
                            call == Stmt::Call(Box::new(*target), *args),
                            pure == pure_stmt(vars, call),
                            prints == printing(vars, *target, args@),
                            pure || prints ==> same_state(*old(self), *self),
                            pure || prints ==> forall|j: int|
                                #![trigger args@[j]]
                                0 <= j < i ==> pure_evals(vars, args@[j], vals@[j]),
                        decreases args.len() - i,
                    {
                        let ghost before = *self;
                        proof {
                            if pure {
                                assert(call->Call_1 == *args);
                                assert(call->Call_1@[i as int] == args@[i as int]);
                                assert(pure_stmt(vars, args@[i as int]));
                            }
                            if pure || prints {
                                assert(pure_stmt(vars, args@[i as int]));
                                lemma_same_bindings(old(self), &before);
                            }
                        }
                        let v = self.eval(&args[i])?;
                        vals.push(v);
                        i += 1;
                    }
                    let ghost before = self.output();
                    let r = call_native(*n, vals.as_slice(), &mut self.out);
                    proof {
                        if pure {
                            assert(quiet_native(vars, target->Word_0@) == Some(*n));
                            if r is Ok {
                                let v = r->Ok_0;
                                assert(pure_evals(vars, call, v)) by {
                                    assert(call->Call_1 == *args);
                                    assert(*call->Call_0 == *target);
                                    assert(crate::builtin::pure_native_post(*n, vals@, Ok(v)));
                                }
                            }
                        }
                    }
                    proof {
                        if prints && r is Ok {
                            assert(vals@.len() == args@.len());
                            assert(print_native(vars, target->Word_0@) == Some(*n));
                            assert(self.output() == before + crate::builtin::printed(vals@) + line_end(
                                *n == Native::Puts,
                            ));
                        }
                        if r is Ok {
                            assert(before.is_prefix_of(self.output())) by {
                                match *n {
                                    crate::value::Native::Print => {
                                        assert(self.output() == before + crate::builtin::printed(vals@));
                                    },
                                    crate::value::Native::Puts => {
                                        assert(self.output() == before + crate::builtin::printed(vals@) + seq!['\n']);
                                    },
                                    _ => {},
                                }
                            }
                        }
                    }
                    r
                },
                Fn::Fn(params, body, scope) => {
                    let ghost at_call = *self;
                    let r = self.call_fn(params, body, *scope, args);
                    proof {
                        if names && r is Ok {
                            assert(at_call.bindings() == old(self).bindings());
                            assert(at_call.maps() == old(self).maps());
                            assert(called(
                                overlaid(old(self).bindings(), old(self).maps()[*scope as int]),
                                params@,
                                body@,
                                chosen_args(params@, args@),
                                r->Ok_0,
                            ));
                        }
                    }
                    r
                },
            },
            _ => Err(fail("can't find fn: ", target.to_str())),
        }
    }

    /// Calls a function defined in Hatter: binds its parameters in a
    /// fresh scope over the one it was created in, evaluates its body,
    /// and returns what the body's last statement gives, or what a
    /// `return` in it gives.
    fn call_fn(&mut self, params: &Vec<Symbol>, body: &Vec<Stmt>, scope: usize, args: &Vec<Stmt>) -> (r: Result<Value>)
        requires
            old(self).wf(),
        ensures
            stepped(*old(self), *final(self), r is Ok),
            chosen_args(params@, args@).len() != params@.len() ==> r is Err,
            r matches Ok(v) ==> called(
                overlaid(old(self).bindings(), old(self).maps()[scope as int]),
                params@,
                body@,
                chosen_args(params@, args@),
                v,
            ),
            chosen_args(params@, args@).len() == params@.len() && scope < old(self).maps().len() && old(
                self,
            ).kept()[scope as int] && old(self).steps() > params@.len() + body@.len() + 1 && all_literal(
                chosen_args(params@, args@),
            ) && uses_params(params@, body@) ==> r is Ok,
        decreases old(self).steps(),
    {
        let ghost start = *self;
        let ghost good = chosen_args(params@, args@).len() == params@.len() && scope < old(self).maps().len()
            && old(self).kept()[scope as int] && old(self).steps() > params@.len() + body@.len() + 1
            && all_literal(chosen_args(params@, args@)) && uses_params(params@, body@);
        self.tick()?;
        let chosen = match bind_args(params, args) {
            Ok(c) => c,
            Err(_) => {
                return Err(fail("wrong number of arguments to a function", ""));
            },
        };
        if scope >= self.scopes.len() || !self.captured[scope] {
            return Err(fail("the scope of this function is gone", ""));
        }
        let ghost base = *self;
        let ghost cs = chosen_args(params@, args@);
        let ghost inner = overlaid(start.bindings(), start.maps()[scope as int]);
        proof {
            lemma_same_bindings(&start, &base);
        }
        self.push_captured(scope);
        let ghost captured = *self;
        self.push_scope();
        let ghost inner_ids = self.ids();
        proof {
            let top = captured.maps().len() as usize;
            assert(self.ids() == base.ids().push(scope).push(top));
            lemma_overlaid(self, &base, scope as int, top);
        }
        let ghost mut vals: Seq<Value> = Seq::empty();
        let mut i: usize = 0;
        while i < chosen.len()
            invariant
                i <= chosen@.len(),
                chosen@.len() == params@.len(),
                cs.len() == params@.len(),
                forall|j: int| 0 <= j < chosen@.len() ==> *chosen@[j] == cs[j],
                self.wf(),
                self.ids() == inner_ids,
                inner_ids.len() == base.ids().len() + 2,
                inner_ids.drop_last().drop_last() == base.ids(),
                base.ids() == old(self).ids(),
                base.ids().len() >= 1,
                self.steps() < old(self).steps(),
                old(self).output().is_prefix_of(self.output()),
                inner == overlaid(old(self).bindings(), old(self).maps()[scope as int]),
                vals.len() == i,
                args_pure(inner, params@, cs, vals, i as int) ==> self.bindings() == bound(
                    inner,
                    params@,
                    vals,
                    i as int,
                ),
                forall|j: int|
                    0 <= j < i && args_pure(inner, params@, cs, vals, j + 1) ==> pure_evals(
                        bound(inner, params@, vals, j),
                        #[trigger] cs[j],
                        vals[j],
                    ),
                good == (chosen_args(params@, args@).len() == params@.len() && scope < old(self).maps().len()
                    && old(self).kept()[scope as int] && old(self).steps() > params@.len() + body@.len() + 1
                    && all_literal(chosen_args(params@, args@)) && uses_params(params@, body@)),
                good ==> self.steps() == old(self).steps() - 1 - i,
                cs == chosen_args(params@, args@),
            decreases chosen.len() - i,
        {
            let ghost before = *self;
            let ghost ap = args_pure(inner, params@, cs, vals, i + 1);
            proof {
                if good {
                    assert(literal_stmt(cs[i as int]));
                    assert(*chosen@[i as int] == cs[i as int]);
                }
                if ap {
                    assert(args_pure(inner, params@, cs, vals, i as int));
                    assert(pure_stmt(bound(inner, params@, vals, i as int), cs[i as int]));
                }
            }
            match self.eval(chosen[i]) {
                Ok(v) => {
                    let ghost after_arg = *self;
                    self.set(params[i].to_str(), v);
                    proof {
                        let prev = vals;
                        vals = vals.push(v);
                        lemma_bound_prefix(inner, params@, prev, v, i as int);
                        assert forall|j: int| 0 <= j <= i + 1 implies args_pure(inner, params@, cs, vals, j)
                            == args_pure(inner, params@, cs, prev, j) by {
                            assert forall|k: int| 0 <= k < j implies bound(inner, params@, vals, k) == bound(
                                inner,
                                params@,
                                prev,
                                k,
                            ) by {
                                lemma_bound_prefix(inner, params@, prev, v, k);
                            }
                        }
                        assert forall|j: int| 0 <= j < i + 1 implies bound(inner, params@, vals, j) == bound(
                            inner,
                            params@,
                            prev,
                            j,
                        ) by {
                            lemma_bound_prefix(inner, params@, prev, v, j);
                        }
                        if ap {
                            lemma_same_bindings(&before, &after_arg);
                            assert(pure_evals(bound(inner, params@, prev, i as int), cs[i as int], v));
                            assert(self.bindings() =~= bound(inner, params@, prev, i as int).insert(
                                params@[i as int]@,
                                v,
                            ));
                            assert(bound(inner, params@, vals, i + 1) == bound(inner, params@, vals, i as int).insert(
                                params@[i as int]@,
                                vals[i as int],
                            ));
                        }
                    }
                },
                Err(e) => {
                    self.pop_scope();
                    self.pop_scope();
                    return Err(e);
                },
            }
            i += 1;
        }
        let ghost before_body = *self;
        proof {
            if good {
                let n = cs.len() as int;
                assert forall|j: int| 0 <= j < n implies pure_stmt(bound(inner, params@, vals, j), #[trigger] cs[j]) by {
                    assert(literal_stmt(cs[j]));
                }
                assert(args_pure(inner, params@, cs, vals, n));
                assert forall|k: int| 0 <= k < body@.len() implies sure_stmt(self.bindings(), #[trigger] body@[k]) by {
                    assert(param_or_literal(params@, body@[k]));
                    if body@[k] is Word {
                        let w = body@[k]->Word_0;
                        let j = choose|j: int| 0 <= j < params@.len() && #[trigger] params@[j]@ == w@;
                        lemma_bound_has(inner, params@, vals, n, j);
                    }
                }
            }
        }
        let out = self.block(body);
        self.pop_scope();
        self.pop_scope();
        proof {
            let n = cs.len() as int;
            if args_pure(inner, params@, cs, vals, n) && all_pure(bound(inner, params@, vals, n), body@) {
                assert(before_body.bindings() == bound(inner, params@, vals, n));
            }
        }
        match out {
            Ok(v) => {
                proof {
                    let n = cs.len() as int;
                    assert(vals.len() == cs.len());
                    assert(args_pure(inner, params@, cs, vals, n) && all_pure(bound(inner, params@, vals, n), body@)
                        ==> block_value(bound(inner, params@, vals, n), body@, v));
                    assert(forall|i: int|
                        0 <= i < cs.len() && args_pure(inner, params@, cs, vals, i + 1) ==> pure_evals(
                            bound(inner, params@, vals, i),
                            #[trigger] cs[i],
                            vals[i],
                        ));
                    lemma_called_intro(inner, params@, body@, cs, v, vals);
                }
                Ok(v)
            },
            Err(e) => match e.kind {
                ErrorKind::Jump(Jump::Return(v)) => {
                    proof {
                        let n = cs.len() as int;
                        assert(!(args_pure(inner, params@, cs, vals, n) && all_pure(
                            bound(inner, params@, vals, n),
                            body@,
                        )));
                        assert(vals.len() == cs.len());
                        lemma_called_intro(inner, params@, body@, cs, v, vals);
                    }
                    Ok(v)
                },
                _ => Err(e),
            },
        }
    }

    /// Calls a special: its arguments are syntax, evaluated here as it
    /// needs them.
    fn call_special(&mut self, s: Special, args: &Vec<Stmt>) -> (r: Result<Value>)
        requires
            old(self).wf(),
        ensures
            stepped(*old(self), *final(self), r is Ok),
            logic_args(old(self).bindings(), s, args@) ==> same_state(*old(self), *final(self)),
            logic_args(old(self).bindings(), s, args@) ==> (r matches Ok(v) ==> exists|va: Value|
                #![trigger truthy(va)]
                pure_evals(old(self).bindings(), args@[0], va) && if (s is And) != truthy(va) {
                    v == Value::Bool(truthy(va))
                } else {
                    exists|vb: Value|
                        #![trigger truthy(vb)]
                        pure_evals(old(self).bindings(), args@[1], vb) && v == Value::Bool(truthy(vb))
                }),
            logic_args(old(self).bindings(), s, args@) ==> no_jump(r),
            (s is And || s is Or) ==> first_decides(*old(self), s, args@, *final(self), r),
            (s is And || s is Or) && args@.len() == 2 && pure_stmt(old(self).bindings(), args@[0]) ==> (r matches Ok(
                v,
            ) ==> exists|va: Value|
                #![trigger truthy(va)]
                pure_evals(old(self).bindings(), args@[0], va) && ((s is And) != truthy(va) ==> v == Value::Bool(
                    truthy(va),
                ) && same_state(*old(self), *final(self)))),
            s is Pop && args@.len() == 1 && sure_stmt(old(self).bindings(), args@[0]) && args@[0] is Word
                && old(self).steps() >= 3 ==> pop_result(
                *old(self),
                args@[0]->Word_0@,
                *final(self),
                r,
            ),
        decreases old(self).steps(),
    {
        let ghost vars = old(self).bindings();
        let ghost start = *self;
        self.tick()?;
        proof {
            lemma_same_bindings(&start, self);
        }
        match s {
            Special::And | Special::Or => {
                if args.len() != 2 {
                    return Err(fail("expected 2 args", ""));
                }
                let ghost b = *self;
                let va = self.eval(&args[0])?;
                let ghost m = *self;
                let a = va.to_bool();
                let is_and = match s {
                    Special::And => true,
                    _ => false,
                };
                proof {
                    if pure_stmt(vars, args@[0]) {
                        assert(pure_evals(vars, args@[0], va));
                        assert(a == truthy(va));
                    }
                }
                proof {
                    assert(b.steps() > 0);
                    assert(stmt_post(b, args@[0], m, Ok::<Value, Error>(va)));
                }
                if is_and != a {
                    return Ok(Value::Bool(a));
                }
                let ghost mid = *self;
                proof {
                    if logic_args(vars, s, args@) {
                        lemma_same_bindings(&start, &mid);
                    }
                }
                let vb = self.eval(&args[1])?;
                let b = vb.to_bool();
                proof {
                    if logic_args(vars, s, args@) {
                        assert(pure_evals(vars, args@[0], va));
                        assert(a == truthy(va));
                        assert(pure_evals(vars, args@[1], vb));
                        assert(b == truthy(vb));
                    }
                }
                Ok(Value::Bool(b))
            },
            Special::Push => {
                if args.len() != 2 {
                    return Err(fail("expected 2 args", ""));
                }
                let list = self.eval(&args[0])?;
                let v = self.eval(&args[1])?;
                match pushed(&list, v) {
                    Some(l2) => {
                        self.assign_place(&args[0], l2)?;
                        Ok(Value::Nil)
                    },
                    None => Ok(Value::Nil),
                }
            },
            Special::Pop => {
                if args.len() != 1 {
                    return Err(fail("expected 1 arg", ""));
                }
                let list = self.eval(&args[0])?;
                match popped(&list) {
                    Some((last, rest)) => {
                        self.assign_place(&args[0], rest)?;
                        Ok(last)
                    },
                    None => Ok(Value::Nil),
                }
            },
            Special::SetIndex => {
                if args.len() != 3 {
                    return Err(fail("expected 3 args", ""));
                }
                let c = self.eval(&args[0])?;
                let k = self.eval(&args[1])?;
                let v = self.eval(&args[2])?;
                let c2 = put(&c, &k, v)?;
                self.assign_place(&args[0], c2)?;
                Ok(Value::Nil)
            },
        }
    }

    /// Stores `v` at the place `place` names: a variable, or an item of
    /// a container that is itself at a place (`a.m[k]`). Anything else
    /// names no place, and nothing is stored.
    fn assign_place(&mut self, place: &Stmt, v: Value) -> (r: Result<()>)
        requires
            old(self).wf(),
        ensures
            stepped(*old(self), *final(self), r is Ok),
            old(self).steps() == 0 ==> r is Err,
            old(self).steps() > 0 ==> (place matches Stmt::Word(name) ==> {
                &&& r is Ok
                &&& final(self).spec_lookup(name@) == Some(v)
                &&& forall|k: Seq<char>| k != name@ ==> #[trigger] final(self).spec_lookup(k) == old(self).spec_lookup(k)
                &&& final(self).steps() == old(self).steps() - 1
            }),
            old(self).steps() > 0 && !names_place(*place) ==> r is Ok && same_state(*old(self), *final(self))
                && final(self).steps() == old(self).steps() - 1,
        decreases old(self).steps(),
    {
        let ghost start = *self;
        self.tick()?;
        proof {
            lemma_same_lookups(&start, self);
        }
        match place {
            Stmt::Word(name) => {
                self.update(name.to_str(), v);
                Ok(())
            },
            Stmt::Call(f, fargs) => {
                if fargs.len() == 2 && (f.to_str_is("index") || f.to_str_is(".")) {
                    match &**f {
                        Stmt::Word(_) => {
                            let c = self.eval(&fargs[0])?;
                            let k = self.eval(&fargs[1])?;
                            let c2 = put(&c, &k, v)?;
                            self.assign_place(&fargs[0], c2)
                        },
                        _ => Ok(()),
                    }
                } else {
                    Ok(())
                }
            },
            _ => Ok(()),
        }
    }

    /// `if`: runs the body of the first branch whose test is truthy, in
    /// a scope of its own.
    fn eval_if(&mut self, conds: &Vec<(Stmt, Vec<Stmt>)>) -> (r: Result<Value>)
        requires
            old(self).wf(),
        ensures
            stepped(*old(self), *final(self), r is Ok),
            r is Ok ==> r == Ok::<Value, Error>(Value::Nil),
            branched(*old(self), conds@, *final(self), r),
            first_test(*old(self), conds@, *final(self), r),
            branches_pure(old(self).bindings(), conds@) ==> {
                &&& final(self).maps() == old(self).maps()
                &&& final(self).kept() == old(self).kept()
                &&& no_jump(r)
            },
        decreases old(self).steps(),
    {
        let ghost vars = old(self).bindings();
        let ghost ok = branches_pure(vars, conds@);
        let ghost start = *self;
        self.tick()?;
        proof {
            lemma_same_bindings(&start, self);
        }
        let ghost mut b0 = *self;
        let ghost mut m0 = *self;
        let ghost mut v0 = Value::Nil;
        let mut i: usize = 0;
        while i < conds.len()
            invariant
                i <= conds@.len(),
                i == 0 ==> same_state(*old(self), *self),
                i > 0 ==> same_state(*old(self), b0) && stmt_post(b0, conds@[0].0, m0, Ok::<Value, Error>(v0))
                    && !truthy(v0),
                i == 1 ==> *self == m0,
                self.wf(),
                self.ids() == old(self).ids(),
                self.steps() < old(self).steps(),
                old(self).output().is_prefix_of(self.output()),
                vars == old(self).bindings(),
                ok == branches_pure(vars, conds@),
                ok ==> same_state(*old(self), *self),
                ok ==> forall|j: int| 0 <= j < i ==> tests_to(vars, (#[trigger] conds@[j]).0, false),
            decreases conds.len() - i,
        {
            proof {
                if ok {
                    lemma_same_bindings(old(self), self);
                    assert(pure_stmt(vars, conds@[i as int].0));
                }
            }
            let ghost pre = *self;
            let t = self.eval(&conds[i].0)?;
            proof {
                if i == 0 {
                    assert(pre.steps() > 0);
                    b0 = pre;
                    m0 = *self;
                    v0 = t;
                }
            }
            if t.to_bool() {
                let ghost base = *self;
                let ghost first = i == 0 && all_pure(base.bindings(), conds@[0].1@);
                proof {
                    if ok {
                        lemma_same_bindings(old(self), &base);
                        assert(pure_evals(vars, conds@[i as int].0, t) && truthy(t));
                        assert(takes_branch(vars, conds@, i as int));
                    }
                }
                self.push_scope();
                proof {
                    if ok || first {
                        lemma_empty_top(self, &base);
                    }
                    if ok {
                        assert(all_pure(vars, conds@[i as int].1@));
                    }
                }
                let ghost pushed = *self;
                let res = self.block(&conds[i].1);
                let ghost before_pop = *self;
                self.pop_scope();
                res?;
                proof {
                    if ok {
                        assert(frees_top(before_pop));
                        assert(self.maps() =~= base.maps());
                        assert(self.kept() =~= base.kept());
                        let texts = choose|texts: Seq<Seq<char>>|
                            #[trigger] tags_printed(vars, conds@[i as int].1@, texts) && before_pop.output()
                                == pushed.output() + joined_texts(texts);
                        assert(tags_printed(vars, conds@[i as int].1@, texts) && self.output()
                            == old(self).output() + joined_texts(texts));
                    }
                    if first {
                        assert(frees_top(before_pop));
                        assert(self.maps() =~= base.maps());
                        assert(self.kept() =~= base.kept());
                        let texts = choose|texts: Seq<Seq<char>>|
                            #[trigger] tags_printed(base.bindings(), conds@[0].1@, texts) && before_pop.output()
                                == pushed.output() + joined_texts(texts);
                        assert(tags_printed(m0.bindings(), conds@[0].1@, texts) && self.output() == m0.output()
                            + joined_texts(texts));
                    }
                }
                return Ok(Value::Nil);
            }
            proof {
                if ok {
                    assert(pure_evals(vars, conds@[i as int].0, t) && !truthy(t));
                    assert(tests_to(vars, conds@[i as int].0, false));
                }
            }
            i += 1;
        }
        proof {
            if ok {
                assert(takes_branch(vars, conds@, conds@.len() as int));
            }
        }
        Ok(Value::Nil)
    }

    /// `while`: runs the body in a scope of its own, emptied after each
    /// round that ends normally, for as long as the test is truthy.
    /// `break` leaves the loop, `continue` starts the next round.
    fn eval_while(&mut self, test: &Stmt, body: &Vec<Stmt>) -> (r: Result<Value>)
        requires
            old(self).wf(),
        ensures
            stepped(*old(self), *final(self), r is Ok),
            r is Ok ==> r == Ok::<Value, Error>(Value::Nil),
            old(self).steps() >= 2 && sure_stmt(old(self).bindings(), *test) && !truthy(
                sure_value(old(self).bindings(), *test),
            ) ==> r == Ok::<Value, Error>(Value::Nil),
            whiled(*old(self), *test, body@, *final(self), r),
        decreases old(self).steps(),
    {
        let ghost pure = pure_stmt(old(self).bindings(), *test) && all_pure(old(self).bindings(), body@);
        let ghost vars = old(self).bindings();
        let ghost done = old(self).steps() >= 2 && sure_stmt(vars, *test) && !truthy(sure_value(vars, *test));
        let ghost start = *self;
        self.tick()?;
        let ghost base = self.ids();
        let ghost ticked = *self;
        self.push_scope();
        proof {
            lemma_same_bindings(&start, &ticked);
            lemma_empty_top(self, &ticked);
        }
        let ghost inner = self.ids();
        loop
            invariant_except_break
                done ==> self.bindings() == vars && self.steps() == old(self).steps() - 1,
            invariant
                pure == (pure_stmt(vars, *test) && all_pure(vars, body@)),
                pure ==> self.maps().len() == ticked.maps().len() + 1,
                pure ==> forall|j: int| 0 <= j < ticked.maps().len() ==> #[trigger] self.maps()[j] == ticked.maps()[j],
                pure ==> self.frame(self.depth() - 1).entries@.len() == 0,
                pure ==> self.kept() == ticked.kept().push(false),
                pure ==> self.bindings() == vars,
                ticked.maps() == old(self).maps(),
                ticked.kept() == old(self).kept(),
                ticked.ids() == base,
                ticked.wf(),
                inner.last() == ticked.maps().len(),
                ticked.bindings() == vars,
                done == (old(self).steps() >= 2 && sure_stmt(vars, *test) && !truthy(sure_value(vars, *test))),
                vars == old(self).bindings(),
                self.wf(),
                self.ids() == inner,
                inner.len() == base.len() + 1,
                inner.drop_last() == base,
                base == old(self).ids(),
                base.len() >= 1,
                self.steps() < old(self).steps(),
                old(self).output().is_prefix_of(self.output()),
            ensures
                pure ==> tests_to(vars, *test, false),
                self.wf(),
                self.ids() == inner,
                self.steps() < old(self).steps(),
                old(self).output().is_prefix_of(self.output()),
                pure ==> {
                    &&& self.maps().len() == ticked.maps().len() + 1
                    &&& forall|j: int| 0 <= j < ticked.maps().len() ==> #[trigger] self.maps()[j] == ticked.maps()[j]
                    &&& self.kept() == ticked.kept().push(false)
                },
            decreases self.fuel,
        {
            let ghost pre_test = *self;
            let t = match self.eval(test) {
                Ok(t) => t,
                Err(e) => {
                    self.pop_scope();
                    return Err(e);
                },
            };
            proof {
                if pure {
                    lemma_same_bindings(&pre_test, self);
                }
            }
            if !t.to_bool() {
                proof {
                    if pure {
                        assert(pure_evals(vars, *test, t) && !truthy(t));
                        assert(tests_to(vars, *test, false));
                    }
                }
                break;
            }
            let ghost before_body = *self;
            match self.block(body) {
                Ok(_) => {
                    let ghost after_body = *self;
                    self.clear_top();
                    proof {
                        if pure {
                            assert forall|j: int| 0 <= j < ticked.maps().len() implies #[trigger] self.maps()[j]
                                == ticked.maps()[j] by {
                                assert(j != self.ids().last());
                                assert(self.maps()[j] == after_body.maps()[j]);
                            }
                            lemma_empty_top(self, &ticked);
                        }
                    }
                },
                Err(e) => match e.kind {
                    ErrorKind::Jump(Jump::Break) => {
                        break;
                    },
                    ErrorKind::Jump(Jump::Continue) => {},
                    _ => {
                        self.pop_scope();
                        return Err(e);
                    },
                },
            }
        }
        let ghost before_pop = *self;
        self.pop_scope();
        proof {
            if pure {
                assert(tests_to(vars, *test, false));
                assert(frees_top(before_pop));
                assert(self.maps() =~= old(self).maps());
                assert(self.kept() =~= old(self).kept());
            }
        }
        Ok(Value::Nil)
    }

    /// `for`: runs the body once per item of a list or map, in a scope of
    /// its own where the loop variables are bound, emptied after each
    /// round that ends normally.
    fn eval_for(&mut self, key: &Option<Symbol>, var: &Symbol, e: &Stmt, body: &Vec<Stmt>) -> (r: Result<Value>)
        requires
            old(self).wf(),
        ensures
            stepped(*old(self), *final(self), r is Ok),
            r is Ok ==> r == Ok::<Value, Error>(Value::Nil),
            looped(*old(self), *key, *var, *e, body@, *final(self), r),
            for_printing(old(self).bindings(), *key, *var, *e, body@) ==> {
                &&& final(self).maps() == old(self).maps()
                &&& final(self).kept() == old(self).kept()
                &&& no_jump(r)
            },
        decreases old(self).steps(),
    {
        let ghost vars = old(self).bindings();
        let ghost start = *self;
        self.tick()?;
        proof {
            lemma_same_bindings(&start, self);
        }
        let v = self.eval(e)?;
        let items = for_items(&v)?;
        let ghost ok = pure_stmt(vars, *e) && rounds_pure(vars, *key, *var, items@, body@);
        let ghost base = *self;
        proof {
            if for_printing(vars, *key, *var, *e, body@) {
                assert(pure_evals(vars, *e, v) && loop_items(v, items@));
                assert(ok);
            }
            if ok {
                lemma_same_bindings(&start, &base);
            }
        }
        self.push_scope();
        let ghost inner = self.ids();
        let ghost top = base.maps().len() as int;
        let ghost mut texts: Seq<Seq<Seq<char>>> = Seq::empty();
        let mut i: usize = 0;
        while i < items.len()
            invariant
                i <= items@.len(),
                self.wf(),
                self.ids() == inner,
                inner.len() == base.ids().len() + 1,
                inner.drop_last() == base.ids(),
                inner.last() == top,
                base.ids() == old(self).ids(),
                base.ids().len() >= 1,
                base.wf(),
                top == base.maps().len(),
                self.steps() < old(self).steps(),
                old(self).output().is_prefix_of(self.output()),
                ok ==> vars == base.bindings(),
                ok ==> base.maps() == old(self).maps() && base.kept() == old(self).kept(),
                ok == (pure_stmt(vars, *e) && rounds_pure(vars, *key, *var, items@, body@)),
                vars == old(self).bindings(),
                for_printing(vars, *key, *var, *e, body@) ==> ok,
                ok ==> rounds_pure(vars, *key, *var, items@, body@),
                ok ==> self.maps().len() == base.maps().len() + 1,
                ok ==> forall|j: int| 0 <= j < base.maps().len() ==> #[trigger] self.maps()[j] == base.maps()[j],
                ok ==> self.maps()[top].entries@.len() == 0,
                ok ==> self.kept() == base.kept().push(false),
                ok ==> texts.len() == i,
                ok ==> forall|j: int|
                    0 <= j < i ==> tags_printed(round_vars(vars, *key, *var, #[trigger] items@[j]), body@, texts[j]),
                ok ==> self.output() == base.output() + joined_rounds(texts),
            ensures
                ok ==> i == items@.len(),
            decreases items.len() - i,
        {
            let ghost round_start = *self;
            proof {
                if ok {
                    lemma_empty_top(&round_start, &base);
                }
            }
            match key {
                Some(k) => {
                    self.set(k.to_str(), items[i].0.clone());
                },
                None => {},
            }
            self.set(var.to_str(), items[i].1.clone());
            let ghost rv = round_vars(vars, *key, *var, items@[i as int]);
            let ghost set_done = *self;
            proof {
                if ok {
                    assert(self.bindings() =~= rv);
                    assert(all_pure(rv, body@));
                }
            }
            match self.block(body) {
                Ok(_) => {
                    let ghost after_body = *self;
                    self.clear_top();
                    proof {
                        if ok {
                            let t = choose|t: Seq<Seq<char>>|
                                #[trigger] tags_printed(rv, body@, t) && after_body.output()
                                    == set_done.output() + joined_texts(t);
                            let prev = texts;
                            texts = texts.push(t);
                            assert(texts.drop_last() == prev);
                            assert(self.maps()[top] == self.maps()[inner.last() as int]);
                        }
                    }
                },
                Err(e) => match e.kind {
                    ErrorKind::Jump(Jump::Break) => {
                        break;
                    },
                    ErrorKind::Jump(Jump::Continue) => {},
                    _ => {
                        let ghost before_pop = *self;
                        self.pop_scope();
                        proof {
                            if ok {
                                assert(frees_top(before_pop));
                                assert(self.maps() =~= base.maps());
                                assert(self.kept() =~= base.kept());
                            }
                        }
                        return Err(e);
                    },
                },
            }
            i += 1;
        }
        let ghost before_pop = *self;
        self.pop_scope();
        proof {
            if ok {
                assert(frees_top(before_pop));
                assert(self.maps() =~= base.maps());
                assert(self.kept() =~= base.kept());
                assert(rounds_printed(vars, *key, *var, items@, body@, texts));
            }
        }
        Ok(Value::Nil)
    }

    /// `name := e` binds a new variable in the innermost scope; `name = e`
    /// changes one that is bound, keeping its type.
    fn eval_assign(&mut self, name: &Symbol, e: &Stmt, reassign: bool) -> (r: Result<Value>)
        requires
            old(self).wf(),
        ensures
            stepped(*old(self), *final(self), r is Ok),
            assign_result(*old(self), name@, reassign, r),
            assigned(*old(self), name@, *e, reassign, *final(self), r),
            assigned_any(*old(self), name@, *e, reassign, *final(self), r),
            !reassign && r is Ok ==> final(self).binds_nearest(name@),
            !reassign && !old(self).binds_nearest(name@) && old(self).steps() >= 2 && sure_stmt(
                old(self).bindings(),
                *e,
            ) ==> r is Ok && final(self).spec_lookup(name@) == Some(sure_value(old(self).bindings(), *e)),
        decreases old(self).steps(),
    {
        let ghost start = *self;
        let ghost vars = start.bindings();
        self.tick()?;
        proof {
            lemma_same_lookups(&start, self);
            lemma_same_bindings(&start, self);
        }
        if !reassign && self.scope().get(name.to_str()).is_some() {
            return Err(fail(name.to_str(), " already set"));
        }
        let exists = self.var_exists(name.to_str());
        if !exists && reassign {
            return Err(fail(name.to_str(), " is not set"));
        }
        let ghost mid = *self;
        let val = self.eval(e)?;
        let ghost m = *self;
        proof {
            assert(mid.steps() > 0);
            assert(stmt_post(mid, *e, m, Ok::<Value, Error>(val)));
        }
        let ghost pure = pure_stmt(vars, *e);
        proof {
            if pure {
                lemma_same_lookups(&mid, self);
                lemma_same_bindings(&mid, self);
            }
        }
        let ghost before_store = *self;
        if reassign {
            match self.lookup(name.to_str()) {
                Some(old_val) => {
                    if !str_eq(old_val.typename(), val.typename()) {
                        return Err(fail(name.to_str(), " changed type"));
                    }
                },
                None => {
                    return Err(fail(name.to_str(), " is not set"));
                },
            }
            self.update(name.to_str(), val);
        } else {
            self.set(name.to_str(), val);
        }
        proof {
            assert(self.bindings() =~= before_store.bindings().insert(name@, val));
            if pure {
                assert(pure_evals(vars, *e, val));
            }
        }
        Ok(Value::Nil)
    }

    /// Evaluates a tag to its HTML. The body is printed into an output
    /// of its own, and the output as it was is restored after it. A
    /// `<debug>` tag is evaluated and gives `None`.
    #[verifier::spinoff_prover]
    #[verifier::rlimit(50)]
    fn eval_tag(&mut self, tag: &Tag) -> (r: Result<Value>)
        requires
            old(self).wf(),
        ensures
            stepped(*old(self), *final(self), r is Ok),
            r matches Ok(v) ==> (v is String || v is Nil),
            pure_stmt(old(self).bindings(), Stmt::Tag(*tag)) ==> same_state(*old(self), *final(self)),
            pure_stmt(old(self).bindings(), Stmt::Tag(*tag)) ==> (r matches Ok(v) ==> pure_evals(
                old(self).bindings(),
                Stmt::Tag(*tag),
                v,
            )),
            pure_stmt(old(self).bindings(), Stmt::Tag(*tag)) ==> no_jump(r),
        decreases old(self).steps(),
    {
        let ghost vars = old(self).bindings();
        let ghost pure = pure_stmt(vars, Stmt::Tag(*tag));
        self.tick()?;
        proof {
            lemma_same_bindings(old(self), self);
        }
        let name_v = self.eval(&tag.tag)?;
        let name = name_v.to_string();
        let mut id: Option<Value> = None;
        let ghost mut id_o: Option<Value> = None;
        if tag.id.is_some() {
            proof {
                if pure {
                    lemma_same_bindings(old(self), self);
                }
            }
            let v = self.eval(&tag.id)?;
            proof {
                id_o = Some(v);
            }
            if v.to_bool() {
                id = Some(v);
            }
        }
        assert(id == kept_id(id_o));
        let mut classes: Vec<Value> = Vec::new();
        let ghost mut cs: Seq<Value> = Seq::empty();
        let mut i: usize = 0;
        while i < tag.classes.len()
            invariant
                i <= tag.classes@.len(),
                self.wf(),
                self.ids() == old(self).ids(),
                self.steps() < old(self).steps(),
                old(self).output().is_prefix_of(self.output()),
                vars == old(self).bindings(),
                pure == pure_stmt(vars, Stmt::Tag(*tag)),
                pure ==> same_state(*old(self), *self),
                cs.len() == i,
                classes@ == kept_classes(cs),
                pure ==> forall|j: int|
                    0 <= j < i ==> pure_evals(vars, #[trigger] tag.classes@[j], cs[j]),
            decreases tag.classes.len() - i,
        {
            proof {
                if pure {
                    lemma_same_bindings(old(self), self);
                }
            }
            let v = self.eval(&tag.classes[i])?;
            if v.to_bool() {
                classes.push(v);
            }
            proof {
                let prev = cs;
                cs = cs.push(v);
                assert(cs.drop_last() == prev);
            }
            i += 1;
        }
        let mut attrs: Vec<(String, Value)> = Vec::new();
        let ghost mut an: Seq<Value> = Seq::empty();
        let ghost mut av: Seq<Value> = Seq::empty();
        let mut i: usize = 0;
        while i < tag.attrs.len()
            invariant
                i <= tag.attrs@.len(),
                self.wf(),
                self.ids() == old(self).ids(),
                self.steps() < old(self).steps(),
                old(self).output().is_prefix_of(self.output()),
                vars == old(self).bindings(),
                pure == pure_stmt(vars, Stmt::Tag(*tag)),
                pure ==> same_state(*old(self), *self),
                an.len() == i,
                av.len() == i,
                attr_views(attrs@) == kept_attrs(an, av),
                pure ==> forall|j: int|
                    0 <= j < i ==> pure_evals(vars, (#[trigger] tag.attrs@[j]).1, av[j]) && (truthy(
                        av[j],
                    ) ==> pure_evals(vars, tag.attrs@[j].0, an[j])),
            decreases tag.attrs.len() - i,
        {
            proof {
                if pure {
                    lemma_same_bindings(old(self), self);
                }
            }
            let v = self.eval(&tag.attrs[i].1)?;
            let ghost mut n_v = Value::Nil;
            let ghost prev_attrs = attrs@;
            if v.to_bool() {
                proof {
                    if pure {
                        lemma_same_bindings(old(self), self);
                    }
                }
                let n = self.eval(&tag.attrs[i].0)?;
                proof {
                    n_v = n;
                }
                let n_s = n.to_string();
                attrs.push((n_s, v));
                assert(attr_views(attrs@) =~= attr_views(prev_attrs).push((spec_display(n), v)));
            }
            proof {
                let (pa, pv) = (an, av);
                an = an.push(n_v);
                av = av.push(v);
                assert(an.drop_last() == pa);
                assert(av.drop_last() == pv);
            }
            i += 1;
        }
        let head = write_head(name.as_str(), &id, tag.classes.len() > 0, classes.as_slice(), attrs.as_slice());
        assert(head@ == crate::html::tag_head(
            spec_display(name_v),
            kept_id(id_o),
            tag.classes@.len() > 0,
            kept_classes(cs),
            kept_attrs(an, av),
        ));
        if tag.closed {
            let html = write_tag(head, name.as_str(), true, "");
            proof {
                let texts = Seq::<Seq<char>>::empty();
                assert(html@ == tag_output(*tag, name_v, id_o, cs, an, av, texts));
            }
            return Ok(Value::String(html));
        }
        let ghost before = *self;
        let saved = self.out();
        proof {
            if pure {
                lemma_same_bindings(old(self), self);
                assert(body_ok(vars, tag.body@));
            }
        }
        let res = self.printed_block(&tag.body);
        let body = self.out();
        self.out = saved;
        assert(self.output() == before.output());
        res?;
        let html = write_tag(head, name.as_str(), false, body.as_str());
        proof {
            if pure {
                let texts = choose|texts: Seq<Seq<char>>|
                    #[trigger] printed_all(vars, tag.body@, texts) && body@ == Seq::<char>::empty()
                        + joined_texts(texts);
                assert(body@ == joined_texts(texts));
                assert(texts.len() == tag.body@.len());
                assert forall|i: int| 0 <= i < tag.body@.len() implies if text_word(vars, #[trigger] tag.body@[i]) {
                    texts[i] == tag.body@[i]->Word_0@
                } else if tag.body@[i] is For {
                    loop_text(vars, tag.body@[i], texts[i])
                } else {
                    exists|bv: Value|
                        #![trigger printed_text(bv)]
                        pure_evals(vars, tag.body@[i], bv) && texts[i] == printed_text(bv)
                } by {
                    assert(printed_by(vars, tag.body@[i], texts[i]));
                    if !text_word(vars, tag.body@[i]) {
                        if tag.body@[i] is For {
                            lemma_loop_text(vars, tag.body@[i], texts[i]);
                        } else {
                            assert(pure_stmt(vars, tag.body@[i]));
                        }
                    }
                }
                assert(html@ == tag_output(*tag, name_v, id_o, cs, an, av, texts));
                let v = if !tag.closed && spec_display(name_v) == "debug"@ {
                    Value::Nil
                } else {
                    Value::String(html)
                };
                lemma_tag_evals(vars, *tag, name_v, id_o, cs, an, av, texts, v);
            }
        }
        if str_eq(name.as_str(), "debug") {
            Ok(Value::Nil)
        } else {
            Ok(Value::String(html))
        }
    }

    /// Renders statements to HTML: what the statements print, wrapped in
    /// a doctype and `<html>` when the first is a `<head>` tag. What was
    /// printed before is returned in front, and the output is left empty.
    pub fn render_stmts(&mut self, stmts: &Vec<Stmt>) -> (r: Result<String>)
        requires
            old(self).wf(),
        ensures
            final(self).wf(),
            final(self).ids() == old(self).ids(),
            r matches Ok(s) ==> render_admits(*old(self), stmts@, s@),
            r is Ok ==> final(self).output().len() == 0,
            body_sure(old(self).bindings(), stmts@) && old(self).steps() > stmts@.len() ==> r is Ok,
    {
        proof {
            reveal_strlit("<!DOCTYPE html>\n<html>");
            reveal_strlit("\n</html>\n");
            reveal_strlit("head");
        }
        let head = starts_with_head(stmts);
        let ghost start = self.output();
        if head {
            self.print_str("<!DOCTYPE html>\n<html>");
        }
        let ghost opened = self.output();
        proof {
            lemma_same_bindings(old(self), self);
        }
        self.printed_block(stmts)?;
        let ghost body = self.output().subrange(opened.len() as int, self.output().len() as int);
        assert(self.output() == opened + body);
        proof {
            if body_ok(old(self).bindings(), stmts@) {
                let texts = choose|texts: Seq<Seq<char>>|
                    #[trigger] printed_all(old(self).bindings(), stmts@, texts) && self.output()
                        == opened + joined_texts(texts);
                assert(body =~= joined_texts(texts));
            }
        }
        if head {
            self.print_str("\n</html>\n");
        }
        let out = self.out();
        proof {
            if head {
                assert(out@ =~= start + ("<!DOCTYPE html>\n<html>"@ + body + "\n</html>\n"@));
            } else {
                assert(out@ =~= start + body);
            }
            assert(out@ == start + wrapped(first_is_head(stmts@), body));
            if body_ok(old(self).bindings(), stmts@) {
                let texts = choose|texts: Seq<Seq<char>>|
                    #[trigger] printed_all(old(self).bindings(), stmts@, texts) && body
                        == joined_texts(texts);
                assert(out@ == start + wrapped(first_is_head(stmts@), joined_texts(texts)));
            }
        }
        Ok(out)
    }

    /// Renders source code; see `render_stmts`.
    pub fn render(&mut self, source: &str) -> (r: Result<String>)
        requires
            old(self).wf(),
        ensures
            final(self).wf(),
            final(self).ids() == old(self).ids(),
            r matches Ok(s) ==> exists|stmts: Seq<Stmt>|
                #![trigger compile_admits(source@, stmts)]
                compile_admits(source@, stmts) && render_admits(*old(self), stmts, s@),
            source@.len() == 0 && old(self).steps() > 0 ==> (r matches Ok(s) && s@ == old(self).output()),
            r is Ok ==> final(self).output().len() == 0,
            r matches Err(e) ==> failed_compiling(e) || exists|stmts: Seq<Stmt>|
                #![trigger compile_admits(source@, stmts)]
                compile_admits(source@, stmts) && !(body_sure(old(self).bindings(), stmts) && old(self).steps()
                    > stmts.len()),
            plain_word(source@) && !old(self).bindings().contains_key(source@) && old(self).steps() > 1 ==> (r matches Ok(
                s,
            ) && s@ == old(self).output() + source@),
            forall|n: int| #[trigger]
                tag_word_src(source@, n) && tag_line_parts(source@, n).0 != "debug"@ ==> (r matches Ok(s) ==> s@
                    == old(self).output() + tag_word_page(
                    source@,
                    n,
                    word_text(old(self).bindings(), tag_line_parts(source@, n).1),
                )),
            forall|e: Seq<int>| #[trigger]
                lines_src(source@, e) && lines_unbound(old(self).bindings(), source@, e) && old(self).steps()
                    > e.len() ==> (r matches Ok(s) && s@ == old(self).output() + lines_page(
                    source@,
                    e,
                    e.len() as int,
                )),
    {
        let stmts = compile(source)?;
        proof {
            if plain_word(source@) && !old(self).bindings().contains_key(source@) && old(self).steps() > 1 {
                assert(stmts@[0] is Word);
                assert(text_word(old(self).bindings(), stmts@[0]));
                assert(body_sure(old(self).bindings(), stmts@));
            }
        }
        let r = self.render_stmts(&stmts);
        proof {
            assert forall|e: Seq<int>| #[trigger]
                lines_src(source@, e) && lines_unbound(old(self).bindings(), source@, e) && old(self).steps()
                    > e.len() implies (r matches Ok(s) && s@ == old(self).output() + lines_page(
                source@,
                e,
                e.len() as int,
            )) by {
                let vars = old(self).bindings();
                let src = source@;
                assert(stmts@.len() == e.len());
                assert forall|k: int| 0 <= k < stmts@.len() implies sure_stmt(vars, #[trigger] stmts@[k])
                    || text_word(vars, stmts@[k]) by {
                    assert(line_stmt(line_text(src, e, k), stmts@[k]));
                    lemma_lines_text(vars, src, e, k, stmts@[k]);
                }
                assert(body_sure(vars, stmts@));
                assert(r is Ok);
                let s = r->Ok_0;
                assert forall|k: int| 0 <= k < stmts@.len() implies text_word(vars, #[trigger] stmts@[k])
                    || pure_stmt(vars, stmts@[k]) || printing_stmt(vars, stmts@[k]) by {
                    assert(line_stmt(line_text(src, e, k), stmts@[k]));
                    lemma_lines_text(vars, src, e, k, stmts@[k]);
                }
                assert(body_ok(vars, stmts@));
                assert(render_admits(*old(self), stmts@, s@));
                let texts = choose|texts: Seq<Seq<char>>|
                    #[trigger] printed_all(vars, stmts@, texts) && s@ == old(self).output() + wrapped(
                        first_is_head(stmts@),
                        joined_texts(texts),
                    );
                assert(line_stmt(line_text(src, e, 0), stmts@[0]));
                lemma_lines_text(vars, src, e, 0, stmts@[0]);
                assert(!first_is_head(stmts@));
                assert forall|k: int| 0 <= k < texts.len() implies #[trigger] texts[k] == line_out(line_text(src, e, k)) by {
                    assert(line_stmt(line_text(src, e, k), stmts@[k]));
                    lemma_lines_text(vars, src, e, k, stmts@[k]);
                    assert(printed_by(vars, stmts@[k], texts[k]));
                }
                lemma_lines_joined(src, e, texts, texts.len() as int);
                assert(texts.take(texts.len() as int) =~= texts);
            }
            assert forall|n: int| #[trigger]
                tag_word_src(source@, n) && tag_line_parts(source@, n).0 != "debug"@ && r is Ok implies r->Ok_0@
                == old(self).output() + tag_word_page(
                source@,
                n,
                word_text(old(self).bindings(), tag_line_parts(source@, n).1),
            ) by {
                let vars = old(self).bindings();
                lemma_tag_word_rendered(vars, source@, n, stmts@);
                assert(render_admits(*old(self), stmts@, r->Ok_0@));
            }
            if plain_word(source@) && !old(self).bindings().contains_key(source@) && old(self).steps() > 1 {
                let s = r->Ok_0;
                let vars = old(self).bindings();
                assert(text_word(vars, stmts@[0]));
                assert(body_ok(vars, stmts@));
                let texts = choose|texts: Seq<Seq<char>>|
                    #[trigger] printed_all(vars, stmts@, texts) && s@ == old(self).output() + wrapped(
                        first_is_head(stmts@),
                        joined_texts(texts),
                    );
                assert(printed_by(vars, stmts@[0], texts[0]));
                assert(texts[0] == source@);
                assert(texts.drop_last().len() == 0);
                assert(joined_texts(texts.drop_last()) == Seq::<char>::empty());
                assert(texts.last() == texts[0]);
                assert(joined_texts(texts) =~= texts[0]);
                assert(!first_is_head(stmts@));
            }
        }
        assert(r is Err ==> compile_admits(source@, stmts@) && !(body_sure(old(self).bindings(), stmts@)
            && old(self).steps() > stmts@.len()));
        assert(r matches Ok(s) ==> compile_admits(source@, stmts@) && render_admits(*old(self), stmts@, s@));
        proof {
            if source@.len() == 0 && old(self).steps() > 0 {
                assert(body_ok(old(self).bindings(), stmts@));
                if r is Ok {
                    let s = r->Ok_0;
                    let texts = choose|texts: Seq<Seq<char>>|
                        #[trigger] printed_all(old(self).bindings(), stmts@, texts) && s@ == old(self).output()
                            + wrapped(first_is_head(stmts@), joined_texts(texts));
                    assert(texts.len() == 0);
                    assert(joined_texts(texts) == Seq::<char>::empty());
                    assert(s@ =~= old(self).output());
                }
            }
        }
        r
    }

    /// Evaluates source code, returning the value of its last statement.
    pub fn eval_src(&mut self, source: &str) -> (r: Result<Value>)
        requires
            old(self).wf(),
        ensures
            stepped(*old(self), *final(self), r is Ok),
            r matches Ok(v) ==> exists|stmts: Seq<Stmt>|
                #![trigger compile_admits(source@, stmts)]
                compile_admits(source@, stmts) && eval_admits(*old(self), stmts, v),
            source@.len() == 0 && old(self).steps() > 0 ==> r == Ok::<Value, Error>(Value::Nil),
            r matches Err(e) ==> failed_compiling(e) || exists|stmts: Seq<Stmt>|
                #![trigger compile_admits(source@, stmts)]
                compile_admits(source@, stmts) && !(all_sure(old(self).bindings(), stmts) && old(self).steps()
                    > stmts.len()),
            digit_word(source@) && number_units(source@) is Some && old(self).steps() > 1 ==> (r matches Ok(
                Value::Number(n),
            ) && n.units() == number_units(source@)->0),
            forall|a: int, b: int, c: int, d: int, e: int| #[trigger]
                infix_src(source@, a, b, c, d, e) && infix_numbers(source@, a, b, c, d, e) && infix_ops_pure(
                    old(self).bindings(),
                    source@,
                    a,
                    b,
                    c,
                    d,
                    e,
                ) ==> (r matches Ok(v) ==> infix_evals(old(self).bindings(), source@, a, b, c, d, e, v)),
    {
        match compile(source) {
            Ok(stmts) => {
                proof {
                    assert forall|a: int, b: int, c: int, d: int, e: int|
                        #[trigger] infix_src(source@, a, b, c, d, e) && infix_numbers(source@, a, b, c, d, e)
                            && infix_ops_pure(old(self).bindings(), source@, a, b, c, d, e) implies all_pure(
                        old(self).bindings(),
                        stmts@,
                    ) && stmts@.last() == stmts@[0] && infix_stmt(source@, a, b, c, d, e, stmts@[0]) by {
                        lemma_infix_pure(old(self).bindings(), source@, a, b, c, d, e, stmts@[0]);
                    }
                    if digit_word(source@) && number_units(source@) is Some && old(self).steps() > 1 {
                        assert(sure_stmt(old(self).bindings(), stmts@[0]));
                        assert(all_sure(old(self).bindings(), stmts@));
                    }
                }
                let r = self.block(&stmts);
                proof {
                    if digit_word(source@) && number_units(source@) is Some && old(self).steps() > 1 {
                        lemma_sure_pure(old(self).bindings(), stmts@);
                        assert(stmts@.last() == stmts@[0]);
                    }
                }
                assert(r matches Ok(v) ==> compile_admits(source@, stmts@) && eval_admits(*old(self), stmts@, v));
                assert(r is Err ==> compile_admits(source@, stmts@) && !(all_sure(old(self).bindings(), stmts@)
                    && old(self).steps() > stmts@.len()));
                r
            },
            Err(e) => Err(e),
        }
    }

    /// Nothing binds `k` in the bottom `n` scopes: looking it up there
    /// finds nothing.
    proof fn lemma_lookup_none(&self, n: int, k: Seq<char>)
        requires
            n <= self.depth(),
            forall|m: int| 0 <= m < n ==> !#[trigger] self.frame(m).has_key(k),
        ensures
            self.lookup_in(n, k) is None,
        decreases n,
    {
        if n > 0 {
            self.lemma_lookup_none(n - 1, k);
        }
    }
}

/// Two environments with the same stack, whose scopes agree on `k`,
/// look `k` up alike.
proof fn lemma_lookup_agree(a: &Env, b: &Env, n: int, k: Seq<char>)
    requires
        n <= a.depth(),
        n <= b.depth(),
        forall|i: int| 0 <= i < n ==> (a.frame(i).has_key(k) == b.frame(i).has_key(k) && a.frame(i).spec_get(k) == b.frame(i).spec_get(k)),
    ensures
        a.lookup_in(n, k) == b.lookup_in(n, k),
    decreases n,
{
    if n > 0 {
        lemma_lookup_agree(a, b, n - 1, k);
    }
}

/// Environments with the same stack and scopes look everything up alike.
proof fn lemma_same_lookups(a: &Env, b: &Env)
    requires
        a.maps() == b.maps(),
        a.ids() == b.ids(),
    ensures
        forall|k: Seq<char>| #[trigger] a.spec_lookup(k) == b.spec_lookup(k),
{
    assert forall|k: Seq<char>| #[trigger] a.spec_lookup(k) == b.spec_lookup(k) by {
        lemma_lookup_agree(a, b, a.depth(), k);
    }
}

/// The name of builtin `i`: the natives first, then the specials.
pub open spec fn builtin_name(i: int) -> Seq<char> {
    if i < native_table().len() {
        native_table()[i].0
    } else {
        special_table()[i - native_table().len()].0
    }
}

/// Is `k` the name of a builtin?
pub open spec fn builtin_named(k: Seq<char>) -> bool {
    exists|i: int| 0 <= i < native_table().len() + special_table().len() && #[trigger] builtin_name(i) == k
}

/// Is the word `op` bound in `vars` to a native that prints nothing, or
/// to `&&` or `||`?
pub open spec fn op_pure(vars: Map<Seq<char>, Value>, op: Seq<char>) -> bool {
    &&& op != "break"@
    &&& op != "continue"@
    &&& quiet_native(vars, op) is Some || logic_special(vars, op) is Some
}

/// Are both operators of the line `a op b op c` (see `infix_src`) such
/// words in `vars`?
pub open spec fn infix_ops_pure(vars: Map<Seq<char>, Value>, s: Seq<char>, n1: int, m1: int, n2: int, m2: int, n3: int) -> bool {
    &&& op_pure(vars, s.subrange(n1 + 1, n1 + 1 + m1))
    &&& op_pure(vars, s.subrange(n1 + m1 + n2 + 3, n1 + m1 + n2 + 3 + m2))
}

/// `v` is what the line `a op b op c` evaluates to where `vars` are
/// bound: the value of its statement.
pub open spec fn infix_evals(
    vars: Map<Seq<char>, Value>,
    s: Seq<char>,
    n1: int,
    m1: int,
    n2: int,
    m2: int,
    n3: int,
    v: Value,
) -> bool {
    exists|x: Stmt| #[trigger] infix_stmt(s, n1, m1, n2, m2, n3, x) && pure_evals(vars, x, v)
}

/// The statement of the line `a op b op c` touches nothing where its
/// operators are bound to such words.
proof fn lemma_infix_pure(vars: Map<Seq<char>, Value>, s: Seq<char>, n1: int, m1: int, n2: int, m2: int, n3: int, x: Stmt)
    requires
        infix_src(s, n1, m1, n2, m2, n3),
        infix_stmt(s, n1, m1, n2, m2, n3, x),
        infix_ops_pure(vars, s, n1, m1, n2, m2, n3),
    ensures
        pure_stmt(vars, x),
{
    let c2 = n1 + m1 + 2;
    let e2 = c2 + n2;
    let c4 = n1 + m1 + n2 + m2 + 4;
    lemma_operand_run(s, 0, n1);
    lemma_operand_run(s, c2, e2);
    lemma_operand_run(s, c4, s.len() as int);
    assert(s.subrange(0, n1)[0] == s[0]);
    assert(s.subrange(c2, e2)[0] == s[c2]);
    assert(s.subrange(c4, s.len() as int)[0] == s[c4]);
    assert(operand_char(s[0]) && operand_char(s[c2]) && operand_char(s[c4]));
    reveal_strlit("true");
    reveal_strlit("false");
    reveal_strlit("break");
    reveal_strlit("continue");
    let op1 = s.subrange(n1 + 1, n1 + 1 + m1);
    let op2 = s.subrange(n1 + m1 + n2 + 3, n1 + m1 + n2 + 3 + m2);
    let args = x->Call_1;
    if crate::parser::op_power(op1) < crate::parser::op_power(op2) {
        let inner = args@[1];
        assert(binary_call(inner, op2));
        assert(pure_stmt(vars, inner->Call_1@[0]));
        assert(pure_stmt(vars, inner->Call_1@[1]));
        assert(pure_stmt(vars, inner));
        assert(pure_stmt(vars, args@[0]));
    } else {
        let inner = args@[0];
        assert(binary_call(inner, op1));
        assert(pure_stmt(vars, inner->Call_1@[0]));
        assert(pure_stmt(vars, inner->Call_1@[1]));
        assert(pure_stmt(vars, inner));
        assert(pure_stmt(vars, args@[1]));
    }
}

/// What a line holding the lone operand `w` prints where no variable
/// is named `w`: the number of a run of digits, else `w` itself.
pub open spec fn line_out(w: Seq<char>) -> Seq<char> {
    if digit_word(w) {
        crate::number::display(number_units(w)->0)
    } else {
        w
    }
}

/// The page that the first `n` lines of lone operands (see `lines_src`)
/// print: what each line prints, in order.
pub open spec fn lines_page(s: Seq<char>, e: Seq<int>, n: int) -> Seq<char>
    decreases n,
{
    if n <= 0 {
        Seq::empty()
    } else {
        lines_page(s, e, n - 1) + line_out(line_text(s, e, n - 1))
    }
}

/// Is no line's word, but `true` and `false`, a variable of `vars`?
pub open spec fn lines_unbound(vars: Map<Seq<char>, Value>, s: Seq<char>, e: Seq<int>) -> bool {
    forall|k: int|
        0 <= k < e.len() && !digit_word(#[trigger] line_text(s, e, k)) && line_text(s, e, k) != "true"@
            && line_text(s, e, k) != "false"@ ==> !vars.contains_key(line_text(s, e, k))
}

/// Is no line's word, but `true` and `false`, the name of a builtin?
pub open spec fn lines_not_builtin(s: Seq<char>, e: Seq<int>) -> bool {
    forall|k: int|
        0 <= k < e.len() && !digit_word(#[trigger] line_text(s, e, k)) && line_text(s, e, k) != "true"@
            && line_text(s, e, k) != "false"@ ==> !builtin_named(line_text(s, e, k))
}

/// Each line of lone operands, unbound, puts its own text in the page.
proof fn lemma_lines_text(vars: Map<Seq<char>, Value>, s: Seq<char>, e: Seq<int>, k: int, x: Stmt)
    requires
        lines_src(s, e),
        lines_unbound(vars, s, e),
        0 <= k < e.len(),
        line_stmt(line_text(s, e, k), x),
    ensures
        text_word(vars, x) || sure_stmt(vars, x),
        pure_stmt(vars, x) || text_word(vars, x),
        forall|t: Seq<char>| printed_by(vars, x, t) ==> t == line_out(line_text(s, e, k)),
        !(x is Tag),
{
    let w = line_text(s, e, k);
    reveal(operand_line);
    assert(operand_line(w));
    if digit_word(w) {
        assert(pure_evals(vars, x, x->Value_0));
        assert forall|t: Seq<char>| printed_by(vars, x, t) implies t == line_out(w) by {
            let bv = choose|bv: Value| #![trigger printed_text(bv)] pure_evals(vars, x, bv) && t == printed_text(bv);
            assert(bv == x->Value_0);
        }
    } else if w == "true"@ || w == "false"@ {
        assert(pure_evals(vars, x, x->Value_0));
        assert forall|t: Seq<char>| printed_by(vars, x, t) implies t == w by {
            let bv = choose|bv: Value| #![trigger printed_text(bv)] pure_evals(vars, x, bv) && t == printed_text(bv);
            assert(bv == x->Value_0);
        }
    } else {
        assert(!vars.contains_key(w));
        assert(w != "return"@);
        assert(text_word(vars, x));
    }
}

/// What the first `n` lines put in the page, joined.
proof fn lemma_lines_joined(s: Seq<char>, e: Seq<int>, texts: Seq<Seq<char>>, n: int)
    requires
        0 <= n <= texts.len(),
        forall|k: int| 0 <= k < n ==> #[trigger] texts[k] == line_out(line_text(s, e, k)),
    ensures
        joined_texts(texts.take(n)) == lines_page(s, e, n),
    decreases n,
{
    if n > 0 {
        lemma_lines_joined(s, e, texts, n - 1);
        assert(texts.take(n).drop_last() =~= texts.take(n - 1));
        assert(texts.take(n).last() == texts[n - 1]);
    }
}

/// The page of the tag line `<t> w` (see `tag_word_src`) whose body
/// puts `text` in the page: the tag `t` around `text`, in a doctype and
/// `<html>` when `t` is `head`.
pub open spec fn tag_word_page(s: Seq<char>, n: int, text: Seq<char>) -> Seq<char> {
    let name = s.subrange(1, 1 + n);
    wrapped(
        name == "head"@,
        crate::html::tag_html(
            crate::html::tag_head(name, None, false, Seq::empty(), Seq::empty()),
            name,
            false,
            text,
        ),
    )
}

/// What the word `w` puts in a tag's body where `vars` are bound: the
/// text of its value when it names a variable, else the word itself.
pub open spec fn word_text(vars: Map<Seq<char>, Value>, w: Seq<char>) -> Seq<char> {
    if vars.contains_key(w) {
        printed_text(vars[w])
    } else {
        w
    }
}

/// The word `w` of the tag line `<t> w`, and its name `t`.
pub open spec fn tag_line_parts(s: Seq<char>, n: int) -> (Seq<char>, Seq<char>) {
    (s.subrange(1, 1 + n), s.subrange(3 + n, s.len() as int))
}

/// The statement of a tag line is pure where its word names no variable,
/// and what it puts in a page is the page of the line.
proof fn lemma_tag_word_rendered(vars: Map<Seq<char>, Value>, s: Seq<char>, n: int, stmts: Seq<Stmt>)
    requires
        tag_word_src(s, n),
        stmts.len() == 1,
        tag_word_stmt(s, n, stmts[0]),
        tag_line_parts(s, n).0 != "debug"@,
    ensures
        body_ok(vars, stmts),
        forall|texts: Seq<Seq<char>>|
            #[trigger] printed_all(vars, stmts, texts) ==> wrapped(first_is_head(stmts), joined_texts(texts))
                == tag_word_page(s, n, word_text(vars, tag_line_parts(s, n).1)),
{
    reveal_strlit("return");
    reveal_strlit("break");
    reveal_strlit("continue");
    let t = stmts[0]->Tag_0;
    let w = s.subrange(3 + n, s.len() as int);
    let name = s.subrange(1, 1 + n);
    assert(stmts[0] == Stmt::Tag(t));
    assert(text_word(vars, t.body@[0]) || pure_stmt(vars, t.body@[0]));
    assert(pure_stmt(vars, *t.tag));
    assert forall|i: int| 0 <= i < t.body@.len() implies text_word(vars, #[trigger] t.body@[i]) || pure_stmt(
        vars,
        t.body@[i],
    ) by {
        assert(i == 0);
    }
    assert(pure_stmt(vars, *t.id));
    assert(forall|i: int| 0 <= i < t.classes@.len() ==> pure_stmt(vars, #[trigger] t.classes@[i]));
    assert(forall|i: int| 0 <= i < t.attrs@.len() ==> pure_stmt(vars, (#[trigger] t.attrs@[i]).0));
    assert(pure_stmt(vars, Stmt::Tag(t)));
    assert(pure_stmt(vars, stmts[0]));
    assert(body_ok(vars, stmts));
    assert forall|texts: Seq<Seq<char>>| #[trigger] printed_all(vars, stmts, texts) implies wrapped(
        first_is_head(stmts),
        joined_texts(texts),
    ) == tag_word_page(s, n, word_text(vars, w)) by {
        assert(printed_by(vars, stmts[0], texts[0]));
        assert(!text_word(vars, stmts[0]));
        assert(pure_stmt(vars, stmts[0]));
        let bv = choose|bv: Value| #![trigger printed_text(bv)] pure_evals(vars, stmts[0], bv) && texts[0]
            == printed_text(bv);
        assert(pure_evals(vars, Stmt::Tag(t), bv));
        let (name_v, id_o, cs, an, av, tx) = choose|
            name_v: Value,
            id_o: Option<Value>,
            cs: Seq<Value>,
            an: Seq<Value>,
            av: Seq<Value>,
            tx: Seq<Seq<char>>,
        | #![trigger tag_output(t, name_v, id_o, cs, an, av, tx)]
            {
                &&& pure_evals(vars, *t.tag, name_v)
                &&& if *t.id is Nil {
                    id_o is None
                } else {
                    id_o is Some && pure_evals(vars, *t.id, id_o->0)
                }
                &&& cs.len() == t.classes@.len()
                &&& an.len() == t.attrs@.len()
                &&& av.len() == t.attrs@.len()
                &&& !t.closed ==> tx.len() == t.body@.len()
                &&& !t.closed ==> forall|i: int|
                    #![trigger t.body@[i]]
                    0 <= i < t.body@.len() ==> {
                        if text_word(vars, t.body@[i]) {
                            tx[i] == t.body@[i]->Word_0@
                        } else if t.body@[i] is For {
                            loop_text(vars, t.body@[i], tx[i])
                        } else {
                            exists|bv: Value|
                                #![trigger printed_text(bv)]
                                pure_evals(vars, t.body@[i], bv) && tx[i] == printed_text(bv)
                        }
                    }
                &&& if !t.closed && spec_display(name_v) == "debug"@ {
                    bv == Value::Nil
                } else {
                    bv matches Value::String(h) && h@ == tag_output(t, name_v, id_o, cs, an, av, tx)
                }
            };
        assert(forall|nv: Value| pure_evals(vars, *t.tag, nv) ==> spec_display(nv) == name);
        assert(spec_display(name_v) == name);
        let b0 = t.body@[0];
        assert(tx.len() == 1);
        if text_word(vars, b0) {
            assert(tx[0] == b0->Word_0@);
        } else {
            assert(b0 == Stmt::Word(b0->Word_0));
            let bv2 = choose|bv2: Value| #![trigger printed_text(bv2)] pure_evals(vars, b0, bv2) && tx[0]
                == printed_text(bv2);
            assert(bv2 == vars[w]);
        }
        assert(tx[0] == word_text(vars, w));
        assert(joined_texts(tx) =~= word_text(vars, w)) by {
            assert(tx.drop_last().len() == 0);
            assert(joined_texts(tx.drop_last()) == Seq::<char>::empty());
        }
        assert(cs =~= Seq::<Value>::empty());
        assert(kept_classes(cs) =~= Seq::<Value>::empty());
        assert(kept_attrs(an, av) =~= Seq::<(Seq<char>, Value)>::empty());
        assert(texts[0] == tag_output(t, name_v, id_o, cs, an, av, tx));
        assert(joined_texts(texts) =~= texts[0]) by {
            assert(texts.drop_last().len() == 0);
            assert(joined_texts(texts.drop_last()) == Seq::<char>::empty());
        }
    }
}

/// A new environment binds the builtins and nothing else.
proof fn lemma_fresh_binds_builtins(e: Env, k: Seq<char>)
    requires
        fresh_env(e),
        !builtin_named(k),
    ensures
        !e.bindings().contains_key(k),
{
    assert(e.ids()[0] == 0);
    if e.frame(0).has_key(k) {
        let i = choose|i: int| 0 <= i < e.frame(0).entries@.len() && #[trigger] e.frame(0).key_at(i) == k;
        if i < native_table().len() {
            assert(e.maps()[0].entries@[i].0@ == native_table()[i].0);
            assert(builtin_name(i) == k);
        } else {
            let j = i - native_table().len();
            assert(e.maps()[0].entries@[j + native_table().len()].0@ == special_table()[j].0);
            assert(builtin_name(i) == k);
        }
    }
    assert(e.spec_lookup(k) == e.lookup_in(1, k));
    assert(e.lookup_in(0, k) is None);
}

/// The names of the builtins, in order.
proof fn lemma_builtin_names()
    ensures
        builtin_name(0) == "type"@,
        builtin_name(1) == "when"@,
        builtin_name(2) == "=="@,
        builtin_name(3) == "!="@,
        builtin_name(4) == "not"@,
        builtin_name(5) == "!"@,
        builtin_name(6) == "concat"@,
        builtin_name(7) == "index"@,
        builtin_name(8) == "."@,
        builtin_name(9) == ".."@,
        builtin_name(10) == "..="@,
        builtin_name(11) == "+"@,
        builtin_name(12) == "-"@,
        builtin_name(13) == "*"@,
        builtin_name(14) == "/"@,
        builtin_name(15) == "%"@,
        builtin_name(16) == ">"@,
        builtin_name(17) == ">="@,
        builtin_name(18) == "<"@,
        builtin_name(19) == "<="@,
        builtin_name(20) == "print"@,
        builtin_name(21) == "puts"@,
        builtin_name(22) == "to-uppercase"@,
        builtin_name(23) == "to-lowercase"@,
        builtin_name(24) == "replace"@,
        builtin_name(25) == "len"@,
        builtin_name(26) == "empty?"@,
        builtin_name(27) == "contains?"@,
        builtin_name(28) == "split"@,
        builtin_name(29) == "count"@,
        builtin_name(30) == "&&"@,
        builtin_name(31) == "||"@,
        builtin_name(32) == "<<"@,
        builtin_name(33) == "push"@,
        builtin_name(34) == "set_index"@,
        builtin_name(35) == "pop"@,
{
}

/// A number that tells the builtin names apart: the length, the first
/// and last characters, and the fourth.
spec fn name_code(w: Seq<char>) -> int {
    w.len() + 128 * (w[0] as int) + 16384 * (w.last() as int) + 2097152 * (if w.len() > 3 {
        w[3] as int
    } else {
        0
    })
}

/// The place in the tables of the builtin whose name has code `c`.
spec fn code_place(c: int) -> int {
    if c == 213481988 {
        0
    } else if c == 232504196 {
        1
    } else if c == 1007234 {
        2
    } else if c == 1003650 {
        3
    } else if c == 1914627 {
        4
    } else if c == 544897 {
        5
    } else if c == 209531270 {
        6
    } else if c == 213791877 {
        7
    } else if c == 759553 {
        8
    } else if c == 759554 {
        9
    } else if c == 1005315 {
        10
    } else if c == 710017 {
        11
    } else if c == 743041 {
        12
    } else if c == 693505 {
        13
    } else if c == 776065 {
        14
    } else if c == 610945 {
        15
    } else if c == 1023745 {
        16
    } else if c == 1007362 {
        17
    } else if c == 990721 {
        18
    } else if c == 1007106 {
        19
    } else if c == 232601605 {
        20
    } else if c == 243070980 {
        21
    } else if c == 247036428 {
        22
    } else if c == 228162060 {
        23
    } else if c == 228161799 {
        24
    } else if c == 1816067 {
        25
    } else if c == 244314758 {
        26
    } else if c == 244314505 {
        27
    } else if c == 222116229 {
        28
    } else if c == 232599941 {
        29
    } else if c == 627458 {
        30
    } else if c == 2047490 {
        31
    } else if c == 990722 {
        32
    } else if c == 219822084 {
        33
    } else if c == 201210249 {
        34
    } else if c == 1849347 {
        35
    } else {
        -1
    }
}

/// The builtin names are told apart by their codes.
proof fn lemma_builtin_codes()
    ensures
        forall|i: int|
            0 <= i < native_table().len() + special_table().len() ==> code_place(
                name_code(#[trigger] builtin_name(i)),
            ) == i,
{
    lemma_builtin_names();
    reveal_strlit("!");
    reveal_strlit("!=");
    reveal_strlit("%");
    reveal_strlit("&&");
    reveal_strlit("*");
    reveal_strlit("+");
    reveal_strlit("-");
    reveal_strlit(".");
    reveal_strlit("..");
    reveal_strlit("..=");
    reveal_strlit("/");
    reveal_strlit("<");
    reveal_strlit("<<");
    reveal_strlit("<=");
    reveal_strlit("==");
    reveal_strlit(">");
    reveal_strlit(">=");
    reveal_strlit("concat");
    reveal_strlit("contains?");
    reveal_strlit("count");
    reveal_strlit("empty?");
    reveal_strlit("index");
    reveal_strlit("len");
    reveal_strlit("not");
    reveal_strlit("pop");
    reveal_strlit("print");
    reveal_strlit("push");
    reveal_strlit("puts");
    reveal_strlit("replace");
    reveal_strlit("set_index");
    reveal_strlit("split");
    reveal_strlit("to-lowercase");
    reveal_strlit("to-uppercase");
    reveal_strlit("type");
    reveal_strlit("when");
    reveal_strlit("||");
}

/// No two builtins share a name.
proof fn lemma_builtin_names_distinct()
    ensures
        forall|i: int, j: int|
            0 <= i < j < native_table().len() + special_table().len() ==> #[trigger] builtin_name(i)
                != #[trigger] builtin_name(j),
{
    lemma_builtin_codes();
}

/// What a prefix of the pairs built does not depend on values past it.
proof fn lemma_built_extends(pairs: Seq<(Symbol, Stmt)>, vals: Seq<Value>, v: Value, m: OMap)
    requires
        vals.len() == pairs.len(),
        built(pairs, vals, m),
    ensures
        built(pairs, vals.push(v), m),
    decreases pairs.len(),
{
    if pairs.len() > 0 {
        let m0 = choose|m0: OMap|
            #![trigger stored(m0, pairs.last().0, vals[pairs.len() - 1], m)]
            built(pairs.drop_last(), vals, m0) && stored(m0, pairs.last().0, vals[pairs.len() - 1], m);
        assert(vals.push(v)[pairs.len() - 1] == vals[pairs.len() - 1]);
        lemma_built_any(pairs.drop_last(), vals, vals.push(v), m0);
    }
}

/// What the pairs built depends only on the values for them.
proof fn lemma_built_any(pairs: Seq<(Symbol, Stmt)>, a: Seq<Value>, b: Seq<Value>, m: OMap)
    requires
        a.len() >= pairs.len(),
        b.len() >= pairs.len(),
        forall|i: int| 0 <= i < pairs.len() ==> a[i] == b[i],
        built(pairs, a, m),
    ensures
        built(pairs, b, m),
    decreases pairs.len(),
{
    if pairs.len() > 0 {
        let n = pairs.len() - 1;
        let m0 = choose|m0: OMap|
            #![trigger stored(m0, pairs.last().0, a[n], m)]
            built(pairs.drop_last(), a, m0) && stored(m0, pairs.last().0, a[n], m);
        lemma_built_any(pairs.drop_last(), a, b, m0);
        assert(stored(m0, pairs.last().0, b[n], m));
    }
}

/// A scope pushed on `base` that binds nothing hides nothing: the
/// variables are those of `base`.
proof fn lemma_empty_top(e: &Env, base: &Env)
    requires
        base.wf(),
        e.ids().drop_last() == base.ids(),
        e.ids().len() == base.ids().len() + 1,
        e.frame(e.depth() - 1).entries@.len() == 0,
        forall|j: int| 0 <= j < base.maps().len() ==> #[trigger] e.maps()[j] == base.maps()[j],
        base.maps().len() <= e.maps().len(),
    ensures
        e.bindings() == base.bindings(),
{
    assert forall|k: Seq<char>| #[trigger] e.spec_lookup(k) == base.spec_lookup(k) by {
        assert(!e.frame(e.depth() - 1).has_key(k));
        assert forall|i: int| 0 <= i < base.depth() implies (e.frame(i).has_key(k) == base.frame(i).has_key(k)
            && e.frame(i).spec_get(k) == base.frame(i).spec_get(k)) by {
            assert(e.ids()[i] == base.ids()[i]);
            assert(base.ids()[i] < base.maps().len());
        }
        lemma_lookup_agree(e, base, base.depth(), k);
    }
    assert(e.bindings() =~= base.bindings());
}

/// What evaluating a printing statement did: it gave `None`, left the
/// variables as they were, and printed `t`, which is what the statement
/// prints.
proof fn lemma_printing_stmt(before: &Env, after: &Env, s: Stmt, v: Value) -> (t: Seq<char>)
    requires
        printing_stmt(before.bindings(), s),
        stmt_post(*before, s, *after, Ok(v)),
    ensures
        v == Value::Nil,
        after.maps() == before.maps(),
        after.kept() == before.kept(),
        after.output() == before.output() + t,
        prints_as(before.bindings(), s, t),
{
    let vars = before.bindings();
    let r = Ok::<Value, Error>(v);
    match s {
        Stmt::For(key, var, e, body) => {
            let (v0, items) = choose|v0: Value, items: Seq<(Value, Value)>|
                #![trigger loop_items(v0, items)]
                {
                    &&& pure_evals(vars, *e, v0)
                    &&& loop_items(v0, items)
                    &&& rounds_pure(vars, key, var, items, body@) ==> {
                        &&& after.maps() == before.maps()
                        &&& after.kept() == before.kept()
                        &&& exists|texts: Seq<Seq<Seq<char>>>|
                            #[trigger] rounds_printed(vars, key, var, items, body@, texts)
                                && after.output() == before.output() + joined_rounds(texts)
                    }
                };
            assert(rounds_pure(vars, key, var, items, body@));
            let texts = choose|texts: Seq<Seq<Seq<char>>>|
                #[trigger] rounds_printed(vars, key, var, items, body@, texts) && after.output()
                    == before.output() + joined_rounds(texts);
            joined_rounds(texts)
        },
        Stmt::If(conds) => {
            let n = choose|n: int|
                #[trigger] takes_branch(vars, conds@, n) && if n < conds@.len() {
                    exists|texts: Seq<Seq<char>>|
                        #[trigger] tags_printed(vars, conds@[n].1@, texts) && after.output()
                            == before.output() + joined_texts(texts)
                } else {
                    after.output() == before.output()
                };
            if n < conds@.len() {
                let texts = choose|texts: Seq<Seq<char>>|
                    #[trigger] tags_printed(vars, conds@[n].1@, texts) && after.output()
                        == before.output() + joined_texts(texts);
                joined_texts(texts)
            } else {
                assert(after.output() == before.output() + Seq::<char>::empty());
                Seq::<char>::empty()
            }
        },
        Stmt::Call(f, args) => {
            let vals = choose|vals: Seq<Value>|
                #![trigger crate::builtin::printed(vals)]
                {
                    &&& vals.len() == args@.len()
                    &&& forall|i: int| 0 <= i < args@.len() ==> pure_evals(vars, #[trigger] args@[i], vals[i])
                    &&& after.output() == before.output() + crate::builtin::printed(vals) + line_end(
                        print_native(vars, f->Word_0@) == Some(Native::Puts),
                    )
                };
            crate::builtin::printed(vals) + line_end(print_native(vars, f->Word_0@) == Some(Native::Puts))
        },
        _ => Seq::empty(),
    }
}

/// A tag whose parts have the values given, and whose body puts the
/// texts given, evaluates to its HTML (or `None`, for `<debug>`).
proof fn lemma_tag_evals(
    vars: Map<Seq<char>, Value>,
    t: Tag,
    name_v: Value,
    id_o: Option<Value>,
    cs: Seq<Value>,
    an: Seq<Value>,
    av: Seq<Value>,
    texts: Seq<Seq<char>>,
    v: Value,
)
    requires
        pure_evals(vars, *t.tag, name_v),
        if *t.id is Nil {
            id_o is None
        } else {
            id_o is Some && pure_evals(vars, *t.id, id_o->0)
        },
        cs.len() == t.classes@.len(),
        forall|i: int| 0 <= i < t.classes@.len() ==> pure_evals(vars, #[trigger] t.classes@[i], cs[i]),
        an.len() == t.attrs@.len(),
        av.len() == t.attrs@.len(),
        forall|i: int|
            0 <= i < t.attrs@.len() ==> pure_evals(vars, (#[trigger] t.attrs@[i]).1, av[i]) && (truthy(av[i])
                ==> pure_evals(vars, t.attrs@[i].0, an[i])),
        !t.closed ==> texts.len() == t.body@.len(),
        !t.closed ==> forall|i: int|
            0 <= i < t.body@.len() ==> if text_word(vars, #[trigger] t.body@[i]) {
                texts[i] == t.body@[i]->Word_0@
            } else if t.body@[i] is For {
                loop_text(vars, t.body@[i], texts[i])
            } else {
                exists|bv: Value|
                    #![trigger printed_text(bv)]
                    pure_evals(vars, t.body@[i], bv) && texts[i] == printed_text(bv)
            },
        if !t.closed && spec_display(name_v) == "debug"@ {
            v == Value::Nil
        } else {
            v matches Value::String(h) && h@ == tag_output(t, name_v, id_o, cs, an, av, texts)
        },
    ensures
        pure_evals(vars, Stmt::Tag(t), v),
{
    assert(tag_output(t, name_v, id_o, cs, an, av, texts) == tag_output(t, name_v, id_o, cs, an, av, texts));
}

/// A loop in a page prints, round after round, what its body prints.
proof fn lemma_loop_text(vars: Map<Seq<char>, Value>, s: Stmt, text: Seq<char>)
    requires
        s is For,
        !text_word(vars, s),
        printed_by(vars, s, text),
    ensures
        loop_text(vars, s, text),
{
    match s {
        Stmt::For(key, var, e, fbody) => {
            let (fv, items) = choose|fv: Value, items: Seq<(Value, Value)>|
                #![trigger loop_items(fv, items)]
                pure_evals(vars, *e, fv) && loop_items(fv, items) && exists|texts: Seq<Seq<Seq<char>>>|
                    #[trigger] rounds_printed(vars, key, var, items, fbody@, texts) && text == joined_rounds(texts);
            let rt = choose|texts: Seq<Seq<Seq<char>>>|
                #[trigger] rounds_printed(vars, key, var, items, fbody@, texts) && text == joined_rounds(texts);
            assert forall|r: int, j: int|
                #![trigger rt[r], fbody@[j]]
                0 <= r < items.len() && 0 <= j < fbody@.len() implies rt[r].len() == fbody@.len()
                    && if fbody@[j] is Tag {
                    exists|w: Value|
                        #![trigger spec_display(w)]
                        pure_evals(round_vars(vars, key, var, items[r]), fbody@[j], w) && rt[r][j]
                            == spec_display(w)
                } else {
                    rt[r][j] == Seq::<char>::empty()
                } by {
                let rv = round_vars(vars, key, var, items[r]);
                assert(tags_printed(rv, fbody@, rt[r]));
                assert(rt[r].len() == fbody@.len());
                if fbody@[j] is Tag {
                    let w = choose|w: Value|
                        #![trigger spec_display(w)]
                        pure_evals(rv, fbody@[j], w) && rt[r][j] == spec_display(w);
                    assert(pure_evals(rv, fbody@[j], w) && rt[r][j] == spec_display(w));
                }
            }
            assert(rt.len() == items.len() && text == rounds_text(rt));
            assert(pure_evals(vars, *e, fv) && loop_items(fv, items));
        },
        _ => {},
    }
}

/// Values for the arguments that meet `called` make a call `called`.
proof fn lemma_called_intro(
    inner: Map<Seq<char>, Value>,
    params: Seq<Symbol>,
    body: Seq<Stmt>,
    chosen: Seq<Stmt>,
    v: Value,
    vals: Seq<Value>,
)
    requires
        vals.len() == chosen.len(),
        forall|i: int|
            0 <= i < chosen.len() && args_pure(inner, params, chosen, vals, i + 1) ==> pure_evals(
                bound(inner, params, vals, i),
                #[trigger] chosen[i],
                vals[i],
            ),
        args_pure(inner, params, chosen, vals, chosen.len() as int) && all_pure(
            bound(inner, params, vals, chosen.len() as int),
            body,
        ) ==> block_value(bound(inner, params, vals, chosen.len() as int), body, v),
    ensures
        called(inner, params, body, chosen, v),
{
    assert(args_pure(inner, params, chosen, vals, chosen.len() as int) == args_pure(
        inner,
        params,
        chosen,
        vals,
        chosen.len() as int,
    ));
}

/// Binding uses only the values of the parameters bound.
proof fn lemma_bound_prefix(vars: Map<Seq<char>, Value>, params: Seq<Symbol>, vals: Seq<Value>, v: Value, n: int)
    requires
        n <= vals.len(),
    ensures
        bound(vars, params, vals.push(v), n) == bound(vars, params, vals, n),
    decreases n,
{
    if n > 0 {
        lemma_bound_prefix(vars, params, vals, v, n - 1);
        assert(vals.push(v)[n - 1] == vals[n - 1]);
    }
}

/// Putting a captured scope and then an empty one on top of `base`'s
/// stack shows `base`'s variables through the captured scope.
proof fn lemma_overlaid(e: &Env, base: &Env, scope: int, top: usize)
    requires
        base.wf(),
        0 <= scope < base.maps().len(),
        top == base.maps().len(),
        e.ids() == base.ids().push(scope as usize).push(top),
        base.maps().len() < e.maps().len(),
        forall|j: int| 0 <= j < base.maps().len() ==> #[trigger] e.maps()[j] == base.maps()[j],
        e.maps()[top as int].entries@.len() == 0,
    ensures
        e.bindings() == overlaid(base.bindings(), base.maps()[scope]),
{
    let d = base.depth();
    let m = base.maps()[scope];
    assert forall|k: Seq<char>| #[trigger] e.spec_lookup(k) == (if m.has_key(k) {
        m.spec_get(k)
    } else {
        base.spec_lookup(k)
    }) by {
        assert(e.depth() == d + 2);
        assert(e.ids()[d + 1] == top);
        assert(e.ids()[d] == scope);
        assert(e.frame(d + 1).entries@.len() == 0);
        assert(!e.frame(d + 1).has_key(k));
        assert(e.frame(d) == m);
        assert(e.lookup_in(d + 2, k) == e.lookup_in(d + 1, k));
        assert forall|i: int| 0 <= i < d implies (e.frame(i).has_key(k) == base.frame(i).has_key(k)
            && e.frame(i).spec_get(k) == base.frame(i).spec_get(k)) by {
            assert(e.ids()[i] == base.ids()[i]);
            assert(base.ids()[i] < base.maps().len());
        }
        lemma_lookup_agree(e, base, d, k);
        assert(e.lookup_in(d + 1, k) == (if m.has_key(k) {
            m.spec_get(k)
        } else {
            e.lookup_in(d, k)
        }));
    }
    assert(e.bindings() =~= overlaid(base.bindings(), m));
}

/// Environments with the same stack and scopes see the same variables.
proof fn lemma_same_bindings(a: &Env, b: &Env)
    requires
        a.maps() == b.maps(),
        a.ids() == b.ids(),
    ensures
        a.bindings() == b.bindings(),
{
    lemma_same_lookups(a, b);
    assert(a.bindings() =~= b.bindings());
}

/// Scopes `n..m` that do not bind `k` are passed over.
proof fn lemma_lookup_skip(e: &Env, n: int, m: int, k: Seq<char>)
    requires
        0 <= n <= m <= e.depth(),
        forall|j: int| n <= j < m ==> !#[trigger] e.frame(j).has_key(k),
    ensures
        e.lookup_in(m, k) == e.lookup_in(n, k),
    decreases m - n,
{
    if m > n {
        lemma_lookup_skip(e, n, m - 1, k);
    }
}

/// A lookup that finds something found it in some scope that binds the
/// key.
proof fn lemma_lookup_found(e: &Env, n: int, k: Seq<char>)
    requires
        n <= e.depth(),
        e.lookup_in(n, k) is Some,
    ensures
        exists|w: int| 0 <= w < n && e.frame(w).has_key(k),
    decreases n,
{
    if n > 0 && !e.frame(n - 1).has_key(k) {
        lemma_lookup_found(e, n - 1, k);
    }
}

/// After storing into the innermost scope, the key is found there.
proof fn lemma_has_top(e: &Env, k: Seq<char>)
    requires
        e.wf(),
        e.frame(e.depth() - 1).spec_get(k) is Some,
    ensures
        e.spec_lookup(k) == e.frame(e.depth() - 1).spec_get(k),
{
}

/// Two environments whose stacks and scopes on the stack are the same
/// look everything up alike.
proof fn lemma_same_frames(a: &Env, b: &Env)
    requires
        a.ids() == b.ids(),
        forall|i: int| 0 <= i < a.depth() ==> #[trigger] a.frame(i) == b.frame(i),
    ensures
        forall|k: Seq<char>| #[trigger] a.spec_lookup(k) == b.spec_lookup(k),
{
    assert forall|k: Seq<char>| #[trigger] a.spec_lookup(k) == b.spec_lookup(k) by {
        lemma_lookup_agree(a, b, a.depth(), k);
    }
}

/// A variable bound in a scope is gone when the scope is: pushing a
/// scope, binding `key` in it with `:=` and popping the scope leaves
/// every variable as it was.
pub proof fn law_scoped_binding_vanishes(e0: Env, e1: Env, e2: Env, e3: Env, key: Seq<char>, val: Value)
    requires
        e0.wf(),
        scope_pushed(e0, e1),
        top_stored(e1, key, val, e2),
        scope_popped(e2, e3),
    ensures
        forall|k: Seq<char>| #[trigger] e3.spec_lookup(k) == e0.spec_lookup(k),
{
    assert(e3.ids() == e0.ids());
    assert forall|i: int| 0 <= i < e0.depth() implies #[trigger] e3.frame(i) == e0.frame(i) by {
        let id = e0.ids()[i];
        assert(id < e0.maps().len());
        assert(e1.ids()[i] == id);
        assert(id != e1.ids().last());
        assert(e3.maps()[id as int] == e2.maps()[id as int]);
    }
    lemma_same_frames(&e3, &e0);
}

/// Reassigning with `=` changes the binding that was already there:
/// pushing a scope, updating a variable bound outside it and popping the
/// scope leaves the variable with the new value, and every other
/// variable as it was.
pub proof fn law_update_outlives_scope(e0: Env, e1: Env, e2: Env, e3: Env, key: Seq<char>, val: Value)
    requires
        e0.wf(),
        e0.spec_lookup(key) is Some,
        scope_pushed(e0, e1),
        var_updated(e1, key, val, e2),
        scope_popped(e2, e3),
    ensures
        e3.spec_lookup(key) == Some(val),
        forall|k: Seq<char>| k != key ==> #[trigger] e3.spec_lookup(k) == e0.spec_lookup(k),
{
    let top = e1.depth() - 1;
    assert(e1.frame(top).entries@.len() == 0);
    assert forall|i: int| 0 <= i < e0.depth() implies #[trigger] e1.frame(i) == e0.frame(i) by {
        assert(e0.ids()[i] < e0.maps().len());
    }
    assert(e1.spec_lookup(key) == e1.lookup_in(e0.depth(), key)) by {
        assert(!e1.frame(top).has_key(key));
    }
    assert(e1.lookup_in(e0.depth(), key) == e0.spec_lookup(key)) by {
        lemma_lookup_agree(&e1, &e0, e0.depth(), key);
    }
    let n = choose|n: int| #[trigger] e1.binds_at(key, n) && scope_stored(e1, e1.ids()[n] as int, key, val, e2);
    assert(n < top) by {
        if n == top {
            assert(!e1.frame(top).has_key(key));
        }
    }
    let t = e1.ids()[n];
    let sym = choose|s: Symbol| s@ == key && stored(e1.maps()[t as int], s, val, e2.maps()[t as int]);
    crate::omap::law_get_after_insert(&e1.maps()[t as int], &e2.maps()[t as int], sym, val);
    assert(e3.ids() == e0.ids());
    assert forall|i: int| 0 <= i < e0.depth() implies #[trigger] e3.frame(i) == e2.frame(i) by {
        assert(e0.ids()[i] < e3.maps().len());
    }
    assert forall|m: int| n < m < e3.depth() implies !#[trigger] e3.frame(m).has_key(key) by {
        assert(!e1.frame(m).has_key(key));
        if e1.ids()[m] == t {
            assert(e1.frame(m) == e1.frame(n));
        }
        assert(e2.frame(m) == e1.frame(m));
    }
    assert(e3.frame(n).has_key(key));
    lemma_lookup_skip(&e3, n + 1, e3.depth(), key);
    assert forall|k: Seq<char>| k != key implies #[trigger] e3.spec_lookup(k) == e0.spec_lookup(k) by {
        assert forall|i: int| 0 <= i < e0.depth() implies (e3.frame(i).has_key(k) == e0.frame(i).has_key(k)
            && e3.frame(i).spec_get(k) == e0.frame(i).spec_get(k)) by {
            if e0.ids()[i] == t {
                crate::omap::law_insert_others(e1.maps()[t as int], e2.maps()[t as int], sym, val, k);
            }
        }
        lemma_lookup_agree(&e3, &e0, e0.depth(), k);
    }
}

/// What an assignment stores, reading the variable gives: after
/// `name := rhs` or `name = rhs` succeeds with a pure `rhs`, evaluating
/// the word `name` gives the value of `rhs`.
pub proof fn law_read_after_assign(
    e0: Env,
    e1: Env,
    e2: Env,
    name: Symbol,
    rhs: Stmt,
    reassign: bool,
    r1: Result<Value>,
    r2: Result<Value>,
)
    requires
        stmt_post(e0, Stmt::Assign(name, Box::new(rhs), reassign), e1, r1),
        r1 is Ok,
        pure_stmt(e0.bindings(), rhs),
        stmt_post(e1, Stmt::Word(name), e2, r2),
        name@ != "break"@,
        name@ != "continue"@,
    ensures
        exists|v: Value| #[trigger] pure_evals(e0.bindings(), rhs, v) && r2 == Ok::<Value, Error>(v),
{
    let v = choose|v: Value|
        #![trigger pure_evals(e0.bindings(), rhs, v)]
        {
            &&& pure_evals(e0.bindings(), rhs, v)
            &&& e1.bindings() == e0.bindings().insert(name@, v)
            &&& reassign ==> spec_typename(v) == spec_typename(e0.bindings()[name@])
        };
    assert(e1.bindings().contains_key(name@) && e1.bindings()[name@] == v);
    assert(e1.spec_lookup(name@) is Some);
    assert(e1.spec_lookup(name@)->0 == v);
}

/// Evaluates source code in a new environment, returning the value of
/// its last statement.
pub fn eval(source: &str) -> (r: Result<Value>)
    ensures
        r matches Ok(v) ==> exists|e: Env, stmts: Seq<Stmt>|
            #![trigger fresh_env(e), compile_admits(source@, stmts)]
            fresh_env(e) && compile_admits(source@, stmts) && eval_admits(e, stmts, v),
        source@.len() == 0 ==> r == Ok::<Value, Error>(Value::Nil),
        digit_word(source@) && number_units(source@) is Some ==> (r matches Ok(Value::Number(n)) && n.units()
            == number_units(source@)->0),
        forall|a: int, b: int, c: int, d: int, e: int| #[trigger]
            infix_src(source@, a, b, c, d, e) && infix_numbers(source@, a, b, c, d, e) ==> (r matches Ok(v)
                ==> exists|en: Env|
                #![trigger fresh_env(en)]
                fresh_env(en) && (infix_ops_pure(en.bindings(), source@, a, b, c, d, e) ==> infix_evals(
                    en.bindings(),
                    source@,
                    a,
                    b,
                    c,
                    d,
                    e,
                    v,
                ))),
        r matches Err(err) ==> failed_compiling(err) || exists|e: Env, stmts: Seq<Stmt>|
            #![trigger fresh_env(e), compile_admits(source@, stmts)]
            fresh_env(e) && compile_admits(source@, stmts) && !(all_sure(e.bindings(), stmts) && e.steps() > stmts.len()),
{
    let mut env = Env::new();
    let ghost e = env;
    let r = env.eval_src(source);
    assert(fresh_env(e));
    r
}

/// Renders source code in a new environment; see `Env::render_stmts`.
pub fn render(source: &str) -> (r: Result<String>)
    ensures
        r matches Ok(s) ==> exists|e: Env, stmts: Seq<Stmt>|
            #![trigger fresh_env(e), compile_admits(source@, stmts)]
            fresh_env(e) && compile_admits(source@, stmts) && render_admits(e, stmts, s@),
        source@.len() == 0 ==> (r matches Ok(s) && s@.len() == 0),
        plain_word(source@) && !builtin_named(source@) ==> (r matches Ok(s) && s@ == source@),
        forall|n: int| #[trigger]
            tag_word_src(source@, n) && !builtin_named(tag_line_parts(source@, n).1) && tag_line_parts(source@, n).0
                != "debug"@ ==> (r matches Ok(s) ==> s@ == tag_word_page(source@, n, tag_line_parts(source@, n).1)),
        forall|e: Seq<int>| #[trigger]
            lines_src(source@, e) && lines_not_builtin(source@, e) && e.len() < u64::MAX ==> (r matches Ok(s)
                && s@ == lines_page(
                source@,
                e,
                e.len() as int,
            )),
        r matches Err(err) ==> failed_compiling(err) || exists|e: Env, stmts: Seq<Stmt>|
            #![trigger fresh_env(e), compile_admits(source@, stmts)]
            fresh_env(e) && compile_admits(source@, stmts) && !(body_sure(e.bindings(), stmts) && e.steps() > stmts.len()),
{
    let mut env = Env::new();
    let ghost e = env;
    proof {
        if plain_word(source@) && !builtin_named(source@) {
            lemma_fresh_binds_builtins(e, source@);
        }
    }
    proof {
        assert forall|n: int| #[trigger]
            tag_word_src(source@, n) && !builtin_named(tag_line_parts(source@, n).1) implies !e.bindings().contains_key(
            tag_line_parts(source@, n).1,
        ) by {
            lemma_fresh_binds_builtins(e, tag_line_parts(source@, n).1);
        }
    }
    proof {
        assert forall|le: Seq<int>| #[trigger] lines_src(source@, le) && lines_not_builtin(source@, le) && le.len()
            < u64::MAX implies lines_unbound(
            e.bindings(),
            source@,
            le,
        ) && e.steps() > le.len() by {
            assert forall|k: int|
                0 <= k < le.len() && !digit_word(#[trigger] line_text(source@, le, k)) && line_text(source@, le, k)
                    != "true"@ && line_text(source@, le, k) != "false"@ implies !e.bindings().contains_key(
                line_text(source@, le, k),
            ) by {
                lemma_fresh_binds_builtins(e, line_text(source@, le, k));
            }
        }
    }
    let r = env.render(source);
    assert(fresh_env(e));
    proof {
        assert(e.output().len() == 0);
        assert(e.output() + Seq::<char>::empty() =~= Seq::<char>::empty());
        assert forall|x: Seq<char>| e.output() + x == x by {
            assert(e.output() + x =~= x);
        }
    }
    proof {
        if plain_word(source@) && !builtin_named(source@) {
            assert(e.output().len() == 0);
            assert(r->Ok_0@ =~= source@);
        }
    }
    r
}

} // verus!
