//! The builtin functions. Natives get their arguments evaluated; the
//! specials (`&&`, `||`, `<<`/`push`, `set_index`) get them as syntax
//! and live with the evaluator, in `env`.

use vstd::prelude::*;
use std::rc::Rc;
use crate::error::{Error, ErrorKind, Result, error_of};
use crate::number::{Number, SCALE, fits, trunc_div, trunc_rem};
use crate::omap::{OMap, stored};
use crate::symbol::Symbol;
use crate::text::{push_char, push_str, str_to_chars, string_of, to_lowercase, to_uppercase, uppercase, lowercase};
use crate::value::{Native, Special, Value, spec_display, spec_equals, spec_len, spec_typename};

verus! {

broadcast use vstd::std_specs::vec::group_vec_axioms;

// ----------------------------------------------------------------------
// Arguments

/// Is the value truthy? Only `None` and `false` are not.
pub open spec fn truthy(v: Value) -> bool {
    !(v is Nil || v == Value::Bool(false))
}

/// Does `r` fail with an error of kind `k`?
pub open spec fn fails_with(r: Result<Value>, k: ErrorKind) -> bool {
    r matches Err(e) && e.kind == k
}

/// What asking for numeric argument `i` raises, if anything: a missing
/// argument, or one that is not a number.
pub open spec fn number_fault(args: Seq<Value>, i: int) -> Option<ErrorKind> {
    if i >= args.len() {
        Some(ErrorKind::ArgNotFound)
    } else if !(args[i] is Number) {
        Some(ErrorKind::WrongArgType)
    } else {
        None
    }
}

/// What asking for numeric arguments 0 and 1, in that order, raises.
pub open spec fn two_numbers_fault(args: Seq<Value>) -> Option<ErrorKind> {
    if number_fault(args, 0) is Some {
        number_fault(args, 0)
    } else {
        number_fault(args, 1)
    }
}

/// What asking for string argument `i` raises, if anything.
pub open spec fn string_fault(args: Seq<Value>, i: int) -> Option<ErrorKind> {
    if i < args.len() && args[i] is String {
        None
    } else {
        Some(ErrorKind::WrongArgType)
    }
}

/// The units of numeric argument `i`.
pub open spec fn units_at(args: Seq<Value>, i: int) -> int {
    args[i]->Number_0.units()
}

/// The text of string argument `i`.
pub open spec fn text_at(args: Seq<Value>, i: int) -> Seq<char> {
    args[i]->String_0@
}

/// Argument `i`, which must be there.
pub fn need(args: &[Value], i: usize) -> (r: Result<&Value>)
    ensures
        i < args@.len() ==> (r matches Ok(v) && *v == args@[i as int]),
        i >= args@.len() ==> (r matches Err(e) && e.kind == ErrorKind::ArgNotFound),
{
    if i < args.len() {
        Ok(&args[i])
    } else {
        Err(error_of(ErrorKind::ArgNotFound, "Argument Not Found"))
    }
}

/// Numeric argument `i`.
pub fn need_number(args: &[Value], i: usize) -> (r: Result<Number>)
    ensures
        number_fault(args@, i as int) matches Some(k) ==> (r matches Err(e) && e.kind == k),
        number_fault(args@, i as int) is None ==> r == Ok::<Number, Error>(args@[i as int]->Number_0),
{
    if i >= args.len() {
        return Err(error_of(ErrorKind::ArgNotFound, "Argument Not Found"));
    }
    match &args[i] {
        Value::Number(n) => Ok(*n),
        _ => Err(error_of(ErrorKind::WrongArgType, "Expected Number")),
    }
}

/// String argument `i`.
pub fn need_string(args: &[Value], i: usize) -> (r: Result<&str>)
    ensures
        string_fault(args@, i as int) is Some ==> (r matches Err(e) && e.kind == ErrorKind::WrongArgType),
        string_fault(args@, i as int) is None ==> (r matches Ok(s) && s@ == text_at(args@, i as int)),
{
    if i < args.len() {
        match &args[i] {
            Value::String(s) => {
                return Ok(s.as_str());
            },
            _ => {},
        }
    }
    Err(error_of(ErrorKind::WrongArgType, "Expected String"))
}

/// `Ok` of a number with `x` units, or a runtime error when there is
/// no such number (`x` is `None` or out of range).
pub open spec fn number_result(r: Result<Value>, x: Option<int>) -> bool {
    if x matches Some(v) && fits(v) {
        r == Ok::<Value, Error>(Value::Number(Number { raw: x->0 as i64 }))
    } else {
        fails_with(r, ErrorKind::RuntimeError)
    }
}

/// `Ok` of a string with the characters `s`.
pub open spec fn string_result(r: Result<Value>, s: Seq<char>) -> bool {
    r matches Ok(Value::String(t)) && t@ == s
}

/// The printed forms of `args`, separated by `sep`.
pub open spec fn joined(args: Seq<Value>, sep: Seq<char>) -> Seq<char>
    decreases args.len(),
{
    if args.len() == 0 {
        Seq::empty()
    } else if args.len() == 1 {
        spec_display(args[0])
    } else {
        joined(args.drop_last(), sep) + sep + spec_display(args.last())
    }
}

/// Appends the printed forms of `args` to `out`, separated by `sep`.
fn push_joined(out: &mut String, args: &[Value], sep: &str)
    ensures
        final(out)@ == old(out)@ + joined(args@, sep@),
{
    let mut i: usize = 0;
    while i < args.len()
        invariant
            i <= args@.len(),
            out@ == old(out)@ + joined(args@.take(i as int), sep@),
        decreases args.len() - i,
    {
        if i > 0 {
            push_str(out, sep);
        }
        let s = args[i].to_string();
        push_str(out, s.as_str());
        proof {
            let t = args@.take(i + 1);
            assert(t.drop_last() == args@.take(i as int));
            assert(t.last() == args@[i as int]);
            if i == 0 {
                assert(joined(args@.take(0), sep@) == Seq::<char>::empty());
            }
        }
        i += 1;
    }
    assert(args@.take(args@.len() as int) == args@);
}

// ----------------------------------------------------------------------
// Internal functions

/// What `concat` returns: the printed forms of the arguments, run
/// together.
pub open spec fn concat_post(args: Seq<Value>, r: Result<Value>) -> bool {
    string_result(r, joined(args, Seq::empty()))
}

/// `concat("hi", "-", 23) #=> "hi-23"`
pub fn concat(args: &[Value]) -> (r: Result<Value>)
    ensures
        concat_post(args@, r),
{
    let mut s = String::new();
    proof {
        reveal_strlit("");
    }
    assert(""@ =~= Seq::<char>::empty());
    push_joined(&mut s, args, "");
    assert(s@ =~= joined(args@, Seq::empty()));
    Ok(Value::String(s))
}

/// What `when` returns: its second argument if the first is truthy,
/// else `None`.
pub open spec fn when_post(args: Seq<Value>, r: Result<Value>) -> bool {
    if args.len() == 0 {
        fails_with(r, ErrorKind::ArgNotFound)
    } else if !truthy(args[0]) {
        r == Ok::<Value, Error>(Value::Nil)
    } else if args.len() < 2 {
        fails_with(r, ErrorKind::ArgNotFound)
    } else {
        r == Ok::<Value, Error>(args[1])
    }
}

/// `when(true, "yep") #=> "yep"`, `when(false, "nope") #=> None`
pub fn when(args: &[Value]) -> (r: Result<Value>)
    ensures
        when_post(args@, r),
{
    let fst = need(args, 0)?;
    if !fst.to_bool() {
        return Ok(Value::Nil);
    }
    let snd = need(args, 1)?;
    Ok(snd.clone())
}

/// What `type` returns: the name of its argument's type.
pub open spec fn type_post(args: Seq<Value>, r: Result<Value>) -> bool {
    if args.len() == 0 {
        fails_with(r, ErrorKind::ArgNotFound)
    } else {
        string_result(r, spec_typename(args[0]))
    }
}

/// `type('heyo') #=> "string"`
pub fn type_of(args: &[Value]) -> (r: Result<Value>)
    ensures
        type_post(args@, r),
{
    let v = need(args, 0)?;
    Ok(Value::String(string_of(v.typename())))
}

// ----------------------------------------------------------------------
// Boolean operators

/// `==` on two values as the operator sees them: `None`, booleans,
/// numbers and strings compare by value; anything else is unequal.
pub open spec fn prim_eq(a: Value, b: Option<Value>) -> bool {
    match a {
        Value::Nil => b == Some(Value::Nil),
        Value::Bool(x) => b matches Some(Value::Bool(y)) && x == y,
        Value::Number(x) => b matches Some(Value::Number(y)) && x.units() == y.units(),
        Value::String(x) => b matches Some(Value::String(y)) && x@ == y@,
        _ => false,
    }
}

/// The second argument, if there is one.
pub open spec fn second(args: Seq<Value>) -> Option<Value> {
    if args.len() > 1 {
        Some(args[1])
    } else {
        None
    }
}

/// `prim_eq` on values.
fn prim_equal(a: &Value, b: Option<&Value>) -> (r: bool)
    ensures
        r == prim_eq(*a, match b {
            Some(v) => Some(*v),
            None => None,
        }),
{
    match a {
        Value::Nil => match b {
            Some(Value::Nil) => true,
            _ => false,
        },
        Value::Bool(x) => match b {
            Some(Value::Bool(y)) => *x == *y,
            _ => false,
        },
        Value::Number(x) => match b {
            Some(Value::Number(y)) => x.same(y),
            _ => false,
        },
        Value::String(x) => match b {
            Some(Value::String(y)) => crate::text::str_eq(x.as_str(), y.as_str()),
            _ => false,
        },
        _ => false,
    }
}

/// The second argument, if there is one.
fn second_arg(args: &[Value]) -> (r: Option<&Value>)
    ensures
        match r {
            Some(v) => second(args@) == Some(*v),
            None => second(args@) is None,
        },
{
    if args.len() > 1 {
        Some(&args[1])
    } else {
        None
    }
}

/// What `==` returns.
pub open spec fn eq_post(args: Seq<Value>, r: Result<Value>) -> bool {
    if args.len() == 0 {
        r == Ok::<Value, Error>(Value::Nil)
    } else {
        r == Ok::<Value, Error>(Value::Bool(prim_eq(args[0], second(args))))
    }
}

/// `==` operator
pub fn eq(args: &[Value]) -> (r: Result<Value>)
    ensures
        eq_post(args@, r),
{
    if args.len() == 0 {
        return Ok(Value::Nil);
    }
    Ok(Value::Bool(prim_equal(&args[0], second_arg(args))))
}

/// What `!=` returns.
pub open spec fn neq_post(args: Seq<Value>, r: Result<Value>) -> bool {
    if args.len() == 0 {
        r == Ok::<Value, Error>(Value::Bool(false))
    } else {
        r == Ok::<Value, Error>(Value::Bool(!prim_eq(args[0], second(args))))
    }
}

/// `!=` operator
pub fn neq(args: &[Value]) -> (r: Result<Value>)
    ensures
        neq_post(args@, r),
{
    if args.len() == 0 {
        return Ok(Value::Bool(false));
    }
    Ok(Value::Bool(!prim_equal(&args[0], second_arg(args))))
}

/// What `!` returns.
pub open spec fn not_post(args: Seq<Value>, r: Result<Value>) -> bool {
    if args.len() == 0 {
        r == Ok::<Value, Error>(Value::Nil)
    } else {
        r == Ok::<Value, Error>(Value::Bool(!truthy(args[0])))
    }
}

/// `!` operator
pub fn not(args: &[Value]) -> (r: Result<Value>)
    ensures
        not_post(args@, r),
{
    if args.len() == 0 {
        return Ok(Value::Nil);
    }
    Ok(Value::Bool(!args[0].to_bool()))
}

/// Which comparison.
pub enum Comparison {
    Gt,
    Gte,
    Lt,
    Lte,
}

/// The comparison on units.
pub open spec fn compares(c: Comparison, a: int, b: int) -> bool {
    match c {
        Comparison::Gt => a > b,
        Comparison::Gte => a >= b,
        Comparison::Lt => a < b,
        Comparison::Lte => a <= b,
    }
}

/// What `>`, `>=`, `<` and `<=` return.
pub open spec fn compare_post(c: Comparison, args: Seq<Value>, r: Result<Value>) -> bool {
    match two_numbers_fault(args) {
        Some(k) => fails_with(r, k),
        None => r == Ok::<Value, Error>(
            Value::Bool(compares(c, units_at(args, 0), units_at(args, 1))),
        ),
    }
}

/// The four comparisons of two numbers `x` and `y` agree with one
/// another and with the order of numbers: `<=` answers the opposite of
/// `>`, and `>=` the opposite of `<`; swapping the operands turns `>`
/// into `<` and `>=` into `<=`; a number is `<=` and `>=` itself and
/// neither `<` nor `>` it; and `x < y` holds exactly when `x` holds
/// fewer units than `y`.
pub proof fn law_comparisons(
    x: Value,
    y: Value,
    gt: Result<Value>,
    gte: Result<Value>,
    lt: Result<Value>,
    lte: Result<Value>,
    lt_swapped: Result<Value>,
    lte_swapped: Result<Value>,
)
    requires
        x is Number,
        y is Number,
        compare_post(Comparison::Gt, seq![x, y], gt),
        compare_post(Comparison::Gte, seq![x, y], gte),
        compare_post(Comparison::Lt, seq![x, y], lt),
        compare_post(Comparison::Lte, seq![x, y], lte),
        compare_post(Comparison::Lt, seq![y, x], lt_swapped),
        compare_post(Comparison::Lte, seq![y, x], lte_swapped),
    ensures
        gt matches Ok(Value::Bool(p)) && lte == Ok::<Value, Error>(Value::Bool(!p)),
        lt matches Ok(Value::Bool(p)) && gte == Ok::<Value, Error>(Value::Bool(!p)),
        gt == lt_swapped,
        gte == lte_swapped,
        lt == Ok::<Value, Error>(Value::Bool(x->Number_0.units() < y->Number_0.units())),
        x == y ==> lte == Ok::<Value, Error>(Value::Bool(true)) && gte == Ok::<Value, Error>(Value::Bool(true))
            && lt == Ok::<Value, Error>(Value::Bool(false)) && gt == Ok::<Value, Error>(Value::Bool(false)),
{
    assert(seq![x, y][0] == x && seq![x, y][1] == y);
    assert(seq![y, x][0] == y && seq![y, x][1] == x);
}

/// `>`, `>=`, `<` and `<=` on two numbers.
pub fn compare(c: Comparison, args: &[Value]) -> (r: Result<Value>)
    ensures
        compare_post(c, args@, r),
{
    let a = need_number(args, 0)?;
    let b = need_number(args, 1)?;
    let x = match c {
        Comparison::Gt => b.lt(&a),
        Comparison::Gte => b.le(&a),
        Comparison::Lt => a.lt(&b),
        Comparison::Lte => a.le(&b),
    };
    Ok(Value::Bool(x))
}

// ----------------------------------------------------------------------
// Math

/// How many arguments, from the first, are numbers.
pub open spec fn number_run(args: Seq<Value>) -> nat
    decreases args.len(),
{
    if args.len() == 0 || !(args[0] is Number) {
        0
    } else {
        1 + number_run(args.drop_first())
    }
}

/// How many arguments, from the first, are strings.
pub open spec fn string_run(args: Seq<Value>) -> nat
    decreases args.len(),
{
    if args.len() == 0 || !(args[0] is String) {
        0
    } else {
        1 + string_run(args.drop_first())
    }
}

/// The sum of the units of the first `n` arguments.
pub open spec fn sum_units(args: Seq<Value>, n: int) -> int
    decreases n,
{
    if n <= 0 {
        0
    } else {
        sum_units(args, n - 1) + units_at(args, n - 1)
    }
}

/// The texts of the first `n` arguments, run together.
pub open spec fn cat_texts(args: Seq<Value>, n: int) -> Seq<char>
    decreases n,
{
    if n <= 0 {
        Seq::empty()
    } else {
        cat_texts(args, n - 1) + text_at(args, n - 1)
    }
}

/// Do all the running sums of the first `n` arguments fit?
pub open spec fn sums_fit(args: Seq<Value>, n: int) -> bool {
    forall|k: int| 0 <= k <= n ==> fits(#[trigger] sum_units(args, k))
}

/// Facts about the runs: the arguments inside one are of its kind, the
/// one after it is not.
proof fn lemma_runs(args: Seq<Value>)
    ensures
        number_run(args) <= args.len(),
        string_run(args) <= args.len(),
        forall|i: int| 0 <= i < number_run(args) ==> #[trigger] args[i] is Number,
        number_run(args) < args.len() ==> !(args[number_run(args) as int] is Number),
        forall|i: int| 0 <= i < string_run(args) ==> #[trigger] args[i] is String,
        string_run(args) < args.len() ==> !(args[string_run(args) as int] is String),
    decreases args.len(),
{
    if args.len() > 0 {
        lemma_runs(args.drop_first());
        assert forall|i: int| 0 <= i < number_run(args) implies #[trigger] args[i] is Number by {
            if i > 0 {
                assert(args[i] == args.drop_first()[i - 1]);
            }
        }
        assert forall|i: int| 0 <= i < string_run(args) implies #[trigger] args[i] is String by {
            if i > 0 {
                assert(args[i] == args.drop_first()[i - 1]);
            }
        }
    }
}

/// What `+` returns: the sum of the leading run of numbers when the
/// first argument is a number, the leading run of strings joined when
/// it is a string, else `None`.
pub open spec fn add_post(args: Seq<Value>, r: Result<Value>) -> bool {
    if args.len() > 0 && args[0] is Number {
        let n = number_run(args) as int;
        if sums_fit(args, n) {
            r == Ok::<Value, Error>(Value::Number(Number { raw: sum_units(args, n) as i64 }))
        } else {
            fails_with(r, ErrorKind::RuntimeError)
        }
    } else if args.len() > 0 && args[0] is String {
        string_result(r, cat_texts(args, string_run(args) as int))
    } else {
        r == Ok::<Value, Error>(Value::Nil)
    }
}

/// `+` operator
pub fn add(args: &[Value]) -> (r: Result<Value>)
    ensures
        add_post(args@, r),
{
    proof {
        lemma_runs(args@);
    }
    if args.len() > 0 {
        match &args[0] {
            Value::Number(_) => {
                let mut sum = Number::zero();
                let mut i: usize = 0;
                while i < args.len()
                    invariant
                        i <= number_run(args@),
                        number_run(args@) <= args@.len(),
                        forall|j: int| 0 <= j < number_run(args@) ==> #[trigger] args@[j] is Number,
                        number_run(args@) < args@.len() ==> !(args@[number_run(args@) as int] is Number),
                        sum.units() == sum_units(args@, i as int),
                        sums_fit(args@, i as int),
                    ensures
                        i == number_run(args@),
                        sum.units() == sum_units(args@, i as int),
                        sums_fit(args@, i as int),
                    decreases args.len() - i,
                {
                    match &args[i] {
                        Value::Number(x) => match sum.add(x) {
                            Some(t) => {
                                sum = t;
                                proof {
                                    assert forall|k: int| 0 <= k <= i + 1 implies fits(
                                        #[trigger] sum_units(args@, k),
                                    ) by {
                                        if k <= i {
                                            assert(sums_fit(args@, i as int));
                                        }
                                    }
                                }
                            },
                            None => {
                                proof {
                                    assert(!fits(sum_units(args@, i + 1)));
                                }
                                return Err(error_of(ErrorKind::RuntimeError, "number out of range"));
                            },
                        },
                        _ => {
                            break;
                        },
                    }
                    i += 1;
                }
                assert(i == number_run(args@));
                assert(sum == Number { raw: sum_units(args@, i as int) as i64 });
                return Ok(Value::Number(sum));
            },
            Value::String(_) => {
                let mut out = String::new();
                let mut i: usize = 0;
                while i < args.len()
                    invariant
                        i <= string_run(args@),
                        string_run(args@) <= args@.len(),
                        forall|j: int| 0 <= j < string_run(args@) ==> #[trigger] args@[j] is String,
                        string_run(args@) < args@.len() ==> !(args@[string_run(args@) as int] is String),
                        out@ == cat_texts(args@, i as int),
                    ensures
                        i == string_run(args@),
                        out@ == cat_texts(args@, i as int),
                    decreases args.len() - i,
                {
                    match &args[i] {
                        Value::String(x) => {
                            push_str(&mut out, x.as_str());
                        },
                        _ => {
                            break;
                        },
                    }
                    i += 1;
                }
                assert(i == string_run(args@));
                return Ok(Value::String(out));
            },
            _ => {},
        }
    }
    Ok(Value::Nil)
}

/// Which arithmetic operator.
pub enum Arith {
    Sub,
    Mul,
    Div,
    Rem,
}

/// The units of `a op b`, if there is such a number.
pub open spec fn arith(op: Arith, a: int, b: int) -> Option<int> {
    match op {
        Arith::Sub => Some(a - b),
        Arith::Mul => Some(trunc_div(a * b, SCALE as int)),
        Arith::Div => if b == 0 {
            None
        } else {
            Some(trunc_div(a * SCALE, b))
        },
        Arith::Rem => if b == 0 {
            None
        } else {
            Some(trunc_rem(a, b))
        },
    }
}

/// What `-`, `*`, `/` and `%` return: a runtime error where the
/// result is undefined (division by zero) or out of range.
pub open spec fn arith_post(op: Arith, args: Seq<Value>, r: Result<Value>) -> bool {
    match two_numbers_fault(args) {
        Some(k) => fails_with(r, k),
        None => number_result(r, arith(op, units_at(args, 0), units_at(args, 1))),
    }
}

/// `-`, `*`, `/` and `%` on two numbers.
pub fn arith_op(op: Arith, args: &[Value]) -> (r: Result<Value>)
    ensures
        arith_post(op, args@, r),
{
    let a = need_number(args, 0)?;
    let b = need_number(args, 1)?;
    let x = match op {
        Arith::Sub => a.sub(&b),
        Arith::Mul => a.mul(&b),
        Arith::Div => a.div(&b),
        Arith::Rem => a.rem(&b),
    };
    match x {
        Some(n) => Ok(Value::Number(n)),
        None => Err(error_of(ErrorKind::RuntimeError, "number out of range or division by zero")),
    }
}

// ----------------------------------------------------------------------
// String functions

/// What `to-uppercase` and `to-lowercase` return.
pub open spec fn case_post(upper: bool, args: Seq<Value>, r: Result<Value>) -> bool {
    match string_fault(args, 0) {
        Some(k) => fails_with(r, k),
        None => string_result(
            r,
            if upper {
                uppercase(text_at(args, 0))
            } else {
                lowercase(text_at(args, 0))
            },
        ),
    }
}

/// `to-uppercase('bob') #=> "BOB"`; `to-lowercase` when `upper` is false.
pub fn change_case(upper: bool, args: &[Value]) -> (r: Result<Value>)
    ensures
        case_post(upper, args@, r),
{
    let s = need_string(args, 0)?;
    if upper {
        Ok(Value::String(to_uppercase(s)))
    } else {
        Ok(Value::String(to_lowercase(s)))
    }
}

/// `s` with every match of `p` replaced by `t`, matches taken from the
/// left without overlapping. An empty `p` matches before every character
/// and at the end.
pub open spec fn replaced(s: Seq<char>, p: Seq<char>, t: Seq<char>) -> Seq<char>
    decreases s.len(),
{
    if p.len() == 0 {
        if s.len() == 0 {
            t
        } else {
            t + seq![s[0]] + replaced(s.drop_first(), p, t)
        }
    } else if s.len() < p.len() {
        s
    } else if s.take(p.len() as int) == p {
        t + replaced(s.skip(p.len() as int), p, t)
    } else {
        seq![s[0]] + replaced(s.drop_first(), p, t)
    }
}

/// Does `p` occur in `s` at `i`?
pub open spec fn occurs_at(s: Seq<char>, p: Seq<char>, i: int) -> bool {
    0 <= i && i + p.len() <= s.len() && s.subrange(i, i + p.len()) == p
}

/// Does `p` occur in `s` at `i`?
fn matches_at(s: &Vec<char>, p: &Vec<char>, i: usize) -> (r: bool)
    ensures
        r == occurs_at(s@, p@, i as int),
{
    if i > s.len() || p.len() > s.len() - i {
        return false;
    }
    let n = s.len();
    let mut k: usize = 0;
    while k < p.len()
        invariant
            n == s@.len(),
            i + p@.len() <= s@.len(),
            k <= p@.len(),
            forall|j: int| 0 <= j < k ==> s@[i + j] == p@[j],
        decreases p.len() - k,
    {
        assert(i + k < s@.len());
        if s[i + k] != p[k] {
            assert(s@.subrange(i as int, i + p@.len())[k as int] != p@[k as int]);
            return false;
        }
        k += 1;
    }
    assert(s@.subrange(i as int, i + p@.len()) =~= p@);
    true
}

/// What `replace` returns.
pub open spec fn replace_post(args: Seq<Value>, r: Result<Value>) -> bool {
    if string_fault(args, 0) is Some || string_fault(args, 1) is Some || string_fault(args, 2) is Some {
        fails_with(r, ErrorKind::WrongArgType)
    } else {
        string_result(r, replaced(text_at(args, 0), text_at(args, 1), text_at(args, 2)))
    }
}

/// The replacement, on characters.
fn replace_chars(s: &Vec<char>, p: &Vec<char>, t: &str) -> (r: String)
    ensures
        r@ == replaced(s@, p@, t@),
    decreases s@.len(),
{
    let mut out = String::new();
    let mut i: usize = 0;
    assert(s@.skip(0) =~= s@);
    assert(out@ + replaced(s@, p@, t@) =~= replaced(s@, p@, t@));
    while i < s.len()
        invariant
            i <= s@.len(),
            out@ + replaced(s@.skip(i as int), p@, t@) == replaced(s@, p@, t@),
        decreases s.len() - i,
    {
        let ghost rest = s@.skip(i as int);
        if p.len() == 0 {
            assert(rest[0] == s@[i as int]);
            assert(rest.drop_first() == s@.skip(i + 1));
            push_str(&mut out, t);
            push_char(&mut out, s[i]);
            assert(out@ + replaced(s@.skip(i + 1), p@, t@) == replaced(s@, p@, t@));
            i += 1;
        } else if p.len() > s.len() - i {
            assert(replaced(rest, p@, t@) == rest);
            let mut k = i;
            while k < s.len()
                invariant
                    i <= k <= s@.len(),
                    out@ + s@.skip(k as int) == replaced(s@, p@, t@),
                decreases s.len() - k,
            {
                assert(s@.skip(k as int) == seq![s@[k as int]] + s@.skip(k + 1));
                push_char(&mut out, s[k]);
                k += 1;
            }
            assert(s@.skip(s@.len() as int) =~= Seq::<char>::empty());
            assert(out@ =~= replaced(s@, p@, t@));
            return out;
        } else if matches_at(s, p, i) {
            assert(rest.take(p@.len() as int) =~= s@.subrange(i as int, i + p@.len()));
            assert(rest.skip(p@.len() as int) =~= s@.skip(i + p@.len()));
            push_str(&mut out, t);
            i += p.len();
        } else {
            assert(rest.take(p@.len() as int) =~= s@.subrange(i as int, i + p@.len()));
            assert(rest[0] == s@[i as int]);
            assert(rest.drop_first() == s@.skip(i + 1));
            push_char(&mut out, s[i]);
            assert(out@ + replaced(s@.skip(i + 1), p@, t@) == replaced(s@, p@, t@));
            i += 1;
        }
    }
    assert(s@.skip(i as int) =~= Seq::<char>::empty());
    if p.len() == 0 {
        push_str(&mut out, t);
    }
    assert(out@ =~= replaced(s@, p@, t@));
    out
}

/// `replace("Mr Rogers", "Ro", "Dod") #=> "Mr Dodgers"`
pub fn replace(args: &[Value]) -> (r: Result<Value>)
    ensures
        replace_post(args@, r),
{
    let s = need_string(args, 0)?;
    let p = need_string(args, 1)?;
    let t = need_string(args, 2)?;
    let sv = str_to_chars(s);
    let pv = str_to_chars(p);
    Ok(Value::String(replace_chars(&sv, &pv, t)))
}

/// Does `p` occur somewhere in `s`?
pub open spec fn has_infix(s: Seq<char>, p: Seq<char>) -> bool {
    exists|i: int| #[trigger] occurs_at(s, p, i)
}

/// Does `p` occur somewhere in `s`?
fn infix(s: &Vec<char>, p: &Vec<char>) -> (r: bool)
    ensures
        r == has_infix(s@, p@),
{
    let mut i: usize = 0;
    while i <= s.len()
        invariant
            i <= s@.len() + 1,
            forall|j: int| 0 <= j < i ==> !#[trigger] occurs_at(s@, p@, j),
        ensures
            forall|j: int| 0 <= j <= s@.len() ==> !#[trigger] occurs_at(s@, p@, j),
        decreases s.len() + 1 - i,
    {
        if matches_at(s, p, i) {
            return true;
        }
        if i == s.len() {
            break;
        }
        i += 1;
    }
    assert forall|j: int| !#[trigger] occurs_at(s@, p@, j) by {
        if 0 <= j && j <= s@.len() {
        }
    }
    false
}


/// The pieces of `s` between the matches of `p`, matches taken from the
/// left without overlapping. An empty `p` matches before every character
/// and at the end, so each character is a piece, between two empty ones.
pub open spec fn pieces(s: Seq<char>, p: Seq<char>) -> Seq<Seq<char>>
    decreases s.len(),
{
    if p.len() == 0 {
        seq![Seq::<char>::empty()] + s.map_values(|c: char| seq![c]) + seq![Seq::<char>::empty()]
    } else if s.len() < p.len() {
        seq![s]
    } else if s.take(p.len() as int) == p {
        seq![Seq::<char>::empty()] + pieces(s.skip(p.len() as int), p)
    } else {
        glued(seq![s[0]], pieces(s.drop_first(), p))
    }
}

/// `ps` with `c` put in front of its first piece.
pub open spec fn glued(c: Seq<char>, ps: Seq<Seq<char>>) -> Seq<Seq<char>> {
    ps.update(0, c + ps[0])
}

/// Splitting gives at least one piece.
proof fn lemma_pieces_nonempty(s: Seq<char>, p: Seq<char>)
    ensures
        pieces(s, p).len() >= 1,
    decreases s.len(),
{
    if p.len() > 0 && s.len() >= p.len() {
        if s.take(p.len() as int) == p {
            lemma_pieces_nonempty(s.skip(p.len() as int), p);
        } else {
            lemma_pieces_nonempty(s.drop_first(), p);
        }
    }
}

/// The strings with the characters `ps`, as a list.
pub open spec fn strings_of(l: Seq<Value>, ps: Seq<Seq<char>>) -> bool {
    &&& l.len() == ps.len()
    &&& forall|i: int| 0 <= i < l.len() ==> (#[trigger] l[i] matches Value::String(t) && t@ == ps[i])
}

/// The pieces of `s` between the matches of `p`, as strings.
fn split_chars(s: &Vec<char>, p: &Vec<char>) -> (r: Vec<Value>)
    ensures
        strings_of(r@, pieces(s@, p@)),
{
    let mut done: Vec<Value> = Vec::new();
    let ghost mut dv: Seq<Seq<char>> = Seq::empty();
    if p.len() == 0 {
        done.push(Value::String(String::new()));
        proof {
            dv = seq![Seq::<char>::empty()];
        }
        let mut i: usize = 0;
        while i < s.len()
            invariant
                i <= s@.len(),
                p@.len() == 0,
                strings_of(done@, dv),
                dv == seq![Seq::<char>::empty()] + s@.take(i as int).map_values(|c: char| seq![c]),
            decreases s.len() - i,
        {
            let mut one = String::new();
            push_char(&mut one, s[i]);
            done.push(Value::String(one));
            proof {
                let prev = dv;
                dv = dv.push(seq![s@[i as int]]);
                assert(s@.take(i + 1).map_values(|c: char| seq![c]) =~= s@.take(i as int).map_values(
                    |c: char| seq![c],
                ).push(seq![s@[i as int]]));
                assert forall|j: int| 0 <= j < done@.len() implies (#[trigger] done@[j] matches Value::String(
                    t,
                ) && t@ == dv[j]) by {
                    if j < prev.len() {
                        assert(done@[j] == done@.drop_last()[j]);
                    }
                }
            }
            i += 1;
        }
        done.push(Value::String(String::new()));
        proof {
            let prev = dv;
            dv = dv.push(Seq::<char>::empty());
            assert(s@.take(s@.len() as int) == s@);
            assert forall|j: int| 0 <= j < done@.len() implies (#[trigger] done@[j] matches Value::String(t) && t@
                == dv[j]) by {
                if j < prev.len() {
                    assert(done@[j] == done@.drop_last()[j]);
                }
            }
            assert(dv =~= pieces(s@, p@));
        }
        return done;
    }
    let mut cur = String::new();
    let mut i: usize = 0;
    proof {
        lemma_pieces_nonempty(s@, p@);
        assert(s@.skip(0) =~= s@);
        assert(glued(cur@, pieces(s@, p@)) =~= pieces(s@, p@));
    }
    while i < s.len()
        invariant
            i <= s@.len(),
            p@.len() > 0,
            strings_of(done@, dv),
            dv + glued(cur@, pieces(s@.skip(i as int), p@)) == pieces(s@, p@),
        decreases s.len() - i,
    {
        let ghost rest = s@.skip(i as int);
        if p.len() > s.len() - i {
            let ghost c0 = cur@;
            assert(pieces(rest, p@) == seq![rest]);
            let mut k = i;
            while k < s.len()
                invariant
                    i <= k <= s@.len(),
                    cur@ + s@.skip(k as int) == c0 + s@.skip(i as int),
                decreases s.len() - k,
            {
                assert(s@.skip(k as int) =~= seq![s@[k as int]] + s@.skip(k + 1));
                push_char(&mut cur, s[k]);
                k += 1;
            }
            proof {
                assert(s@.skip(s@.len() as int) =~= Seq::<char>::empty());
                assert(cur@ =~= c0 + rest);
                assert(glued(c0, seq![rest]) =~= seq![cur@]);
                assert(pieces(Seq::<char>::empty(), p@) == seq![Seq::<char>::empty()]);
                assert(glued(cur@, pieces(Seq::<char>::empty(), p@)) =~= seq![cur@]);
            }
            i = s.len();
        } else if matches_at(s, p, i) {
            assert(rest.take(p@.len() as int) =~= s@.subrange(i as int, i + p@.len()));
            assert(rest.skip(p@.len() as int) =~= s@.skip(i + p@.len()));
            proof {
                lemma_pieces_nonempty(s@.skip(i + p@.len()), p@);
            }
            let piece = cur;
            cur = String::new();
            let ghost pv = piece@;
            done.push(Value::String(piece));
            proof {
                let prev = dv;
                dv = dv.push(pv);
                let tail = pieces(s@.skip(i + p@.len()), p@);
                assert(glued(pv, seq![Seq::<char>::empty()] + tail) =~= seq![pv] + tail);
                assert(glued(cur@, tail) =~= tail);
                assert(dv + glued(cur@, tail) =~= prev + glued(pv, pieces(rest, p@)));
                assert forall|j: int| 0 <= j < done@.len() implies (#[trigger] done@[j] matches Value::String(
                    t,
                ) && t@ == dv[j]) by {
                    if j < prev.len() {
                        assert(done@[j] == done@.drop_last()[j]);
                    }
                }
            }
            i += p.len();
        } else {
            assert(rest.take(p@.len() as int) =~= s@.subrange(i as int, i + p@.len()));
            assert(rest[0] == s@[i as int]);
            assert(rest.drop_first() == s@.skip(i + 1));
            proof {
                lemma_pieces_nonempty(s@.skip(i + 1), p@);
            }
            let ghost c0 = cur@;
            push_char(&mut cur, s[i]);
            proof {
                let tail = pieces(s@.skip(i + 1), p@);
                assert(cur@ == c0.push(s@[i as int]));
                assert(c0 + (seq![s@[i as int]] + tail[0]) =~= cur@ + tail[0]);
                assert(glued(c0, glued(seq![s@[i as int]], tail)) =~= glued(cur@, tail));
            }
            i += 1;
        }
    }
    proof {
        if i >= s@.len() {
            assert(s@.skip(i as int) =~= Seq::<char>::empty());
            assert(pieces(s@.skip(i as int), p@) == seq![Seq::<char>::empty()]);
            assert(glued(cur@, seq![Seq::<char>::empty()]) =~= seq![cur@]);
        }
    }
    let ghost last = cur@;
    done.push(Value::String(cur));
    proof {
        let prev = dv;
        dv = dv.push(last);
        assert forall|j: int| 0 <= j < done@.len() implies (#[trigger] done@[j] matches Value::String(t) && t@
            == dv[j]) by {
            if j < prev.len() {
                assert(done@[j] == done@.drop_last()[j]);
            }
        }
    }
    done
}


/// What `split` returns: the pieces of a string between the matches of
/// a separator, as a list of strings.
pub open spec fn split_post(args: Seq<Value>, r: Result<Value>) -> bool {
    if string_fault(args, 0) is Some || string_fault(args, 1) is Some {
        fails_with(r, ErrorKind::WrongArgType)
    } else {
        r matches Ok(Value::List(l)) && strings_of(l@, pieces(text_at(args, 0), text_at(args, 1)))
    }
}

/// The pieces `ps` written one after another with `t` between each two.
pub open spec fn pieces_joined(ps: Seq<Seq<char>>, t: Seq<char>) -> Seq<char>
    decreases ps.len(),
{
    if ps.len() == 0 {
        Seq::empty()
    } else if ps.len() == 1 {
        ps[0]
    } else {
        pieces_joined(ps.drop_last(), t) + t + ps.last()
    }
}

/// Joining a piece put in front of at least one more.
proof fn lemma_joined_front(a: Seq<char>, ps: Seq<Seq<char>>, t: Seq<char>)
    requires
        ps.len() >= 1,
    ensures
        pieces_joined(seq![a] + ps, t) == a + t + pieces_joined(ps, t),
    decreases ps.len(),
{
    let whole = seq![a] + ps;
    if ps.len() == 1 {
        assert(whole.drop_last() =~= seq![a]);
        assert(whole.last() == ps[0]);
        assert(pieces_joined(seq![a], t) == a);
        assert(pieces_joined(ps, t) == ps[0]);
        assert(pieces_joined(whole, t) == pieces_joined(whole.drop_last(), t) + t + whole.last());
    } else {
        lemma_joined_front(a, ps.drop_last(), t);
        assert(whole.drop_last() =~= seq![a] + ps.drop_last());
        assert(whole.last() == ps.last());
        assert(pieces_joined(whole, t) =~= a + t + pieces_joined(ps, t));
    }
}

/// Joining pieces whose first one was glued to `c`.
proof fn lemma_joined_glued(c: Seq<char>, ps: Seq<Seq<char>>, t: Seq<char>)
    requires
        ps.len() >= 1,
    ensures
        pieces_joined(glued(c, ps), t) == c + pieces_joined(ps, t),
    decreases ps.len(),
{
    let g = glued(c, ps);
    if ps.len() == 1 {
        assert(g[0] == c + ps[0]);
    } else {
        lemma_joined_glued(c, ps.drop_last(), t);
        assert(g.drop_last() =~= glued(c, ps.drop_last()));
        assert(g.last() == ps.last());
    }
}

/// The characters of `s`, each a piece of its own, after one empty
/// piece, joined with `t`: `t` before each character.
spec fn lead_joined(s: Seq<char>, t: Seq<char>) -> Seq<char> {
    pieces_joined(seq![Seq::<char>::empty()] + s.map_values(|c: char| seq![c]), t)
}

/// `lead_joined` taken from the front.
proof fn lemma_lead_front(s: Seq<char>, t: Seq<char>)
    requires
        s.len() >= 1,
    ensures
        lead_joined(s, t) == t + seq![s[0]] + lead_joined(s.drop_first(), t),
    decreases s.len(),
{
    let e = Seq::<char>::empty();
    let x = seq![e] + s.map_values(|c: char| seq![c]);
    assert(x.drop_last() =~= seq![e] + s.drop_last().map_values(|c: char| seq![c]));
    assert(x.last() == seq![s.last()]);
    assert(lead_joined(s, t) == lead_joined(s.drop_last(), t) + t + seq![s.last()]);
    if s.len() == 1 {
        let y = seq![e] + s.drop_last().map_values(|c: char| seq![c]);
        assert(y =~= seq![e]);
        assert(lead_joined(s.drop_last(), t) == e);
        let z = seq![e] + s.drop_first().map_values(|c: char| seq![c]);
        assert(z =~= seq![e]);
        assert(lead_joined(s.drop_first(), t) == e);
        assert(lead_joined(s, t) =~= t + seq![s[0]] + lead_joined(s.drop_first(), t));
    } else {
        lemma_lead_front(s.drop_last(), t);
        let r = s.drop_first();
        let xr = seq![e] + r.map_values(|c: char| seq![c]);
        assert(xr.drop_last() =~= seq![e] + r.drop_last().map_values(|c: char| seq![c]));
        assert(xr.last() == seq![r.last()]);
        assert(lead_joined(r, t) == lead_joined(r.drop_last(), t) + t + seq![r.last()]);
        assert(s.drop_last().drop_first() =~= r.drop_last());
        assert(s.drop_last()[0] == s[0]);
        assert(r.last() == s.last());
        assert(lead_joined(s, t) =~= t + seq![s[0]] + lead_joined(r, t));
    }
}

/// Replacing the empty pattern puts `t` before every character and at
/// the end.
proof fn lemma_replace_empty(s: Seq<char>, t: Seq<char>)
    ensures
        replaced(s, Seq::empty(), t) == lead_joined(s, t) + t,
    decreases s.len(),
{
    let e = Seq::<char>::empty();
    if s.len() == 0 {
        assert(seq![e] + s.map_values(|c: char| seq![c]) =~= seq![e]);
        assert(lead_joined(s, t) == e);
        assert(replaced(s, e, t) =~= lead_joined(s, t) + t);
    } else {
        lemma_replace_empty(s.drop_first(), t);
        lemma_lead_front(s, t);
        assert(replaced(s, e, t) =~= lead_joined(s, t) + t);
    }
}

/// Replacing `p` by `t` in `s` is splitting `s` on `p` and joining the
/// pieces with `t`: every match, from the left and without overlap, is
/// replaced, and nothing else changes (an empty `p` matches before each
/// character and at the end).
pub proof fn law_replace_is_split_then_join(s: Seq<char>, p: Seq<char>, t: Seq<char>)
    ensures
        replaced(s, p, t) == pieces_joined(pieces(s, p), t),
    decreases s.len(),
{
    if p.len() == 0 {
        let e = Seq::<char>::empty();
        let x = seq![e] + s.map_values(|c: char| seq![c]) + seq![e];
        assert(pieces(s, p) == x);
        assert(x.drop_last() =~= seq![e] + s.map_values(|c: char| seq![c]));
        assert(pieces_joined(x, t) == lead_joined(s, t) + t + e);
        assert(p =~= e);
        lemma_replace_empty(s, t);
        assert(lead_joined(s, t) + t + e =~= lead_joined(s, t) + t);
    } else if s.len() < p.len() {
    } else if s.take(p.len() as int) == p {
        let rest = s.skip(p.len() as int);
        law_replace_is_split_then_join(rest, p, t);
        lemma_pieces_nonempty(rest, p);
        lemma_joined_front(Seq::empty(), pieces(rest, p), t);
        assert(Seq::<char>::empty() + t + pieces_joined(pieces(rest, p), t) =~= t + replaced(rest, p, t));
    } else {
        let rest = s.drop_first();
        law_replace_is_split_then_join(rest, p, t);
        lemma_pieces_nonempty(rest, p);
        lemma_joined_glued(seq![s[0]], pieces(rest, p), t);
    }
}

/// A match of a non-empty `p` at the front of the text is replaced, and
/// replacing goes on in the rest: `replace(p + s, p, t)` is `t` followed
/// by `replace(s, p, t)`.
pub proof fn law_replace_front(s: Seq<char>, p: Seq<char>, t: Seq<char>)
    requires
        p.len() > 0,
    ensures
        replaced(p + s, p, t) == t + replaced(s, p, t),
{
    let ps = p + s;
    assert(ps.take(p.len() as int) =~= p);
    assert(ps.skip(p.len() as int) =~= s);
}

/// The printed strings `l` holding the pieces `ps`, joined by `sep`, are
/// those pieces joined by `sep`.
proof fn lemma_strings_joined(l: Seq<Value>, ps: Seq<Seq<char>>, sep: Seq<char>)
    requires
        strings_of(l, ps),
    ensures
        joined(l, sep) == pieces_joined(ps, sep),
    decreases l.len(),
{
    if l.len() > 1 {
        assert(strings_of(l.drop_last(), ps.drop_last())) by {
            assert forall|i: int| 0 <= i < l.drop_last().len() implies (#[trigger] l.drop_last()[i] matches Value::String(x)
                && x@ == ps.drop_last()[i]) by {
                assert(l.drop_last()[i] == l[i]);
            }
        }
        lemma_strings_joined(l.drop_last(), ps.drop_last(), sep);
        assert(l.last() == l[l.len() - 1]);
    } else if l.len() == 1 {
        assert(l[0] matches Value::String(x) && x@ == ps[0]);
    }
}

/// `replace(s, p, t)` and `split(s, p)` agree: the replacement is the
/// list that splitting gives, joined with `t`.
pub proof fn law_replace_joins_split(args: Seq<Value>, rep: Result<Value>, parts: Result<Value>)
    requires
        args.len() == 3,
        args[0] is String,
        args[1] is String,
        args[2] is String,
        replace_post(args, rep),
        split_post(args.take(2), parts),
    ensures
        rep matches Ok(Value::String(r)) && parts matches Ok(Value::List(l)) && r@ == joined(
            l@,
            text_at(args, 2),
        ),
{
    let a2 = args.take(2);
    assert(a2[0] == args[0] && a2[1] == args[1]);
    let l = parts->Ok_0->List_0;
    law_replace_is_split_then_join(text_at(args, 0), text_at(args, 1), text_at(args, 2));
    lemma_strings_joined(l@, pieces(text_at(args, 0), text_at(args, 1)), text_at(args, 2));
}

/// `split("a,b,c", ",") #=> ["a", "b", "c"]`
pub fn split(args: &[Value]) -> (r: Result<Value>)
    ensures
        split_post(args@, r),
{
    let s = need_string(args, 0)?;
    let p = need_string(args, 1)?;
    let parts = split_chars(&str_to_chars(s), &str_to_chars(p));
    Ok(Value::List(Rc::new(parts)))
}

/// How many items of `l` equal `v`.
pub open spec fn count_equal(l: Seq<Value>, v: Value) -> nat
    decreases l.len(),
{
    if l.len() == 0 {
        0
    } else {
        count_equal(l.drop_last(), v) + if spec_equals(l.last(), v) { 1nat } else { 0nat }
    }
}

/// What `count` returns: how often a string holds another (matches taken
/// from the left without overlapping, an empty one matching between
/// every two characters and at both ends), or how many items of a list
/// equal a value; 0 for anything else.
pub open spec fn count_post(args: Seq<Value>, r: Result<Value>) -> bool {
    if args.len() < 2 {
        fails_with(r, ErrorKind::ArgNotFound)
    } else {
        number_result(
            r,
            Some(
                match args[0] {
                    Value::String(s) => if args[1] is String {
                        pieces(s@, text_at(args, 1)).len() - 1
                    } else {
                        0
                    },
                    Value::List(l) => count_equal(l@, args[1]) as int,
                    _ => 0,
                } * SCALE,
            ),
        )
    }
}

/// `count("banana", "an") #=> 2`, `count([1, 2, 1], 1) #=> 2`
pub fn count(args: &[Value]) -> (r: Result<Value>)
    ensures
        count_post(args@, r),
{
    let hay = need(args, 0)?;
    let needle = need(args, 1)?;
    let n: usize = match hay {
        Value::String(s) => match needle {
            Value::String(p) => {
                let parts = split_chars(&str_to_chars(s.as_str()), &str_to_chars(p.as_str()));
                proof {
                    lemma_pieces_nonempty(s@, p@);
                }
                parts.len() - 1
            },
            _ => 0,
        },
        Value::List(l) => {
            let mut c: usize = 0;
            let mut i: usize = 0;
            while i < l.len()
                invariant
                    i <= l@.len(),
                    c == count_equal(l@.take(i as int), *needle),
                    c <= i,
                decreases l.len() - i,
            {
                assert(l@.take(i + 1).drop_last() == l@.take(i as int));
                if l[i].equals(needle) {
                    c += 1;
                }
                i += 1;
            }
            assert(l@.take(l@.len() as int) == l@);
            c
        },
        _ => 0,
    };
    match Number::from_usize(n) {
        Some(x) => Ok(Value::Number(x)),
        None => Err(error_of(ErrorKind::RuntimeError, "number out of range")),
    }
}

// ----------------------------------------------------------------------
// Containers

/// The position in a list of `len` items that index `i` names: counted
/// from the end when negative.
pub open spec fn slot(len: int, i: int) -> Option<int> {
    let j = if i < 0 {
        i + len
    } else {
        i
    };
    if 0 <= j < len {
        Some(j)
    } else {
        None
    }
}

/// The whole part of a number, as a list index.
pub open spec fn index_of(n: Number) -> int {
    trunc_div(n.units(), SCALE as int)
}

/// The position that number `n` names in a list of `len` items.
fn list_slot(len: usize, n: Number) -> (r: Option<usize>)
    ensures
        match r {
            Some(j) => slot(len as int, index_of(n)) == Some(j as int),
            None => slot(len as int, index_of(n)) is None,
        },
{
    let i: i64 = n.raw / SCALE;
    proof {
        let a = n.units();
        if a >= 0 {
            assert(i == a / 1_000_000);
        } else {
            assert(i == -((-a) / 1_000_000));
        }
        assert(i == index_of(n));
    }
    if i < 0 {
        let k: i128 = i as i128 + len as i128;
        if k >= 0 && k < len as i128 {
            Some(k as usize)
        } else {
            None
        }
    } else if (i as u64) < len as u64 {
        Some(i as usize)
    } else {
        None
    }
}

/// What `index` and `.` return: an item of a list by position, of a map
/// by key, or `None`.
pub open spec fn index_post(args: Seq<Value>, r: Result<Value>) -> bool {
    if args.len() != 2 {
        r == Ok::<Value, Error>(Value::Nil)
    } else {
        match args[0] {
            Value::Dict(m) => match string_fault(args, 1) {
                Some(k) => fails_with(r, k),
                None => r == Ok::<Value, Error>(
                    match m.spec_get(text_at(args, 1)) {
                        Some(v) => v,
                        None => Value::Nil,
                    },
                ),
            },
            Value::List(l) => match number_fault(args, 1) {
                Some(k) => fails_with(r, k),
                None => r == Ok::<Value, Error>(
                    match slot(l@.len() as int, index_of(args[1]->Number_0)) {
                        Some(j) => l@[j],
                        None => Value::Nil,
                    },
                ),
            },
            _ => r == Ok::<Value, Error>(Value::Nil),
        }
    }
}

/// `.` operator and `[]` operator: `[1,2,3][-1] #=> 3`
pub fn index(args: &[Value]) -> (r: Result<Value>)
    ensures
        index_post(args@, r),
{
    if args.len() != 2 {
        return Ok(Value::Nil);
    }
    match &args[0] {
        Value::Dict(m) => {
            let k = need_string(args, 1)?;
            match m.get(k) {
                Some(v) => Ok(v.clone()),
                None => Ok(Value::Nil),
            }
        },
        Value::List(l) => {
            let n = need_number(args, 1)?;
            match list_slot(l.len(), n) {
                Some(j) => Ok(l[j].clone()),
                None => Ok(Value::Nil),
            }
        },
        _ => Ok(Value::Nil),
    }
}

/// What `len` returns.
pub open spec fn len_post(args: Seq<Value>, r: Result<Value>) -> bool {
    if args.len() == 0 {
        fails_with(r, ErrorKind::ArgNotFound)
    } else {
        number_result(r, Some(spec_len(args[0]) * SCALE))
    }
}

/// `len([5]) #=> 1`, `len('hi') #=> 2`, `len({name:'Ra'}) #=> 1`
pub fn len(args: &[Value]) -> (r: Result<Value>)
    ensures
        len_post(args@, r),
{
    let v = need(args, 0)?;
    match Number::from_usize(v.len()) {
        Some(n) => Ok(Value::Number(n)),
        None => Err(error_of(ErrorKind::RuntimeError, "number out of range")),
    }
}

/// What `empty?` returns.
pub open spec fn empty_post(args: Seq<Value>, r: Result<Value>) -> bool {
    if args.len() == 0 {
        fails_with(r, ErrorKind::ArgNotFound)
    } else {
        r == Ok::<Value, Error>(Value::Bool(spec_len(args[0]) == 0))
    }
}

/// `empty?([]) #=> true`
pub fn empty(args: &[Value]) -> (r: Result<Value>)
    ensures
        empty_post(args@, r),
{
    let v = need(args, 0)?;
    Ok(Value::Bool(v.is_empty()))
}

/// Does `l` hold an item equal to `v`?
fn list_has(l: &Vec<Value>, v: &Value) -> (r: bool)
    ensures
        r == exists|i: int| 0 <= i < l@.len() && spec_equals(#[trigger] l@[i], *v),
{
    let mut i: usize = 0;
    while i < l.len()
        invariant
            i <= l@.len(),
            forall|j: int| 0 <= j < i ==> !spec_equals(#[trigger] l@[j], *v),
        decreases l.len() - i,
    {
        if l[i].equals(v) {
            return true;
        }
        i += 1;
    }
    false
}

/// What `contains?` returns: whether a string holds another, a list
/// holds an equal item, or a map has a key.
pub open spec fn contains_post(args: Seq<Value>, r: Result<Value>) -> bool {
    if args.len() < 2 {
        fails_with(r, ErrorKind::ArgNotFound)
    } else {
        r == Ok::<Value, Error>(
            Value::Bool(
                match args[0] {
                    Value::String(s) => args[1] is String && has_infix(s@, text_at(args, 1)),
                    Value::List(l) => exists|i: int|
                        0 <= i < l@.len() && spec_equals(#[trigger] l@[i], args[1]),
                    Value::Dict(m) => args[1] is String && m.has_key(text_at(args, 1)),
                    _ => false,
                },
            ),
        )
    }
}

/// `contains?('Bob', 'B') #=> true`
pub fn contains(args: &[Value]) -> (r: Result<Value>)
    ensures
        contains_post(args@, r),
{
    let hay = need(args, 0)?;
    let needle = need(args, 1)?;
    let found = match hay {
        Value::String(s) => match needle {
            Value::String(p) => infix(&str_to_chars(s.as_str()), &str_to_chars(p.as_str())),
            _ => false,
        },
        Value::List(l) => list_has(l, needle),
        Value::Dict(m) => match needle {
            Value::String(p) => m.position(p.as_str()).is_some(),
            _ => false,
        },
        _ => false,
    };
    Ok(Value::Bool(found))
}

/// Which end a range stops at.
pub open spec fn clamp32(x: int) -> int {
    if x < i32::MIN {
        i32::MIN as int
    } else if x > i32::MAX {
        i32::MAX as int
    } else {
        x
    }
}

/// The whole number `x` as a Hatter number.
pub open spec fn whole(x: int) -> Value {
    Value::Number(Number { raw: (x * SCALE) as i64 })
}

/// What `..` and `..=` return: the whole numbers from the first
/// argument up to the second (included for `..=`), both rounded toward
/// zero and clamped to the range of `i32`.
pub open spec fn range_post(inclusive: bool, args: Seq<Value>, r: Result<Value>) -> bool {
    match two_numbers_fault(args) {
        Some(k) => fails_with(r, k),
        None => {
            let a = clamp32(index_of(args[0]->Number_0));
            let b = clamp32(index_of(args[1]->Number_0));
            let n = if inclusive {
                b - a + 1
            } else {
                b - a
            };
            r matches Ok(Value::List(l)) && l@.len() == (if n > 0 {
                n
            } else {
                0
            }) && forall|k: int| 0 <= k < l@.len() ==> #[trigger] l@[k] == whole(a + k)
        },
    }
}

/// `1..5 #=> [1, 2, 3, 4]`, `1..=5 #=> [1, 2, 3, 4, 5]`
pub fn range(inclusive: bool, args: &[Value]) -> (r: Result<Value>)
    ensures
        range_post(inclusive, args@, r),
{
    let a = need_number(args, 0)?;
    let b = need_number(args, 1)?;
    let start = a.to_i32();
    let stop = b.to_i32();
    proof {
        assert(index_of(a) == trunc_div(a.units(), SCALE as int));
    }
    let end: i64 = if inclusive {
        stop as i64 + 1
    } else {
        stop as i64
    };
    let top: i64 = if end < start as i64 {
        start as i64
    } else {
        end
    };
    let mut v: Vec<Value> = Vec::new();
    let mut x: i64 = start as i64;
    while x < end
        invariant
            start <= x <= top,
            top == (if end < start { start as i64 } else { end }),
            end <= i32::MAX + 1,
            v@.len() == x - start,
            forall|k: int| 0 <= k < v@.len() ==> #[trigger] v@[k] == whole(start + k),
        decreases end - x,
    {
        v.push(Value::Number(Number::from_i32(x as i32)));
        x += 1;
    }
    Ok(Value::List(Rc::new(v)))
}

/// What `print` writes: the printed forms of its arguments, separated
/// by spaces.
pub open spec fn printed(args: Seq<Value>) -> Seq<char> {
    joined(args, seq![' '])
}

/// `print(...)`: writes the arguments to `out`, separated by spaces;
/// `puts(...)` when `newline`, which adds a newline.
pub fn print(newline: bool, args: &[Value], out: &mut String) -> (r: Result<Value>)
    ensures
        final(out)@ == old(out)@ + printed(args@) + (if newline {
            seq!['\n']
        } else {
            Seq::empty()
        }),
        r == Ok::<Value, Error>(Value::Nil),
{
    proof {
        reveal_strlit(" ");
        assert(" "@ =~= seq![' ']);
    }
    push_joined(out, args, " ");
    if newline {
        push_char(out, '\n');
    } else {
        assert(out@ =~= old(out)@ + printed(args@) + Seq::empty());
    }
    Ok(Value::Nil)
}

// ----------------------------------------------------------------------
// Storing into containers

/// A copy of a list.
fn copy_values(v: &Vec<Value>) -> (r: Vec<Value>)
    ensures
        r@ == v@,
{
    let mut r: Vec<Value> = Vec::new();
    let mut i: usize = 0;
    while i < v.len()
        invariant
            i <= v@.len(),
            r@ == v@.take(i as int),
        decreases v.len() - i,
    {
        r.push(v[i].clone());
        assert(r@ == v@.take(i + 1));
        i += 1;
    }
    assert(v@.take(v@.len() as int) == v@);
    r
}

/// What popping the list `c` gives: its last item and the list without
/// it, or nothing when `c` is not a list or is empty.
pub open spec fn popped_post(c: Value, r: Option<(Value, Value)>) -> bool {
    match c {
        Value::List(l) => if l@.len() > 0 {
            r matches Some((x, Value::List(l2))) && x == l@.last() && l2@ == l@.drop_last()
        } else {
            r is None
        },
        _ => r is None,
    }
}

/// The last item of the list `c` and the list without it.
pub fn popped(c: &Value) -> (r: Option<(Value, Value)>)
    ensures
        popped_post(*c, r),
{
    match c {
        Value::List(l) => {
            let mut items = copy_values(l);
            match items.pop() {
                Some(x) => Some((x, Value::List(Rc::new(items)))),
                None => None,
            }
        },
        _ => None,
    }
}

/// The list `c` with `v` appended, or `None` when `c` is not a list.
pub open spec fn pushed_post(c: Value, v: Value, r: Option<Value>) -> bool {
    match c {
        Value::List(l) => r matches Some(Value::List(l2)) && l2@ == l@.push(v),
        _ => r is None,
    }
}

/// The list `c` with `v` appended.
pub fn pushed(c: &Value, v: Value) -> (r: Option<Value>)
    ensures
        pushed_post(*c, v, r),
{
    match c {
        Value::List(l) => {
            let mut items = copy_values(l);
            items.push(v);
            Some(Value::List(Rc::new(items)))
        },
        _ => None,
    }
}

/// What storing `v` under key `k` of container `c` gives: a list
/// takes a number naming one of its positions (counted from the end when
/// negative), a map takes a string.
pub open spec fn put_post(c: Value, k: Value, v: Value, r: Result<Value>) -> bool {
    match c {
        Value::List(l) => match k {
            Value::Number(n) => match slot(l@.len() as int, index_of(n)) {
                Some(j) => r matches Ok(Value::List(l2)) && l2@ == l@.update(j, v),
                None => fails_with(r, ErrorKind::RuntimeError),
            },
            _ => fails_with(r, ErrorKind::WrongArgType),
        },
        Value::Dict(m) => match k {
            Value::String(s) => r matches Ok(Value::Dict(m2)) && stored(*m, Symbol(s), v, *m2),
            _ => fails_with(r, ErrorKind::WrongArgType),
        },
        _ => fails_with(r, ErrorKind::RuntimeError),
    }
}

/// `c` with `v` stored under key `k`.
pub fn put(c: &Value, k: &Value, v: Value) -> (r: Result<Value>)
    ensures
        put_post(*c, *k, v, r),
{
    match c {
        Value::List(l) => match k {
            Value::Number(n) => match list_slot(l.len(), *n) {
                Some(j) => {
                    let mut items = copy_values(l);
                    items.set(j, v);
                    assert(items@ == l@.update(j as int, v));
                    Ok(Value::List(Rc::new(items)))
                },
                None => Err(error_of(ErrorKind::RuntimeError, "index out of range")),
            },
            _ => Err(error_of(ErrorKind::WrongArgType, "Expected Number")),
        },
        Value::Dict(m) => match k {
            Value::String(s) => {
                let mut m2 = m.copy();
                let ghost before = m2;
                let key = Symbol(s.clone());
                assert(key == Symbol(*s));
                m2.insert(key, v);
                assert(stored(before, Symbol(*s), v, m2));
                proof {
                    crate::omap::lemma_stored_entries(&before, &**m, Symbol(*s), v, m2);
                }
                Ok(Value::Dict(Rc::new(m2)))
            },
            _ => Err(error_of(ErrorKind::WrongArgType, "Expected String")),
        },
        _ => Err(error_of(ErrorKind::RuntimeError, "can't set an index of this value")),
    }
}

// ----------------------------------------------------------------------
// Dispatch

/// What native `n` returns on `args`, when it writes nothing.
pub open spec fn pure_native_post(n: Native, args: Seq<Value>, r: Result<Value>) -> bool {
    match n {
        Native::Type => type_post(args, r),
        Native::When => when_post(args, r),
        Native::Eq => eq_post(args, r),
        Native::Neq => neq_post(args, r),
        Native::Not => not_post(args, r),
        Native::Concat => concat_post(args, r),
        Native::Index => index_post(args, r),
        Native::Range => range_post(false, args, r),
        Native::RangeInclusive => range_post(true, args, r),
        Native::Add => add_post(args, r),
        Native::Sub => arith_post(Arith::Sub, args, r),
        Native::Mul => arith_post(Arith::Mul, args, r),
        Native::Div => arith_post(Arith::Div, args, r),
        Native::Rem => arith_post(Arith::Rem, args, r),
        Native::Gt => compare_post(Comparison::Gt, args, r),
        Native::Gte => compare_post(Comparison::Gte, args, r),
        Native::Lt => compare_post(Comparison::Lt, args, r),
        Native::Lte => compare_post(Comparison::Lte, args, r),
        Native::ToUppercase => case_post(true, args, r),
        Native::ToLowercase => case_post(false, args, r),
        Native::Replace => replace_post(args, r),
        Native::Len => len_post(args, r),
        Native::Empty => empty_post(args, r),
        Native::Contains => contains_post(args, r),
        Native::Split => split_post(args, r),
        Native::Count => count_post(args, r),
        Native::Print | Native::Puts => true,
    }
}

/// What native `n` returns on `args`, and what it writes: `out0` is the
/// output before the call, `out1` after it.
pub open spec fn native_post(
    n: Native,
    args: Seq<Value>,
    out0: Seq<char>,
    out1: Seq<char>,
    r: Result<Value>,
) -> bool {
    match n {
        Native::Print => out1 == out0 + printed(args) && r == Ok::<Value, Error>(Value::Nil),
        Native::Puts => out1 == out0 + printed(args) + seq!['\n'] && r == Ok::<Value, Error>(
            Value::Nil,
        ),
        _ => out1 == out0 && pure_native_post(n, args, r),
    }
}

/// Calls native `n` on `args`; `print` and `puts` write to `out`.
pub fn call_native(n: Native, args: &[Value], out: &mut String) -> (r: Result<Value>)
    ensures
        native_post(n, args@, old(out)@, final(out)@, r),
        r matches Err(e) ==> !(e.kind is Jump),
{
    match n {
        Native::Type => type_of(args),
        Native::When => when(args),
        Native::Eq => eq(args),
        Native::Neq => neq(args),
        Native::Not => not(args),
        Native::Concat => concat(args),
        Native::Index => index(args),
        Native::Range => range(false, args),
        Native::RangeInclusive => range(true, args),
        Native::Add => self::add(args),
        Native::Sub => arith_op(Arith::Sub, args),
        Native::Mul => arith_op(Arith::Mul, args),
        Native::Div => arith_op(Arith::Div, args),
        Native::Rem => arith_op(Arith::Rem, args),
        Native::Gt => compare(Comparison::Gt, args),
        Native::Gte => compare(Comparison::Gte, args),
        Native::Lt => compare(Comparison::Lt, args),
        Native::Lte => compare(Comparison::Lte, args),
        Native::ToUppercase => change_case(true, args),
        Native::ToLowercase => change_case(false, args),
        Native::Replace => replace(args),
        Native::Len => len(args),
        Native::Empty => empty(args),
        Native::Contains => contains(args),
        Native::Split => split(args),
        Native::Count => count(args),
        Native::Print => print(false, args, out),
        Native::Puts => {
            let r = print(true, args, out);
            r
        },
    }
}

/// The names under which the natives are bound, in order.
pub open spec fn native_table() -> Seq<(Seq<char>, Native)> {
    seq![
        ("type"@, Native::Type),
        ("when"@, Native::When),
        ("=="@, Native::Eq),
        ("!="@, Native::Neq),
        ("not"@, Native::Not),
        ("!"@, Native::Not),
        ("concat"@, Native::Concat),
        ("index"@, Native::Index),
        ("."@, Native::Index),
        (".."@, Native::Range),
        ("..="@, Native::RangeInclusive),
        ("+"@, Native::Add),
        ("-"@, Native::Sub),
        ("*"@, Native::Mul),
        ("/"@, Native::Div),
        ("%"@, Native::Rem),
        (">"@, Native::Gt),
        (">="@, Native::Gte),
        ("<"@, Native::Lt),
        ("<="@, Native::Lte),
        ("print"@, Native::Print),
        ("puts"@, Native::Puts),
        ("to-uppercase"@, Native::ToUppercase),
        ("to-lowercase"@, Native::ToLowercase),
        ("replace"@, Native::Replace),
        ("len"@, Native::Len),
        ("empty?"@, Native::Empty),
        ("contains?"@, Native::Contains),
        ("split"@, Native::Split),
        ("count"@, Native::Count)
    ]
}

/// The names under which the specials are bound, in order.
pub open spec fn special_table() -> Seq<(Seq<char>, Special)> {
    seq![
        ("&&"@, Special::And),
        ("||"@, Special::Or),
        ("<<"@, Special::Push),
        ("push"@, Special::Push),
        ("set_index"@, Special::SetIndex),
        ("pop"@, Special::Pop)
    ]
}

/// The builtin natives with the names they are bound under.
pub fn natives() -> (r: Vec<(String, Native)>)
    ensures
        r@.len() == native_table().len(),
        forall|i: int|
            0 <= i < r@.len() ==> (#[trigger] r@[i]).0@ == native_table()[i].0 && r@[i].1
                == native_table()[i].1,
{
    let mut v: Vec<(String, Native)> = Vec::new();
    v.push((string_of("type"), Native::Type));
    v.push((string_of("when"), Native::When));
    v.push((string_of("=="), Native::Eq));
    v.push((string_of("!="), Native::Neq));
    v.push((string_of("not"), Native::Not));
    v.push((string_of("!"), Native::Not));
    v.push((string_of("concat"), Native::Concat));
    v.push((string_of("index"), Native::Index));
    v.push((string_of("."), Native::Index));
    v.push((string_of(".."), Native::Range));
    v.push((string_of("..="), Native::RangeInclusive));
    v.push((string_of("+"), Native::Add));
    v.push((string_of("-"), Native::Sub));
    v.push((string_of("*"), Native::Mul));
    v.push((string_of("/"), Native::Div));
    v.push((string_of("%"), Native::Rem));
    v.push((string_of(">"), Native::Gt));
    v.push((string_of(">="), Native::Gte));
    v.push((string_of("<"), Native::Lt));
    v.push((string_of("<="), Native::Lte));
    v.push((string_of("print"), Native::Print));
    v.push((string_of("puts"), Native::Puts));
    v.push((string_of("to-uppercase"), Native::ToUppercase));
    v.push((string_of("to-lowercase"), Native::ToLowercase));
    v.push((string_of("replace"), Native::Replace));
    v.push((string_of("len"), Native::Len));
    v.push((string_of("empty?"), Native::Empty));
    v.push((string_of("contains?"), Native::Contains));
    v.push((string_of("split"), Native::Split));
    v.push((string_of("count"), Native::Count));
    v
}

/// The builtin specials with the names they are bound under.
pub fn specials() -> (r: Vec<(String, Special)>)
    ensures
        r@.len() == special_table().len(),
        forall|i: int|
            0 <= i < r@.len() ==> (#[trigger] r@[i]).0@ == special_table()[i].0 && r@[i].1
                == special_table()[i].1,
{
    let mut v: Vec<(String, Special)> = Vec::new();
    v.push((string_of("&&"), Special::And));
    v.push((string_of("||"), Special::Or));
    v.push((string_of("<<"), Special::Push));
    v.push((string_of("push"), Special::Push));
    v.push((string_of("set_index"), Special::SetIndex));
    v.push((string_of("pop"), Special::Pop));
    v
}

/// What a read gives back of a write: storing `v` under key `k` of a
/// container and then indexing the result with `k` gives `v`.
pub proof fn law_index_after_put(c: Value, k: Value, v: Value, c2: Value)
    requires
        put_post(c, k, v, Ok(c2)),
    ensures
        index_post(seq![c2, k], Ok(v)),
{
    let args = seq![c2, k];
    assert(args[0] == c2 && args[1] == k);
    match c {
        Value::List(l) => {
            let n = k->Number_0;
            let j = slot(l@.len() as int, index_of(n))->0;
            assert(c2 matches Value::List(l2) && l2@ == l@.update(j, v));
        },
        Value::Dict(m) => {
            let s = k->String_0;
            let m2 = c2->Dict_0;
            crate::omap::law_get_after_insert(&*m, &*m2, Symbol(s), v);
        },
        _ => {},
    }
}

/// A value pushed onto a list is its last item: indexing the new list
/// with `-1` gives it.
pub proof fn law_last_after_push(c: Value, v: Value, l2: Value)
    requires
        pushed_post(c, v, Some(l2)),
    ensures
        index_post(seq![l2, whole(-1)], Ok(v)),
{
    let args = seq![l2, whole(-1)];
    assert(args[0] == l2 && args[1] == whole(-1));
    assert(crate::number::abs(-1_000_000) == 1_000_000);
    assert(crate::number::abs(SCALE as int) == 1_000_000);
    assert(trunc_div(-1_000_000, SCALE as int) == -1);
    assert(index_of(Number { raw: -1_000_000i64 }) == -1);
}

} // verus!
