use hatter::{eval, Number, Value};
use std::rc::Rc;

fn ev(code: &str) -> Value {
    eval(code).unwrap()
}

fn num(x: i64) -> Value {
    Value::Number(Number { raw: x * 1_000_000 })
}

fn string(s: &str) -> Value {
    Value::String(s.to_string())
}

fn boo(b: bool) -> Value {
    Value::Bool(b)
}

fn list(v: Vec<Value>) -> Value {
    Value::List(Rc::new(v))
}

#[test]
fn test_internal_functions() {
    assert_eq!(ev(r#"concat("hi", "-", 23)"#), string("hi-23"));

    assert_eq!(ev(r#"when(true, "yep")"#), string("yep"));
    assert_eq!(ev(r#"when(false, "yep")"#), Value::Nil);

    assert_eq!(ev(r#"type(false)"#), string("bool"));
    assert_eq!(ev(r#"type(123)"#), string("number"));
    assert_eq!(ev(r#"type('heyo')"#), string("string"));
}

#[test]
fn test_boolean_operators() {
    assert_eq!(ev("true && true"), boo(true));
    assert_eq!(ev("true && false"), boo(false));
    assert_eq!(ev("false && true"), boo(false));
    assert_eq!(ev("false && false"), boo(false));

    assert_eq!(ev("true || true"), boo(true));
    assert_eq!(ev("true || false"), boo(true));
    assert_eq!(ev("false || true"), boo(true));
    assert_eq!(ev("false || false"), boo(false));

    assert_eq!(ev("1 == 1"), boo(true));
    assert_eq!(ev("1 == 2"), boo(false));
    assert_eq!(ev("'1' == 1"), boo(false));
    assert_eq!(ev("'1' == '1'"), boo(true));
    assert_eq!(ev("'1' != '1'"), boo(false));

    assert_eq!(ev("!true"), boo(false));
    assert_eq!(ev("!!true"), boo(true));

    assert_eq!(ev("1 < 2"), boo(true));
    assert_eq!(ev("2 < 1"), boo(false));
    assert_eq!(ev("1 > 2"), boo(false));
    assert_eq!(ev("1 >= 2"), boo(false));
    assert_eq!(ev("2 > 1"), boo(true));
    assert_eq!(ev("2 > 2"), boo(false));
    assert_eq!(ev("2 >= 2"), boo(true));
}

#[test]
fn builtin_test_test_math() {
    assert_eq!(ev("1 + 2"), num(3));
    assert_eq!(ev("2 - 1"), num(1));
    assert_eq!(ev("1 - 2"), num(-1));
    assert_eq!(ev("10 * 2"), num(20));
    assert_eq!(ev("10 / 2"), num(5));
    assert_eq!(ev("1 % 2"), num(1));
    assert_eq!(ev("2 % 2"), num(0));
}

#[test]
fn builtin_test_test_string() {
    assert_eq!(ev("'1' + '2'"), string("12"));
    assert_eq!(ev("to-uppercase('bob')"), string("BOB"));
    assert_eq!(ev("to-lowercase('BOB')"), string("bob"));
    assert_eq!(ev("contains?('Bob', 'B')"), boo(true));
    assert_eq!(ev("contains?('Bob', 'Z')"), boo(false));
    assert_eq!(ev(r#"replace("Mr Rogers", "Ro", "Dod")"#), string("Mr Dodgers"));
    assert_eq!(ev(r#"replace("Mr Rogers", "Zo", "Dod")"#), string("Mr Rogers"));
}

#[test]
fn test_container() {
    assert_eq!(ev("[1,2,3][1]"), num(2));
    assert_eq!(ev("abc := { one: 1 }; abc.one"), num(1));
    assert_eq!(ev("abc := { one: 1 }; abc.two"), Value::Nil);
    assert_eq!(ev("abc := { one: 1 }; abc['one']"), num(1));
    assert_eq!(ev("abc := { one: 1 }; abc['two']"), Value::Nil);
    assert_eq!(ev("len([1,2,3])"), num(3));
    assert_eq!(ev("len([])"), num(0));
    assert_eq!(ev("len({})"), num(0));
    assert_eq!(ev("len({one: 1, two: 2})"), num(2));
    assert_eq!(ev("empty?({one: 1, two: 2})"), boo(false));
    assert_eq!(ev("empty?({})"), boo(true));
    assert_eq!(ev("empty?([])"), boo(true));
    assert_eq!(ev("empty?([1,2,3])"), boo(false));
}

#[test]
fn builtin_test_test_list() {
    assert_eq!(ev("a := 1..=3; a << 4; a[-1]"), num(4));
    assert_eq!(ev("a := 1..=3; a << 40; a << 50; len(a)"), num(5));
    assert_eq!(ev("a := 1..=3; push(a, 5); a[-1]"), num(5));
}

#[test]
fn test_range() {
    assert_eq!(ev("1..5"), list(vec![num(1), num(2), num(3), num(4)]));
    assert_eq!(ev("1..=5"), list(vec![num(1), num(2), num(3), num(4), num(5)]));
}
