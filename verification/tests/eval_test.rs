use hatter::{eval, render, Number, OMap, Symbol, Value};
use std::rc::Rc;

fn ev(code: &str) -> Value {
    eval(code).unwrap()
}

fn rn(code: &str) -> String {
    render(code).unwrap()
}

fn num(x: i64) -> Value {
    Value::Number(Number { raw: x * 1_000_000 })
}

fn numf(x: f64) -> Value {
    Value::Number(Number { raw: (x * 1_000_000.0).round() as i64 })
}

fn string(s: &str) -> Value {
    Value::String(s.to_string())
}

fn boo(b: bool) -> Value {
    Value::Bool(b)
}

fn list(v: Vec<Value>) -> Value {
    Value::List(Rc::new(v))
}

fn map(pairs: Vec<(&str, Value)>) -> Value {
    let mut m = OMap::new();
    for (k, v) in pairs {
        m.insert(Symbol(k.to_string()), v);
    }
    Value::Dict(Rc::new(m))
}

fn assert_error(code: &str) {
    assert!(eval(code).is_err(), "expected an error from {:?}", code);
}

#[test]
fn it_works() {
    assert_eq!(ev("22"), num(22));
    assert_eq!(ev("2 + 2"), num(4));
    assert_eq!(ev("'Hayay!'"), string("Hayay!"));
    assert_eq!(ev("(((0)))"), num(0));
}

#[test]
fn eval_test_test_string() {
    assert_eq!(rn(r#"<b> "Hi there""#), "<b>Hi there</b>\n");
    assert_eq!(rn(r#"<b> """#), "<b></b>\n");
}

#[test]
fn eval_test_test_list() {
    assert_eq!(ev("[1,2,3]"), list(vec![num(1), num(2), num(3)]));
    assert_eq!(
        ev("['Peter', 'Paul', 'Bob']"),
        list(vec![string("Peter"), string("Paul"), string("Bob")])
    );
}

#[test]
fn test_map() {
    assert_eq!(
        ev("{ name: 'Bilbo', age: 111 }"),
        map(vec![("name", string("Bilbo")), ("age", num(111))])
    );

    assert_eq!(
        rn("map := { name: 'Bilbo', age: 111 }
for k, v in map
    <span> <b> k </> v"),
        "<span><b>name</b>\nBilbo</span>\n<span><b>age</b>\n111</span>\n"
    );
}

#[test]
fn test_attributes() {
    assert_eq!(rn(r#"<div data-id='123'/>"#), "<div data-id='123' />\n");
    assert_eq!(rn(r#"<div data-id=123/>"#), "<div data-id=123 />\n");
}

#[test]
fn test_index() {
    assert_eq!(ev("\nlist := [1,2,3]\nlist[1]\n"), num(2));
    assert_eq!(ev("\nlist := [1,2,3]\nlist[2]\n"), num(3));
    assert_eq!(ev("\nlist := [1,2,3]\nlist[3]\n"), Value::Nil);
    assert_eq!(ev("\nlist := [1,2,3]\nlist[-1]\n"), num(3));
    assert_eq!(ev("\nlist := [1,2,3]\nlist[-2]\n"), num(2));
    assert_eq!(ev("\nlist := [1,2,3]\nlist[-20]\n"), Value::Nil);
}

#[test]
fn test_index_assign() {
    assert_eq!(ev("a := 1..=5; a[1] = 100; a[1]"), num(100));
    assert_eq!(ev("a := { one: 1, two: 2}; a['one'] = 100; a.one"), num(100));
    assert_eq!(ev("a := { one: 1, two: 2}; a.one = 100; a.one"), num(100));
    assert_eq!(ev("a := {m: {}}; a.m['one'] = 100; a.m.one"), num(100));
    assert_eq!(ev("a := {m: {}}; a.m.one = 100; a.m.one"), num(100));
}

#[test]
fn test_if() {
    assert_eq!(
        rn(r#"
if true
    puts("yay")
"#),
        "yay\n"
    );

    assert_eq!(rn(r#"if true do print("yay")"#), "yay");
    assert_eq!(rn(r#"if false do print("yay") else do print("nay")"#), "nay");
    assert_eq!(
        rn(r#"if false do print("yay") else if 1 > 0 do print("nay") else do print("cray")"#),
        "nay"
    );

    assert_eq!(rn(r#"if true then print("yay")"#), "yay");
    assert_eq!(rn(r#"if false then print("yay") else print("nay")"#), "nay");
    assert_eq!(
        rn(r#"if false then print("yay") else if 1 > 0 then print("nay") else print("cray")"#),
        "nay"
    );
}

#[test]
fn test_and_n_or() {
    assert_eq!(ev("true && true"), boo(true));
    assert_eq!(ev("true && false"), boo(false));
    assert_eq!(ev("false && true"), boo(false));
    assert_eq!(ev("false && false"), boo(false));
    assert_eq!(ev("true || true"), boo(true));
    assert_eq!(ev("true || false"), boo(true));
    assert_eq!(ev("false || true"), boo(true));
    assert_eq!(ev("false || false"), boo(false));
    assert_eq!(ev("!true"), boo(false));
    assert_eq!(ev("!false"), boo(true));
    assert_eq!(ev("!!true"), boo(true));

    assert_eq!(
        rn(r#"
def test()
    print("Tested!")
    return false
test() && test()
"#),
        "Tested!false"
    );
}

#[test]
fn test_for() {
    assert_eq!(
        rn(r#"
for x in [10,20,30]
    puts(x)
"#),
        "10\n20\n30\n"
    );

    assert_eq!(
        rn(r#"
for x in [10,20,30,40]
    if x > 20
        break
    puts(x)
"#),
        "10\n20\n"
    );

    assert_eq!(
        rn(r#"
for x in [10,20,30,40]
    if x == 20
        continue
    puts(x)
"#),
        "10\n30\n40\n"
    );

    assert_eq!(
        rn(r#"
for x in [10,20,30,40]
    if x == 20 do continue
    puts(x)
"#),
        "10\n30\n40\n"
    );
}

#[test]
fn test_def() {
    assert_eq!(
        rn(r#"
def test() do print("OK")
test()
"#),
        "OK"
    );

    assert_eq!(
        rn(r#"
def test()
    print("OK")
test()
"#),
        "OK"
    );
}

#[test]
fn test_call_with_keywords() {
    assert_eq!(
        rn(r#"
def greet(title, name) do print("Hiya, {title}. {name}!")
greet(name: 'Bob', title: 'Dr')
"#),
        "Hiya, Dr. Bob!"
    );
}

#[test]
fn test_return() {
    assert_eq!(
        ev(r#"
def test()
    return 1 + 1
test()
"#),
        num(2)
    );

    assert_eq!(
        rn(r#"
def test()
    if true
        print("BYE")
        return
    print("OK!")
test()
"#),
        "BYE"
    );
}

#[test]
fn test_form_shortcuts() {
    assert_eq!(
        rn("<form POST='/update'> <input:submit/>"),
        "<form method='POST' action='/update'><input type='submit' />\n</form>\n"
    );

    assert_eq!(
        rn("<form GET='/search'> <input@query:text/> <input:submit/>"),
        "<form method='GET' action='/search'><input name='query' type='text' />\n<input type='submit' />\n</form>\n"
    );
}

#[test]
fn eval_test_test_math() {
    assert_eq!(ev("1 + 1"), num(2));
    assert_eq!(ev("20 * 10"), num(200));
    assert_eq!(ev("2.2 + 3.3"), numf(5.5));
}

#[test]
fn hatter_in_a_hurry() {
    assert_eq!(ev("false"), boo(false));
    assert_eq!(ev("true"), boo(true));

    assert_eq!(ev("200"), numf(200.0));
    assert_eq!(ev("-10_150_203"), num(-10_150_203));
    assert_eq!(ev("0b101"), num(0b101));
    assert_eq!(ev("0o123"), num(0o123));
    assert_eq!(ev("0xabba"), num(0xabba));

    assert_eq!(ev("3.14"), numf(3.14));
    assert_eq!(ev("-102.123"), numf(-102.123));

    assert_eq!(ev(r#""Heya pal!""#), string("Heya pal!"));
    assert_eq!(ev(r#"'Also, hi.'"#), string("Also, hi."));
    assert_eq!(ev(r#"`Also, hello.`"#), string("Also, hello."));
    assert_eq!(
        ev(r#""""
    Triple version of ', ", and `
    works for multi-line strings.
""""#),
        string(
            r#"
    Triple version of ', ", and `
    works for multi-line strings.
"#
        )
    );
    assert_eq!(
        ev(r#""Double quoted strings are interpolated: {2 + 2}""#),
        string(r#"Double quoted strings are interpolated: 4"#)
    );

    assert_eq!(ev(r#"[1, 2, 3]"#), list(vec![num(1), num(2), num(3)]));
    assert_eq!(
        ev(r#"["John", "Paul", "George", "Ringo"]"#),
        list(vec![string("John"), string("Paul"), string("George"), string("Ringo")])
    );
    assert_eq!(
        ev(r#"[true, 2, "Paul"]"#),
        list(vec![boo(true), num(2), string("Paul")])
    );

    assert_eq!(
        ev(r#"{ one: "one", two: "two" }"#),
        map(vec![("one", string("one")), ("two", string("two"))])
    );
    assert_eq!(
        ev(r#"{ 0: "oh", 1: "also one" }"#),
        map(vec![("0", string("oh")), ("1", string("also one"))])
    );

    assert_eq!(ev("z := fn(x) return x + 1\nz(2)"), num(3));

    assert_eq!(ev("num := 123\nnum = 456\nnum"), num(456));
    assert_error("num := 123\nnum = '456'");
    assert_error("num := 123\nnum := 456");
    assert_error("rand = 'random'");

    assert_eq!(
        rn(r#"
def greet(title, name)
    print("Hiya, {title}. {name}!")
greet('Mrs', 'Robinson')
"#),
        "Hiya, Mrs. Robinson!"
    );

    assert_error(
        r#"
def greet(title, name)
    print("Hiya, {title}. {name}!")
greet('Mrs', 'Robinson', 'Crusoe')
"#,
    );

    assert_eq!(
        rn(r#"
def mod(num, by, msg)
    if (num % by) == 0
        return msg
    else
        return ""

def fizz-buzz
    for i in 1..=30
        word := mod(i, 3, 'Fizz') + mod(i, 5, 'Buzz')
        if len(word) > 0
            puts(word)
fizz-buzz()
"#),
        "Fizz\nBuzz\nFizz\nFizz\nBuzz\nFizz\nFizzBuzz\nFizz\nBuzz\nFizz\nFizz\nBuzz\nFizz\nFizzBuzz\n"
    );

    let ifelse = r#"
if i == 0
    print("Cero")
else if i > 100_000_000
    print("Way TOO Positive!")
else if i > 0
    print("Positive")
else if i < 0
    print("Negative")
"#;

    assert_eq!(rn(&format!("i := 0{}", ifelse)), "Cero");
    assert_eq!(rn(&format!("i := 10{}", ifelse)), "Positive");
    assert_eq!(rn(&format!("i := -10{}", ifelse)), "Negative");
    assert_eq!(rn(&format!("i := 100_000_001{}", ifelse)), "Way TOO Positive!");

    assert_eq!(
        rn(r#"
for v in [100, 200, 300]
    puts(v) #=> 100 then 200 then 300
"#),
        "100\n200\n300\n"
    );

    assert_eq!(
        rn(r#"
for i, v in [100, 200, 300]
    puts(i) #=> 0 then 1 then 2
    "#),
        "0\n1\n2\n"
    );

    assert_eq!(
        rn(r#"
for k, v in { first: 1, second: 2 }
    puts("{k} is {v}") #=> `first is 1` then `second is 2`
    "#),
        "first is 1\nsecond is 2\n"
    );

    assert_eq!(
        rn(r#"
x := 0
while true
    x += 1
    puts("O'DOYLE RULES!")
    if x > 1
        break
    "#),
        "O'DOYLE RULES!\nO'DOYLE RULES!\n"
    );

    assert_eq!(
        rn(r#"
def hundreds(list)
    new-list := []
    for n in list
        new-list << (n * 100)
    return new-list

for v in hundreds(1..5)
    puts(v)
    if v > 300
        break
        "#),
        "100\n200\n300\n400\n"
    );
}

#[test]
fn readme_features() {
    assert_eq!(rn("<h1> Welcome, <i> Rob"), "<h1>Welcome,<i>Rob</i>\n</h1>\n");
    assert_eq!(rn("<b> Heya"), "<b>Heya</b>\n");
    assert_eq!(rn("<b> Heya <i> there"), "<b>Heya<i>there</i>\n</b>\n");

    assert_eq!(rn("<div#id>"), "<div id='id'></div>\n");
    assert_eq!(rn("<div.class1.class2>"), "<div class='class1 class2'></div>\n");
    assert_eq!(
        rn("<input@form-field-name>"),
        "<input name='form-field-name'></input>\n"
    );
    assert_eq!(rn("<input:text>"), "<input type='text'></input>\n");

    assert_eq!(
        rn("page := { id: 33 } <div page-num={page.id}>"),
        "<div page-num=33></div>\n"
    );

    assert_eq!(
        rn("logged-in? := true
<div .logged-in=logged-in?>"),
        "<div class='logged-in'></div>\n"
    );
    assert_eq!(
        rn("is-map? := true
<div data-map=is-map?>"),
        "<div data-map></div>\n"
    );

    assert_eq!(
        rn(r#"name := 'Bob'
<span.greeting> "Hey there {name}. 2 + 2 is {2 + 2}""#),
        "<span class='greeting'>Hey there Bob. 2 + 2 is 4</span>\n"
    );

    assert_eq!(
        rn(r#"page := { id: 22, type: 'index', title: 'Index' }
<span #page-{page.id} .is-{page.type}> page.title"#),
        "<span id='page-22' class='is-index'>Index</span>\n"
    );

    assert_eq!(rn(r#"<#main>"#), "<div id='main'></div>\n");

    assert_eq!(rn(r#"<i>delicious</>"#), "<i>delicious</i>\n");

    assert_eq!(
        rn(r#"<li> <a onclick=(alert("Oink!"))> "🐷""#),
        r#"<li><a onclick='(function(e){ alert("Oink!") })(event);' href='#'>🐷</a>
</li>
"#
    );

    assert_eq!(ev("true"), boo(true));
    assert_eq!(ev("false"), boo(false));
    assert_eq!(ev("101"), num(101));
    assert_eq!(ev("3.14"), numf(3.14));
    assert_eq!(ev("-200.12"), numf(-200.12));
    assert_eq!(ev(r#""hey there""#), string("hey there"));
    assert_eq!(ev(r#"'hi friends'"#), string("hi friends"));
    assert_eq!(ev(r#"[1,2,3]"#), list(vec![num(1), num(2), num(3)]));
    assert_eq!(ev(r#"['Bob', 'Rob']"#), list(vec![string("Bob"), string("Rob")]));
    assert_eq!(
        ev(r#"{one: 1, two: 2}"#),
        map(vec![("one", num(1)), ("two", num(2))])
    );
    assert_eq!(
        ev(r#"{name: "Ringo", job: "Drums"}"#),
        map(vec![("name", string("Ringo")), ("job", string("Drums"))])
    );

    assert_eq!(
        rn(r#"pages := [{id: 1, name: "Page 1"}, {id: 2, name: "2nd"}]
<ul> for page in pages do <li id=page-{page.id}> page.name"#),
        "<ul><li id='page-1'>Page 1</li>\n<li id='page-2'>2nd</li>\n</ul>\n"
    );
    assert_eq!(
        rn(r#"some-map := { one: 1, two: 2 }
for k, v in some-map do <tr> <td> k </> <td> v"#),
        "<tr><td>one</td>\n<td>1</td>\n</tr>\n<tr><td>two</td>\n<td>2</td>\n</tr>\n"
    );

    assert_eq!(
        rn(r#"logged_in? := false
if logged_in? then <h2> Welcome back!"#),
        r#""#
    );
    assert_eq!(
        rn("logged_in? := true
if logged_in? then <h2> Welcome back!"),
        "<h2>Welcome back!</h2>\n"
    );

    assert_error(
        "
name := 'Bob'
name := 'Rob'",
    );
    assert_error("name = 'Bob'");

    assert_eq!(
        rn(r#"name := "tony"
<div.name> to-uppercase(name)"#),
        "<div class='name'>TONY</div>\n"
    );

    assert_eq!(
        rn(r#"def greet(name) do puts("Hey there, {name}!")
greet("Lydia")"#),
        "Hey there, Lydia!\n"
    );

    assert_eq!(
        rn(r#"
def ++(a, b) do concat(to-uppercase(a), ' ', to-uppercase(b))
puts("cat" ++ "dog")
"#),
        "CAT DOG\n"
    );

    assert_eq!(
        ev(r#"
adder := fn(x) fn(y) x + y
add1 := adder(1)
add1(200)
"#),
        num(201)
    );

    assert_eq!(
        rn(r#"
def greet(title, name) do puts("Hiya, {title}. {name}!")
greet(name: "Marley", title: "Dr")
"#),
        "Hiya, Dr. Marley!\n"
    );

    assert_eq!(rn(r#"if 2 > 1 do puts("Obviously")"#), "Obviously\n");
    assert_eq!(rn(r#"for x in [1,2,3] do puts(x)"#), "1\n2\n3\n");

    assert_eq!(
        rn(r#"if 2 > 1 then puts("Yup!") else if 2 < 1 then puts("Impossible.")"#),
        "Yup!\n"
    );

    assert_eq!(
        rn("<head>
    <title> Kewl
<body>
    <h1> Heya
    <p> Hey ya!"),
        "<!DOCTYPE html>
<html><head><title>Kewl</title>
</head>
<body><h1>Heya</h1>
<p>Hey ya!</p>
</body>

</html>
"
    );
}
