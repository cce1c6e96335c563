use hatter::{
    compile, eval, line_and_col, render, scan, Env, ErrorKind, Jump, Number, OMap, Stmt, Symbol, Syntax,
    Template, TokenStream, Value,
};
use std::rc::Rc;

fn ev(code: &str) -> Value {
    eval(code).unwrap()
}

fn rn(code: &str) -> String {
    render(code).unwrap()
}

fn num(x: i64) -> Value {
    Value::Number(Number { raw: x * 1_000_000 })
}

fn units(x: i64) -> Value {
    Value::Number(Number { raw: x })
}

fn string(s: &str) -> Value {
    Value::String(s.to_string())
}

fn kind_of(code: &str) -> ErrorKind {
    eval(code).unwrap_err().kind
}

#[test]
fn scoped_binding_vanishes() {
    let mut env = Env::new();
    env.set("x", num(1));
    env.push_scope();
    env.set("y", num(2));
    env.set("x", num(3));
    assert_eq!(env.lookup("x"), Some(&num(3)));
    env.pop_scope();
    assert_eq!(env.lookup("x"), Some(&num(1)));
    assert!(env.lookup("y").is_none());
    assert!(!env.var_exists("y"));
}

#[test]
fn update_outlives_scope() {
    let mut env = Env::new();
    env.set("x", num(1));
    env.push_scope();
    env.update("x", num(5));
    env.update("z", num(7));
    env.pop_scope();
    assert_eq!(env.lookup("x"), Some(&num(5)));
    assert!(env.lookup("z").is_none());
}

#[test]
fn lookup_after_set() {
    let mut env = Env::new();
    assert!(!env.var_exists("name"));
    env.set("name", string("Bob"));
    assert_eq!(env.lookup("name"), Some(&string("Bob")));
    env.set("name", string("Rob"));
    assert_eq!(env.lookup("name"), Some(&string("Rob")));
    assert!(env.var_exists("len"));
}

#[test]
fn eval_keeps_the_stack() {
    let mut env = Env::new();
    assert!(env.eval_src("def f(a)\n    b := a\n    return b\nf(2)").is_ok());
    assert!(env.eval_src("for x in [1]\n    y := x").is_ok());
    assert!(env.eval_src("for x in [1]\n    undefined-thing").is_err());
    env.set("top", num(1));
    env.pop_scope();
    assert_eq!(env.lookup("top"), Some(&num(1)));
}

#[test]
fn render_wraps_a_head() {
    assert_eq!(rn("<p> Hi"), "<p>Hi</p>\n");
    let page = rn("<head>\n    <title> T");
    assert!(page.starts_with("<!DOCTYPE html>\n<html>"));
    assert!(page.ends_with("\n</html>\n"));
}

#[test]
fn output_printed_before_comes_first() {
    let mut env = Env::new();
    env.print(&string("before "));
    let stmts = compile("print(1)").unwrap();
    assert_eq!(env.render_stmts(&stmts).unwrap(), "before 1");
    assert_eq!(env.out(), "");
}

#[test]
fn error_kinds() {
    assert!(matches!(kind_of("can't-find-me"), ErrorKind::RuntimeError));
    assert!(matches!(kind_of("when()"), ErrorKind::ArgNotFound));
    assert!(matches!(kind_of("1 - 'a'"), ErrorKind::WrongArgType));
    assert!(matches!(kind_of("to-uppercase(1)"), ErrorKind::WrongArgType));
    assert!(matches!(kind_of("break"), ErrorKind::Jump(Jump::Break)));
    assert!(matches!(kind_of("continue"), ErrorKind::Jump(Jump::Continue)));
    assert!(matches!(kind_of("return 3"), ErrorKind::Jump(Jump::Return(_))));
    assert!(matches!(kind_of("'unclosed"), ErrorKind::SyntaxError));
    assert!(matches!(kind_of("(1 + 2"), ErrorKind::ParseError));
}

#[test]
fn assignment_rules() {
    assert!(eval("x := 1\nx := 2").is_err());
    assert!(eval("x = 2").is_err());
    assert!(eval("x := 1\nx = 'two'").is_err());
    assert_eq!(ev("x := 1\nx = 2\nx"), num(2));
    assert_eq!(ev("x := 1\nx += 41\nx"), num(42));
}

#[test]
fn arithmetic() {
    assert_eq!(ev("10 / 4"), units(2_500_000));
    assert_eq!(ev("1 / 3"), units(333_333));
    assert_eq!(ev("-7 % 3"), num(-1));
    assert_eq!(ev("2.5 * 2"), num(5));
    assert_eq!(ev("1 + 2 + 3"), num(6));
    assert!(matches!(kind_of("1 / 0"), ErrorKind::RuntimeError));
    assert!(matches!(kind_of("1 % 0"), ErrorKind::RuntimeError));
    assert!(matches!(kind_of("9_000_000_000_000 * 9_000_000_000_000"), ErrorKind::RuntimeError));
    assert_eq!(rn("print(3.14, -0.5, 1 / 3)"), "3.14 -0.5 0.333333");
}

#[test]
fn strings() {
    assert_eq!(ev("replace('abc', '', '-')"), string("-a-b-c-"));
    assert_eq!(ev("replace('aaa', 'aa', 'b')"), string("ba"));
    assert_eq!(ev("to-uppercase('straße')"), string("STRASSE"));
    assert_eq!(ev("to-lowercase('ÀB')"), string("àb"));
    assert_eq!(ev("len('héllo')"), num(6));
    assert_eq!(ev("concat('a', 1, true)"), string("a1true"));
    assert_eq!(ev("'a' + 'b' + 3"), string("ab"));
}

#[test]
fn containers() {
    assert_eq!(ev("contains?([1, 2], 2)"), Value::Bool(true));
    assert_eq!(ev("contains?([1, 2], 3)"), Value::Bool(false));
    assert_eq!(ev("contains?({a: 1}, 'a')"), Value::Bool(true));
    assert_eq!(ev("contains?({a: 1}, 'b')"), Value::Bool(false));
    assert!(matches!(kind_of("a := [1]; a[5] = 2"), ErrorKind::RuntimeError));
    assert_eq!(ev("a := [1, 2]; a[-1] = 9; a"), Value::List(Rc::new(vec![num(1), num(9)])));
    assert_eq!(ev("5..2"), Value::List(Rc::new(vec![])));
    assert_eq!(ev("[1] == [1]"), Value::Bool(false));
}

#[test]
fn map_equality_ignores_order() {
    let mut a = OMap::new();
    a.insert(Symbol::from("x"), num(1));
    a.insert(Symbol::from("y"), num(2));
    let mut b = OMap::new();
    b.insert(Symbol::from("y"), num(2));
    b.insert(Symbol::from("x"), num(1));
    assert_eq!(Value::Dict(Rc::new(a)), Value::Dict(Rc::new(b)));
    let f = ev("fn(x) x");
    assert_ne!(f.clone(), f);
}

#[test]
fn map_keeps_insertion_order() {
    assert_eq!(
        rn("for k, v in { zeta: 1, alpha: 2, mid: 3 }\n    print(k)"),
        "zetaalphamid"
    );
    let mut m = OMap::new();
    m.insert(Symbol::from("a"), num(1));
    m.insert(Symbol::from("b"), num(2));
    m.insert(Symbol::from("a"), num(3));
    assert_eq!(m.len(), 2);
    assert_eq!(m.get("a"), Some(&num(3)));
    assert_eq!(m.iter()[0].0.to_str(), "a");
}

#[test]
fn calls() {
    assert!(matches!(kind_of("def f(a) do a\nf()"), ErrorKind::RuntimeError));
    assert_eq!(ev("def f(a, b) do a - b\nf(b: 1, a: 10, c: 5)"), num(9));
    assert_eq!(ev("def f() do 7\nf()"), num(7));
    assert_eq!(ev("x := 1\ndef f() do x = 2\nf()\nx"), num(2));
}

#[test]
fn loops() {
    assert_eq!(
        rn("x := 0\nwhile x < 5\n    x += 1\n    if x == 2 do continue\n    print(x)"),
        "1345"
    );
    assert_eq!(rn("for i, v in ['a', 'b']\n    print(i, v)"), "0 a1 b");
    assert!(matches!(kind_of("for x in 5\n    x"), ErrorKind::RuntimeError));
}

#[test]
fn tags() {
    assert_eq!(rn("<a> Home"), "<a href='#'>Home</a>\n");
    assert_eq!(rn("<a href='/'> Home"), "<a href='/'>Home</a>\n");
    assert_eq!(rn("<debug> 'hidden'"), "");
    assert_eq!(rn("f := false\n<p .x .y=f>"), "<p class='x'></p>\n");
    assert_eq!(rn("f := false\n<p .y=f>"), "<p class=''></p>\n");
}

#[test]
fn line_and_column() {
    assert_eq!(line_and_col("ab\ncd", 3), (2, 1));
    assert_eq!(line_and_col("ab\ncd", 2), (1, 3));
    assert_eq!(line_and_col("abc", 0), (1, 1));
}

#[test]
fn indents_balance() {
    let tokens = scan("a\n  b\n    c\nd").unwrap();
    let indents = tokens.iter().filter(|t| t.kind == Syntax::Indent).count();
    let dedents = tokens.iter().filter(|t| t.kind == Syntax::Dedent).count();
    assert_eq!(indents, 2);
    assert_eq!(indents, dedents);
}

#[test]
fn unicode_words() {
    assert_eq!(ev("ñame := 5\nñame"), num(5));
    assert_eq!(ev("größe := 'big'\ngröße"), string("big"));
}

#[test]
fn token_stream() {
    let source = "a := 1".to_string();
    let tokens = scan(&source).unwrap();
    let n = tokens.len();
    let mut stream = TokenStream::from(source, tokens);
    assert!(stream.current().is_none());
    assert_eq!(stream.peek().unwrap().literal(), "a");
    assert_eq!(stream.peek2().unwrap().literal(), ":=");
    assert_eq!(stream.next().unwrap().to_string(), "a");
    assert_eq!(stream.current().unwrap().literal(), "a");
    assert_eq!(stream.source(), "a := 1");
    for _ in 1..n {
        assert!(stream.next().is_some());
    }
    assert!(stream.next().is_none());
}

#[test]
fn template_compiles_once() {
    let mut t = Template::from_str("x := 1");
    assert_eq!(t.stmts().unwrap().len(), 1);
    assert!(t.compile().is_ok());
    let mut bad = Template::new("(".to_string());
    assert!(bad.stmts().is_err());
}

#[test]
fn token_text_is_source_text() {
    let source = "<p#top.big> \"hi {x}\" 12 + foo";
    let chars: Vec<char> = source.chars().collect();
    let tokens = scan(source).unwrap();
    for t in tokens.iter() {
        if !t.is_literal() {
            continue;
        }
        let n = t.lit.chars().count();
        let found: String = chars[t.pos..t.pos + n].iter().collect();
        assert_eq!(found, t.lit);
        if !matches!(t.kind, Syntax::String(_)) {
            assert_eq!(t.len, n);
        }
    }
}

#[test]
fn implicit_div_names_the_tag() {
    let stmts = compile("<#main> Hi there!").unwrap();
    match &stmts[0] {
        Stmt::Tag(t) => match &*t.tag {
            Stmt::Value(Value::String(s)) => assert_eq!(s, "div"),
            _ => panic!("tag name is not a string"),
        },
        _ => panic!("not a tag"),
    }
    let stmts = compile("<span.big> 'Welcome!'").unwrap();
    match &stmts[0] {
        Stmt::Tag(t) => match &*t.tag {
            Stmt::Value(Value::String(s)) => assert_eq!(s, "span"),
            _ => panic!("tag name is not a string"),
        },
        _ => panic!("not a tag"),
    }
}

#[test]
fn def_defines_with_create() {
    let stmts = compile("def greet(name) do name").unwrap();
    match &stmts[0] {
        Stmt::Assign(name, f, reassign) => {
            assert_eq!(name.to_str(), "greet");
            assert!(!reassign);
            assert!(matches!(**f, Stmt::Fn(..)));
        },
        _ => panic!("not an assignment"),
    }
    assert!(matches!(kind_of("greet := 1\ndef greet(n) do n"), ErrorKind::RuntimeError));
}

#[test]
fn statements_in_order() {
    let stmts = compile("if true then 1\nfor x in [1] do x\nreturn 2\nx := 3").unwrap();
    assert_eq!(stmts.len(), 4);
    assert!(matches!(stmts[0], Stmt::If(..)));
    assert!(matches!(stmts[1], Stmt::For(..)));
    assert!(matches!(stmts[2], Stmt::Return(..)));
    assert!(matches!(stmts[3], Stmt::Assign(..)));
}

#[test]
fn read_after_assign() {
    assert_eq!(ev("x := 1 + 2\nx"), num(3));
    assert_eq!(ev("x := 1\nx = 5\nx"), num(5));
    assert!(matches!(kind_of("x := 1\nx = 'one'"), ErrorKind::RuntimeError));
}

#[test]
fn pure_page_is_its_parts() {
    assert_eq!(rn("x := 'a'\n<b> x"), "<b>a</b>\n");
    assert_eq!(rn("<b> hello"), "<b>hello</b>\n");
    assert_eq!(rn("<head> <title> 'T'"), "<!DOCTYPE html>\n<html><head><title>T</title>\n</head>\n\n</html>\n");
}

#[test]
fn keywords_are_spelled_out() {
    let tokens = scan("if true then x else for y in z do fn() false").unwrap();
    for t in tokens.iter() {
        let want = match t.kind {
            Syntax::If => "if",
            Syntax::Then => "then",
            Syntax::Else => "else",
            Syntax::For => "for",
            Syntax::In => "in",
            Syntax::Do => "do",
            Syntax::Fn => "fn",
            Syntax::Bool(true) => "true",
            Syntax::Bool(false) => "false",
            _ => continue,
        };
        assert_eq!(t.lit, want);
    }
    assert!(tokens.iter().any(|t| t.kind == Syntax::Bool(false)));
}

#[test]
fn tokens_in_source_order() {
    let tokens = scan("<ul>\n  for x in [1, 'two']\n    <li> x\ny := \"a {b}\"\n").unwrap();
    for w in tokens.windows(2) {
        assert!(w[0].pos <= w[1].pos);
    }
}

#[test]
fn loop_prints_each_round() {
    assert_eq!(rn("for x in [1, 2] do <li> x"), "<li>1</li>\n<li>2</li>\n");
    assert_eq!(
        rn("m := { a: 1, b: 2 }\nfor k, v in m do <i> k"),
        "<i>a</i>\n<i>b</i>\n"
    );
    assert_eq!(rn("x := 5\nfor x in [1] do <b> x\n<i> x"), "<b>1</b>\n<i>5</i>\n");
}

#[test]
fn if_prints_the_branch_taken() {
    assert_eq!(rn("if false\n    <b> 1\nelse if true\n    <i> 2\nelse\n    <u> 3"), "<i>2</i>\n");
    assert_eq!(rn("if false\n    <b> 1"), "");
    assert_eq!(rn("x := 1\nif true\n    <b> x"), "<b>1</b>\n");
}

#[test]
fn print_writes_its_arguments() {
    assert_eq!(rn("print('a', 1, [2])"), "a 1 [2]");
    assert_eq!(rn("puts('a')\nputs()"), "a\n\n");
    assert_eq!(ev("print('x')"), Value::Nil);
}

#[test]
fn tag_holds_a_loop() {
    assert_eq!(rn("<ul> for x in [1, 2] do <li> x"), "<ul><li>1</li>\n<li>2</li>\n</ul>\n");
}

#[test]
fn values_from_rust() {
    assert_eq!(Value::from(true), Value::Bool(true));
    assert_eq!(Value::from(31), num(31));
    assert_eq!(Value::from("Bobby".to_string()), string("Bobby"));
}

#[test]
fn function_gives_its_last_value() {
    assert_eq!(ev("def double(x) do x * 2\ndouble(21)"), num(42));
    assert_eq!(ev("n := 10\ndef add(a, b) do a + b + n\nadd(b: 2, a: 1)"), num(13));
    assert_eq!(ev("def f(a, b) do b\nf(1, a + 1)"), num(2));
}

#[test]
fn empty_source_does_nothing() {
    assert_eq!(scan("").unwrap().len(), 0);
    assert_eq!(compile("").unwrap().len(), 0);
    assert_eq!(eval("").unwrap(), Value::Nil);
    assert_eq!(render("").unwrap(), "");
    let mut env = Env::new();
    env.print(&string("kept"));
    assert_eq!(env.render("").unwrap(), "kept");
}

#[test]
fn opening_punctuation_makes_the_first_token() {
    assert_eq!(scan("[1, 2]").unwrap()[0].kind, Syntax::LStaple);
    assert_eq!(scan(", x").unwrap()[0].kind, Syntax::Comma);
    assert_eq!(scan("{a: 1}").unwrap()[0].kind, Syntax::LCurly);
    assert!(compile("[1, 2]").unwrap().len() > 0);
}

#[test]
fn empty_token_list_parses_to_nothing() {
    let tokens: Vec<hatter::Token> = Vec::new();
    assert_eq!(hatter::parse(&tokens).unwrap().len(), 0);
    let mut p = hatter::Parser::from(&tokens);
    assert!(p.parse().is_ok());
    assert_eq!(p.ast().len(), 0);
}

#[test]
fn while_with_a_false_test_runs_nothing() {
    assert_eq!(ev("while false\n  x := 1\n"), Value::Nil);
    assert_eq!(ev("n := 0\nwhile n < 3\n  n = n + 1\nn"), num(3));
}

#[test]
fn function_of_its_parameters() {
    assert_eq!(ev("f := fn(a, b) b\nf(1, 2)"), num(2));
    assert_eq!(ev("f := fn() 7\nf()"), num(7));
}

#[test]
fn split_count_and_pop() {
    assert_eq!(
        ev("split('a,b,,c', ',')"),
        Value::List(Rc::new(vec![string("a"), string("b"), string(""), string("c")]))
    );
    assert_eq!(ev("len(split('abc', ''))"), num(5));
    assert_eq!(ev("count('banana', 'an')"), num(2));
    assert_eq!(ev("count([1, 2, 1], 1)"), num(2));
    assert_eq!(ev("count(3, 1)"), num(0));
    assert_eq!(ev("a := [1, 2, 3]\nb := pop(a)\nb + len(a)"), num(5));
    assert_eq!(ev("a := []\npop(a)"), Value::Nil);
}

#[test]
fn colon_equals_checks_the_nearest_scope() {
    assert_eq!(ev("x := 1\nif true\n  x := 2\nx"), num(1));
    assert!(eval("x := 1\nif true\n  x = 'two'\nx").is_err());
    assert!(eval("x := 1\nx := 2").is_err());
}

#[test]
fn whitespace_matches_std_everywhere() {
    for u in 0u32..=0x10FFFF {
        if let Some(c) = char::from_u32(u) {
            assert_eq!(hatter::text::is_whitespace(c), c.is_whitespace(), "{:x}", u);
        }
    }
}

#[test]
fn unclosed_opening_string_fails_after_the_quote() {
    let e = scan("'abc").unwrap_err();
    assert!(matches!(e.kind, ErrorKind::SyntaxError));
    assert_eq!(e.pos, 1);
    assert!(scan("x := 1\nif x\n    y\n\tz").is_err());
    assert!(scan("a + b\n  c\n").is_ok());
}

#[test]
fn dedents_never_outrun_indents() {
    let toks = scan("a\n  b\n    c\nd\n").unwrap();
    let mut open = 0i32;
    for t in toks.iter() {
        if t.kind == Syntax::Indent {
            open += 1;
        }
        if t.kind == Syntax::Dedent {
            open -= 1;
        }
        assert!(open >= 0);
    }
    assert_eq!(open, 0);
}

#[test]
fn simple_statements_parse() {
    let toks = scan("x\ntrue\ny").unwrap();
    let stmts = hatter::parse(&toks).unwrap();
    assert_eq!(stmts.len(), 3);
    assert_eq!(scan("42 + 1").unwrap()[0].kind, Syntax::Number);
}

#[test]
fn operators_group_by_power_in_source_order() {
    assert_eq!(ev("1 - 2"), num(-1));
    assert_eq!(ev("1 + 2 * 3"), num(7));
    assert_eq!(ev("10 - 4 - 3"), num(3));
    assert_eq!(ev("(1 + 2) * 3"), num(9));
}

#[test]
fn while_with_a_pure_body_ends_on_a_false_test() {
    assert_eq!(ev("while false\n  1\n"), Value::Nil);
}

#[test]
fn a_plain_word_renders_as_itself() {
    assert_eq!(render("hello").unwrap(), "hello");
    let toks = scan("hello").unwrap();
    assert_eq!(toks.len(), 2);
    assert_eq!(toks[0].kind, Syntax::Word);
    assert_eq!(toks[1].kind, Syntax::Semi);
    let stmts = compile("hello").unwrap();
    assert_eq!(stmts.len(), 1);
    assert!(matches!(&stmts[0], Stmt::Word(w) if w.to_str() == "hello"));
    let mut env = Env::new();
    env.print(&string("<p>"));
    assert_eq!(env.render("hello").unwrap(), "<p>hello");
}

#[test]
fn a_run_of_digits_evaluates_to_its_number() {
    assert_eq!(ev("42"), num(42));
    assert_eq!(ev("007"), num(7));
    let toks = scan("123").unwrap();
    assert_eq!(toks.len(), 2);
    assert_eq!(toks[0].kind, Syntax::Number);
    assert_eq!(toks[0].literal(), "123");
}

fn top_op(s: &Stmt) -> Option<String> {
    match s {
        Stmt::Call(f, _) => match &**f {
            Stmt::Word(w) => Some(w.to_str().to_string()),
            _ => None,
        },
        _ => None,
    }
}

fn operand(s: &Stmt, i: usize) -> &Stmt {
    match s {
        Stmt::Call(_, a) => &a[i],
        _ => panic!("not a call"),
    }
}

#[test]
fn binary_operators_nest_by_power() {
    let s = &hatter::parse(&scan("1 + 2 * 3").unwrap()).unwrap()[0];
    assert_eq!(top_op(s), Some("+".to_string()));
    assert_eq!(top_op(operand(s, 1)), Some("*".to_string()));
    let s = &hatter::parse(&scan("true && false || false").unwrap()).unwrap()[0];
    assert_eq!(top_op(s), Some("&&".to_string()));
    assert_eq!(top_op(operand(s, 1)), Some("||".to_string()));
    let s = &hatter::parse(&scan("1 - 2 - 3").unwrap()).unwrap()[0];
    assert_eq!(top_op(s), Some("-".to_string()));
    assert_eq!(top_op(operand(s, 0)), Some("-".to_string()));
}

#[test]
fn an_infix_line_scans_and_compiles_by_power() {
    let toks = scan("12 + 3 ** 45").unwrap();
    let kinds: Vec<Syntax> = toks.iter().map(|t| t.kind).collect();
    assert_eq!(
        kinds,
        vec![Syntax::Number, Syntax::Op, Syntax::Number, Syntax::Op, Syntax::Number, Syntax::Semi]
    );
    let lits: Vec<&str> = toks.iter().map(|t| t.literal()).collect();
    assert_eq!(lits, vec!["12", "+", "3", "**", "45", ""]);
    // `+` binds tighter than an operator the table does not name.
    let s = &compile("12 + 3 ** 45").unwrap()[0];
    assert_eq!(top_op(s), Some("**".to_string()));
    assert_eq!(top_op(operand(s, 0)), Some("+".to_string()));
    let s = &compile("1 && 2 || 3").unwrap()[0];
    assert_eq!(top_op(s), Some("&&".to_string()));
    assert_eq!(top_op(operand(s, 1)), Some("||".to_string()));
    let s = &compile("1 * 2 + 3").unwrap()[0];
    assert_eq!(top_op(s), Some("+".to_string()));
    assert_eq!(top_op(operand(s, 0)), Some("*".to_string()));
    assert!(matches!(operand(s, 1), Stmt::Value(v) if *v == num(3)));
}

#[test]
fn a_deciding_first_operand_skips_the_second() {
    let mut env = Env::new();
    assert_eq!(env.eval_src("false && print(\"hi\")").unwrap(), Value::Bool(false));
    assert_eq!(env.eval_src("true || print(\"hi\")").unwrap(), Value::Bool(true));
    assert_eq!(env.out(), "");
    assert_eq!(env.eval_src("true && print(\"hi\")").unwrap(), Value::Bool(false));
    assert_eq!(env.out(), "hi");
    assert_eq!(env.eval_src("print(\"a\") && print(\"b\")").unwrap(), Value::Bool(false));
    assert_eq!(env.out(), "a");
}

#[test]
fn a_function_takes_exactly_its_parameters() {
    let mut env = Env::new();
    assert!(env.eval_src("def add(a, b)\n    return a + b").is_ok());
    assert_eq!(env.eval_src("add(1, 2)").unwrap(), num(3));
    let e = env.eval_src("add(1)").unwrap_err();
    assert!(matches!(e.kind, ErrorKind::RuntimeError));
    assert!(env.eval_src("add(1, 2, 3)").is_err());
}

#[test]
fn an_infix_line_evaluates_by_power() {
    assert_eq!(ev("1 + 2 * 3"), num(7));
    assert_eq!(ev("2 * 3 + 1"), num(7));
    assert_eq!(ev("10 % 4 * 3"), num(6));
    assert_eq!(ev("1 && 0 || 5"), Value::Bool(true));
}

#[test]
fn an_infix_line_of_words_and_booleans() {
    let toks = scan("true && false || false").unwrap();
    let kinds: Vec<Syntax> = toks.iter().map(|t| t.kind).collect();
    assert_eq!(
        kinds,
        vec![Syntax::Bool(true), Syntax::Op, Syntax::Bool(false), Syntax::Op, Syntax::Bool(false), Syntax::Semi]
    );
    let s = &compile("true && false || false").unwrap()[0];
    assert_eq!(top_op(s), Some("&&".to_string()));
    assert!(matches!(operand(s, 0), Stmt::Value(Value::Bool(true))));
    assert_eq!(top_op(operand(s, 1)), Some("||".to_string()));
    assert_eq!(ev("true && false || false"), Value::Bool(false));
    let s = &compile("x * 2 + y").unwrap()[0];
    assert_eq!(top_op(s), Some("+".to_string()));
    assert!(matches!(operand(s, 1), Stmt::Word(w) if w.to_str() == "y"));
    let mut env = Env::new();
    assert!(env.eval_src("x := 4\ny := 1").is_ok());
    assert_eq!(env.eval_src("x * 2 + y").unwrap(), num(9));
}

#[test]
fn a_range_of_digits_scans_to_three_tokens() {
    let toks = scan("1..101").unwrap();
    let kinds: Vec<Syntax> = toks.iter().map(|t| t.kind).collect();
    assert_eq!(kinds, vec![Syntax::Number, Syntax::Op, Syntax::Number, Syntax::Semi]);
    let lits: Vec<&str> = toks.iter().map(|t| t.literal()).collect();
    assert_eq!(lits, vec!["1", "..", "101", ""]);
    let toks = scan("007..8").unwrap();
    assert_eq!(toks[0].literal(), "007");
    assert_eq!(toks[2].literal(), "8");
}

#[test]
fn two_or_six_equal_quotes_scan_to_an_empty_string() {
    for src in ["\"\"", "''", "``", "\"\"\"\"\"\"", "''''''", "``````"] {
        let toks = scan(src).unwrap();
        assert_eq!(toks.len(), 2);
        assert_eq!(toks[0].kind, Syntax::String(false));
        assert_eq!(toks[0].literal(), "");
        assert_eq!(toks[1].kind, Syntax::Semi);
    }
}

#[test]
fn an_assignment_evaluates_its_right_side_first() {
    let mut env = Env::new();
    assert_eq!(env.eval_src("x := print(\"a\")").unwrap(), Value::Nil);
    assert_eq!(env.out(), "a");
    assert_eq!(env.eval_src("x").unwrap(), Value::Nil);
    assert!(env.eval_src("y := 1").is_ok());
    assert!(env.eval_src("y := print(\"b\")").is_err());
    assert_eq!(env.out(), "");
    assert_eq!(env.eval_src("y").unwrap(), num(1));
}

#[test]
fn an_if_with_a_printing_test_follows_its_value() {
    let mut env = Env::new();
    assert!(env.eval_src("if print(\"t\")\n    print(\"a\")").is_ok());
    assert_eq!(env.out(), "t");
    assert!(env.eval_src("if not(print(\"u\"))\n    print(\"b\")").is_ok());
    assert_eq!(env.out(), "ub");
}

#[test]
fn an_assignment_line_compiles_to_its_assignment() {
    let kinds: Vec<Syntax> = scan("a := 123").unwrap().iter().map(|t| t.kind).collect();
    assert_eq!(kinds, vec![Syntax::Word, Syntax::Op, Syntax::Number, Syntax::Semi]);
    let s = compile("a := 123").unwrap();
    assert_eq!(s.len(), 1);
    match &s[0] {
        Stmt::Assign(name, val, re) => {
            assert_eq!(name.to_str(), "a");
            assert!(matches!(&**val, Stmt::Value(v) if *v == num(123)));
            assert!(!re);
        },
        _ => panic!("not an assignment"),
    }
    match &compile("abc = 7").unwrap()[0] {
        Stmt::Assign(name, _, re) => {
            assert_eq!(name.to_str(), "abc");
            assert!(*re);
        },
        _ => panic!("not an assignment"),
    }
}

#[test]
fn a_stray_closing_tag_does_not_compile() {
    let kinds: Vec<Syntax> = scan("</>").unwrap().iter().map(|t| t.kind).collect();
    assert_eq!(kinds, vec![Syntax::LCaret, Syntax::Slash, Syntax::RCaret, Syntax::Semi]);
    assert!(matches!(compile("</>").unwrap_err().kind, ErrorKind::ParseError));
    assert!(compile("</div>").is_err());
}

#[test]
fn a_tag_line_compiles_to_its_tag() {
    let kinds: Vec<Syntax> = scan("<b> hi").unwrap().iter().map(|t| t.kind).collect();
    assert_eq!(kinds, vec![Syntax::LCaret, Syntax::Word, Syntax::RCaret, Syntax::Word, Syntax::Semi]);
    let s = compile("<section> hello").unwrap();
    assert_eq!(s.len(), 1);
    match &s[0] {
        Stmt::Tag(t) => {
            assert!(matches!(&*t.tag, Stmt::Value(Value::String(n)) if n.as_str() == "section"));
            assert!(matches!(&*t.id, Stmt::Nil));
            assert!(t.classes.is_empty() && t.attrs.is_empty() && !t.closed);
            assert_eq!(t.body.len(), 1);
            assert!(matches!(&t.body[0], Stmt::Word(w) if w.to_str() == "hello"));
        },
        _ => panic!("not a tag"),
    }
    assert_eq!(render("<b> hi").unwrap(), "<b>hi</b>\n");
    assert_eq!(render("<head> x").unwrap(), "<!DOCTYPE html>\n<html><head>x</head>\n\n</html>\n");
    let mut env = Env::new();
    env.print(&string("<p>"));
    assert_eq!(env.render("<i> yo").unwrap(), "<p><i>yo</i>\n");
    assert!(env.eval_src("name := \"Bob\"").is_ok());
    assert_eq!(env.render("<b> name").unwrap(), "<b>Bob</b>\n");
}

#[test]
fn tabs_after_spaces_in_indentation_fail_to_scan() {
    let e = scan("if x\n    a\n\tb").unwrap_err();
    assert!(matches!(e.kind, ErrorKind::SyntaxError));
    assert!(scan("one two\n  three\n\tfour").is_err());
}

#[test]
fn comment_line_between_numbers_makes_no_token() {
    let toks = scan("1\n# note: 2 + \"x\"\n22").unwrap();
    let kinds: Vec<Syntax> = toks.iter().map(|t| t.kind).collect();
    assert_eq!(kinds, vec![Syntax::Number, Syntax::Semi, Syntax::Number, Syntax::Semi]);
    assert_eq!(toks[0].literal(), "1");
    assert_eq!(toks[2].literal(), "22");
}

#[test]
fn lines_of_lone_operands_scan_and_compile_one_statement_each() {
    let toks = scan("alpha\nbeta\ntrue\ngamma").unwrap();
    let kinds: Vec<Syntax> = toks.iter().map(|t| t.kind).collect();
    assert_eq!(
        kinds,
        vec![
            Syntax::Word,
            Syntax::Semi,
            Syntax::Word,
            Syntax::Semi,
            Syntax::Bool(true),
            Syntax::Semi,
            Syntax::Word,
            Syntax::Semi
        ]
    );
    assert_eq!(toks[2].literal(), "beta");
    assert_eq!(toks[6].literal(), "gamma");
    let stmts = compile("alpha\nbeta\ntrue\ngamma").unwrap();
    assert_eq!(stmts.len(), 4);
    assert!(matches!(&stmts[0], Stmt::Word(w) if w.to_str() == "alpha"));
    assert!(matches!(&stmts[1], Stmt::Word(w) if w.to_str() == "beta"));
    assert!(matches!(&stmts[2], Stmt::Value(Value::Bool(true))));
    assert!(matches!(&stmts[3], Stmt::Word(w) if w.to_str() == "gamma"));
}

#[test]
fn lines_of_lone_words_render_each_line_text_in_order() {
    assert_eq!(rn("alpha\nbeta\ntrue\ngamma"), "alphabetatruegamma");
    let mut env = Env::new();
    env.print(&string("<p>"));
    assert_eq!(env.render("one\nfalse\nthree").unwrap(), "<p>onefalsethree");
}

#[test]
fn lines_of_lone_words_may_end_in_a_newline() {
    let kinds: Vec<Syntax> = scan("red\ngreen\n").unwrap().iter().map(|t| t.kind).collect();
    assert_eq!(kinds, vec![Syntax::Word, Syntax::Semi, Syntax::Word, Syntax::Semi]);
    assert_eq!(compile("red\ngreen\n").unwrap().len(), 2);
    assert_eq!(rn("red\ngreen\n"), "redgreen");
}

#[test]
fn lines_mixing_numbers_and_words_compile_one_atom_per_line() {
    let kinds: Vec<Syntax> = scan("12\nabc\n007").unwrap().iter().map(|t| t.kind).collect();
    assert_eq!(
        kinds,
        vec![Syntax::Number, Syntax::Semi, Syntax::Word, Syntax::Semi, Syntax::Number, Syntax::Semi]
    );
    let stmts = compile("12\nabc\n007").unwrap();
    assert_eq!(stmts.len(), 3);
    assert!(matches!(&stmts[0], Stmt::Value(v) if *v == num(12)));
    assert!(matches!(&stmts[1], Stmt::Word(w) if w.to_str() == "abc"));
    assert!(matches!(&stmts[2], Stmt::Value(v) if *v == num(7)));
}

#[test]
fn lines_of_numbers_render_each_number() {
    assert_eq!(rn("12\nabc\n007"), "12abc7");
    let mut env = Env::new();
    assert_eq!(env.render("3\nfalse\n").unwrap(), "3false");
}
