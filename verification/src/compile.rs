//! From source text to the syntax tree.

use vstd::prelude::*;
use crate::error::Result;
use crate::lexer::{
    assign_src, assign_tokens, digit_word, opens_closing, tag_word_src, tag_word_tokens, infix_src, infix_tokens, lemma_operand_run, one_number, one_word, opening_kind, operand_char,
    operand_kind, plain_word, scan, scan_admits, lines_src, lines_tokens, line_text, line_toks, operand_line,
};
use crate::syntax::Syntax;
use crate::token::number_units;
use crate::value::Value;
use crate::parser::{
    assign_at, assign_shape, assign_op, continues_at, tag_word_at, tag_word_shape, word_of, failed_compiling, kind_at, law_parsed_grouping, left_nested, op_power, parse, parse_admits, parsed_from,
    one_chain, chain_at, plain_infix, right_nested, simple_token, simple_stmts, stmt_shape, simple_parsed,
    atom_shape, law_operator_tiers, product_op, sum_op,
};
use crate::stmt::Stmt;
use crate::token::Token;
use crate::lexer::infix_char;

verus! {

/// What compiling the source `s` gives as `r`: an error only of
/// compiling, else statements parsed from its tokens; no statement for an
/// empty source, an error for one that opens with a closing tag, and the
/// exact statement of a plain word, a run of digits, a line `a op b op c`,
/// an assignment `w := d` or a tag line `<t> w`.
pub open spec fn compile_post(s: Seq<char>, r: Result<Seq<Stmt>>) -> bool {
    &&& r matches Err(e) ==> failed_compiling(e)
    &&& r matches Ok(v) ==> compile_admits(s, v)
    &&& s.len() == 0 ==> (r matches Ok(v) && v.len() == 0)
    &&& opens_closing(s) ==> r is Err
    &&& opening_kind(s) is Some ==> (r matches Ok(v) ==> v.len() > 0)
    &&& plain_word(s) ==> (r matches Ok(v) && one_word_stmt(v, s))
    &&& digit_word(s) && number_units(s) is Some ==> (r matches Ok(v) && one_number_stmt(v, number_units(s)->0))
    &&& forall|a: int, b: int, c: int, d: int, e: int| #[trigger]
        infix_src(s, a, b, c, d, e) && infix_numbers(s, a, b, c, d, e) ==> (r matches Ok(v) && v.len() == 1
            && infix_stmt(s, a, b, c, d, e, v[0]))
    &&& forall|n: int, k: int| #[trigger]
        assign_src(s, n, k) && number_units(s.subrange(n + 2 + k, s.len() as int)) is Some ==> (r matches Ok(v)
            && v.len() == 1 && assign_stmt(s, n, k, v[0]))
    &&& forall|n: int| #[trigger] tag_word_src(s, n) ==> (r matches Ok(v) && v.len() == 1 && tag_word_stmt(s, n, v[0]))
    &&& forall|e: Seq<int>| #[trigger]
        lines_src(s, e) ==> (r matches Ok(v) && v.len() == e.len() && forall|k: int|
            0 <= k < e.len() ==> #[trigger] line_stmt(line_text(s, e, k), v[k]))
}

/// The statement of a line holding the lone operand `w`: the number of a
/// run of digits, the boolean for `true` and `false`, else the word.
pub open spec fn line_stmt(w: Seq<char>, x: Stmt) -> bool {
    if digit_word(w) {
        x matches Stmt::Value(Value::Number(n)) && number_units(w) == Some(n.units())
    } else if w == "true"@ {
        x == Stmt::Value(Value::Bool(true))
    } else if w == "false"@ {
        x == Stmt::Value(Value::Bool(false))
    } else {
        x matches Stmt::Word(y) && y@ == w
    }
}

/// The tokens of lines of lone operands are simple statements.
proof fn lemma_lines_simple(toks: Seq<Token>, s: Seq<char>, e: Seq<int>)
    requires
        lines_src(s, e),
        lines_tokens(toks, s, e),
    ensures
        simple_stmts(toks, 0),
{
    assert forall|i: int| 0 <= i < toks.len() implies if (i - 0) % 2 == 0 {
        simple_token(#[trigger] toks[i])
    } else {
        toks[i].kind is Semi
    } by {
        let k = i / 2;
        assert(line_toks(toks, s, e, k));
        reveal(operand_line);
        assert(operand_line(line_text(s, e, k)));
        if i % 2 == 0 {
            assert(i == 2 * k);
        } else {
            assert(i == 2 * k + 1);
        }
    }
}

/// Those tokens parse to the lines' operands, one statement each.
proof fn lemma_lines_parsed(toks: Seq<Token>, s: Seq<char>, e: Seq<int>, v: Seq<Stmt>)
    requires
        lines_tokens(toks, s, e),
        simple_parsed(toks, 0, v),
    ensures
        v.len() == e.len(),
        forall|k: int| 0 <= k < e.len() ==> #[trigger] line_stmt(line_text(s, e, k), v[k]),
{
    assert forall|k: int| 0 <= k < e.len() implies #[trigger] line_stmt(line_text(s, e, k), v[k]) by {
        assert(line_toks(toks, s, e, k));
        assert(atom_shape(toks, 0 + k + k, v[k]));
        assert(toks[2 * k].spec_literal() == toks[2 * k].lit@);
    }
}

/// The statement of the tag line `<t> w` (see `tag_word_src`): the tag
/// named `t`, its body the word `w`, with no id, class or attribute, and
/// not closed.
pub open spec fn tag_word_stmt(s: Seq<char>, n: int, x: Stmt) -> bool {
    &&& x is Tag
    &&& *x->Tag_0.tag matches Stmt::Value(Value::String(y)) && y@ == s.subrange(1, 1 + n)
    &&& *x->Tag_0.id is Nil
    &&& x->Tag_0.classes@.len() == 0
    &&& x->Tag_0.attrs@.len() == 0
    &&& !x->Tag_0.closed
    &&& x->Tag_0.body@.len() == 1
    &&& word_of(x->Tag_0.body@[0], s.subrange(3 + n, s.len() as int))
}

/// The statement of the assignment `w := d` or `w = d` (see
/// `assign_src`): the word bound to the number, `=` a reassignment.
pub open spec fn assign_stmt(s: Seq<char>, n: int, k: int, x: Stmt) -> bool {
    &&& x matches Stmt::Assign(name, val, re)
    &&& x->Assign_0@ == s.subrange(0, n)
    &&& x->Assign_2 == (k == 1)
    &&& *x->Assign_1 matches Stmt::Value(Value::Number(u)) && number_units(s.subrange(n + 2 + k, s.len() as int))
        == Some(u.units())
}

/// The statements of `r`, as a sequence.
pub open spec fn seq_result(r: Result<Vec<Stmt>>) -> Result<Seq<Stmt>> {
    match r {
        Ok(v) => Ok(v@),
        Err(e) => Err(e),
    }
}

/// Compiles source code into a list of statements: scans it into
/// tokens, then parses them.
pub fn compile(source: &str) -> (r: Result<Vec<Stmt>>)
    ensures
        compile_post(source@, seq_result(r)),
{
    let tokens = scan(source)?;
    proof {
        assert forall|a: int, b: int, c: int, d: int, e: int|
            #[trigger] infix_src(source@, a, b, c, d, e) && infix_numbers(source@, a, b, c, d, e) implies one_chain(
            tokens@,
            0,
        ) by {
            lemma_infix_chain(tokens@, source@, a, b, c, d, e);
        }
    }
    proof {
        if plain_word(source@) {
            lemma_one_word_simple(tokens@, source@);
        }
        if digit_word(source@) && number_units(source@) is Some {
            lemma_one_number_simple(tokens@, source@);
        }
    }
    proof {
        assert forall|n: int, k: int| #[trigger]
            assign_src(source@, n, k) && number_units(source@.subrange(n + 2 + k, source@.len() as int)) is Some
            implies assign_at(tokens@, 0) && tokens@.len() == 4 by {
            lemma_assign_tokens(tokens@, source@, n, k);
        }
        assert forall|n: int| #[trigger] tag_word_src(source@, n) implies tag_word_at(tokens@, 0) && tokens@.len()
            == 5 by {
            assert(tag_word_tokens(tokens@, source@, n));
        }
        assert forall|e: Seq<int>| #[trigger] lines_src(source@, e) implies simple_stmts(tokens@, 0) by {
            lemma_lines_simple(tokens@, source@, e);
        }
    }
    let r = parse(tokens.as_slice());
    proof {
        if plain_word(source@) {
            lemma_one_word_parsed(tokens@, source@, r->Ok_0@);
        }
        if digit_word(source@) && number_units(source@) is Some {
            lemma_one_number_parsed(tokens@, source@, r->Ok_0@);
        }
    }
    assert(r is Ok ==> scan_admits(source@, tokens@) && parse_admits(tokens@, r->Ok_0@));
    proof {
        assert forall|n: int, k: int| #[trigger]
            assign_src(source@, n, k) && number_units(source@.subrange(n + 2 + k, source@.len() as int)) is Some
            implies r is Ok && r->Ok_0@.len() == 1 && assign_stmt(source@, n, k, r->Ok_0@[0]) by {
            lemma_assign_tokens(tokens@, source@, n, k);
        }
        assert forall|n: int| #[trigger] tag_word_src(source@, n) implies r is Ok && r->Ok_0@.len() == 1
            && tag_word_stmt(source@, n, r->Ok_0@[0]) by {
            assert(tag_word_tokens(tokens@, source@, n));
            assert(tokens@[1].spec_literal() == source@.subrange(1, 1 + n));
            assert(tokens@[3].spec_literal() == source@.subrange(3 + n, source@.len() as int));
        }
    }
    proof {
        assert forall|a: int, b: int, c: int, d: int, e: int|
            #[trigger] infix_src(source@, a, b, c, d, e) && infix_numbers(source@, a, b, c, d, e) && r is Ok
            implies r->Ok_0@.len() > 0 && infix_stmt(source@, a, b, c, d, e, r->Ok_0@[0]) by {
            lemma_infix_parsed(tokens@, source@, a, b, c, d, e, r->Ok_0@);
        }
        assert forall|e: Seq<int>| #[trigger] lines_src(source@, e) implies r is Ok && r->Ok_0@.len() == e.len()
            && forall|k: int| 0 <= k < e.len() ==> #[trigger] line_stmt(line_text(source@, e, k), r->Ok_0@[k]) by {
            lemma_lines_simple(tokens@, source@, e);
            lemma_lines_parsed(tokens@, source@, e, r->Ok_0@);
        }
    }
    r
}

/// The runs of digits among the operands of the line `a op b op c` (see
/// `infix_src`) are numbers the library can hold.
pub open spec fn infix_numbers(s: Seq<char>, n1: int, m1: int, n2: int, m2: int, n3: int) -> bool {
    &&& held(s.subrange(0, n1))
    &&& held(s.subrange(n1 + m1 + 2, n1 + m1 + 2 + n2))
    &&& held(s.subrange(n1 + m1 + n2 + m2 + 4, s.len() as int))
}

/// A run of digits that the library can hold as a number; a word.
pub open spec fn held(w: Seq<char>) -> bool {
    '0' <= w[0] <= '9' ==> number_units(w) is Some
}

/// `x` is what the operand `w` parses to: the number it spells, the
/// boolean `true` or `false`, or the word itself.
pub open spec fn operand_of(x: Stmt, w: Seq<char>) -> bool {
    match operand_kind(w) {
        Syntax::Number => x matches Stmt::Value(Value::Number(n)) && number_units(w) == Some(n.units()),
        Syntax::Bool(b) => x == Stmt::Value(Value::Bool(b)),
        _ => x matches Stmt::Word(y) && y@ == w,
    }
}

/// `x` is operator `op` applied to two operands.
pub open spec fn binary_call(x: Stmt, op: Seq<char>) -> bool {
    x matches Stmt::Call(f, args) && *f matches Stmt::Word(w) && w@ == op && args@.len() == 2
}

/// The statement of the line `a op b op c` (see `infix_src`): of the two
/// operators the one that binds tighter takes its operands first, and
/// of two that bind alike the left one does.
pub open spec fn infix_stmt(s: Seq<char>, n1: int, m1: int, n2: int, m2: int, n3: int, x: Stmt) -> bool {
    let c1 = n1 + 1;
    let e1 = c1 + m1;
    let c2 = e1 + 1;
    let e2 = c2 + n2;
    let c3 = e2 + 1;
    let e3 = c3 + m2;
    let c4 = e3 + 1;
    let op1 = s.subrange(c1, e1);
    let op2 = s.subrange(c3, e3);
    if op_power(op1) < op_power(op2) {
        &&& binary_call(x, op1)
        &&& operand_of(x->Call_1@[0], s.subrange(0, n1))
        &&& binary_call(x->Call_1@[1], op2)
        &&& operand_of(x->Call_1@[1]->Call_1@[0], s.subrange(c2, e2))
        &&& operand_of(x->Call_1@[1]->Call_1@[1], s.subrange(c4, s.len() as int))
    } else {
        &&& binary_call(x, op2)
        &&& binary_call(x->Call_1@[0], op1)
        &&& operand_of(x->Call_1@[0]->Call_1@[0], s.subrange(0, n1))
        &&& operand_of(x->Call_1@[0]->Call_1@[1], s.subrange(c2, e2))
        &&& operand_of(x->Call_1@[1], s.subrange(c4, s.len() as int))
    }
}

/// How the line `a op1 b op2 c` groups sums and products: a product
/// takes its operands before a sum does (`10 - 2 * 3` is `10 - (2 * 3)`),
/// and of two sums, or two products, the left one goes first
/// (`10 - 2 + 3` is `(10 - 2) + 3`).
pub proof fn law_sums_and_products(s: Seq<char>, n1: int, m1: int, n2: int, m2: int, n3: int, x: Stmt)
    requires
        infix_stmt(s, n1, m1, n2, m2, n3, x),
    ensures
        ({
            let op1 = s.subrange(n1 + 1, n1 + 1 + m1);
            let op2 = s.subrange(n1 + m1 + n2 + 3, n1 + m1 + n2 + 3 + m2);
            &&& sum_op(op1) && product_op(op2) ==> binary_call(x, op1) && binary_call(x->Call_1@[1], op2)
            &&& (sum_op(op1) && sum_op(op2)) || (product_op(op1) && product_op(op2)) || (product_op(op1)
                && sum_op(op2)) ==> binary_call(x, op2) && binary_call(x->Call_1@[0], op1)
        }),
{
    let op1 = s.subrange(n1 + 1, n1 + 1 + m1);
    let op2 = s.subrange(n1 + m1 + n2 + 3, n1 + m1 + n2 + 3 + m2);
    law_operator_tiers(op1, op2);
    law_operator_tiers(op2, op1);
}

/// The tokens of an assignment `w := d` or `w = d` are a word, its
/// operator, a lone number and `;`, and they read as that assignment.
proof fn lemma_assign_tokens(toks: Seq<Token>, s: Seq<char>, n: int, k: int)
    requires
        assign_src(s, n, k),
        number_units(s.subrange(n + 2 + k, s.len() as int)) is Some,
        assign_tokens(toks, s, n, k),
    ensures
        assign_at(toks, 0),
        forall|x: Stmt| assign_shape(toks, 0, x) ==> assign_stmt(s, n, k, x),
{
    reveal_strlit(":=");
    reveal_strlit("=");
    assert(toks[0].spec_literal() == s.subrange(0, n));
    assert(toks[2].spec_literal() == s.subrange(n + 2 + k, s.len() as int));
    let op = toks[1].spec_literal();
    assert(op == s.subrange(n + 1, n + 1 + k));
    if k == 2 {
        assert(op =~= ":="@);
    } else {
        assert(op =~= "="@);
    }
    assert(kind_at(toks, 2) == toks[2].kind);
}

/// The tokens of the line `a op b op c` are one chain of lone operands
/// and operators.
proof fn lemma_infix_chain(toks: Seq<Token>, s: Seq<char>, n1: int, m1: int, n2: int, m2: int, n3: int)
    requires
        infix_src(s, n1, m1, n2, m2, n3),
        infix_numbers(s, n1, m1, n2, m2, n3),
        infix_tokens(toks, s, n1, m1, n2, m2, n3),
    ensures
        one_chain(toks, 0),
{
    lemma_infix_operands(toks, s, n1, m1, n2, m2, n3);
    assert(chain_at(toks, 4));
    assert(chain_at(toks, 2));
    assert(chain_at(toks, 0));
}

/// The parts of the line `a op b op c`: lone operands, and operators that
/// neither assign nor read a field, all spelled apart.
proof fn lemma_infix_operands(toks: Seq<Token>, s: Seq<char>, n1: int, m1: int, n2: int, m2: int, n3: int)
    requires
        infix_src(s, n1, m1, n2, m2, n3),
        infix_numbers(s, n1, m1, n2, m2, n3),
        infix_tokens(toks, s, n1, m1, n2, m2, n3),
    ensures
        simple_token(toks[0]),
        simple_token(toks[2]),
        simple_token(toks[4]),
        plain_infix(toks[1].spec_literal()),
        plain_infix(toks[3].spec_literal()),
        toks[1].spec_literal().len() > 0,
        toks[3].spec_literal().len() > 0,
        forall|i: int| #![trigger toks[i]] i == 0 || i == 2 || i == 4 ==> {
            &&& toks[i].spec_literal() != toks[1].spec_literal()
            &&& toks[i].spec_literal() != toks[3].spec_literal()
            &&& toks[i].spec_literal() != "."@
            &&& !assign_op(toks[i].spec_literal())
        },
{
    let c1 = n1 + 1;
    let e1 = c1 + m1;
    let c2 = e1 + 1;
    let e2 = c2 + n2;
    let c3 = e2 + 1;
    let e3 = c3 + m2;
    let c4 = e3 + 1;
    lemma_operand_run(s, 0, n1);
    lemma_operand_run(s, c2, e2);
    lemma_operand_run(s, c4, s.len() as int);
    assert(toks[0].spec_literal() == s.subrange(0, n1));
    assert(toks[1].spec_literal() == s.subrange(c1, e1));
    assert(toks[2].spec_literal() == s.subrange(c2, e2));
    assert(toks[3].spec_literal() == s.subrange(c3, e3));
    assert(toks[4].spec_literal() == s.subrange(c4, s.len() as int));
    assert(s.subrange(0, n1)[0] == s[0]);
    assert(s.subrange(c1, e1)[0] == s[c1]);
    assert(s.subrange(c2, e2)[0] == s[c2]);
    assert(s.subrange(c3, e3)[0] == s[c3]);
    assert(s.subrange(c4, s.len() as int)[0] == s[c4]);
    assert(infix_char(s[c1]) && infix_char(s[c3]));
    assert(operand_char(s[0]) && operand_char(s[c2]) && operand_char(s[c4]));
    assert(s.subrange(c1, e1).last() == s[e1 - 1]);
    assert(s.subrange(c3, e3).last() == s[e3 - 1]);
    assert(infix_char(s[e1 - 1]) && infix_char(s[e3 - 1]));
    assert(s.subrange(0, n1).last() == s[n1 - 1]);
    assert(s.subrange(c2, e2).last() == s[e2 - 1]);
    assert(s.subrange(c4, s.len() as int).last() == s[s.len() - 1]);
    assert(operand_char(s[n1 - 1]) && operand_char(s[e2 - 1]) && operand_char(s[s.len() - 1]));
    reveal_strlit(".");
    reveal_strlit(":=");
    reveal_strlit("=");
    assert("."@[0] == '.');
    assert forall|i: int| #![trigger toks[i]] i == 0 || i == 2 || i == 4 implies {
        &&& toks[i].spec_literal() != toks[1].spec_literal()
        &&& toks[i].spec_literal() != toks[3].spec_literal()
        &&& toks[i].spec_literal() != "."@
        &&& !assign_op(toks[i].spec_literal())
    } by {
        let l = toks[i].spec_literal();
        assert(operand_char(l[0]));
        assert(operand_char(l.last()));
        assert(l[0] != toks[1].spec_literal()[0]);
        assert(l[0] != toks[3].spec_literal()[0]);
    }
}

/// The tokens of the line `a op b op c` parse to its statement.
#[verifier::spinoff_prover]
proof fn lemma_infix_parsed(
    toks: Seq<Token>,
    s: Seq<char>,
    n1: int,
    m1: int,
    n2: int,
    m2: int,
    n3: int,
    v: Seq<Stmt>,
)
    requires
        infix_src(s, n1, m1, n2, m2, n3),
        infix_numbers(s, n1, m1, n2, m2, n3),
        infix_tokens(toks, s, n1, m1, n2, m2, n3),
        parse_admits(toks, v),
        v.len() > 0,
    ensures
        infix_stmt(s, n1, m1, n2, m2, n3, v[0]),
{
    lemma_infix_operands(toks, s, n1, m1, n2, m2, n3);
    law_parsed_grouping(toks, v);
    assert(kind_at(toks, 0) == toks[0].kind);
    assert(kind_at(toks, 2) == toks[2].kind);
    assert(kind_at(toks, 4) == toks[4].kind);
}

/// The tokens of one plain word are a simple statement.
proof fn lemma_one_word_simple(toks: Seq<Token>, w: Seq<char>)
    requires
        one_word(toks, w),
    ensures
        simple_stmts(toks, 0),
{
    assert forall|i: int| 0 <= i < toks.len() implies if (i - 0) % 2 == 0 {
        simple_token(#[trigger] toks[i])
    } else {
        toks[i].kind is Semi
    } by {
        if i == 0 {
        } else {
            assert(i == 1);
        }
    }
}

/// The tokens of one plain word parse to that word alone.
proof fn lemma_one_word_parsed(toks: Seq<Token>, w: Seq<char>, v: Seq<Stmt>)
    requires
        one_word(toks, w),
        parse_admits(toks, v),
        v.len() > 0,
    ensures
        one_word_stmt(v, w),
{
    let starts = choose|starts: Seq<int>| #[trigger] parsed_from(toks, 0, starts, v);
    assert forall|i: int| 0 <= i < starts.len() implies #[trigger] starts[i] == 0 by {
        assert(stmt_shape(toks, starts[i], v[i]));
        if starts[i] == 1 {
            assert(kind_at(toks, 1) is Semi);
        }
    }
    if v.len() >= 2 {
        assert(starts[0] < starts[1]);
    }
    assert(stmt_shape(toks, 0, v[0]));
    assert(!continues_at(toks, 1));
    assert(toks[0].spec_literal() == toks[0].lit@);
}

/// The tokens of one number are a simple statement.
proof fn lemma_one_number_simple(toks: Seq<Token>, d: Seq<char>)
    requires
        one_number(toks, d),
        number_units(d) is Some,
    ensures
        simple_stmts(toks, 0),
{
    assert(toks[0].spec_literal() == d);
    assert forall|i: int| 0 <= i < toks.len() implies if (i - 0) % 2 == 0 {
        simple_token(#[trigger] toks[i])
    } else {
        toks[i].kind is Semi
    } by {
        if i != 0 {
            assert(i == 1);
        }
    }
}

/// The tokens of one number parse to its value alone.
proof fn lemma_one_number_parsed(toks: Seq<Token>, d: Seq<char>, v: Seq<Stmt>)
    requires
        one_number(toks, d),
        number_units(d) is Some,
        parse_admits(toks, v),
        v.len() > 0,
    ensures
        one_number_stmt(v, number_units(d)->0),
{
    let starts = choose|starts: Seq<int>| #[trigger] parsed_from(toks, 0, starts, v);
    assert forall|i: int| 0 <= i < starts.len() implies #[trigger] starts[i] == 0 by {
        assert(stmt_shape(toks, starts[i], v[i]));
        if starts[i] == 1 {
            assert(kind_at(toks, 1) is Semi);
        }
    }
    if v.len() >= 2 {
        assert(starts[0] < starts[1]);
    }
    assert(toks[0].spec_literal() == d);
    assert(stmt_shape(toks, 0, v[0]));
    assert(!continues_at(toks, 1));
}

/// `stmts` is the one number whose units are `u`.
pub open spec fn one_number_stmt(stmts: Seq<Stmt>, u: int) -> bool {
    &&& stmts.len() == 1
    &&& stmts[0] matches Stmt::Value(Value::Number(n)) && n.units() == u
}

/// `stmts` is the one word `w`.
pub open spec fn one_word_stmt(stmts: Seq<Stmt>, w: Seq<char>) -> bool {
    &&& stmts.len() == 1
    &&& stmts[0] matches Stmt::Word(x) && x@ == w
}

/// `stmts` were parsed from tokens that scanning `source` gives.
pub open spec fn compile_admits(source: Seq<char>, stmts: Seq<Stmt>) -> bool {
    exists|toks: Seq<Token>| #[trigger] scan_admits(source, toks) && parse_admits(toks, stmts)
}

} // verus!
