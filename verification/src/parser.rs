//! The parser turns a slice of `Token` into a Vec of `Stmt`.

use vstd::prelude::*;
use std::rc::Rc;
use crate::error::{Error, ErrorKind, Result};
use crate::compile::compile_admits;
use crate::lexer::{opening_kind, scan, tokens_fit};
use crate::stmt::{Stmt, Tag};
use crate::symbol::Symbol;
use crate::syntax::{Syntax, spec_starts_expr, spec_word_or_keyword};
use crate::text::{chars_to_string, push_str, str_eq, str_to_chars, string_of};
use crate::token::Token;
use crate::value::Value;

verus! {

broadcast use vstd::std_specs::vec::group_vec_axioms;

/// Builds a syntax tree from a slice of tokens.
pub struct Parser<'t> {
    tokens: &'t [Token],
    ast: Vec<Stmt>,
    pos: usize,
    tags: usize,
    /// No token's text is longer than this.
    budget: usize,
}

/// Is the failure one that compiling can report?
pub open spec fn failed_compiling(e: Error) -> bool {
    e.kind is ParseError || e.kind is SyntaxError
}

/// The length of the longest token text.
fn longest(tokens: &[Token]) -> (r: usize)
    ensures
        tokens_fit(tokens@, r as nat) || exists|i: int| 0 <= i < tokens@.len() && tokens@[i].kind is Nil,
{
    let mut m: usize = 0;
    let mut i: usize = 0;
    while i < tokens.len()
        invariant
            i <= tokens@.len(),
            forall|j: int| 0 <= j < i ==> (#[trigger] tokens@[j]).lit@.len() <= m,
        decreases tokens.len() - i,
    {
        let n = tokens[i].lit.as_str().unicode_len();
        if n > m {
            m = n;
        }
        i += 1;
    }
    let mut k: usize = 0;
    while k < tokens.len()
        invariant
            k <= tokens@.len(),
            forall|j: int| 0 <= j < tokens@.len() ==> (#[trigger] tokens@[j]).lit@.len() <= m,
            forall|j: int| 0 <= j < k ==> !((#[trigger] tokens@[j]).kind is Nil),
        decreases tokens.len() - k,
    {
        if tokens[k].kind == Syntax::Nil {
            return m;
        }
        k += 1;
    }
    m
}

/// Main method. Turn a slice of `Token` into a Vec of `Stmt`.
pub fn parse(tokens: &[Token]) -> (r: Result<Vec<Stmt>>)
    ensures
        r matches Err(e) ==> failed_compiling(e),
        r is Ok ==> parse_admits(tokens@, r->Ok_0@),
        tokens@.len() == 0 ==> (r matches Ok(v) && v@.len() == 0),
        tokens@.len() > 0 ==> (r matches Ok(v) ==> v@.len() > 0),
        simple_stmts(tokens@, 0) ==> (r matches Ok(v) && simple_parsed(tokens@, 0, v@)),
        one_chain(tokens@, 0) ==> (r matches Ok(v) && v@.len() == 1),
        closing_at(tokens@, 0) ==> r is Err,
        tag_word_at(tokens@, 0) && tokens@.len() == 5 ==> (r matches Ok(v) && v@.len() == 1 && tag_word_shape(
            tokens@,
            0,
            v@[0],
        )),
        assign_at(tokens@, 0) && tokens@.len() == 4 ==> (r matches Ok(v) && v@.len() == 1 && assign_shape(
            tokens@,
            0,
            v@[0],
        )),
{
    proof {
        if one_chain(tokens@, 0) {
            lemma_chain_kinds(tokens@, 0);
        }
    }
    let budget = longest(tokens);
    if !tokens_ok(tokens, budget) {
        return Err(Error::new(ErrorKind::ParseError, string_of("expected a token, got Nil"), 0, 0));
    }
    parse_tokens(tokens, budget)
}

/// No token of a chain of lone operands and operators lacks a kind.
proof fn lemma_chain_kinds(t: Seq<Token>, p: int)
    requires
        chain_at(t, p),
        t.last().kind is Semi,
        forall|i: int| p <= i < t.len() - 1 ==> !(#[trigger] t[i].kind is Semi),
    ensures
        forall|i: int| p <= i < t.len() ==> !(#[trigger] t[i].kind is Nil),
    decreases t.len() - p,
{
    if t[p + 1].kind is Semi {
        assert(p + 1 == t.len() - 1);
    } else {
        lemma_chain_kinds(t, p + 2);
        assert forall|i: int| p <= i < t.len() implies !(#[trigger] t[i].kind is Nil) by {
            if i == p + 1 {
                assert(t[p + 1].kind is Op);
            }
        }
    }
}

/// Does every token fit in `budget` and have a kind?
fn tokens_ok(tokens: &[Token], budget: usize) -> (r: bool)
    ensures
        r == tokens_fit(tokens@, budget as nat),
{
    let mut k: usize = 0;
    while k < tokens.len()
        invariant
            k <= tokens@.len(),
            forall|j: int| 0 <= j < k ==> (#[trigger] tokens@[j]).lit@.len() <= budget && !(tokens@[j].kind is Nil),
        decreases tokens.len() - k,
    {
        if tokens[k].kind == Syntax::Nil || tokens[k].lit.as_str().unicode_len() > budget {
            assert(!((tokens@[k as int]).lit@.len() <= budget && !(tokens@[k as int].kind is Nil)));
            return false;
        }
        k += 1;
    }
    true
}

/// Parse tokens whose texts are no longer than `budget`.
fn parse_tokens(tokens: &[Token], budget: usize) -> (r: Result<Vec<Stmt>>)
    requires
        tokens_fit(tokens@, budget as nat),
    ensures
        r matches Err(e) ==> failed_compiling(e),
        r is Ok ==> parse_admits(tokens@, r->Ok_0@),
        tokens@.len() == 0 ==> (r matches Ok(v) && v@.len() == 0),
        tokens@.len() > 0 ==> (r matches Ok(v) ==> v@.len() > 0),
        simple_stmts(tokens@, 0) ==> (r matches Ok(v) && simple_parsed(tokens@, 0, v@)),
        one_chain(tokens@, 0) ==> (r matches Ok(v) && v@.len() == 1),
        closing_at(tokens@, 0) ==> r is Err,
        tag_word_at(tokens@, 0) && tokens@.len() == 5 ==> (r matches Ok(v) && v@.len() == 1 && tag_word_shape(
            tokens@,
            0,
            v@[0],
        )),
        assign_at(tokens@, 0) && tokens@.len() == 4 ==> (r matches Ok(v) && v@.len() == 1 && assign_shape(
            tokens@,
            0,
            v@[0],
        )),
    decreases 2 * budget, tokens@.len() + 1, 0nat,
{
    let mut parser = Parser { tokens, ast: Vec::new(), pos: 0, tags: 0, budget };
    let ghost before = parser;
    match parser.parse_all() {
        Ok(()) => {},
        Err(e) => return Err(e),
    }
    proof {
        assert(parser.ast@.skip(0) == parser.ast@);
        let starts = choose|starts: Seq<int>|
            #[trigger] parsed_from(before.tokens@, 0, starts, parser.ast@.skip(0));
        assert(parsed_from(tokens@, 0, starts, parser.ast@));
    }
    let ast = parser.ast;
    assert(parse_admits(tokens@, ast@));
    Ok(ast)
}

/// Compile the source text `src`, whose length is below `budget`.
fn compile_inner(src: &str) -> (r: Result<Vec<Stmt>>)
    ensures
        r matches Err(e) ==> failed_compiling(e),
        r is Ok ==> compile_admits(src@, r->Ok_0@),
        src@.len() == 0 ==> (r matches Ok(v) && v@.len() == 0),
        opening_kind(src@) is Some ==> (r matches Ok(v) ==> v@.len() > 0),
    decreases 2 * src@.len() + 1, 0nat, 0nat,
{
    let n = src.unicode_len();
    let tokens = scan(src)?;
    proof {
        assert(tokens_fit(tokens@, n as nat));
    }
    parse_tokens(tokens.as_slice(), n)
}

/// The value of a statement that parses to a single string.
fn text_stmt(s: String) -> (r: Stmt)
    ensures
        r == Stmt::Value(Value::String(s)),
{
    Stmt::Value(Value::String(s))
}

/// A call of the builtin named `name`.
fn call(name: &str, args: Vec<Stmt>) -> (r: Stmt)
    ensures
        r matches Stmt::Call(f, a) && (*f matches Stmt::Word(w) && w@ == name@) && a == args,
{
    Stmt::Call(Box::new(Stmt::word(name)), args)
}

/// The kind of token `pos`, `Nil` past the end.
pub open spec fn kind_at(tokens: Seq<Token>, pos: int) -> Syntax {
    if 0 <= pos < tokens.len() {
        tokens[pos].kind
    } else {
        Syntax::Nil
    }
}

/// What an atom that starts at token `pos` parses to, by the kind and
/// text of that token: a boolean or number literal its value, a word the
/// word, a string without interpolation its text, `[` a list, `{` a map,
/// `fn` a function, `<` a tag of the name `tag_named` gives (or nothing,
/// for a closing tag), `(` whatever is inside. No other kind starts an
/// atom.
pub open spec fn atom_shape(tokens: Seq<Token>, pos: int, s: Stmt) -> bool {
    let lit = tokens[pos].spec_literal();
    match kind_at(tokens, pos) {
        Syntax::Bool(b) => s == Stmt::Value(Value::Bool(b)),
        Syntax::Number => s matches Stmt::Value(Value::Number(n)) && crate::token::number_units(lit)
            == Some(n.units()),
        Syntax::Word => s matches Stmt::Word(w) && w@ == lit,
        Syntax::String(i) => (!i || !lit.contains('{')) ==> (s matches Stmt::Value(Value::String(x))
            && x@ == lit),
        Syntax::LStaple => s is List,
        Syntax::LCurly => s is Dict,
        Syntax::Fn => s is Fn,
        Syntax::LCaret => s is Nil || (s matches Stmt::Tag(t) && tag_named(tokens, pos, *t.tag)),
        Syntax::LParen => true,
        _ => false,
    }
}

/// What an expression that starts at token `pos` parses to: when that
/// token is an operator, the operator applied to the one operand that
/// follows it; else the atom it starts with, or a call (of an operator,
/// of a function, or an index) or an assignment built on it.
pub open spec fn expr_shape(tokens: Seq<Token>, pos: int, s: Stmt) -> bool {
    if kind_at(tokens, pos) is Op {
        s matches Stmt::Call(f, args) && (*f matches Stmt::Word(w) && w@ == tokens[pos].spec_literal())
            && args@.len() == 1
    } else {
        atom_shape(tokens, pos, s) || s is Call || s is Assign
    }
}

/// The name of the tag whose `<` is token `pos`: `div` when an operator
/// (a shortcut such as `#` or `.`) follows the `<`, else the text of the
/// word that does.
pub open spec fn tag_named(tokens: Seq<Token>, pos: int, name: Stmt) -> bool {
    if tokens[pos + 1].kind is Op {
        name matches Stmt::Value(Value::String(s)) && s@ == "div"@
    } else {
        name matches Stmt::Value(Value::String(s)) && s@ == tokens[pos + 1].spec_literal()
    }
}

/// What `def` at token `pos` parses to: the definition of the name that
/// follows, by `:=`, as a function.
pub open spec fn def_shape(tokens: Seq<Token>, pos: int, s: Stmt) -> bool {
    s matches Stmt::Assign(name, f, reassign) && name@ == tokens[pos + 1].spec_literal() && !reassign
        && *f is Fn
}

/// What a statement that starts at token `pos` parses to, by the kind of
/// that token: a definition, an `if` with at least one branch, a loop
/// (a `while` testing the expression after it), a `return`, or an
/// expression read up to a token that cannot extend it, its operators
/// grouped as `spans` says.
pub open spec fn stmt_shape(tokens: Seq<Token>, pos: int, s: Stmt) -> bool {
    let k = kind_at(tokens, pos);
    match k {
        Syntax::Def => def_shape(tokens, pos, s),
        Syntax::If => s matches Stmt::If(conds) && conds@.len() >= 1,
        Syntax::For => s is For,
        Syntax::While => s matches Stmt::While(t, _) && expr_shape(tokens, pos + 1, *t) && grouped(
            tokens,
            pos + 1,
            *t,
            1,
        ),
        Syntax::Return => s is Return,
        _ => {
            &&& spec_starts_expr(k)
            &&& expr_shape(tokens, pos, s)
            &&& grouped(tokens, pos, s, 1)
            &&& exists|hi: int|
                pos < hi <= tokens.len() && #[trigger] spans(tokens, pos, hi, s, 1) && stops_before(tokens, hi, 0)
            &&& simple_at(tokens, pos) && !continues_at(tokens, pos + 1) ==> atom_shape(tokens, pos, s)
        },
    }
}

/// `stmts` were parsed in order from `tokens`, statement `i` starting at
/// token `starts[i]`: the first at token `from`, each later one after
/// the one before, each of the shape its first token calls for.
pub open spec fn parsed_from(tokens: Seq<Token>, from: int, starts: Seq<int>, stmts: Seq<Stmt>) -> bool {
    &&& starts.len() == stmts.len()
    &&& stmts.len() > 0 ==> starts[0] == from
    &&& forall|i: int|
        0 <= i < starts.len() ==> from <= #[trigger] starts[i] < tokens.len() && stmt_shape(
            tokens,
            starts[i],
            stmts[i],
        )
    &&& forall|i: int, j: int| 0 <= i < j < starts.len() ==> #[trigger] starts[i] < #[trigger] starts[j]
}

/// `stmts` are the lone words, booleans and numbers of `tokens` from
/// `from` on: one statement for each, each the atom of its token.
pub open spec fn simple_parsed(tokens: Seq<Token>, from: int, stmts: Seq<Stmt>) -> bool {
    &&& stmts.len() + stmts.len() == tokens.len() - from
    &&& forall|i: int| 0 <= i < stmts.len() ==> atom_shape(tokens, from + i + i, #[trigger] stmts[i])
}

/// From token `pos` on: a word, the operator `:=` or `=`, a lone word,
/// boolean or number, and `;`.
pub open spec fn assign_at(tokens: Seq<Token>, pos: int) -> bool {
    &&& 0 <= pos && pos + 3 < tokens.len()
    &&& tokens[pos].kind is Word
    &&& tokens[pos + 1].kind is Op
    &&& tokens[pos + 1].spec_literal() == ":="@ || tokens[pos + 1].spec_literal() == "="@
    &&& simple_token(tokens[pos + 2])
    &&& tokens[pos + 3].kind is Semi
}

/// `s` is the assignment that such tokens at `pos` read as: the word
/// bound to the operand, `=` a reassignment and `:=` none.
pub open spec fn assign_shape(tokens: Seq<Token>, pos: int, s: Stmt) -> bool {
    &&& s matches Stmt::Assign(name, val, re)
    &&& s->Assign_0@ == tokens[pos].spec_literal()
    &&& s->Assign_2 == (tokens[pos + 1].spec_literal() == "="@)
    &&& atom_shape(tokens, pos + 2, *s->Assign_1)
}

/// Do tokens `pos` and `pos + 1` open a closing tag: `<` then `/`?
pub open spec fn closing_at(tokens: Seq<Token>, pos: int) -> bool {
    0 <= pos && pos + 1 < tokens.len() && tokens[pos].kind is LCaret && tokens[pos + 1].kind is Slash
}

/// From token `pos` on: `<`, a word, `>`: the head of a plain tag.
pub open spec fn plain_head_at(tokens: Seq<Token>, pos: int) -> bool {
    &&& 0 <= pos && pos + 2 < tokens.len()
    &&& tokens[pos].kind is LCaret
    &&& tokens[pos + 1].kind is Word
    &&& tokens[pos + 2].kind is RCaret
}

/// `t` is the tag that such a head at `pos` opens: named by the word,
/// with no id, class or attribute, no body yet, and not closed.
pub open spec fn plain_head(tokens: Seq<Token>, pos: int, t: Tag) -> bool {
    &&& *t.tag matches Stmt::Value(Value::String(x)) && x@ == tokens[pos + 1].spec_literal()
    &&& *t.id is Nil
    &&& t.classes@.len() == 0
    &&& t.attrs@.len() == 0
    &&& t.body@.len() == 0
    &&& !t.closed
}

/// From token `pos` on: `<`, a word, `>`, a word, and `;`.
pub open spec fn tag_word_at(tokens: Seq<Token>, pos: int) -> bool {
    &&& plain_head_at(tokens, pos)
    &&& pos + 4 < tokens.len()
    &&& tokens[pos + 3].kind is Word
    &&& tokens[pos + 4].kind is Semi
}

/// `s` is the tag that such tokens at `pos` read as: named by the first
/// word, its body the second word alone, with no id, class or attribute,
/// and not closed.
pub open spec fn tag_word_shape(tokens: Seq<Token>, pos: int, s: Stmt) -> bool {
    &&& s is Tag
    &&& *s->Tag_0.tag matches Stmt::Value(Value::String(x)) && x@ == tokens[pos + 1].spec_literal()
    &&& *s->Tag_0.id is Nil
    &&& s->Tag_0.classes@.len() == 0
    &&& s->Tag_0.attrs@.len() == 0
    &&& !s->Tag_0.closed
    &&& s->Tag_0.body@.len() == 1
    &&& word_of(s->Tag_0.body@[0], tokens[pos + 3].spec_literal())
}

/// `x` is the word `w`.
pub open spec fn word_of(x: Stmt, w: Seq<char>) -> bool {
    x matches Stmt::Word(y) && y@ == w
}

/// From token `pos` on: a word, then `;`.
pub open spec fn word_line_at(tokens: Seq<Token>, pos: int) -> bool {
    0 <= pos && pos + 1 < tokens.len() && tokens[pos].kind is Word && tokens[pos + 1].kind is Semi
}

/// `stmts` are the statements parsed, in order, from all of `tokens`.
pub open spec fn parse_admits(tokens: Seq<Token>, stmts: Seq<Stmt>) -> bool {
    exists|starts: Seq<int>| #[trigger] parsed_from(tokens, 0, starts, stmts)
}

/// The name of kind `k`, as error messages give it.
pub open spec fn spec_syntax_name(k: Syntax) -> Seq<char> {
    match k {
        Syntax::Nil => "None"@,
        Syntax::Indent => "Indent"@,
        Syntax::Dedent => "Dedent"@,
        Syntax::Bool(_) => "Bool"@,
        Syntax::Number => "Number"@,
        Syntax::String(_) => "String"@,
        Syntax::Word => "Word"@,
        Syntax::JS => "JS"@,
        Syntax::Op => "Op"@,
        Syntax::Semi => "Semi"@,
        Syntax::Colon => "Colon"@,
        Syntax::Comma => "Comma"@,
        Syntax::LParen => "LParen"@,
        Syntax::RParen => "RParen"@,
        Syntax::LCurly => "LCurly"@,
        Syntax::RCurly => "RCurly"@,
        Syntax::LStaple => "LStaple"@,
        Syntax::RStaple => "RStaple"@,
        Syntax::LCaret => "LCaret"@,
        Syntax::RCaret => "RCaret"@,
        Syntax::Slash => "Slash"@,
        Syntax::Equal => "Equal"@,
        Syntax::Def => "Def"@,
        Syntax::Do => "Do"@,
        Syntax::Return => "Return"@,
        Syntax::If => "If"@,
        Syntax::Then => "Then"@,
        Syntax::Else => "Else"@,
        Syntax::For => "For"@,
        Syntax::While => "While"@,
        Syntax::In => "In"@,
        Syntax::Fn => "Fn"@,
    }
}

/// `args` are expressions that start at the tokens `starts`, each in
/// order between `lo` and `hi`.
pub open spec fn exprs_from(tokens: Seq<Token>, lo: int, hi: int, starts: Seq<int>, args: Seq<Stmt>) -> bool {
    &&& starts.len() == args.len()
    &&& forall|i: int|
        0 <= i < args.len() ==> lo <= #[trigger] starts[i] < hi && expr_shape(tokens, starts[i], args[i])
}

/// The values of keyword arguments `args` are expressions that start at
/// the tokens `starts`, each between `lo` and `hi`.
pub open spec fn kw_values_from(
    tokens: Seq<Token>,
    lo: int,
    hi: int,
    starts: Seq<int>,
    args: Seq<(Symbol, Stmt)>,
) -> bool {
    &&& starts.len() == args.len()
    &&& forall|i: int|
        0 <= i < args.len() ==> lo <= #[trigger] starts[i] < hi && expr_shape(tokens, starts[i], args[i].1)
}

/// `s` holds keyword arguments whose values are expressions that start
/// between `lo` and `hi`.
pub open spec fn kw_args_shaped(tokens: Seq<Token>, lo: int, hi: int, s: Stmt) -> bool {
    s matches Stmt::Args(a) && exists|starts: Seq<int>| #[trigger] kw_values_from(tokens, lo, hi, starts, a@)
}

/// Where the body of a tag stops: at the end of the tokens, a dedent, a
/// `;` unless the body is indented, or the `</` of a closing tag.
pub open spec fn tag_body_end(tokens: Seq<Token>, pos: int, indented: bool) -> bool {
    ||| pos >= tokens.len()
    ||| kind_at(tokens, pos) is Dedent
    ||| kind_at(tokens, pos) is Semi && !indented
    ||| kind_at(tokens, pos) is LCaret && kind_at(tokens, pos + 1) is Slash
}

/// A list of arguments read up to `pos` was closed: the token before
/// `pos` is `)`, or the tokens ran out.
pub open spec fn args_closed(tokens: Seq<Token>, pos: int) -> bool {
    pos >= tokens.len() || kind_at(tokens, pos - 1) is RParen
}

/// Is `t` a lone word, boolean, or number whose text reads as one?
pub open spec fn simple_token(t: Token) -> bool {
    t.kind is Word || t.kind is Bool || (t.kind is Number && crate::token::number_units(t.spec_literal()) is Some)
}

/// Is token `pos` a lone word, boolean or number?
pub open spec fn simple_at(tokens: Seq<Token>, pos: int) -> bool {
    0 <= pos < tokens.len() && simple_token(tokens[pos])
}

/// From token `from` on, the tokens are lone words, booleans or numbers,
/// each followed by a `;`.
pub open spec fn simple_stmts(tokens: Seq<Token>, from: int) -> bool {
    &&& 0 <= from <= tokens.len()
    &&& (tokens.len() - from) % 2 == 0
    &&& forall|i: int|
        from <= i < tokens.len() ==> if (i - from) % 2 == 0 {
            simple_token(#[trigger] tokens[i])
        } else {
            tokens[i].kind is Semi
        }
}

/// Is some token strictly between `lo` and `hi` of kind `k`?
pub open spec fn kind_between(tokens: Seq<Token>, lo: int, hi: int, k: Syntax) -> bool {
    exists|i: int| lo < i < hi && 0 <= i < tokens.len() && #[trigger] tokens[i].kind == k
}

/// Is some token strictly between `lo` and `hi` spelled `lit`?
pub open spec fn spelled_between(tokens: Seq<Token>, lo: int, hi: int, lit: Seq<char>) -> bool {
    exists|i: int| lo < i < hi && 0 <= i < tokens.len() && #[trigger] tokens[i].spec_literal() == lit
}

/// What the head of a tag read from token `lo` up to `hi` holds: it
/// ends with the `>` just before `hi`; it is closed only where a `/` was
/// read, has an id only where a `#` was read, and classes only where a
/// `.` was read.
pub open spec fn tag_head(tokens: Seq<Token>, lo: int, hi: int, t: Tag) -> bool {
    &&& kind_at(tokens, hi - 1) is RCaret
    &&& t.closed ==> kind_between(tokens, lo, hi, Syntax::Slash)
    &&& !(*t.id is Nil) ==> spelled_between(tokens, lo, hi, "#"@)
    &&& t.classes@.len() > 0 ==> spelled_between(tokens, lo, hi, "."@)
}

/// Is token `mid`, after `lo`, spelled `op`?
pub open spec fn op_token_at(tokens: Seq<Token>, lo: int, mid: int, op: Seq<char>) -> bool {
    lo < mid < tokens.len() && tokens[mid].spec_literal() == op
}

/// How an expression that starts at token `lo` is grouped, where no
/// operator at its top binds looser than `min`. One that starts with `(`
/// or with an operator is taken as it is. Otherwise it is an atom; or a
/// binary operator applied, in source order, to the expression that
/// starts at `lo` (grouped with nothing looser than this operator, so
/// that operators of one power nest to the left) and the expression just
/// after the operator (grouped with nothing as loose, so that tighter
/// operators nest inside it); or a call or index of what starts at `lo`;
/// or a stored index or an assignment.
pub open spec fn grouped(tokens: Seq<Token>, lo: int, s: Stmt, min: int) -> bool
    decreases s,
{
    if kind_at(tokens, lo) is LParen || kind_at(tokens, lo) is Op {
        true
    } else {
        match s {
            Stmt::Call(f, args) => {
                ||| (*f matches Stmt::Word(w) && args@.len() == 2 && op_power(w@) >= min && exists|mid: int|
                    #[trigger] op_token_at(tokens, lo, mid, w@) && {
                        proof {
                            vstd::std_specs::vec::axiom_vec_index_decreases(args, 0);
                            vstd::std_specs::vec::axiom_vec_index_decreases(args, 1);
                        }
                        &&& grouped(tokens, lo, args@[0], op_power(w@) as int)
                        &&& (w@ == "."@ || grouped(tokens, mid + 1, args@[1], op_power(w@) + 1))
                    })
                ||| grouped(tokens, lo, *f, 0)
                ||| (*f matches Stmt::Word(w) && w@ == "index"@ && args@.len() == 2 && {
                    proof {
                        vstd::std_specs::vec::axiom_vec_index_decreases(args, 0);
                    }
                    grouped(tokens, lo, args@[0], 0)
                })
                ||| (*f matches Stmt::Word(w) && w@ == "set_index"@)
                ||| atom_shape(tokens, lo, s)
            },
            Stmt::Assign(..) => true,
            _ => atom_shape(tokens, lo, s),
        }
    }
}

/// Can token `pos` extend an expression: an operator, `(` or `[`?
pub open spec fn continues_at(tokens: Seq<Token>, pos: int) -> bool {
    let k = kind_at(tokens, pos);
    k is Op || k is LParen || k is LStaple
}

/// Where an expression stops before token `pos`, that token extends no
/// expression whose operators bind looser than `min`: an operator binds
/// no tighter than `min`, and a call or index (which bind at 15) is left
/// only where `min` is tighter still.
pub open spec fn stops_before(tokens: Seq<Token>, pos: int, min: int) -> bool {
    continues_at(tokens, pos) ==> {
        ||| op_power(tokens[pos].spec_literal()) <= min
        ||| postfix_token(tokens[pos]) && 15 < min
    }
}

/// Is `op` an infix operator that neither assigns nor reads a field?
pub open spec fn plain_infix(op: Seq<char>) -> bool {
    !assign_op(op) && op != "."@
}

/// From token `pos` on: lone operands (words, booleans, numbers) with
/// such operators between them, up to a `;`.
pub open spec fn chain_at(tokens: Seq<Token>, pos: int) -> bool
    decreases tokens.len() - pos,
{
    if 0 <= pos && pos + 1 < tokens.len() {
        &&& simple_token(tokens[pos])
        &&& (tokens[pos + 1].kind is Semi || (tokens[pos + 1].kind is Op && plain_infix(
            tokens[pos + 1].spec_literal(),
        ) && chain_at(tokens, pos + 2)))
    } else {
        false
    }
}

/// What follows an operand of such a chain: its `;`, or an operator and
/// the rest of the chain.
pub open spec fn chain_rest(tokens: Seq<Token>, p: int) -> bool {
    &&& 0 <= p < tokens.len()
    &&& (tokens[p].kind is Semi || (tokens[p].kind is Op && plain_infix(tokens[p].spec_literal()) && chain_at(
        tokens,
        p + 1,
    )))
}

/// The tokens from `pos` on are one such chain, and its `;` is the last
/// token.
pub open spec fn one_chain(tokens: Seq<Token>, pos: int) -> bool {
    &&& chain_at(tokens, pos)
    &&& tokens.last().kind is Semi
    &&& forall|i: int| pos <= i < tokens.len() - 1 ==> !(#[trigger] tokens[i].kind is Semi)
}

/// Is `t` the `(` of a call or the `[` of an index?
pub open spec fn postfix_token(t: Token) -> bool {
    (t.kind is LParen || t.kind is LStaple) && (t.spec_literal() == "("@ || t.spec_literal() == "["@)
}

/// Does `op` assign: `:=`, `=`, or an operator with `=` after it such as
/// `+=` (but not `==`, `!=`, `>=`, `<=` or `..=`)?
pub open spec fn assign_op(op: Seq<char>) -> bool {
    ||| op == ":="@
    ||| op == "="@
    ||| op.len() > 0 && op.last() == '=' && op != "=="@ && op != "!="@ && op != ">="@ && op != "<="@
        && op != "..="@
}

/// Is some token strictly between `lo` and `hi` an assigning operator?
pub open spec fn assigns_between(tokens: Seq<Token>, lo: int, hi: int) -> bool {
    exists|mid: int|
        lo < mid < hi && #[trigger] op_token_at(tokens, lo, mid, tokens[mid].spec_literal()) && assign_op(
            tokens[mid].spec_literal(),
        )
}

/// The expression `s` was read from tokens `lo` up to `hi`, its
/// operators grouped by how tightly they bind, none looser than `min`.
/// One that starts with `(` or with an operator is taken as it is. A
/// lone word, number or boolean is one token. A binary operator at
/// token `mid` applies to the expression read from `lo` up to `mid`
/// (nothing looser than it at its top, so that operators of one power
/// nest to the left) and the one read from just after `mid` up to `hi`
/// (nothing as loose, so that tighter operators nest inside it). A call
/// or an index applies to an expression read from `lo` up to its `(` or
/// `[`. An assignment, or a store into an index, has an assigning
/// operator in it.
pub open spec fn spans(tokens: Seq<Token>, lo: int, hi: int, s: Stmt, min: int) -> bool
    decreases s,
{
    if kind_at(tokens, lo) is LParen || kind_at(tokens, lo) is Op {
        true
    } else {
        match s {
            Stmt::Call(f, args) => {
                ||| (*f matches Stmt::Word(w) && args@.len() == 2 && op_power(w@) >= min && exists|mid: int|
                    #[trigger] op_token_at(tokens, lo, mid, w@) && mid + 1 < hi && {
                        proof {
                            vstd::std_specs::vec::axiom_vec_index_decreases(args, 0);
                            vstd::std_specs::vec::axiom_vec_index_decreases(args, 1);
                        }
                        &&& spans(tokens, lo, mid, args@[0], op_power(w@) as int)
                        &&& (w@ == "."@ || spans(tokens, mid + 1, hi, args@[1], op_power(w@) + 1))
                    })
                ||| exists|m: int|
                    lo < m < hi && #[trigger] kind_at(tokens, m) is LParen && spans(tokens, lo, m, *f, 0)
                ||| (*f matches Stmt::Word(w) && w@ == "index"@ && args@.len() == 2 && exists|m: int|
                    lo < m < hi && #[trigger] kind_at(tokens, m) is LStaple && {
                        proof {
                            vstd::std_specs::vec::axiom_vec_index_decreases(args, 0);
                        }
                        spans(tokens, lo, m, args@[0], 0)
                    })
                ||| (*f matches Stmt::Word(w) && w@ == "set_index"@ && assigns_between(tokens, lo, hi))
                ||| atom_shape(tokens, lo, s)
            },
            Stmt::Assign(..) => assigns_between(tokens, lo, hi) || atom_shape(tokens, lo, s),
            _ => atom_shape(tokens, lo, s) && (simple_at(tokens, lo) ==> hi == lo + 1),
        }
    }
}

/// A span under a bound holds under any looser bound.
proof fn lemma_spans_looser(tokens: Seq<Token>, lo: int, hi: int, s: Stmt, m: int, n: int)
    requires
        spans(tokens, lo, hi, s, m),
        n <= m,
    ensures
        spans(tokens, lo, hi, s, n),
{
}

/// `s` is `a op1 (b op2 c)`, for the lone operands at tokens 0, 2 and 4
/// and the operators at tokens 1 and 3.
pub open spec fn right_nested(tokens: Seq<Token>, s: Stmt) -> bool {
    &&& s matches Stmt::Call(f, a) && *f matches Stmt::Word(w) && w@ == tokens[1].spec_literal()
    &&& s->Call_1@.len() == 2
    &&& atom_shape(tokens, 0, s->Call_1@[0])
    &&& s->Call_1@[1] matches Stmt::Call(g, b) && *g matches Stmt::Word(x) && x@ == tokens[3].spec_literal()
    &&& s->Call_1@[1]->Call_1@.len() == 2
    &&& atom_shape(tokens, 2, s->Call_1@[1]->Call_1@[0])
    &&& atom_shape(tokens, 4, s->Call_1@[1]->Call_1@[1])
}

/// `s` is `(a op1 b) op2 c`, for the lone operands at tokens 0, 2 and 4
/// and the operators at tokens 1 and 3.
pub open spec fn left_nested(tokens: Seq<Token>, s: Stmt) -> bool {
    &&& s matches Stmt::Call(f, a) && *f matches Stmt::Word(w) && w@ == tokens[3].spec_literal()
    &&& s->Call_1@.len() == 2
    &&& atom_shape(tokens, 4, s->Call_1@[1])
    &&& s->Call_1@[0] matches Stmt::Call(g, b) && *g matches Stmt::Word(x) && x@ == tokens[1].spec_literal()
    &&& s->Call_1@[0]->Call_1@.len() == 2
    &&& atom_shape(tokens, 0, s->Call_1@[0]->Call_1@[0])
    &&& atom_shape(tokens, 2, s->Call_1@[0]->Call_1@[1])
}

/// Of two binary operators between three lone operands, the one that
/// binds tighter takes its operands first, and of two that bind alike
/// the left one does: `1 + 2 * 3` reads as `1 + (2 * 3)`, `true && false
/// || false` as `true && (false || false)`, and `1 - 2 - 3` as
/// `(1 - 2) - 3`. (The operands are spelled unlike the operators, and
/// the operators neither assign nor call methods.)
pub proof fn law_binary_grouping(tokens: Seq<Token>, s: Stmt, hi: int)
    requires
        tokens.len() == 6,
        simple_token(tokens[0]),
        simple_token(tokens[2]),
        simple_token(tokens[4]),
        tokens[1].kind is Op,
        tokens[3].kind is Op,
        tokens[5].kind is Semi,
        tokens[1].spec_literal().len() > 0,
        tokens[3].spec_literal().len() > 0,
        forall|i: int| #![trigger tokens[i]] i == 0 || i == 2 || i == 4 ==> {
            &&& tokens[i].spec_literal() != tokens[1].spec_literal()
            &&& tokens[i].spec_literal() != tokens[3].spec_literal()
            &&& tokens[i].spec_literal() != "."@
            &&& !assign_op(tokens[i].spec_literal())
        },
        !assign_op(tokens[1].spec_literal()),
        !assign_op(tokens[3].spec_literal()),
        tokens[1].spec_literal() != "."@,
        tokens[3].spec_literal() != "."@,
        0 < hi <= 6,
        spans(tokens, 0, hi, s, 1),
        stops_before(tokens, hi, 0),
    ensures
        op_power(tokens[1].spec_literal()) < op_power(tokens[3].spec_literal()) ==> right_nested(tokens, s),
        op_power(tokens[1].spec_literal()) >= op_power(tokens[3].spec_literal()) ==> left_nested(tokens, s),
{
    let p1 = tokens[1].spec_literal();
    let p3 = tokens[3].spec_literal();
    lemma_op_power_positive(p1);
    lemma_op_power_positive(p3);
    assert(kind_at(tokens, 1) is Op && kind_at(tokens, 3) is Op);
    assert(hi != 1 && hi != 3);
    assert(tokens[5].spec_literal().len() == 0);
    assert forall|m: int| 0 < m < 6 implies !assign_op(#[trigger] tokens[m].spec_literal()) by {
        if m == 5 {
            reveal_strlit(":=");
            reveal_strlit("=");
        }
    }
    assert forall|m: int| 0 <= m < 6 implies !(#[trigger] kind_at(tokens, m) is LParen) && !(kind_at(tokens, m) is LStaple)
        && !(kind_at(tokens, m) is Op && (m == 0 || m == 2 || m == 4)) by {
        assert(tokens[m] == tokens[m]);
    }
    assert(!assigns_between(tokens, 0, hi));
    assert(s is Call) by {
        if !(s is Call) {
            assert(simple_at(tokens, 0));
        }
    }
    let a = s->Call_1@;
    let w = (*s->Call_0)->Word_0@;
    assert(!(exists|m: int| 0 < m < hi && #[trigger] kind_at(tokens, m) is LParen && spans(tokens, 0, m, *s->Call_0, 0)));
    assert(!atom_shape(tokens, 0, s));
    let mid = choose|mid: int| #[trigger] op_token_at(tokens, 0, mid, w) && mid + 1 < hi && {
        &&& spans(tokens, 0, mid, a[0], op_power(w) as int)
        &&& (w == "."@ || spans(tokens, mid + 1, hi, a[1], op_power(w) + 1))
    };
    if mid == 2 {
        lemma_span_lone(tokens, 0, 2, a[0], op_power(w) as int);
    }
    if mid == 4 {
        assert(w != "."@);
        lemma_nothing_after_semi(tokens, hi, a[1], op_power(w) + 1);
    }
    assert(mid == 1 || mid == 3);
    if mid == 1 {
        assert(w == p1);
        lemma_span_lone(tokens, 0, 1, a[0], op_power(w) as int);
        lemma_right_operand(tokens, hi, a[1], op_power(p1) + 1);
    } else {
        assert(w == p3);
        lemma_span_lone(tokens, 4, hi, a[1], op_power(w) + 1);
        lemma_left_operand(tokens, a[0], op_power(p3) as int);
    }
}

/// What `parse` gives for two binary operators between three lone
/// operands: its first statement is grouped as `law_binary_grouping`
/// says.
pub proof fn law_parsed_grouping(tokens: Seq<Token>, stmts: Seq<Stmt>)
    requires
        tokens.len() == 6,
        simple_token(tokens[0]),
        simple_token(tokens[2]),
        simple_token(tokens[4]),
        tokens[1].kind is Op,
        tokens[3].kind is Op,
        tokens[5].kind is Semi,
        tokens[1].spec_literal().len() > 0,
        tokens[3].spec_literal().len() > 0,
        forall|i: int| #![trigger tokens[i]] i == 0 || i == 2 || i == 4 ==> {
            &&& tokens[i].spec_literal() != tokens[1].spec_literal()
            &&& tokens[i].spec_literal() != tokens[3].spec_literal()
            &&& tokens[i].spec_literal() != "."@
            &&& !assign_op(tokens[i].spec_literal())
        },
        !assign_op(tokens[1].spec_literal()),
        !assign_op(tokens[3].spec_literal()),
        tokens[1].spec_literal() != "."@,
        tokens[3].spec_literal() != "."@,
        parse_admits(tokens, stmts),
        stmts.len() > 0,
    ensures
        op_power(tokens[1].spec_literal()) < op_power(tokens[3].spec_literal()) ==> right_nested(tokens, stmts[0]),
        op_power(tokens[1].spec_literal()) >= op_power(tokens[3].spec_literal()) ==> left_nested(tokens, stmts[0]),
{
    let starts = choose|starts: Seq<int>| #[trigger] parsed_from(tokens, 0, starts, stmts);
    assert(starts[0] == 0);
    assert(stmt_shape(tokens, 0, stmts[0]));
    assert(kind_at(tokens, 0) == tokens[0].kind);
    let hi = choose|hi: int|
        0 < hi <= tokens.len() && #[trigger] spans(tokens, 0, hi, stmts[0], 1) && stops_before(tokens, hi, 0);
    law_binary_grouping(tokens, stmts[0], hi);
}

/// No expression is read from the closing `;`.
proof fn lemma_nothing_after_semi(tokens: Seq<Token>, hi: int, s: Stmt, min: int)
    requires
        tokens.len() == 6,
        tokens[5].kind is Semi,
        hi <= 6,
        forall|m: int| 0 < m < 6 ==> !assign_op(#[trigger] tokens[m].spec_literal()),
    ensures
        !spans(tokens, 5, hi, s, min),
{
    assert(kind_at(tokens, 5) is Semi);
    assert(!assigns_between(tokens, 5, hi));
    if s is Call {
        assert(!(exists|m: int| 5 < m < hi && #[trigger] kind_at(tokens, m) is LParen && spans(tokens, 5, m, *s->Call_0, 0)));
        let w = (*s->Call_0)->Word_0@;
        assert(!(exists|mid: int| #[trigger] op_token_at(tokens, 5, mid, w) && mid + 1 < hi));
    }
}

/// A lone operand read up to at most one token on is that operand.
proof fn lemma_span_lone(tokens: Seq<Token>, lo: int, hi: int, s: Stmt, min: int)
    requires
        spans(tokens, lo, hi, s, min),
        simple_at(tokens, lo),
        lo < hi <= lo + 2,
        forall|m: int| lo < m < hi ==> !(#[trigger] kind_at(tokens, m) is LParen) && !(kind_at(tokens, m) is LStaple),
        !assigns_between(tokens, lo, hi),
    ensures
        atom_shape(tokens, lo, s),
        hi == lo + 1,
{
    assert(!(kind_at(tokens, lo) is LParen) && !(kind_at(tokens, lo) is Op));
    if s is Call {
        assert(!(exists|m: int| lo < m < hi && #[trigger] kind_at(tokens, m) is LParen && spans(tokens, lo, m, *s->Call_0, 0)));
    }
}

/// The right operand of the first operator reaches over the second.
proof fn lemma_right_operand(tokens: Seq<Token>, hi: int, r: Stmt, min: int)
    requires
        tokens.len() == 6,
        simple_token(tokens[2]),
        simple_token(tokens[4]),
        tokens[3].kind is Op,
        forall|m: int| 0 <= m < 6 ==> !(#[trigger] kind_at(tokens, m) is LParen) && !(kind_at(tokens, m) is LStaple),
        forall|m: int| 0 < m < 6 ==> !assign_op(#[trigger] tokens[m].spec_literal()),
        tokens[4].spec_literal() != tokens[3].spec_literal(),
        tokens[3].spec_literal() != "."@,
        hi != 3,
        2 < hi <= 6,
        spans(tokens, 2, hi, r, min),
    ensures
        r matches Stmt::Call(g, b) && *g matches Stmt::Word(x) && x@ == tokens[3].spec_literal(),
        op_power(tokens[3].spec_literal()) >= min,
        r->Call_1@.len() == 2,
        atom_shape(tokens, 2, r->Call_1@[0]),
        atom_shape(tokens, 4, r->Call_1@[1]),
        hi == 5,
{
    assert(!assigns_between(tokens, 2, hi));
    if !(r is Call) {
        assert(simple_at(tokens, 2));
    }
    assert(r is Call);
    let b = r->Call_1@;
    let x = (*r->Call_0)->Word_0@;
    assert(!(exists|m: int| 2 < m < hi && #[trigger] kind_at(tokens, m) is LParen && spans(tokens, 2, m, *r->Call_0, 0)));
    assert(!atom_shape(tokens, 2, r));
    let mid = choose|mid: int| #[trigger] op_token_at(tokens, 2, mid, x) && mid + 1 < hi && {
        &&& spans(tokens, 2, mid, b[0], op_power(x) as int)
        &&& (x == "."@ || spans(tokens, mid + 1, hi, b[1], op_power(x) + 1))
    };
    if mid == 4 {
        lemma_span_lone(tokens, 2, 4, b[0], op_power(x) as int);
    }
    assert(mid == 3);
    lemma_span_lone(tokens, 2, 3, b[0], op_power(x) as int);
    lemma_span_lone(tokens, 4, hi, b[1], op_power(x) + 1);
}

/// The left operand of the second operator is the first operator
/// applied.
proof fn lemma_left_operand(tokens: Seq<Token>, l: Stmt, min: int)
    requires
        tokens.len() == 6,
        simple_token(tokens[0]),
        simple_token(tokens[2]),
        tokens[1].kind is Op,
        forall|m: int| 0 <= m < 6 ==> !(#[trigger] kind_at(tokens, m) is LParen) && !(kind_at(tokens, m) is LStaple),
        forall|m: int| 0 < m < 6 ==> !assign_op(#[trigger] tokens[m].spec_literal()),
        tokens[2].spec_literal() != tokens[1].spec_literal(),
        tokens[1].spec_literal() != "."@,
        spans(tokens, 0, 3, l, min),
    ensures
        l matches Stmt::Call(g, b) && *g matches Stmt::Word(x) && x@ == tokens[1].spec_literal(),
        op_power(tokens[1].spec_literal()) >= min,
        l->Call_1@.len() == 2,
        atom_shape(tokens, 0, l->Call_1@[0]),
        atom_shape(tokens, 2, l->Call_1@[1]),
{
    assert(!assigns_between(tokens, 0, 3));
    if !(l is Call) {
        assert(simple_at(tokens, 0));
    }
    assert(l is Call);
    let b = l->Call_1@;
    let x = (*l->Call_0)->Word_0@;
    assert(!(exists|m: int| 0 < m < 3 && #[trigger] kind_at(tokens, m) is LParen && spans(tokens, 0, m, *l->Call_0, 0)));
    assert(!atom_shape(tokens, 0, l));
    let mid = choose|mid: int| #[trigger] op_token_at(tokens, 0, mid, x) && mid + 1 < 3 && {
        &&& spans(tokens, 0, mid, b[0], op_power(x) as int)
        &&& (x == "."@ || spans(tokens, mid + 1, 3, b[1], op_power(x) + 1))
    };
    assert(mid == 1);
    lemma_span_lone(tokens, 0, 1, b[0], op_power(x) as int);
    lemma_span_lone(tokens, 2, 3, b[1], op_power(x) + 1);
}

proof fn lemma_grouped_looser(tokens: Seq<Token>, lo: int, s: Stmt, m: int, n: int)
    requires
        grouped(tokens, lo, s, m),
        n <= m,
    ensures
        grouped(tokens, lo, s, n),
{
}

/// An expression read with no bound on its operators stops before
/// nothing that could extend it.
proof fn lemma_stops_nowhere(tokens: Seq<Token>, pos: int, min: int)
    requires
        stops_before(tokens, pos, 0),
        min >= 0,
    ensures
        stops_before(tokens, pos, min),
{
    if continues_at(tokens, pos) {
        lemma_op_power_positive(tokens[pos].spec_literal());
    }
}

/// Every operator binds at least as tightly as assignment.
proof fn lemma_op_power_positive(op: Seq<char>)
    ensures
        op_power(op) >= 1,
{
}

/// How tightly the infix operator spelled `op` binds: assignment
/// loosest, then `&&`, `||`, comparisons, sums, products, ranges, and the
/// `.` of a method call tightest; any other operator binds as `&&`.
pub open spec fn op_power(op: Seq<char>) -> u8 {
    if op == ":="@ || op == "="@ {
        1
    } else if op == "&&"@ {
        2
    } else if op == "||"@ {
        3
    } else if op == "=="@ || op == "!="@ || op == "<"@ || op == "<="@ || op == ">"@ || op == ">="@
        || op == "<=>"@ {
        4
    } else if op == "+"@ || op == "-"@ || op == "|"@ || op == "^"@ {
        5
    } else if op == "*"@ || op == "/"@ || op == "%"@ || op == "<<"@ || op == ">>"@ || op == "&"@ {
        6
    } else if op == ".."@ || op == "..="@ {
        10
    } else if op == "."@ {
        20
    } else {
        2
    }
}

/// Is `o` an operator that binds as a sum: `+`, `-`, `|` or `^`?
pub open spec fn sum_op(o: Seq<char>) -> bool {
    o == "+"@ || o == "-"@ || o == "|"@ || o == "^"@
}

/// Is `o` an operator that binds as a product: `*`, `/`, `%`, `<<`,
/// `>>` or `&`?
pub open spec fn product_op(o: Seq<char>) -> bool {
    o == "*"@ || o == "/"@ || o == "%"@ || o == "<<"@ || o == ">>"@ || o == "&"@
}

/// Is `o` a comparison?
pub open spec fn comparison_op(o: Seq<char>) -> bool {
    o == "=="@ || o == "!="@ || o == "<"@ || o == "<="@ || o == ">"@ || o == ">="@ || o == "<=>"@
}

/// How tightly operators bind, loosest first: the assignments `:=` and
/// `=`, then `&&`, `||`, the comparisons, the sums (`-` as loosely as
/// `+`), the products, the ranges `..` and `..=`, and `.` tightest.
/// Operators of one group bind alike; any other operator binds as `&&`.
pub proof fn law_operator_tiers(a: Seq<char>, b: Seq<char>)
    ensures
        op_power(":="@) == op_power("="@),
        op_power("="@) < op_power("&&"@),
        op_power("&&"@) < op_power("||"@),
        comparison_op(a) ==> op_power("||"@) < op_power(a),
        comparison_op(a) && comparison_op(b) ==> op_power(a) == op_power(b),
        comparison_op(a) && sum_op(b) ==> op_power(a) < op_power(b),
        sum_op(a) && sum_op(b) ==> op_power(a) == op_power(b),
        sum_op(a) && product_op(b) ==> op_power(a) < op_power(b),
        product_op(a) && product_op(b) ==> op_power(a) == op_power(b),
        product_op(a) ==> op_power(a) < op_power(".."@),
        op_power(".."@) == op_power("..="@),
        op_power(".."@) < op_power("."@),
        op_power(":="@) > 0,
        !(a == ":="@ || a == "="@ || a == "&&"@ || a == "||"@ || comparison_op(a) || sum_op(a) || product_op(a)
            || a == ".."@ || a == "..="@ || a == "."@) ==> op_power(a) == op_power("&&"@),
{
    assert(op_power(":="@) == 1) by {
        reveal_strlit(":=");
    }
    assert(op_power("="@) == 1) by {
        reveal_strlit("=");
    }
    assert(op_power("&&"@) == 2) by {
        reveal_strlit("&&");
        reveal_strlit(":=");
        assert("&&"@[0] != ":="@[0]);
        reveal_strlit("=");
        assert("&&"@.len() != "="@.len());
    }
    assert(op_power("||"@) == 3) by {
        reveal_strlit("||");
        reveal_strlit(":=");
        assert("||"@[0] != ":="@[0]);
        reveal_strlit("=");
        assert("||"@.len() != "="@.len());
        reveal_strlit("&&");
        assert("||"@[0] != "&&"@[0]);
    }
    assert(op_power("=="@) == 4) by {
        reveal_strlit("==");
        reveal_strlit(":=");
        assert("=="@[0] != ":="@[0]);
        reveal_strlit("=");
        assert("=="@.len() != "="@.len());
        reveal_strlit("&&");
        assert("=="@[0] != "&&"@[0]);
        reveal_strlit("||");
        assert("=="@[0] != "||"@[0]);
    }
    assert(op_power("!="@) == 4) by {
        reveal_strlit("!=");
        reveal_strlit(":=");
        assert("!="@[0] != ":="@[0]);
        reveal_strlit("=");
        assert("!="@.len() != "="@.len());
        reveal_strlit("&&");
        assert("!="@[0] != "&&"@[0]);
        reveal_strlit("||");
        assert("!="@[0] != "||"@[0]);
    }
    assert(op_power("<"@) == 4) by {
        reveal_strlit("<");
        reveal_strlit(":=");
        assert("<"@.len() != ":="@.len());
        reveal_strlit("=");
        assert("<"@[0] != "="@[0]);
        reveal_strlit("&&");
        assert("<"@.len() != "&&"@.len());
        reveal_strlit("||");
        assert("<"@.len() != "||"@.len());
    }
    assert(op_power("<="@) == 4) by {
        reveal_strlit("<=");
        reveal_strlit(":=");
        assert("<="@[0] != ":="@[0]);
        reveal_strlit("=");
        assert("<="@.len() != "="@.len());
        reveal_strlit("&&");
        assert("<="@[0] != "&&"@[0]);
        reveal_strlit("||");
        assert("<="@[0] != "||"@[0]);
    }
    assert(op_power(">"@) == 4) by {
        reveal_strlit(">");
        reveal_strlit(":=");
        assert(">"@.len() != ":="@.len());
        reveal_strlit("=");
        assert(">"@[0] != "="@[0]);
        reveal_strlit("&&");
        assert(">"@.len() != "&&"@.len());
        reveal_strlit("||");
        assert(">"@.len() != "||"@.len());
    }
    assert(op_power(">="@) == 4) by {
        reveal_strlit(">=");
        reveal_strlit(":=");
        assert(">="@[0] != ":="@[0]);
        reveal_strlit("=");
        assert(">="@.len() != "="@.len());
        reveal_strlit("&&");
        assert(">="@[0] != "&&"@[0]);
        reveal_strlit("||");
        assert(">="@[0] != "||"@[0]);
    }
    assert(op_power("<=>"@) == 4) by {
        reveal_strlit("<=>");
        reveal_strlit(":=");
        assert("<=>"@.len() != ":="@.len());
        reveal_strlit("=");
        assert("<=>"@.len() != "="@.len());
        reveal_strlit("&&");
        assert("<=>"@.len() != "&&"@.len());
        reveal_strlit("||");
        assert("<=>"@.len() != "||"@.len());
    }
    assert(op_power("+"@) == 5) by {
        reveal_strlit("+");
        reveal_strlit(":=");
        assert("+"@.len() != ":="@.len());
        reveal_strlit("=");
        assert("+"@[0] != "="@[0]);
        reveal_strlit("&&");
        assert("+"@.len() != "&&"@.len());
        reveal_strlit("||");
        assert("+"@.len() != "||"@.len());
        reveal_strlit("==");
        assert("+"@.len() != "=="@.len());
        reveal_strlit("!=");
        assert("+"@.len() != "!="@.len());
        reveal_strlit("<");
        assert("+"@[0] != "<"@[0]);
        reveal_strlit("<=");
        assert("+"@.len() != "<="@.len());
        reveal_strlit(">");
        assert("+"@[0] != ">"@[0]);
        reveal_strlit(">=");
        assert("+"@.len() != ">="@.len());
        reveal_strlit("<=>");
        assert("+"@.len() != "<=>"@.len());
    }
    assert(op_power("-"@) == 5) by {
        reveal_strlit("-");
        reveal_strlit(":=");
        assert("-"@.len() != ":="@.len());
        reveal_strlit("=");
        assert("-"@[0] != "="@[0]);
        reveal_strlit("&&");
        assert("-"@.len() != "&&"@.len());
        reveal_strlit("||");
        assert("-"@.len() != "||"@.len());
        reveal_strlit("==");
        assert("-"@.len() != "=="@.len());
        reveal_strlit("!=");
        assert("-"@.len() != "!="@.len());
        reveal_strlit("<");
        assert("-"@[0] != "<"@[0]);
        reveal_strlit("<=");
        assert("-"@.len() != "<="@.len());
        reveal_strlit(">");
        assert("-"@[0] != ">"@[0]);
        reveal_strlit(">=");
        assert("-"@.len() != ">="@.len());
        reveal_strlit("<=>");
        assert("-"@.len() != "<=>"@.len());
    }
    assert(op_power("|"@) == 5) by {
        reveal_strlit("|");
        reveal_strlit(":=");
        assert("|"@.len() != ":="@.len());
        reveal_strlit("=");
        assert("|"@[0] != "="@[0]);
        reveal_strlit("&&");
        assert("|"@.len() != "&&"@.len());
        reveal_strlit("||");
        assert("|"@.len() != "||"@.len());
        reveal_strlit("==");
        assert("|"@.len() != "=="@.len());
        reveal_strlit("!=");
        assert("|"@.len() != "!="@.len());
        reveal_strlit("<");
        assert("|"@[0] != "<"@[0]);
        reveal_strlit("<=");
        assert("|"@.len() != "<="@.len());
        reveal_strlit(">");
        assert("|"@[0] != ">"@[0]);
        reveal_strlit(">=");
        assert("|"@.len() != ">="@.len());
        reveal_strlit("<=>");
        assert("|"@.len() != "<=>"@.len());
    }
    assert(op_power("^"@) == 5) by {
        reveal_strlit("^");
        reveal_strlit(":=");
        assert("^"@.len() != ":="@.len());
        reveal_strlit("=");
        assert("^"@[0] != "="@[0]);
        reveal_strlit("&&");
        assert("^"@.len() != "&&"@.len());
        reveal_strlit("||");
        assert("^"@.len() != "||"@.len());
        reveal_strlit("==");
        assert("^"@.len() != "=="@.len());
        reveal_strlit("!=");
        assert("^"@.len() != "!="@.len());
        reveal_strlit("<");
        assert("^"@[0] != "<"@[0]);
        reveal_strlit("<=");
        assert("^"@.len() != "<="@.len());
        reveal_strlit(">");
        assert("^"@[0] != ">"@[0]);
        reveal_strlit(">=");
        assert("^"@.len() != ">="@.len());
        reveal_strlit("<=>");
        assert("^"@.len() != "<=>"@.len());
    }
    assert(op_power("*"@) == 6) by {
        reveal_strlit("*");
        reveal_strlit(":=");
        assert("*"@.len() != ":="@.len());
        reveal_strlit("=");
        assert("*"@[0] != "="@[0]);
        reveal_strlit("&&");
        assert("*"@.len() != "&&"@.len());
        reveal_strlit("||");
        assert("*"@.len() != "||"@.len());
        reveal_strlit("==");
        assert("*"@.len() != "=="@.len());
        reveal_strlit("!=");
        assert("*"@.len() != "!="@.len());
        reveal_strlit("<");
        assert("*"@[0] != "<"@[0]);
        reveal_strlit("<=");
        assert("*"@.len() != "<="@.len());
        reveal_strlit(">");
        assert("*"@[0] != ">"@[0]);
        reveal_strlit(">=");
        assert("*"@.len() != ">="@.len());
        reveal_strlit("<=>");
        assert("*"@.len() != "<=>"@.len());
        reveal_strlit("+");
        assert("*"@[0] != "+"@[0]);
        reveal_strlit("-");
        assert("*"@[0] != "-"@[0]);
        reveal_strlit("|");
        assert("*"@[0] != "|"@[0]);
        reveal_strlit("^");
        assert("*"@[0] != "^"@[0]);
    }
    assert(op_power("/"@) == 6) by {
        reveal_strlit("/");
        reveal_strlit(":=");
        assert("/"@.len() != ":="@.len());
        reveal_strlit("=");
        assert("/"@[0] != "="@[0]);
        reveal_strlit("&&");
        assert("/"@.len() != "&&"@.len());
        reveal_strlit("||");
        assert("/"@.len() != "||"@.len());
        reveal_strlit("==");
        assert("/"@.len() != "=="@.len());
        reveal_strlit("!=");
        assert("/"@.len() != "!="@.len());
        reveal_strlit("<");
        assert("/"@[0] != "<"@[0]);
        reveal_strlit("<=");
        assert("/"@.len() != "<="@.len());
        reveal_strlit(">");
        assert("/"@[0] != ">"@[0]);
        reveal_strlit(">=");
        assert("/"@.len() != ">="@.len());
        reveal_strlit("<=>");
        assert("/"@.len() != "<=>"@.len());
        reveal_strlit("+");
        assert("/"@[0] != "+"@[0]);
        reveal_strlit("-");
        assert("/"@[0] != "-"@[0]);
        reveal_strlit("|");
        assert("/"@[0] != "|"@[0]);
        reveal_strlit("^");
        assert("/"@[0] != "^"@[0]);
    }
    assert(op_power("%"@) == 6) by {
        reveal_strlit("%");
        reveal_strlit(":=");
        assert("%"@.len() != ":="@.len());
        reveal_strlit("=");
        assert("%"@[0] != "="@[0]);
        reveal_strlit("&&");
        assert("%"@.len() != "&&"@.len());
        reveal_strlit("||");
        assert("%"@.len() != "||"@.len());
        reveal_strlit("==");
        assert("%"@.len() != "=="@.len());
        reveal_strlit("!=");
        assert("%"@.len() != "!="@.len());
        reveal_strlit("<");
        assert("%"@[0] != "<"@[0]);
        reveal_strlit("<=");
        assert("%"@.len() != "<="@.len());
        reveal_strlit(">");
        assert("%"@[0] != ">"@[0]);
        reveal_strlit(">=");
        assert("%"@.len() != ">="@.len());
        reveal_strlit("<=>");
        assert("%"@.len() != "<=>"@.len());
        reveal_strlit("+");
        assert("%"@[0] != "+"@[0]);
        reveal_strlit("-");
        assert("%"@[0] != "-"@[0]);
        reveal_strlit("|");
        assert("%"@[0] != "|"@[0]);
        reveal_strlit("^");
        assert("%"@[0] != "^"@[0]);
    }
    assert(op_power("<<"@) == 6) by {
        reveal_strlit("<<");
        reveal_strlit(":=");
        assert("<<"@[0] != ":="@[0]);
        reveal_strlit("=");
        assert("<<"@.len() != "="@.len());
        reveal_strlit("&&");
        assert("<<"@[0] != "&&"@[0]);
        reveal_strlit("||");
        assert("<<"@[0] != "||"@[0]);
        reveal_strlit("==");
        assert("<<"@[0] != "=="@[0]);
        reveal_strlit("!=");
        assert("<<"@[0] != "!="@[0]);
        reveal_strlit("<");
        assert("<<"@.len() != "<"@.len());
        reveal_strlit("<=");
        assert("<<"@[1] != "<="@[1]);
        reveal_strlit(">");
        assert("<<"@.len() != ">"@.len());
        reveal_strlit(">=");
        assert("<<"@[0] != ">="@[0]);
        reveal_strlit("<=>");
        assert("<<"@.len() != "<=>"@.len());
        reveal_strlit("+");
        assert("<<"@.len() != "+"@.len());
        reveal_strlit("-");
        assert("<<"@.len() != "-"@.len());
        reveal_strlit("|");
        assert("<<"@.len() != "|"@.len());
        reveal_strlit("^");
        assert("<<"@.len() != "^"@.len());
    }
    assert(op_power(">>"@) == 6) by {
        reveal_strlit(">>");
        reveal_strlit(":=");
        assert(">>"@[0] != ":="@[0]);
        reveal_strlit("=");
        assert(">>"@.len() != "="@.len());
        reveal_strlit("&&");
        assert(">>"@[0] != "&&"@[0]);
        reveal_strlit("||");
        assert(">>"@[0] != "||"@[0]);
        reveal_strlit("==");
        assert(">>"@[0] != "=="@[0]);
        reveal_strlit("!=");
        assert(">>"@[0] != "!="@[0]);
        reveal_strlit("<");
        assert(">>"@.len() != "<"@.len());
        reveal_strlit("<=");
        assert(">>"@[0] != "<="@[0]);
        reveal_strlit(">");
        assert(">>"@.len() != ">"@.len());
        reveal_strlit(">=");
        assert(">>"@[1] != ">="@[1]);
        reveal_strlit("<=>");
        assert(">>"@.len() != "<=>"@.len());
        reveal_strlit("+");
        assert(">>"@.len() != "+"@.len());
        reveal_strlit("-");
        assert(">>"@.len() != "-"@.len());
        reveal_strlit("|");
        assert(">>"@.len() != "|"@.len());
        reveal_strlit("^");
        assert(">>"@.len() != "^"@.len());
    }
    assert(op_power("&"@) == 6) by {
        reveal_strlit("&");
        reveal_strlit(":=");
        assert("&"@.len() != ":="@.len());
        reveal_strlit("=");
        assert("&"@[0] != "="@[0]);
        reveal_strlit("&&");
        assert("&"@.len() != "&&"@.len());
        reveal_strlit("||");
        assert("&"@.len() != "||"@.len());
        reveal_strlit("==");
        assert("&"@.len() != "=="@.len());
        reveal_strlit("!=");
        assert("&"@.len() != "!="@.len());
        reveal_strlit("<");
        assert("&"@[0] != "<"@[0]);
        reveal_strlit("<=");
        assert("&"@.len() != "<="@.len());
        reveal_strlit(">");
        assert("&"@[0] != ">"@[0]);
        reveal_strlit(">=");
        assert("&"@.len() != ">="@.len());
        reveal_strlit("<=>");
        assert("&"@.len() != "<=>"@.len());
        reveal_strlit("+");
        assert("&"@[0] != "+"@[0]);
        reveal_strlit("-");
        assert("&"@[0] != "-"@[0]);
        reveal_strlit("|");
        assert("&"@[0] != "|"@[0]);
        reveal_strlit("^");
        assert("&"@[0] != "^"@[0]);
    }
    assert(op_power(".."@) == 10) by {
        reveal_strlit("..");
        reveal_strlit(":=");
        assert(".."@[0] != ":="@[0]);
        reveal_strlit("=");
        assert(".."@.len() != "="@.len());
        reveal_strlit("&&");
        assert(".."@[0] != "&&"@[0]);
        reveal_strlit("||");
        assert(".."@[0] != "||"@[0]);
        reveal_strlit("==");
        assert(".."@[0] != "=="@[0]);
        reveal_strlit("!=");
        assert(".."@[0] != "!="@[0]);
        reveal_strlit("<");
        assert(".."@.len() != "<"@.len());
        reveal_strlit("<=");
        assert(".."@[0] != "<="@[0]);
        reveal_strlit(">");
        assert(".."@.len() != ">"@.len());
        reveal_strlit(">=");
        assert(".."@[0] != ">="@[0]);
        reveal_strlit("<=>");
        assert(".."@.len() != "<=>"@.len());
        reveal_strlit("+");
        assert(".."@.len() != "+"@.len());
        reveal_strlit("-");
        assert(".."@.len() != "-"@.len());
        reveal_strlit("|");
        assert(".."@.len() != "|"@.len());
        reveal_strlit("^");
        assert(".."@.len() != "^"@.len());
        reveal_strlit("*");
        assert(".."@.len() != "*"@.len());
        reveal_strlit("/");
        assert(".."@.len() != "/"@.len());
        reveal_strlit("%");
        assert(".."@.len() != "%"@.len());
        reveal_strlit("<<");
        assert(".."@[0] != "<<"@[0]);
        reveal_strlit(">>");
        assert(".."@[0] != ">>"@[0]);
        reveal_strlit("&");
        assert(".."@.len() != "&"@.len());
    }
    assert(op_power("..="@) == 10) by {
        reveal_strlit("..=");
        reveal_strlit(":=");
        assert("..="@.len() != ":="@.len());
        reveal_strlit("=");
        assert("..="@.len() != "="@.len());
        reveal_strlit("&&");
        assert("..="@.len() != "&&"@.len());
        reveal_strlit("||");
        assert("..="@.len() != "||"@.len());
        reveal_strlit("==");
        assert("..="@.len() != "=="@.len());
        reveal_strlit("!=");
        assert("..="@.len() != "!="@.len());
        reveal_strlit("<");
        assert("..="@.len() != "<"@.len());
        reveal_strlit("<=");
        assert("..="@.len() != "<="@.len());
        reveal_strlit(">");
        assert("..="@.len() != ">"@.len());
        reveal_strlit(">=");
        assert("..="@.len() != ">="@.len());
        reveal_strlit("<=>");
        assert("..="@[0] != "<=>"@[0]);
        reveal_strlit("+");
        assert("..="@.len() != "+"@.len());
        reveal_strlit("-");
        assert("..="@.len() != "-"@.len());
        reveal_strlit("|");
        assert("..="@.len() != "|"@.len());
        reveal_strlit("^");
        assert("..="@.len() != "^"@.len());
        reveal_strlit("*");
        assert("..="@.len() != "*"@.len());
        reveal_strlit("/");
        assert("..="@.len() != "/"@.len());
        reveal_strlit("%");
        assert("..="@.len() != "%"@.len());
        reveal_strlit("<<");
        assert("..="@.len() != "<<"@.len());
        reveal_strlit(">>");
        assert("..="@.len() != ">>"@.len());
        reveal_strlit("&");
        assert("..="@.len() != "&"@.len());
    }
    assert(op_power("."@) == 20) by {
        reveal_strlit(".");
        reveal_strlit(":=");
        assert("."@.len() != ":="@.len());
        reveal_strlit("=");
        assert("."@[0] != "="@[0]);
        reveal_strlit("&&");
        assert("."@.len() != "&&"@.len());
        reveal_strlit("||");
        assert("."@.len() != "||"@.len());
        reveal_strlit("==");
        assert("."@.len() != "=="@.len());
        reveal_strlit("!=");
        assert("."@.len() != "!="@.len());
        reveal_strlit("<");
        assert("."@[0] != "<"@[0]);
        reveal_strlit("<=");
        assert("."@.len() != "<="@.len());
        reveal_strlit(">");
        assert("."@[0] != ">"@[0]);
        reveal_strlit(">=");
        assert("."@.len() != ">="@.len());
        reveal_strlit("<=>");
        assert("."@.len() != "<=>"@.len());
        reveal_strlit("+");
        assert("."@[0] != "+"@[0]);
        reveal_strlit("-");
        assert("."@[0] != "-"@[0]);
        reveal_strlit("|");
        assert("."@[0] != "|"@[0]);
        reveal_strlit("^");
        assert("."@[0] != "^"@[0]);
        reveal_strlit("*");
        assert("."@[0] != "*"@[0]);
        reveal_strlit("/");
        assert("."@[0] != "/"@[0]);
        reveal_strlit("%");
        assert("."@[0] != "%"@[0]);
        reveal_strlit("<<");
        assert("."@.len() != "<<"@.len());
        reveal_strlit(">>");
        assert("."@.len() != ">>"@.len());
        reveal_strlit("&");
        assert("."@[0] != "&"@[0]);
        reveal_strlit("..");
        assert("."@.len() != ".."@.len());
        reveal_strlit("..=");
        assert("."@.len() != "..="@.len());
    }
}

/// The name of a kind of syntax, for error messages.
pub fn syntax_name(k: Syntax) -> (r: &'static str)
    ensures
        r@ == spec_syntax_name(k),
{
    match k {
        Syntax::Nil => "None",
        Syntax::Indent => "Indent",
        Syntax::Dedent => "Dedent",
        Syntax::Bool(_) => "Bool",
        Syntax::Number => "Number",
        Syntax::String(_) => "String",
        Syntax::Word => "Word",
        Syntax::JS => "JS",
        Syntax::Op => "Op",
        Syntax::Semi => "Semi",
        Syntax::Colon => "Colon",
        Syntax::Comma => "Comma",
        Syntax::LParen => "LParen",
        Syntax::RParen => "RParen",
        Syntax::LCurly => "LCurly",
        Syntax::RCurly => "RCurly",
        Syntax::LStaple => "LStaple",
        Syntax::RStaple => "RStaple",
        Syntax::LCaret => "LCaret",
        Syntax::RCaret => "RCaret",
        Syntax::Slash => "Slash",
        Syntax::Equal => "Equal",
        Syntax::Def => "Def",
        Syntax::Do => "Do",
        Syntax::Return => "Return",
        Syntax::If => "If",
        Syntax::Then => "Then",
        Syntax::Else => "Else",
        Syntax::For => "For",
        Syntax::While => "While",
        Syntax::In => "In",
        Syntax::Fn => "Fn",
    }
}

impl<'t> Parser<'t> {
    /// The parser's state is consistent.
    pub closed spec fn wf(&self) -> bool {
        &&& self.pos <= self.tokens@.len()
        &&& tokens_fit(self.tokens@, self.budget as nat)
    }

    /// `after` is this parser further along the same tokens, with the
    /// same statements kept.
    pub closed spec fn moved_to(&self, after: Parser<'t>) -> bool {
        &&& self.read_to(after)
        &&& after.ast == self.ast
    }

    /// `after` is this parser further along the same tokens.
    pub closed spec fn read_to(&self, after: Parser<'t>) -> bool {
        &&& after.wf()
        &&& after.tokens == self.tokens
        &&& after.budget == self.budget
        &&& after.pos >= self.pos
    }

    /// The position of the next token.
    pub closed spec fn spec_pos(&self) -> usize {
        self.pos
    }

    /// The tokens being parsed.
    pub closed spec fn spec_tokens(&self) -> Seq<Token> {
        self.tokens@
    }

    /// The statements parsed so far.
    pub closed spec fn spec_ast(&self) -> Seq<Stmt> {
        self.ast@
    }

    /// How many tokens are left.
    pub closed spec fn left(&self) -> int {
        self.tokens@.len() - self.pos
    }

    /// Every token has a kind and fits in the parser's limit on texts.
    pub closed spec fn spec_fits(&self) -> bool {
        tokens_fit(self.tokens@, self.budget as nat)
    }

    /// Create a `Parser` from a slice of `Token`.
    pub fn from(tokens: &'t [Token]) -> (r: Parser<'t>)
        ensures
            r.spec_pos() == 0,
            r.spec_tokens() == tokens@,
            r.spec_ast() == Seq::<Stmt>::empty(),
            r.spec_fits() == forall|i: int| 0 <= i < tokens@.len() ==> !((#[trigger] tokens@[i]).kind is Nil),
    {
        let budget = longest(tokens);
        let r = Parser { tokens, ast: Vec::new(), tags: 0, pos: 0, budget };
        assert(r.ast@ == Seq::<Stmt>::empty());
        r
    }

    /// The statements parsed so far.
    pub fn ast(&self) -> (r: &Vec<Stmt>)
        ensures
            r@ == self.spec_ast(),
    {
        &self.ast
    }

    /// Parse `tokens` into statements, kept in `ast`.
    pub fn parse(&mut self) -> (r: Result<()>)
        ensures
            final(self).spec_tokens() == old(self).spec_tokens(),
            r matches Err(e) ==> failed_compiling(e),
            old(self).spec_pos() > old(self).spec_tokens().len() || !old(self).spec_fits() ==> r is Err,
            old(self).spec_pos() == old(self).spec_tokens().len() && old(self).spec_fits() ==> r is Ok
                && final(self).spec_ast() == old(self).spec_ast(),
            old(self).spec_fits() && simple_stmts(old(self).spec_tokens(), old(self).spec_pos() as int) ==> r is Ok,
            old(self).spec_fits() && one_chain(old(self).spec_tokens(), old(self).spec_pos() as int) ==> r is Ok,
            r is Ok ==> final(self).spec_pos() >= final(self).spec_tokens().len(),
            r is Ok ==> final(self).spec_ast().len() >= old(self).spec_ast().len() && final(self).spec_ast().take(
                old(self).spec_ast().len() as int,
            ) == old(self).spec_ast(),
            r is Ok ==> exists|starts: Seq<int>|
                #[trigger] parsed_from(
                    old(self).spec_tokens(),
                    old(self).spec_pos() as int,
                    starts,
                    final(self).spec_ast().skip(old(self).spec_ast().len() as int),
                ),
    {
        if self.pos > self.tokens.len() || !tokens_ok(self.tokens, self.budget) {
            return Err(Error::new(ErrorKind::ParseError, string_of("expected a token, got Nil"), 0, 0));
        }
        let ghost before = *self;
        let r = self.parse_all();
        proof {
            if r is Ok {
                let starts = choose|starts: Seq<int>|
                    #[trigger] parsed_from(
                        before.tokens@,
                        before.pos as int,
                        starts,
                        self.ast@.skip(before.ast@.len() as int),
                    );
                assert(parsed_from(
                    old(self).spec_tokens(),
                    old(self).spec_pos() as int,
                    starts,
                    final(self).spec_ast().skip(old(self).spec_ast().len() as int),
                ));
            }
        }
        r
    }

    /// Parse every statement into `ast`.
    fn parse_all(&mut self) -> (r: Result<()>)
        requires
            old(self).wf(),
        ensures
            old(self).read_to(*final(self)),
            r matches Err(e) ==> failed_compiling(e),
            r is Ok ==> final(self).pos >= final(self).tokens@.len(),
            r is Ok ==> final(self).ast@.len() >= old(self).ast@.len() && final(self).ast@.take(
                old(self).ast@.len() as int,
            ) == old(self).ast@,
            r is Ok ==> exists|starts: Seq<int>|
                #[trigger] parsed_from(
                    old(self).tokens@,
                    old(self).pos as int,
                    starts,
                    final(self).ast@.skip(old(self).ast@.len() as int),
                ),
            old(self).pos >= old(self).tokens@.len() ==> r is Ok && *final(self) == *old(self),
            old(self).pos < old(self).tokens@.len() && r is Ok ==> final(self).ast@.len() > old(self).ast@.len(),
            simple_stmts(old(self).tokens@, old(self).pos as int) ==> r is Ok && simple_parsed(
                old(self).tokens@,
                old(self).pos as int,
                final(self).ast@.skip(old(self).ast@.len() as int),
            ),
            old(self).tags == 0 && closing_at(old(self).tokens@, old(self).pos as int) ==> r is Err,
            tag_word_at(old(self).tokens@, old(self).pos as int) && old(self).pos + 5 == old(self).tokens@.len() ==> r is Ok
                && final(self).ast@.len() == old(self).ast@.len() + 1 && tag_word_shape(
                old(self).tokens@,
                old(self).pos as int,
                final(self).ast@.last(),
            ),
            one_chain(old(self).tokens@, old(self).pos as int) ==> r is Ok && final(self).ast@.len() == old(
                self,
            ).ast@.len() + 1,
            assign_at(old(self).tokens@, old(self).pos as int) && old(self).pos + 4 == old(self).tokens@.len() ==> r is Ok
                && final(self).ast@.len() == old(self).ast@.len() + 1 && assign_shape(
                old(self).tokens@,
                old(self).pos as int,
                final(self).ast@.last(),
            ),
        decreases 2 * old(self).budget, old(self).left(), 30nat,
    {
        let ghost mut starts: Seq<int> = Seq::empty();
        let ghost n0 = self.ast@.len();
        let ghost sim = simple_stmts(old(self).tokens@, old(self).pos as int);
        let ghost oc = one_chain(old(self).tokens@, old(self).pos as int);
        let ghost oa = assign_at(old(self).tokens@, old(self).pos as int) && old(self).pos + 4 == old(self).tokens@.len();
        let ghost cl = old(self).tags == 0 && closing_at(old(self).tokens@, old(self).pos as int);
        while !self.peek_eof()
            invariant
                cl == (old(self).tags == 0 && closing_at(old(self).tokens@, old(self).pos as int)),
                cl ==> self.pos == old(self).pos && self.tags == old(self).tags,
                tag_word_at(old(self).tokens@, old(self).pos as int) && old(self).pos + 5 == old(self).tokens@.len() ==> self.pos
                    == old(self).pos && self.ast@.len() == n0 || self.pos >= self.tokens@.len() && self.ast@.len() == n0
                    + 1 && tag_word_shape(old(self).tokens@, old(self).pos as int, self.ast@.last()),
                oa == (assign_at(old(self).tokens@, old(self).pos as int) && old(self).pos + 4
                    == old(self).tokens@.len()),
                oa ==> self.pos == old(self).pos && self.ast@.len() == n0 || self.pos >= self.tokens@.len()
                    && self.ast@.len() == n0 + 1 && assign_shape(old(self).tokens@, old(self).pos as int, self.ast@.last()),
                oc == one_chain(old(self).tokens@, old(self).pos as int),
                oc ==> self.pos == old(self).pos && self.ast@.len() == n0 || self.pos >= self.tokens@.len()
                    && self.ast@.len() == n0 + 1,
                sim == simple_stmts(old(self).tokens@, old(self).pos as int),
                sim ==> simple_stmts(self.tokens@, self.pos as int),
                sim ==> self.pos == old(self).pos + (self.ast@.len() - n0) + (self.ast@.len() - n0),
                sim ==> forall|i: int|
                    0 <= i < self.ast@.len() - n0 ==> atom_shape(
                        old(self).tokens@,
                        old(self).pos + i + i,
                        #[trigger] self.ast@[n0 + i],
                    ),
                old(self).pos >= old(self).tokens@.len() ==> *self == *old(self),
                old(self).read_to(*self),
                n0 == old(self).ast@.len(),
                self.ast@.len() >= n0,
                self.ast@.take(n0 as int) == old(self).ast@,
                parsed_from(old(self).tokens@, old(self).pos as int, starts, self.ast@.skip(n0 as int)),
                starts.len() > 0 ==> starts.last() < self.pos,
                starts.len() == 0 ==> self.pos == old(self).pos,
            decreases self.left(),
        {
            let ghost at = self.pos as int;
            let ghost prev_ast = self.ast@;
            proof {
                if sim {
                    assert(simple_token(self.tokens@[at]));
                    assert(self.tokens@[at + 1].kind is Semi);
                }
            }
            let stmt = self.stmt()?;
            self.ast.push(stmt);
            proof {
                let prev = starts;
                starts = starts.push(at);
                assert(self.ast@.skip(n0 as int) =~= prev_ast.skip(n0 as int).push(stmt));
                assert(self.ast@.take(n0 as int) =~= prev_ast.take(n0 as int));
            }
            self.eat(Syntax::Semi);
            proof {
                if sim {
                    assert(self.tokens@[at + 1].kind is Semi);
                    assert(self.pos >= at + 2);
                    if at + 2 < self.tokens@.len() {
                        assert(simple_token(self.tokens@[at + 2]));
                        assert(self.pos == at + 2);
                    }
                    assert(self.ast@[self.ast@.len() - 1] == stmt);
                    assert forall|i: int| self.pos <= i < self.tokens@.len() implies if (i - self.pos) % 2 == 0 {
                        simple_token(#[trigger] self.tokens@[i])
                    } else {
                        self.tokens@[i].kind is Semi
                    } by {
                        assert((i - self.pos) % 2 == (i - at) % 2);
                    }
                }
            }
        }
        proof {
            if sim {
                let rest = self.ast@.skip(n0 as int);
                assert forall|i: int| 0 <= i < rest.len() implies atom_shape(
                    old(self).tokens@,
                    old(self).pos as int + i + i,
                    #[trigger] rest[i],
                ) by {
                    assert(rest[i] == self.ast@[n0 + i]);
                }
            }
        }
        Ok(())
    }

    /// Peek at next `Token`.
    fn peek(&self) -> (r: Option<&Token>)
        requires
            self.wf(),
        ensures
            self.pos < self.tokens@.len() ==> r == Some(&self.tokens@[self.pos as int]),
            self.pos >= self.tokens@.len() ==> r is None,
    {
        if self.pos < self.tokens.len() {
            Some(&self.tokens[self.pos])
        } else {
            None
        }
    }

    /// Peek two ahead.
    fn peek2(&self) -> (r: Option<&Token>)
        requires
            self.wf(),
        ensures
            self.pos + 1 < self.tokens@.len() ==> r == Some(&self.tokens@[self.pos + 1]),
            self.pos + 1 >= self.tokens@.len() ==> r is None,
    {
        let n = self.tokens.len();
        if self.pos < n && self.pos + 1 < n {
            Some(&self.tokens[self.pos + 1])
        } else {
            None
        }
    }

    /// The kind of the next token, `Nil` at the end.
    pub closed spec fn spec_peek_kind(&self) -> Syntax {
        if self.pos < self.tokens@.len() {
            self.tokens@[self.pos as int].kind
        } else {
            Syntax::Nil
        }
    }

    /// Get the next token's kind.
    fn peek_kind(&self) -> (r: Syntax)
        requires
            self.wf(),
        ensures
            r == self.spec_peek_kind(),
    {
        match self.peek() {
            Some(t) => t.kind,
            None => Syntax::Nil,
        }
    }

    /// Check the next token's kind.
    fn peek_is(&self, kind: Syntax) -> (r: bool)
        requires
            self.wf(),
        ensures
            r == (self.spec_peek_kind() == kind),
    {
        self.peek_kind() == kind
    }

    /// Check kind of the token after peek().
    fn peek2_is(&self, kind: Syntax) -> (r: bool)
        requires
            self.wf(),
        ensures
            r == (self.pos + 1 < self.tokens@.len() && self.tokens@[self.pos + 1].kind == kind),
    {
        match self.peek2() {
            Some(t) => t.kind == kind,
            None => false,
        }
    }

    /// Will self.next() deliver EOF?
    fn peek_eof(&self) -> (r: bool)
        requires
            self.wf(),
        ensures
            r == (self.pos >= self.tokens@.len()),
    {
        self.pos >= self.tokens.len()
    }

    /// Advance iterator and return next `Token`.
    fn next(&mut self) -> (r: Token)
        requires
            old(self).wf(),
            old(self).pos < old(self).tokens@.len(),
        ensures
            old(self).moved_to(*final(self)),
            final(self).pos == old(self).pos + 1,
            final(self).tags == old(self).tags,
            final(self).ast == old(self).ast,
            r == old(self).tokens@[old(self).pos as int],
    {
        let t = self.tokens[self.pos].clone();
        self.pos = self.pos + 1;
        t
    }

    /// Skip one token.
    fn skip(&mut self)
        requires
            old(self).wf(),
            old(self).pos < old(self).tokens@.len(),
        ensures
            old(self).moved_to(*final(self)),
            final(self).pos == old(self).pos + 1,
            final(self).tags == old(self).tags,
            final(self).ast == old(self).ast,
    {
        let n = self.tokens.len();
        self.pos = self.pos + 1;
    }

    /// Skip all tokens of `kind`.
    fn eat(&mut self, kind: Syntax)
        requires
            old(self).wf(),
            !(kind is Nil),
        ensures
            old(self).moved_to(*final(self)),
            final(self).tags == old(self).tags,
            final(self).ast == old(self).ast,
            forall|i: int| old(self).pos <= i < final(self).pos ==> (#[trigger] final(self).tokens@[i]).kind == kind,
            final(self).spec_peek_kind() != kind,
    {
        while self.peek_is(kind)
            invariant
                old(self).moved_to(*self),
                forall|i: int| old(self).pos <= i < self.pos ==> (#[trigger] self.tokens@[i]).kind == kind,
                !(kind is Nil),
                self.tags == old(self).tags,
                self.ast == old(self).ast,
            decreases self.left(),
        {
            self.skip();
        }
    }

    /// The parse error for the next token, which it consumes.
    fn error(&mut self, msg: &str) -> (e: Error)
        requires
            old(self).wf(),
        ensures
            old(self).moved_to(*final(self)),
            final(self).tags == old(self).tags,
            final(self).ast == old(self).ast,
            e.kind is ParseError,
            old(self).pos < old(self).tokens@.len() ==> {
                let got = old(self).tokens@[old(self).pos as int];
                &&& e.details@ == "expected "@ + msg@ + ", got "@ + spec_syntax_name(got.kind)
                &&& e.pos == got.pos
                &&& e.len == got.len
            },
            old(self).pos >= old(self).tokens@.len() ==> e.details@ == "expected "@ + msg@
                + ", got EOF"@ && e.pos == 0 && e.len == 0,
    {
        let mut details = string_of("expected ");
        push_str(&mut details, msg);
        if self.pos < self.tokens.len() {
            let got = self.next();
            push_str(&mut details, ", got ");
            push_str(&mut details, syntax_name(got.kind));
            Error::new(ErrorKind::ParseError, details, got.pos, got.len)
        } else {
            push_str(&mut details, ", got EOF");
            Error::new(ErrorKind::ParseError, details, 0, 0)
        }
    }

    /// Consumes and returns the next token if it's of `kind`,
    /// otherwise errors.
    fn expect(&mut self, kind: Syntax) -> (r: Result<Token>)
        requires
            old(self).wf(),
        ensures
            old(self).moved_to(*final(self)),
            final(self).tags == old(self).tags,
            r is Ok ==> final(self).pos == old(self).pos + 1,
            r matches Ok(t) ==> t.kind == kind && old(self).spec_peek_kind() == kind
                && t == old(self).tokens@[old(self).pos as int],
            r is Ok <==> old(self).spec_peek_kind() == kind && old(self).pos < old(self).tokens@.len(),
            r matches Err(e) ==> e.kind is ParseError,
    {
        if self.pos < self.tokens.len() && self.peek_kind() == kind {
            Ok(self.next())
        } else {
            Err(self.error(syntax_name(kind)))
        }
    }

    /// Parse a bool.
    fn boolean(&mut self) -> (r: Result<Stmt>)
        requires
            old(self).wf(),
            old(self).pos < old(self).tokens@.len(),
        ensures
            old(self).moved_to(*final(self)),
            final(self).pos > old(self).pos,
            final(self).tags == old(self).tags,
            r matches Ok(s) ==> old(self).tokens@[old(self).pos as int].kind matches Syntax::Bool(b)
                && s == Stmt::Value(Value::Bool(b)),
            r is Ok <==> old(self).tokens@[old(self).pos as int].kind is Bool,
            r is Ok ==> final(self).pos == old(self).pos + 1,
            r matches Err(e) ==> e.kind is ParseError,
    {
        match self.next().kind {
            Syntax::Bool(b) => Ok(Stmt::Value(Value::Bool(b))),
            _ => Err(self.error("boolean")),
        }
    }

    /// Parse a number.
    fn number(&mut self) -> (r: Result<Stmt>)
        requires
            old(self).wf(),
        ensures
            old(self).moved_to(*final(self)),
            r is Ok ==> final(self).pos > old(self).pos,
            final(self).tags == old(self).tags,
            r matches Ok(s) ==> s matches Stmt::Value(Value::Number(n))
                && crate::token::number_units(old(self).tokens@[old(self).pos as int].spec_literal())
                == Some(n.units()),
            old(self).spec_peek_kind() is Number && crate::token::number_units(
                old(self).tokens@[old(self).pos as int].spec_literal(),
            ) is Some ==> r is Ok && final(self).pos == old(self).pos + 1,
            r matches Err(e) ==> e.kind is ParseError,
    {
        let t = self.expect(Syntax::Number)?;
        let n = t.to_number()?;
        Ok(Stmt::Value(Value::Number(n)))
    }

    /// Parse a word.
    fn word(&mut self) -> (r: Result<Stmt>)
        requires
            old(self).wf(),
        ensures
            old(self).moved_to(*final(self)),
            r is Ok ==> final(self).pos > old(self).pos,
            final(self).tags == old(self).tags,
            r matches Ok(s) ==> s matches Stmt::Word(w) && w@ == old(self).tokens@[old(self).pos as int].spec_literal(),
            r is Ok <==> old(self).spec_peek_kind() is Word,
            r is Ok ==> final(self).pos == old(self).pos + 1,
            r matches Err(e) ==> e.kind is ParseError,
    {
        let word = self.expect(Syntax::Word)?;
        Ok(Stmt::Word(word.to_sym()))
    }

    /// Parse a string, which may be interpolated: `"sum: {1 + 2}"`.
    fn string(&mut self) -> (r: Result<Stmt>)
        requires
            old(self).wf(),
        ensures
            old(self).moved_to(*final(self)),
            r is Ok ==> final(self).pos > old(self).pos,
            final(self).tags == old(self).tags,
            r matches Err(e) ==> failed_compiling(e),
            r matches Ok(s) ==> ((old(self).spec_peek_kind() matches Syntax::String(i) && (!i
                || !old(self).tokens@[old(self).pos as int].spec_literal().contains('{'))) ==> (s
                matches Stmt::Value(Value::String(x)) && x@ == old(self).tokens@[old(
                self,
            ).pos as int].spec_literal())),
        decreases 2 * old(self).budget, old(self).left(), 2nat,
    {
        if self.peek_eof() {
            return Err(self.error("String"));
        }
        let tok = self.next();
        let is_interpolated = match tok.kind {
            Syntax::String(is) => is,
            Syntax::Word => true,
            _ => return Err(self.error("String")),
        };
        let lit = str_to_chars(tok.literal());
        let n = lit.len();
        proof {
            assert(tokens_fit(self.tokens@, self.budget as nat));
            assert(self.tokens@[old(self).pos as int] == tok);
            assert(lit@.len() <= self.budget);
        }
        if !is_interpolated || !has_curly(&lit) {
            let text = chars_to_string(lit.as_slice(), 0, n);
            assert(text@ == tok.spec_literal());
            return Ok(text_stmt(text));
        }
        let mut parts: Vec<Stmt> = Vec::new();
        let mut idx: usize = 0;
        while idx < n
            invariant
                idx <= n + 1,
                n == lit@.len(),
                n <= old(self).budget,
                old(self).moved_to(*self),
                self.pos > old(self).pos,
                self.tags == old(self).tags,
            decreases n + 1 - idx,
        {
            let i = match find_char(&lit, idx, '{') {
                Some(i) => i,
                None => break,
            };
            // check for escaped \{
            if i > idx && lit[i - 1] == '\\' {
                parts.push(text_stmt(chars_to_string(lit.as_slice(), idx, i - 1)));
                parts.push(text_stmt(chars_to_string(lit.as_slice(), i, i + 1)));
                idx = i + 1;
                continue;
            }
            if i > idx {
                parts.push(text_stmt(chars_to_string(lit.as_slice(), idx, i)));
            }
            idx = i + 1;
            let end = match find_char(&lit, idx, '}') {
                Some(e) => e,
                None => idx,
            };
            let inner = chars_to_string(lit.as_slice(), idx, end);
            proof {
                assert(inner@.len() < old(self).budget);
            }
            let mut exprs = match compile_inner(inner.as_str()) {
                Ok(x) => x,
                Err(e) => {
                    let mut e = e;
                    let shift = tok.pos as u128 + idx as u128;
                    let moved = e.pos as u128 + shift;
                    if moved >= 1 && moved - 1 <= usize::MAX as u128 {
                        e.pos = (moved - 1) as usize;
                    }
                    return Err(e);
                },
            };
            parts.append(&mut exprs);
            if end < n {
                idx = end + 1;
            } else {
                idx = n;
                break;
            }
        }
        if idx < n {
            parts.push(text_stmt(chars_to_string(lit.as_slice(), idx, n)));
        }
        if parts.len() == 1 {
            Ok(parts.remove(0))
        } else {
            Ok(call("concat", parts))
        }
    }

    /// Parse a function literal.
    fn fn_literal(&mut self) -> (r: Result<Stmt>)
        requires
            old(self).wf(),
        ensures
            old(self).moved_to(*final(self)),
            r is Ok ==> final(self).pos > old(self).pos,
            r matches Err(e) ==> failed_compiling(e),
            r matches Ok(s) ==> s is Fn,
        decreases 2 * old(self).budget, old(self).left(), 5nat,
    {
        self.expect(Syntax::Fn)?;
        let mut args: Vec<Symbol> = Vec::new();
        if self.peek_is(Syntax::LParen) {
            self.skip();
            while !self.peek_is(Syntax::RParen)
                invariant
                    old(self).moved_to(*self),
                    self.pos > old(self).pos,
                decreases self.left(),
            {
                args.push(self.expect(Syntax::Word)?.to_sym());
                if self.peek_is(Syntax::Comma) {
                    self.skip();
                } else {
                    break;
                }
            }
            self.expect(Syntax::RParen)?;
        }
        // `do` is optional when writing single-line function literals
        let k = self.peek_kind();
        let block = if k == Syntax::Indent || k == Syntax::Do {
            self.block()?
        } else {
            let s = self.stmt()?;
            let mut v: Vec<Stmt> = Vec::new();
            v.push(s);
            v
        };
        Ok(Stmt::Fn(args, Rc::new(block)))
    }

    /// Parse a code expression.
    fn expr(&mut self) -> (r: Result<Stmt>)
        requires
            old(self).wf(),
        ensures
            old(self).moved_to(*final(self)),
            r is Ok ==> final(self).pos > old(self).pos,
            r matches Err(e) ==> failed_compiling(e),
            r matches Ok(s) ==> expr_shape(
                old(self).tokens@,
                old(self).pos as int,
                s,
            ),
            r matches Ok(s) ==> grouped(old(self).tokens@, old(self).pos as int, s, 1),
            r matches Ok(s) ==> spans(old(self).tokens@, old(self).pos as int, final(self).pos as int, s, 1),
            r is Ok ==> stops_before(final(self).tokens@, final(self).pos as int, 0),
            simple_at(old(self).tokens@, old(self).pos as int) && !continues_at(old(self).tokens@, old(self).pos + 1)
                ==> (r matches Ok(s) && atom_shape(old(self).tokens@, old(self).pos as int, s)) && final(self).pos
                == old(self).pos + 1 && final(self).tags == old(self).tags,
            chain_at(old(self).tokens@, old(self).pos as int) ==> r is Ok && final(self).pos < final(self).tokens@.len()
                && final(self).tokens@[final(self).pos as int].kind is Semi,
            assign_at(old(self).tokens@, old(self).pos as int) ==> (r matches Ok(s) && assign_shape(
                old(self).tokens@,
                old(self).pos as int,
                s,
            )) && final(self).pos == old(self).pos + 3,
            old(self).tags == 0 && closing_at(old(self).tokens@, old(self).pos as int) ==> r is Err,
            tag_word_at(old(self).tokens@, old(self).pos as int) ==> (r matches Ok(s) && tag_word_shape(
                old(self).tokens@,
                old(self).pos as int,
                s,
            )) && final(self).pos == old(self).pos + 4,
        decreases 2 * old(self).budget, old(self).left(), 8nat,
    {
        self.op_expr(0)
    }

    /// Parse expression w/ operators, by precedence climbing.
    fn op_expr(&mut self, min_power: u8) -> (r: Result<Stmt>)
        requires
            old(self).wf(),
        ensures
            old(self).moved_to(*final(self)),
            r is Ok ==> final(self).pos > old(self).pos,
            r matches Err(e) ==> failed_compiling(e),
            r matches Ok(s) ==> expr_shape(
                old(self).tokens@,
                old(self).pos as int,
                s,
            ),
            r matches Ok(s) ==> grouped(old(self).tokens@, old(self).pos as int, s, min_power + 1),
            r matches Ok(s) ==> spans(old(self).tokens@, old(self).pos as int, final(self).pos as int, s, min_power + 1),
            r is Ok ==> stops_before(final(self).tokens@, final(self).pos as int, min_power as int),
            simple_at(old(self).tokens@, old(self).pos as int) && !continues_at(old(self).tokens@, old(self).pos + 1)
                ==> (r matches Ok(s) && atom_shape(old(self).tokens@, old(self).pos as int, s)) && final(self).pos
                == old(self).pos + 1 && final(self).tags == old(self).tags,
            chain_at(old(self).tokens@, old(self).pos as int) ==> r is Ok && chain_rest(
                final(self).tokens@,
                final(self).pos as int,
            ),
            min_power == 0 && assign_at(old(self).tokens@, old(self).pos as int) ==> (r matches Ok(s) && assign_shape(
                old(self).tokens@,
                old(self).pos as int,
                s,
            )) && final(self).pos == old(self).pos + 3,
            old(self).tags == 0 && closing_at(old(self).tokens@, old(self).pos as int) ==> r is Err,
            tag_word_at(old(self).tokens@, old(self).pos as int) ==> (r matches Ok(s) && tag_word_shape(
                old(self).tokens@,
                old(self).pos as int,
                s,
            )) && final(self).pos == old(self).pos + 4,
        decreases 2 * old(self).budget, old(self).left(), 7nat,
    {
        // check for unary
        if self.peek_is(Syntax::Op) {
            let op = self.next().to_sym();
            let arg = self.op_expr(min_power)?;
            let mut args: Vec<Stmt> = Vec::new();
            args.push(arg);
            return Ok(Stmt::Call(Box::new(Stmt::Word(op)), args));
        }

        let mut left = self.atom()?;
        let ghost a0 = left;
        let ghost mut cap: int = 256;
        let ghost lo = old(self).pos as int;
        let ghost toks = old(self).tokens@;
        let ghost ch = chain_at(toks, lo);
        let ghost asg = min_power == 0 && assign_at(toks, lo);
        assert(!(old(self).tags == 0 && closing_at(toks, lo)));

        while self.peek_continues()
            invariant
                old(self).moved_to(*self),
                self.pos > old(self).pos,
                !(old(self).spec_peek_kind() is Op),
                expr_shape(
                    old(self).tokens@,
                    old(self).pos as int,
                    left,
                ),
                lo == old(self).pos as int,
                toks == old(self).tokens@,
                cap >= min_power + 1,
                grouped(toks, lo, left, cap),
                spans(toks, lo, self.pos as int, left, cap),
                stops_before(self.tokens@, self.pos as int, cap),
                simple_at(old(self).tokens@, old(self).pos as int) && !continues_at(old(self).tokens@, old(self).pos + 1)
                    ==> self.pos == old(self).pos + 1 && left == a0 && self.tags == old(self).tags,
                atom_shape(old(self).tokens@, old(self).pos as int, a0),
                ch == chain_at(toks, lo),
                ch ==> chain_rest(toks, self.pos as int),
                asg == (min_power == 0 && assign_at(toks, lo)),
                !(old(self).tags == 0 && closing_at(toks, lo)),
                asg ==> self.pos == lo + 1 && atom_shape(toks, lo, left),
                tag_word_at(toks, lo) ==> self.pos == lo + 4 && tag_word_shape(toks, lo, left),
            ensures
                tag_word_at(toks, lo) ==> self.pos == lo + 4 && tag_word_shape(toks, lo, left),
                ch ==> chain_rest(toks, self.pos as int),
                !asg,
                old(self).moved_to(*self),
                expr_shape(
                    old(self).tokens@,
                    old(self).pos as int,
                    left,
                ),
                grouped(toks, lo, left, min_power + 1),
                spans(toks, lo, self.pos as int, left, min_power + 1),
                stops_before(self.tokens@, self.pos as int, min_power as int),
                simple_at(old(self).tokens@, old(self).pos as int) && !continues_at(old(self).tokens@, old(self).pos + 1)
                    ==> self.pos == old(self).pos + 1 && atom_shape(old(self).tokens@, old(self).pos as int, left)
                    && self.tags == old(self).tags,
            decreases self.left(),
        {
            proof {
                lemma_grouped_looser(toks, lo, left, cap, min_power + 1);
                lemma_spans_looser(toks, lo, self.pos as int, left, cap, min_power + 1);
            }
            let ghost at = self.pos as int;
            if let Some(power) = self.peek_postfix_power() {
                if power < min_power {
                    break;
                }
                let open = self.next();
                if open.kind == Syntax::LParen {
                    let args = self.args()?;
                    proof {
                        lemma_grouped_looser(toks, lo, left, cap, 0);
                        lemma_spans_looser(toks, lo, at, left, cap, 0);
                    }
                    let ghost l0 = left;
                    left = Stmt::Call(Box::new(left), args);
                    proof {
                        cap = 256;
                        assert(grouped(toks, lo, left, cap));
                        assert(spans(toks, lo, at, l0, 0));
                        assert(lo < at < self.pos);
                        assert(left->Call_0 == l0);
                        assert(kind_at(toks, at) is LParen);
                        assert(spans(toks, lo, self.pos as int, left, cap));
                    }
                    continue;
                } else {
                    let index = self.expr()?;
                    let mut args: Vec<Stmt> = Vec::new();
                    proof {
                        lemma_grouped_looser(toks, lo, left, cap, 0);
                        lemma_spans_looser(toks, lo, at, left, cap, 0);
                    }
                    let ghost l0 = left;
                    args.push(left);
                    args.push(index);
                    left = call("index", args);
                    self.expect(Syntax::RStaple)?;
                    proof {
                        cap = 256;
                        assert(left->Call_1@[0] == l0);
                        assert(grouped(toks, lo, left, cap));
                        assert(spans(toks, lo, at, l0, 0));
                        assert(kind_at(toks, at) is LStaple);
                        assert(spans(toks, lo, self.pos as int, left, cap));
                    }
                    continue;
                }
            }
            let op_power = self.peek_op_power();
            if op_power <= min_power {
                break;
            }
            let op = self.next().to_sym();
            if op.is(":=") || op.is("=") {
                let reassign = op.is("=");
                match left {
                    Stmt::Word(name) => {
                        let val = self.expr()?;
                        proof {
                            lemma_stops_nowhere(self.tokens@, self.pos as int, min_power as int);
                            assert(op_token_at(toks, lo, at, toks[at].spec_literal()));
                            assert(assign_op(toks[at].spec_literal()));
                        }
                        return Ok(Stmt::Assign(name, Box::new(val), reassign));
                    },
                    Stmt::Call(ex, args) => {
                        if ex.to_str_is("index") || ex.to_str_is(".") {
                            let mut args = args;
                            let val = self.expr()?;
                            args.push(val);
                            proof {
                                lemma_stops_nowhere(self.tokens@, self.pos as int, min_power as int);
                                assert(op_token_at(toks, lo, at, toks[at].spec_literal()));
                                assert(assign_op(toks[at].spec_literal()));
                            }
                            return Ok(call("set_index", args));
                        } else {
                            return Err(self.error("Word or index"));
                        }
                    },
                    _ => return Err(self.error("Word")),
                }
            }
            // convert word to str, ex: map.key => .(map, "key")
            if op.is(".") && self.peek_is(Syntax::Word) {
                match self.op_expr(op_power)? {
                    Stmt::Word(word) => {
                        let mut args: Vec<Stmt> = Vec::new();
                        let ghost l0 = left;
                        proof {
                            lemma_grouped_looser(toks, lo, left, cap, op_power as int);
                            lemma_spans_looser(toks, lo, at, left, cap, op_power as int);
                        }
                        args.push(left);
                        args.push(Stmt::Value(Value::String(word.to_string())));
                        left = Stmt::Call(Box::new(Stmt::Word(op)), args);
                        proof {
                            assert(op_token_at(toks, lo, at, op@));
                            assert(left->Call_1@[0] == l0);
                            cap = op_power as int;
                            assert(grouped(toks, lo, left, cap));
                            assert(spans(toks, lo, self.pos as int, left, cap));
                        }
                        continue;
                    },
                    _ => return Err(self.error("Word")),
                }
            }
            // check for += and friends
            if !op.is("==") && !op.is("!=") && !op.is(">=") && !op.is("<=") && !op.is("..=")
                && ends_with_equal(op.to_str()) {
                let name = Symbol::from(left.to_str());
                let val = self.expr()?;
                let mut args: Vec<Stmt> = Vec::new();
                args.push(left);
                args.push(val);
                let f = Stmt::Word(Symbol::from_string(trim_equals(op.to_str())));
                proof {
                    lemma_stops_nowhere(self.tokens@, self.pos as int, min_power as int);
                    assert(op_token_at(toks, lo, at, toks[at].spec_literal()));
                    assert(assign_op(toks[at].spec_literal()));
                }
                return Ok(Stmt::Assign(name, Box::new(Stmt::Call(Box::new(f), args)), true));
            }
            let right = self.op_expr(op_power)?;
            let mut args: Vec<Stmt> = Vec::new();
            let ghost l0 = left;
            proof {
                lemma_grouped_looser(toks, lo, left, cap, op_power as int);
                lemma_spans_looser(toks, lo, at, left, cap, op_power as int);
            }
            args.push(left);
            args.push(right);
            left = Stmt::Call(Box::new(Stmt::Word(op)), args);
            proof {
                assert(op_token_at(toks, lo, at, op@));
                assert(left->Call_1@[0] == l0);
                assert(left->Call_1@[1] == right);
                cap = op_power as int;
                assert(grouped(toks, lo, left, cap));
                assert(spans(toks, lo, self.pos as int, left, cap));
            }
        }
        Ok(left)
    }

    /// Parse an indivisible unit, as the Ancient Greeks would say.
    fn atom(&mut self) -> (r: Result<Stmt>)
        requires
            old(self).wf(),
        ensures
            old(self).moved_to(*final(self)),
            r is Ok ==> final(self).pos > old(self).pos,
            r matches Err(e) ==> failed_compiling(e),
            r matches Ok(s) ==> atom_shape(
                old(self).tokens@,
                old(self).pos as int,
                s,
            ),
            simple_at(old(self).tokens@, old(self).pos as int) ==> r is Ok && final(self).pos == old(self).pos + 1
                && final(self).tags == old(self).tags,
            old(self).tags == 0 && closing_at(old(self).tokens@, old(self).pos as int) ==> r is Err,
            tag_word_at(old(self).tokens@, old(self).pos as int) ==> (r matches Ok(s) && tag_word_shape(
                old(self).tokens@,
                old(self).pos as int,
                s,
            )) && final(self).pos == old(self).pos + 4,
        decreases 2 * old(self).budget, old(self).left(), 6nat,
    {
        let k = self.peek_kind();
        match k {
            Syntax::Bool(_) => self.boolean(),
            Syntax::Number => self.number(),
            Syntax::String(_) => self.string(),
            Syntax::Word => self.word(),
            Syntax::LCaret => self.tag(),
            Syntax::Fn => self.fn_literal(),
            Syntax::LParen => {
                self.skip();
                let expr = self.expr()?;
                self.expect(Syntax::RParen)?;
                Ok(expr)
            },
            Syntax::LStaple => {
                self.skip();
                self.eat(Syntax::Semi);
                let mut list: Vec<Stmt> = Vec::new();
                while !self.peek_eof() && !self.peek_is(Syntax::RStaple)
                    invariant
                        old(self).moved_to(*self),
                        self.pos > old(self).pos,
                        !simple_at(old(self).tokens@, old(self).pos as int),
                        !tag_word_at(old(self).tokens@, old(self).pos as int),
                    decreases self.left(),
                {
                    self.eat(Syntax::Semi);
                    if self.peek_is(Syntax::RStaple) {
                        break;
                    }
                    list.push(self.expr()?);
                    if self.peek_is(Syntax::RStaple) {
                        break;
                    } else if self.peek_is(Syntax::Semi) {
                        self.eat(Syntax::Semi);
                    } else {
                        self.expect(Syntax::Comma)?;
                    }
                }
                self.eat(Syntax::Semi);
                self.expect(Syntax::RStaple)?;
                Ok(Stmt::List(list))
            },
            Syntax::LCurly => {
                self.skip();
                self.eat(Syntax::Semi);
                let mut map: Vec<(Symbol, Stmt)> = Vec::new();
                while !self.peek_eof() && !self.peek_is(Syntax::RCurly)
                    invariant
                        old(self).moved_to(*self),
                        self.pos > old(self).pos,
                        !simple_at(old(self).tokens@, old(self).pos as int),
                        !tag_word_at(old(self).tokens@, old(self).pos as int),
                    decreases self.left(),
                {
                    self.eat(Syntax::Semi);
                    if self.peek_is(Syntax::RCurly) {
                        break;
                    }
                    let key = match self.peek_kind() {
                        Syntax::Word | Syntax::String(_) | Syntax::Number | Syntax::Bool(_) => {
                            if self.peek_eof() {
                                return Err(self.error("String key name"));
                            }
                            self.next().to_sym()
                        },
                        _ => return Err(self.error("String key name")),
                    };
                    self.expect(Syntax::Colon)?;
                    self.eat(Syntax::Semi);
                    let val = self.expr()?;
                    map.push((key, val));
                    if self.peek_is(Syntax::Semi) {
                        self.eat(Syntax::Semi);
                    } else if self.peek_is(Syntax::RCurly) {
                        break;
                    } else {
                        self.expect(Syntax::Comma)?;
                    }
                }
                self.eat(Syntax::Semi);
                self.expect(Syntax::RCurly)?;
                Ok(Stmt::Dict(map))
            },
            _ => Err(self.error("Atom")),
        }
    }

    /// Parse (args) part of a function call.
    fn args(&mut self) -> (r: Result<Vec<Stmt>>)
        requires
            old(self).wf(),
        ensures
            old(self).moved_to(*final(self)),
            r matches Err(e) ==> failed_compiling(e),
            old(self).spec_peek_kind() is RParen ==> (r matches Ok(v) && v@.len() == 0) && final(self).pos
                == old(self).pos + 1,
            r is Ok ==> args_closed(final(self).tokens@, final(self).pos as int),
            r is Ok && old(self).pos < old(self).tokens@.len() ==> final(self).pos > old(self).pos,
            !(old(self).spec_peek_kind() is RParen) && kind_at(old(self).tokens@, old(self).pos + 1) is Colon
                ==> (r matches Ok(v) ==> v@.len() == 1 && v@[0] is Args),
            !(old(self).spec_peek_kind() is RParen) && !(kind_at(old(self).tokens@, old(self).pos + 1) is Colon)
                ==> (r matches Ok(v) ==> exists|starts: Seq<int>|
                #[trigger] exprs_from(old(self).tokens@, old(self).pos as int, final(self).pos as int, starts, v@)),
        decreases 2 * old(self).budget, old(self).left(), 10nat,
    {
        if self.peek_is(Syntax::RParen) {
            self.skip();
            return Ok(Vec::new());
        }

        // parse (keyword: args)
        if self.peek2_is(Syntax::Colon) {
            let kw = self.keyword_args()?;
            let mut v: Vec<Stmt> = Vec::new();
            v.push(kw);
            return Ok(v);
        }

        let mut args: Vec<Stmt> = Vec::new();
        let ghost mut starts: Seq<int> = Seq::empty();
        assert(self.pos + 1 < self.tokens@.len() ==> kind_at(self.tokens@, self.pos + 1) == self.tokens@[self.pos + 1].kind);
        while !self.peek_eof()
            invariant
                old(self).moved_to(*self),
                exprs_from(old(self).tokens@, old(self).pos as int, self.pos as int, starts, args@),
                old(self).pos < old(self).tokens@.len() && self.pos == old(self).pos ==> args@.len() == 0,
                !(old(self).spec_peek_kind() is RParen),
            ensures
                old(self).moved_to(*self),
                exprs_from(old(self).tokens@, old(self).pos as int, self.pos as int, starts, args@),
                args_closed(self.tokens@, self.pos as int),
                old(self).pos < old(self).tokens@.len() ==> self.pos > old(self).pos,
            decreases self.left(),
        {
            let k = self.peek_kind();
            if k == Syntax::RParen {
                self.skip();
                break;
            } else if k == Syntax::Comma || k == Syntax::Semi {
                self.skip();
            } else if k.starts_expr() {
                let ghost at = self.pos as int;
                let e = self.expr()?;
                args.push(e);
                proof {
                    starts = starts.push(at);
                    assert forall|i: int| 0 <= i < args@.len() implies old(self).pos <= #[trigger] starts[i]
                        < self.pos && expr_shape(old(self).tokens@, starts[i], args@[i]) by {
                        if i < args@.len() - 1 {
                            assert(args@[i] == args@.drop_last()[i]);
                        }
                    }
                }
            } else {
                return Err(self.error(")"));
            }
        }
        Ok(args)
    }

    /// Parse (keyword: args)
    fn keyword_args(&mut self) -> (r: Result<Stmt>)
        requires
            old(self).wf(),
        ensures
            old(self).moved_to(*final(self)),
            r matches Err(e) ==> failed_compiling(e),
            r is Ok ==> args_closed(final(self).tokens@, final(self).pos as int),
            r is Ok && old(self).pos < old(self).tokens@.len() ==> final(self).pos > old(self).pos,
            r matches Ok(s) ==> kw_args_shaped(old(self).tokens@, old(self).pos as int, final(self).pos as int, s),
        decreases 2 * old(self).budget, old(self).left(), 9nat,
    {
        let mut args: Vec<(Symbol, Stmt)> = Vec::new();
        let mut is_kw = true;
        let mut keyword = Symbol::empty();
        let ghost mut starts: Seq<int> = Seq::empty();
        while !self.peek_eof()
            invariant
                old(self).moved_to(*self),
                kw_values_from(old(self).tokens@, old(self).pos as int, self.pos as int, starts, args@),
            ensures
                old(self).moved_to(*self),
                kw_values_from(old(self).tokens@, old(self).pos as int, self.pos as int, starts, args@),
                args_closed(self.tokens@, self.pos as int),
                old(self).pos < old(self).tokens@.len() ==> self.pos > old(self).pos,
            decreases self.left(),
        {
            let k = self.peek_kind();
            if k == Syntax::RParen {
                self.skip();
                break;
            } else if k == Syntax::Comma || k == Syntax::Semi {
                self.skip();
            } else if k == Syntax::Word && is_kw {
                keyword = self.next().to_sym();
                self.expect(Syntax::Colon)?;
                is_kw = false;
            } else if k.starts_expr() {
                let name = keyword;
                keyword = Symbol::empty();
                let ghost at = self.pos as int;
                let val = self.expr()?;
                args.push((name, val));
                proof {
                    starts = starts.push(at);
                    assert forall|i: int| 0 <= i < args@.len() implies old(self).pos <= #[trigger] starts[i]
                        < self.pos && expr_shape(old(self).tokens@, starts[i], args@[i].1) by {
                        if i < args@.len() - 1 {
                            assert(args@[i] == args@.drop_last()[i]);
                        }
                    }
                }
                is_kw = true;
            } else {
                return Err(self.error(")"));
            }
        }
        proof {
            assert(kw_values_from(old(self).tokens@, old(self).pos as int, self.pos as int, starts, args@));
        }
        let ghost ga = args@;
        let r = Stmt::Args(args);
        assert(r matches Stmt::Args(a) && a@ == ga);
        assert(kw_args_shaped(old(self).tokens@, old(self).pos as int, self.pos as int, r));
        Ok(r)
    }

    /// Parse a block of code, either:
    /// - to the next Dedent if the next() char is an Indent
    ///   or
    /// - to the next ; if the next() char isn't an Indent
    fn block(&mut self) -> (r: Result<Vec<Stmt>>)
        requires
            old(self).wf(),
        ensures
            old(self).moved_to(*final(self)),
            r is Ok ==> final(self).pos > old(self).pos,
            r matches Err(e) ==> failed_compiling(e),
        decreases 2 * old(self).budget, old(self).left(), 11nat,
    {
        let mut block: Vec<Stmt> = Vec::new();

        // one line block via `do`
        if self.peek_is(Syntax::Do) {
            self.skip();
            let s = self.stmt()?;
            block.push(s);
            return Ok(block);
        }

        self.expect(Syntax::Indent)?;
        while !self.peek_eof()
            invariant
                old(self).moved_to(*self),
                self.pos > old(self).pos,
            decreases self.left(),
        {
            let k = self.peek_kind();
            if k == Syntax::Semi {
                self.skip();
            } else if k == Syntax::Dedent {
                break;
            } else {
                block.push(self.stmt()?);
            }
        }
        self.expect(Syntax::Dedent)?;
        Ok(block)
    }

    /// Parse the innerHTML of a <tag>. Code and stuff.
    fn tag_body(&mut self) -> (r: Result<Vec<Stmt>>)
        requires
            old(self).wf(),
        ensures
            old(self).moved_to(*final(self)),
            r matches Err(e) ==> failed_compiling(e),
            r is Ok ==> tag_body_end(
                final(self).tokens@,
                final(self).pos as int,
                old(self).spec_peek_kind() is Indent,
            ),
            !(old(self).spec_peek_kind() is Indent) && tag_body_end(old(self).tokens@, old(self).pos as int, false)
                ==> (r matches Ok(v) && v@.len() == 0) && final(self).pos == old(self).pos,
            word_line_at(old(self).tokens@, old(self).pos as int) ==> (r matches Ok(v) && v@.len() == 1 && word_of(
                v@[0],
                old(self).tokens@[old(self).pos as int].spec_literal(),
            )) && final(self).pos == old(self).pos + 1
                && final(self).tags == old(self).tags,
        decreases 2 * old(self).budget, old(self).left(), 12nat,
    {
        let ghost wl = word_line_at(old(self).tokens@, old(self).pos as int);
        let mut block: Vec<Stmt> = Vec::new();
        let mut indented = false;

        if self.peek_is(Syntax::Indent) {
            self.skip();
            indented = true;
        }

        while !self.peek_eof()
            invariant
                old(self).moved_to(*self),
                indented == (old(self).spec_peek_kind() is Indent),
                !indented && tag_body_end(old(self).tokens@, old(self).pos as int, false) ==> self.pos
                    == old(self).pos && block@.len() == 0,
                wl == word_line_at(old(self).tokens@, old(self).pos as int),
                wl ==> self.tags == old(self).tags && (self.pos == old(self).pos && block@.len() == 0 || self.pos
                    == old(self).pos + 1 && block@.len() == 1 && word_of(
                    block@[0],
                    old(self).tokens@[old(self).pos as int].spec_literal(),
                )),
            ensures
                old(self).moved_to(*self),
                tag_body_end(self.tokens@, self.pos as int, indented),
                !indented && tag_body_end(old(self).tokens@, old(self).pos as int, false) ==> self.pos
                    == old(self).pos && block@.len() == 0,
                wl ==> self.tags == old(self).tags && self.pos == old(self).pos + 1 && block@.len() == 1
                    && word_of(block@[0], old(self).tokens@[old(self).pos as int].spec_literal()),
            decreases self.left(),
        {
            let ghost before = self.pos;
            let k = self.peek_kind();
            if k == Syntax::Semi && indented {
                // keep going if we're indented
                self.skip();
            } else if k == Syntax::Dedent || k == Syntax::Semi {
                // pass these up the food chain
                break;
            } else if k == Syntax::Indent {
                // random indent just gets added to this body
                let mut inner = self.block()?;
                block.append(&mut inner);
            } else if k == Syntax::LCaret && self.peek2_is(Syntax::Slash) {
                // look for </closing> tag and bail if found.
                break;
            } else if (k == Syntax::Word || k == Syntax::Number) && self.two_words_in_a_row() {
                // two words in a row become text in tag bodies
                let mut out = self.next().to_string();
                while !self.peek_eof()
                    invariant
                        old(self).moved_to(*self),
                        self.pos > before,
                    decreases self.left(),
                {
                    let k2 = self.peek_kind();
                    if k2.is_word_or_keyword() {
                        crate::text::push_char(&mut out, ' ');
                    } else if k2 == Syntax::Op || k2 == Syntax::Comma || k2 == Syntax::Colon {
                    } else {
                        break;
                    }
                    let t = self.next();
                    push_str(&mut out, t.to_str());
                }
                block.push(text_stmt(out));
            } else {
                // everything else is a stmt
                block.push(self.stmt()?);
            }
        }
        Ok(block)
    }

    /// Are peek() and peek2() both words, or otherwise candidates for
    /// implicitly creating text?
    fn two_words_in_a_row(&self) -> (r: bool)
        requires
            self.wf(),
        ensures
            r == ((kind_at(self.tokens@, self.pos as int) is Word && (spec_word_or_keyword(
                kind_at(self.tokens@, self.pos + 1),
            ) || kind_at(self.tokens@, self.pos + 1) is Comma || kind_at(self.tokens@, self.pos + 1) is Colon))
                || (kind_at(self.tokens@, self.pos as int) is Number && kind_at(self.tokens@, self.pos + 1) is Word)),
    {
        if self.pos >= self.tokens.len() {
            return false;
        }
        let k2 = match self.peek2() {
            Some(t) => t.kind,
            None => Syntax::Nil,
        };
        (self.peek_is(Syntax::Word) && (k2.is_word_or_keyword() || k2 == Syntax::Comma
            || k2 == Syntax::Colon)) || (self.peek_is(Syntax::Number) && k2 == Syntax::Word)
    }

    /// Parse a single statement.
    fn stmt(&mut self) -> (r: Result<Stmt>)
        requires
            old(self).wf(),
        ensures
            old(self).moved_to(*final(self)),
            r is Ok ==> final(self).pos > old(self).pos,
            r matches Err(e) ==> failed_compiling(e),
            r matches Ok(s) ==> stmt_shape(old(self).tokens@, old(self).pos as int, s),
            simple_at(old(self).tokens@, old(self).pos as int) && !continues_at(old(self).tokens@, old(self).pos + 1)
                ==> (r matches Ok(s) && atom_shape(old(self).tokens@, old(self).pos as int, s)) && final(self).pos
                == old(self).pos + 1 && final(self).tags == old(self).tags,
            chain_at(old(self).tokens@, old(self).pos as int) ==> r is Ok && final(self).pos < final(self).tokens@.len()
                && final(self).tokens@[final(self).pos as int].kind is Semi,
            assign_at(old(self).tokens@, old(self).pos as int) ==> (r matches Ok(s) && assign_shape(
                old(self).tokens@,
                old(self).pos as int,
                s,
            )) && final(self).pos == old(self).pos + 3,
            old(self).tags == 0 && closing_at(old(self).tokens@, old(self).pos as int) ==> r is Err,
            tag_word_at(old(self).tokens@, old(self).pos as int) ==> (r matches Ok(s) && tag_word_shape(
                old(self).tokens@,
                old(self).pos as int,
                s,
            )) && final(self).pos == old(self).pos + 4,
        decreases 2 * old(self).budget, old(self).left(), 10nat,
    {
        let k = self.peek_kind();
        if k == Syntax::Def {
            self.def_stmt()
        } else if k == Syntax::If {
            self.if_stmt()
        } else if k == Syntax::For {
            self.for_stmt()
        } else if k == Syntax::While {
            self.skip();
            let test = self.expr()?;
            let body = self.block()?;
            Ok(Stmt::While(Box::new(test), body))
        } else if k == Syntax::Return {
            self.skip();
            if self.peek_is(Syntax::Semi) {
                Ok(Stmt::Return(Box::new(Stmt::Nil)))
            } else {
                let e = self.expr()?;
                Ok(Stmt::Return(Box::new(e)))
            }
        } else if k.starts_expr() {
            self.expr()
        } else {
            Err(self.error("Stmt"))
        }
    }

    /// Parse a `for` statement:
    ///     for v in list
    ///     for k, v in map
    fn for_stmt(&mut self) -> (r: Result<Stmt>)
        requires
            old(self).wf(),
        ensures
            old(self).moved_to(*final(self)),
            r is Ok ==> final(self).pos > old(self).pos,
            r matches Err(e) ==> failed_compiling(e),
            r matches Ok(s) ==> s is For,
        decreases 2 * old(self).budget, old(self).left(), 9nat,
    {
        self.expect(Syntax::For)?;
        let mut key: Option<Symbol> = None;
        let val;
        let word = self.expect(Syntax::Word)?.to_sym();
        if self.peek_is(Syntax::Comma) {
            self.skip();
            key = Some(word);
            val = self.expect(Syntax::Word)?.to_sym();
        } else {
            val = word;
        }
        self.expect(Syntax::In)?;
        let iter = self.expr()?;
        let body = self.block()?;
        Ok(Stmt::For(key, val, Box::new(iter), body))
    }

    /// Parse a function definition.
    fn def_stmt(&mut self) -> (r: Result<Stmt>)
        requires
            old(self).wf(),
        ensures
            old(self).moved_to(*final(self)),
            r is Ok ==> final(self).pos > old(self).pos,
            r matches Err(e) ==> failed_compiling(e),
            r matches Ok(s) ==> def_shape(old(self).tokens@, old(self).pos as int, s),
        decreases 2 * old(self).budget, old(self).left(), 9nat,
    {
        self.expect(Syntax::Def)?;
        let k = self.peek_kind();
        if !(k == Syntax::Word || k == Syntax::Op) || self.peek_eof() {
            return Err(self.error("function name"));
        }
        let name = self.next().to_sym();
        let mut args: Vec<Symbol> = Vec::new();
        if self.peek_is(Syntax::LParen) {
            self.skip();
            self.eat(Syntax::Semi);
            while !self.peek_eof() && !self.peek_is(Syntax::RParen)
                invariant
                    old(self).moved_to(*self),
                    self.pos > old(self).pos,
                decreases self.left(),
            {
                args.push(self.expect(Syntax::Word)?.to_sym());
                if self.peek_is(Syntax::Comma) || self.peek_is(Syntax::Semi) {
                    self.skip();
                } else {
                    break;
                }
            }
            self.eat(Syntax::Semi);
            self.expect(Syntax::RParen)?;
        }
        let body = self.block()?;
        let r = Stmt::Assign(name, Box::new(Stmt::Fn(args, Rc::new(body))), false);
        assert(def_shape(old(self).tokens@, old(self).pos as int, r));
        Ok(r)
    }

    /// The `then` or block body of an `if` branch.
    fn if_body(&mut self) -> (r: Result<Vec<Stmt>>)
        requires
            old(self).wf(),
        ensures
            old(self).moved_to(*final(self)),
            r is Ok ==> final(self).pos > old(self).pos,
            r matches Err(e) ==> failed_compiling(e),
        decreases 2 * old(self).budget, old(self).left(), 12nat,
    {
        if self.peek_is(Syntax::Then) {
            self.skip();
            let e = self.expr()?;
            let mut v: Vec<Stmt> = Vec::new();
            v.push(e);
            Ok(v)
        } else {
            self.block()
        }
    }

    /// Parse an if statement.
    fn if_stmt(&mut self) -> (r: Result<Stmt>)
        requires
            old(self).wf(),
        ensures
            old(self).moved_to(*final(self)),
            r is Ok ==> final(self).pos > old(self).pos,
            r matches Err(e) ==> failed_compiling(e),
            r matches Ok(s) ==> (s matches Stmt::If(conds) && conds@.len() >= 1),
        decreases 2 * old(self).budget, old(self).left(), 9nat,
    {
        self.expect(Syntax::If)?;
        let mut conds: Vec<(Stmt, Vec<Stmt>)> = Vec::new();
        let test = self.expr()?;
        let body = self.if_body()?;
        conds.push((test, body));
        while self.peek_is(Syntax::Else)
            invariant
                old(self).moved_to(*self),
                self.pos > old(self).pos,
                conds@.len() >= 1,
            decreases self.left(),
        {
            self.skip(); // skip else
            if self.peek_is(Syntax::If) {
                self.skip();
                let t = self.expr()?;
                let b = self.if_body()?;
                conds.push((t, b));
            } else {
                let t = Stmt::Value(Value::Bool(true));
                let b = if self.peek_is(Syntax::Indent) || self.peek_is(Syntax::Do) {
                    self.block()?
                } else {
                    let e = self.expr()?;
                    let mut v: Vec<Stmt> = Vec::new();
                    v.push(e);
                    v
                };
                conds.push((t, b));
            }
        }
        Ok(Stmt::If(conds))
    }

    /// Parse a <tag> and its contents or a </tag>.
    fn tag(&mut self) -> (r: Result<Stmt>)
        requires
            old(self).wf(),
        ensures
            old(self).moved_to(*final(self)),
            r is Ok ==> final(self).pos > old(self).pos,
            r matches Err(e) ==> failed_compiling(e),
            r matches Ok(s) ==> s is Nil || (s matches Stmt::Tag(t) && tag_named(
                old(self).tokens@,
                old(self).pos as int,
                *t.tag,
            )),
            old(self).tags == 0 && closing_at(old(self).tokens@, old(self).pos as int) ==> r is Err,
            tag_word_at(old(self).tokens@, old(self).pos as int) ==> (r matches Ok(s) && tag_word_shape(
                old(self).tokens@,
                old(self).pos as int,
                s,
            )) && final(self).pos == old(self).pos + 4,
        decreases 2 * old(self).budget, old(self).left(), 5nat,
    {
        if self.peek2_is(Syntax::Slash) {
            self.close_tag()?;
            return Ok(Stmt::Nil);
        }

        let mut tag = self.open_tag()?;
        if tag.is_closed() {
            return Ok(Stmt::Tag(tag));
        }

        let body = self.tag_body()?;
        tag.set_body(body);

        let k = self.peek_kind();
        if k == Syntax::Semi || k == Syntax::Nil {
            if self.tags == 0 {
                return Err(self.error("Open Tag"));
            }
            self.tags = self.tags - 1;
        } else if k == Syntax::Dedent {
            if self.tags == 0 {
                return Err(self.error("Open Tag"));
            }
            self.tags = self.tags - 1;
            self.skip();
        } else {
            self.close_tag()?;
        }
        Ok(Stmt::Tag(tag))
    }

    /// Parse just a closing tag, starting at the <
    fn close_tag(&mut self) -> (r: Result<()>)
        requires
            old(self).wf(),
        ensures
            old(self).moved_to(*final(self)),
            r is Ok ==> final(self).pos > old(self).pos,
            r matches Err(e) ==> e.kind is ParseError,
            old(self).tags == 0 ==> r is Err,
    {
        if self.tags == 0 {
            return Err(self.error("Open Tag"));
        }
        self.tags = self.tags - 1;
        self.expect(Syntax::LCaret)?;
        self.expect(Syntax::Slash)?;
        // </>
        if self.peek_is(Syntax::RCaret) {
            self.skip();
            return Ok(());
        }
        self.expect(Syntax::Word)?;
        self.expect(Syntax::RCaret)?;
        Ok(())
    }

    /// A shortcut value, possibly with a condition: `#id`, `.class=cond`.
    fn shortcut(&mut self) -> (r: Result<Stmt>)
        requires
            old(self).wf(),
        ensures
            old(self).moved_to(*final(self)),
            r is Ok ==> final(self).pos > old(self).pos,
            r matches Err(e) ==> failed_compiling(e),
        decreases 2 * old(self).budget, old(self).left(), 3nat,
    {
        let val = self.string()?;
        if self.peek_is(Syntax::Equal) {
            self.skip();
            let cond = self.attr()?;
            let mut args: Vec<Stmt> = Vec::new();
            args.push(cond);
            args.push(val);
            Ok(call("when", args))
        } else {
            Ok(val)
        }
    }

    /// Parse a string <opening.tag with=attributes>
    /// starting at the <
    fn open_tag(&mut self) -> (r: Result<Tag>)
        requires
            old(self).wf(),
        ensures
            old(self).moved_to(*final(self)),
            r is Ok ==> final(self).pos > old(self).pos,
            r matches Err(e) ==> failed_compiling(e),
            r matches Ok(t) ==> tag_named(old(self).tokens@, old(self).pos as int, *t.tag),
            r matches Ok(t) ==> t.body@.len() == 0,
            r matches Ok(t) ==> tag_head(old(self).tokens@, old(self).pos as int, final(self).pos as int, t),
            plain_head_at(old(self).tokens@, old(self).pos as int) ==> (r matches Ok(t) && plain_head(
                old(self).tokens@,
                old(self).pos as int,
                t,
            )) && final(self).pos == old(self).pos + 3 && final(self).tags >= 1,
        decreases 2 * old(self).budget, old(self).left(), 4nat,
    {
        let ghost ph = plain_head_at(old(self).tokens@, old(self).pos as int);
        self.expect(Syntax::LCaret)?;
        self.tags = if self.tags < usize::MAX { self.tags + 1 } else { self.tags };
        let name = if self.peek_is(Syntax::Op) {
            Stmt::from_str("div")
        } else {
            let w = self.expect(Syntax::Word)?;
            Stmt::Value(Value::String(w.to_string()))
        };
        let mut tag = Tag::new(name);
        assert(tag_named(old(self).tokens@, old(self).pos as int, *tag.tag));

        // <#shortcuts.only.work.in@the:first-part-of-the-tag gotcha=true/>
        let mut head = true;
        loop
            invariant_except_break
                ph ==> self.pos == old(self).pos + 2 && plain_head(old(self).tokens@, old(self).pos as int, tag)
                    && self.tags >= 1,
            invariant
                old(self).moved_to(*self),
                self.pos > old(self).pos,
                tag_named(old(self).tokens@, old(self).pos as int, *tag.tag),
                tag.body@.len() == 0,
                tag.closed ==> kind_between(old(self).tokens@, old(self).pos as int, self.pos as int, Syntax::Slash),
                !(*tag.id is Nil) ==> spelled_between(old(self).tokens@, old(self).pos as int, self.pos as int, "#"@),
                tag.classes@.len() > 0 ==> spelled_between(old(self).tokens@, old(self).pos as int, self.pos as int, "."@),
                ph == plain_head_at(old(self).tokens@, old(self).pos as int),
            ensures
                old(self).moved_to(*self),
                self.pos > old(self).pos,
                tag_named(old(self).tokens@, old(self).pos as int, *tag.tag),
                tag.body@.len() == 0,
                tag_head(old(self).tokens@, old(self).pos as int, self.pos as int, tag),
                ph ==> self.pos == old(self).pos + 3 && plain_head(old(self).tokens@, old(self).pos as int, tag)
                    && self.tags >= 1,
            decreases self.left(),
        {
            if self.peek_eof() {
                return Err(self.error(">"));
            }
            let ghost at = self.pos as int;
            let next = self.next();
            let pos = next.pos;
            if next.kind == Syntax::Semi {
            } else if next.kind == Syntax::RCaret {
                break;
            } else if next.kind == Syntax::Slash {
                tag.close();
                if self.tags > 0 {
                    self.tags = self.tags - 1;
                }
            } else if next.kind == Syntax::Op && head {
                let lit = next.literal();
                if str_eq(lit, "#") {
                    let id = self.shortcut()?;
                    tag.set_id(id);
                } else if str_eq(lit, ".") {
                    let class = self.shortcut()?;
                    tag.add_class(class);
                } else if str_eq(lit, "@") || str_eq(lit, ":") {
                    let attr_name = if str_eq(lit, "@") {
                        Stmt::from_str("name")
                    } else {
                        Stmt::from_str("type")
                    };
                    let expr = self.shortcut()?;
                    tag.add_attr(attr_name, expr);
                } else {
                    return Err(self.error("# . @ or :"));
                }
            } else if next.kind == Syntax::Word || next.kind == Syntax::String(true) {
                head = false;
                self.pos = self.pos - 1;
                let name = self.string()?;
                // single word attributes, like `defer`
                if !self.peek_is(Syntax::Equal) {
                    tag.add_attr(name, Stmt::Value(Value::Bool(true)));
                    continue;
                }
                self.expect(Syntax::Equal)?;
                let k = self.peek_kind();
                match k {
                    Syntax::Bool(_) | Syntax::Number | Syntax::String(_) => {
                        let a = self.atom()?;
                        tag.add_attr(name, a);
                    },
                    Syntax::Word => {
                        let curly = match self.peek() {
                            Some(t) => has_curly(&str_to_chars(t.to_str())),
                            None => false,
                        };
                        let v = if curly {
                            self.string()?
                        } else {
                            self.expr()?
                        };
                        tag.add_attr(name, v);
                    },
                    Syntax::JS => {
                        let tok = self.next();
                        let js = str_to_chars(tok.to_str());
                        let mut code = string_of("(function(e){ ");
                        if js.len() >= 2 {
                            let inner = chars_to_string(js.as_slice(), 1, js.len() - 1);
                            push_str(&mut code, inner.as_str());
                        }
                        push_str(&mut code, " })(event);");
                        tag.add_attr(name, text_stmt(code));
                    },
                    _ => return Err(self.error("Word, Number, or String")),
                }
            } else {
                let mut msg = string_of("Expected Attribute or >, got ");
                push_str(&mut msg, syntax_name(next.kind));
                return Err(Error::new(ErrorKind::ParseError, msg, pos, 1));
            }
        }
        Ok(tag)
    }

    /// An attribute in a tag.
    fn attr(&mut self) -> (r: Result<Stmt>)
        requires
            old(self).wf(),
        ensures
            old(self).moved_to(*final(self)),
            r matches Err(e) ==> failed_compiling(e),
            old(self).pos >= old(self).tokens@.len() ==> r == Ok::<Stmt, Error>(Stmt::Nil) && *final(self)
                == *old(self),
            old(self).spec_peek_kind() is Word && !old(self).tokens@[old(self).pos as int].spec_literal().contains(
                '{',
            ) ==> (r matches Ok(s) && s matches Stmt::Word(w) && w@ == old(self).tokens@[old(
                self,
            ).pos as int].spec_literal()),
            old(self).spec_peek_kind() is String ==> (r matches Ok(s) ==> atom_shape(
                old(self).tokens@,
                old(self).pos as int,
                s,
            )),
            old(self).pos < old(self).tokens@.len() && !(old(self).spec_peek_kind() is Word)
                && !(old(self).spec_peek_kind() is String) ==> (r matches Err(e) && e.kind is ParseError),
        decreases 2 * old(self).budget, old(self).left(), 3nat,
    {
        match self.peek() {
            Some(tok) => {
                if tok.kind == Syntax::Word {
                    let curly = has_curly(&str_to_chars(tok.literal()));
                    if curly {
                        self.string()
                    } else {
                        self.word()
                    }
                } else {
                    match tok.kind {
                        Syntax::String(_) => self.string(),
                        _ => Err(self.error("String or Word")),
                    }
                }
            },
            None => Ok(Stmt::Nil),
        }
    }

    /// Can the next token extend an expression: an operator, a call, an
    /// index?
    fn peek_continues(&self) -> (r: bool)
        requires
            self.wf(),
        ensures
            r == (self.spec_peek_kind() is Op || self.spec_peek_kind() is LParen
                || self.spec_peek_kind() is LStaple),
    {
        let k = self.peek_kind();
        k == Syntax::Op || k == Syntax::LParen || k == Syntax::LStaple
    }

    /// Get the precedence power of the next token if it's an operator
    /// that can be used in an infix position, like + or -.
    fn peek_op_power(&self) -> (r: u8)
        requires
            self.wf(),
        ensures
            r == if self.pos < self.tokens@.len() {
                op_power(self.tokens@[self.pos as int].spec_literal())
            } else {
                0
            },
    {
        match self.peek() {
            Some(p) => {
                let s = p.to_str();
                if str_eq(s, ":=") || str_eq(s, "=") {
                    1
                } else if str_eq(s, "&&") {
                    2
                } else if str_eq(s, "||") {
                    3
                } else if str_eq(s, "==") || str_eq(s, "!=") || str_eq(s, "<") || str_eq(s, "<=")
                    || str_eq(s, ">") || str_eq(s, ">=") || str_eq(s, "<=>") {
                    4
                } else if str_eq(s, "+") || str_eq(s, "-") || str_eq(s, "|") || str_eq(s, "^") {
                    5
                } else if str_eq(s, "*") || str_eq(s, "/") || str_eq(s, "%") || str_eq(s, "<<")
                    || str_eq(s, ">>") || str_eq(s, "&") {
                    6
                } else if str_eq(s, "..") || str_eq(s, "..=") {
                    10
                } else if str_eq(s, ".") {
                    20
                } else {
                    2
                }
            },
            None => 0,
        }
    }

    /// Get the precedence power of the next token if it's an operator
    /// that can be used in the postfix position: `(` and `[`.
    fn peek_postfix_power(&self) -> (r: Option<u8>)
        requires
            self.wf(),
        ensures
            r == if self.pos < self.tokens@.len() && (self.tokens@[self.pos as int].kind is LParen
                || self.tokens@[self.pos as int].kind is LStaple) && (self.tokens@[self.pos as int].spec_literal()
                == "("@ || self.tokens@[self.pos as int].spec_literal() == "["@) {
                Some(15u8)
            } else {
                None
            },
    {
        match self.peek() {
            Some(p) => {
                if (p.kind == Syntax::LParen || p.kind == Syntax::LStaple) && (str_eq(p.to_str(), "(")
                    || str_eq(p.to_str(), "[")) {
                    Some(15)
                } else {
                    None
                }
            },
            None => None,
        }
    }
}

impl Stmt {
    /// Is this a string or word whose text is `s`?
    pub fn to_str_is(&self, s: &str) -> (r: bool)
        ensures
            r == (self.spec_text() == s@),
    {
        str_eq(self.to_str(), s)
    }
}

/// Does `v` hold a `{`?
fn has_curly(v: &Vec<char>) -> (r: bool)
    ensures
        r == v@.contains('{'),
{
    match find_char(v, 0, '{') {
        Some(i) => {
            assert(v@[i as int] == '{');
            true
        },
        None => false,
    }
}

/// The first index at or after `from` where `v` holds `c`.
fn find_char(v: &Vec<char>, from: usize, c: char) -> (r: Option<usize>)
    ensures
        r matches Some(i) ==> from <= i < v@.len() && v@[i as int] == c,
        r is None ==> forall|j: int| from <= j < v@.len() ==> v@[j] != c,
{
    let mut i = from;
    while i < v.len()
        invariant
            from <= i,
            forall|j: int| from <= j < i && j < v@.len() ==> v@[j] != c,
        decreases v.len() - i,
    {
        if v[i] == c {
            return Some(i);
        }
        i += 1;
    }
    None
}

/// Does the operator end in `=`?
fn ends_with_equal(s: &str) -> (r: bool)
    ensures
        r == (s@.len() > 0 && s@.last() == '='),
{
    let v = str_to_chars(s);
    v.len() > 0 && v[v.len() - 1] == '='
}

/// The operator without its trailing `=`s.
fn trim_equals(s: &str) -> (r: String)
    ensures
        r@.is_prefix_of(s@),
        forall|i: int| r@.len() <= i < s@.len() ==> s@[i] == '=',
        r@.len() == 0 || r@.last() != '=',
{
    let v = str_to_chars(s);
    let mut n = v.len();
    while n > 0 && v[n - 1] == '='
        invariant
            n <= v@.len(),
            v@ == s@,
            forall|i: int| n <= i < s@.len() ==> s@[i] == '=',
        decreases n,
    {
        n -= 1;
    }
    chars_to_string(v.as_slice(), 0, n)
}

} // verus!
