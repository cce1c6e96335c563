use hatter::{scan, Syntax};

/// Scans `code` and compares the kinds of the tokens with `kinds`;
/// semicolons at the end are not counted.
fn check(code: &str, kinds: &[Syntax]) {
    let mut nodes = scan(code).unwrap();
    for (i, kind) in kinds.iter().enumerate() {
        let node = nodes.get(i).unwrap();
        assert_eq!(*kind, node.kind, "token {} of {:?}", i, code);
    }
    while let Some(tok) = nodes.last() {
        if tok.kind == Syntax::Semi {
            nodes.pop();
        } else {
            break;
        }
    }
    assert_eq!(kinds.len(), nodes.len(), "token count of {:?}", code);
}

#[test]
fn positive_number() {
    check("100", &[Syntax::Number]);
}

#[test]
fn negative_number() {
    check("-400", &[Syntax::Number]);
}

#[test]
fn underscore_number() {
    check("1_422_200", &[Syntax::Number]);
}

#[test]
fn negative_underscore_number() {
    check("-1_422_200", &[Syntax::Number]);
}

#[test]
fn binary_number() {
    check("0b101", &[Syntax::Number]);
}

#[test]
fn octal_number() {
    check("0o755", &[Syntax::Number]);
}

#[test]
fn hex_number() {
    check("0xdeadbeef", &[Syntax::Number]);
}

#[test]
fn float_number() {
    check("3.14", &[Syntax::Number]);
}

#[test]
fn negative_float_number() {
    check("-1230.3552", &[Syntax::Number]);
}

#[test]
fn number_range() {
    check("1..101", &[Syntax::Number, Syntax::Op, Syntax::Number]);
}

#[test]
fn number_range_inclusive() {
    check("500..=600", &[Syntax::Number, Syntax::Op, Syntax::Number]);
}

#[test]
fn number_range_spaced() {
    check("500 ..= 600", &[Syntax::Number, Syntax::Op, Syntax::Number]);
}

#[test]
fn basic_comment() {
    check("123 # Something something.", &[Syntax::Number]);
}

#[test]
fn another_basic_comment() {
    check("456\n# Something something.\n789", &[Syntax::Number, Syntax::Semi, Syntax::Number]);
}

#[test]
fn basic_string() {
    check(r#""just a regular string""#, &[Syntax::String(false)]);
}

#[test]
fn interpolated_string() {
    check(r#""just checking that {2 + 2} = 4""#, &[Syntax::String(true)]);
}

#[test]
fn single_quote_string() {
    check(r#"'single quote'"#, &[Syntax::String(false)]);
}

#[test]
fn escaped_single_quote_string() {
    check("'what\\'s up'", &[Syntax::String(false)]);
}

#[test]
fn grave_string() {
    check(r#"`one two three`"#, &[Syntax::String(false)]);
}

#[test]
fn triple_string() {
    check(r#" """one two three""" "#, &[Syntax::String(false)]);
}

#[test]
fn triple_single_string() {
    check(r#"'''one two three'''"#, &[Syntax::String(false)]);
}

#[test]
fn triple_grave_string() {
    check(r#"```one two three```"#, &[Syntax::String(false)]);
}

#[test]
fn triple_string_with_breaks() {
    check(r#""""
one
two
three
""""#, &[Syntax::String(false)]);
}

#[test]
fn simple_word() {
    check("sup", &[Syntax::Word]);
}

#[test]
fn title_word() {
    check("Yep", &[Syntax::Word]);
}

#[test]
fn underscore_word() {
    check("some_thing", &[Syntax::Word]);
}

#[test]
fn underscore_word2() {
    check("_some_other_thing_", &[Syntax::Word]);
}

#[test]
fn dash_word() {
    check("some-thing", &[Syntax::Word]);
}

#[test]
fn dash_word2() {
    check("some-thing-", &[Syntax::Word]);
}

#[test]
fn numbered_word() {
    check("one123", &[Syntax::Word]);
}

#[test]
fn word_with_brackets() {
    check("word-{with brackets}-in-it", &[Syntax::Word]);
}

#[test]
fn word_ending_with_brackets() {
    check("word-ending-{with brackets}", &[Syntax::Word]);
}

#[test]
fn word_ending_with_question() {
    check("word-ending-in?", &[Syntax::Word]);
}

#[test]
fn and_is_a_word() {
    check("and", &[Syntax::Word]);
}

#[test]
fn or_is_a_word() {
    check("or", &[Syntax::Word]);
}

#[test]
fn not_is_a_word() {
    check("not", &[Syntax::Word]);
}

#[test]
fn return_is_a_keyword() {
    check("return", &[Syntax::Return]);
}

#[test]
fn break_is_a_word() {
    check("break", &[Syntax::Word]);
}

#[test]
fn continue_is_a_word() {
    check("continue", &[Syntax::Word]);
}

#[test]
fn simple_op() {
    check("+", &[Syntax::Op]);
}

#[test]
fn lonley_dash_is_an_op() {
    check("-", &[Syntax::Op]);
}

#[test]
fn two_char_op() {
    check(":=", &[Syntax::Op]);
}

#[test]
fn two_char_op2() {
    check("==", &[Syntax::Op]);
}

#[test]
fn two_char_op3() {
    check("!=", &[Syntax::Op]);
}

#[test]
fn gt_op() {
    check(">", &[Syntax::Op]);
}

#[test]
fn random_op() {
    check("*@$%^$*", &[Syntax::Op]);
}

#[test]
fn dot_op() {
    check(".", &[Syntax::Op]);
}

#[test]
fn double_dot_op() {
    check("..", &[Syntax::Op]);
}

#[test]
fn question_op() {
    check("?", &[Syntax::Op]);
}

#[test]
fn bang_op() {
    check("!", &[Syntax::Op]);
}

#[test]
fn gt_is_op() {
    check("4 > 5", &[Syntax::Number, Syntax::Op, Syntax::Number]);
}

#[test]
fn lt_is_op() {
    check("4 < 5", &[Syntax::Number, Syntax::Op, Syntax::Number]);
}

#[test]
fn lt_with_word_is_caret() {
    check("<ding>", &[Syntax::LCaret, Syntax::Word, Syntax::RCaret]);
}

#[test]
fn lt_with_word_is_caret_2() {
    check("<ding >", &[Syntax::LCaret, Syntax::Word, Syntax::RCaret]);
}

#[test]
fn slash_is_an_op() {
    check("23 / 24", &[Syntax::Number, Syntax::Op, Syntax::Number]);
}

#[test]
fn but_not_in_a_tag() {
    check("<cat/>", &[Syntax::LCaret, Syntax::Word, Syntax::Slash, Syntax::RCaret]);
}

#[test]
fn or_a_close_tag() {
    check("</>", &[Syntax::LCaret, Syntax::Slash, Syntax::RCaret]);
}

#[test]
fn or_a_closing_tag() {
    check("</div>", &[Syntax::LCaret, Syntax::Slash, Syntax::Word, Syntax::RCaret]);
}

#[test]
fn angle_is_op() {
    check("<", &[Syntax::Op]);
}

#[test]
fn angle_id() {
    check("<#id>", &[Syntax::LCaret, Syntax::Op, Syntax::Word, Syntax::RCaret]);
}

#[test]
fn angle_class() {
    check("<.class>", &[Syntax::LCaret, Syntax::Op, Syntax::Word, Syntax::RCaret]);
}

#[test]
fn angle_type() {
    check("<:type>", &[Syntax::LCaret, Syntax::Op, Syntax::Word, Syntax::RCaret]);
}

#[test]
fn angle_name() {
    check("<@name>", &[Syntax::LCaret, Syntax::Op, Syntax::Word, Syntax::RCaret]);
}

#[test]
fn angle_followed_by_word_is_not_op() {
    check("<div>", &[Syntax::LCaret, Syntax::Word, Syntax::RCaret]);
}

#[test]
fn angle_interpolated() {
    check("<div class=something-{2 + 2}-classy>", &[Syntax::LCaret, Syntax::Word, Syntax::Word, Syntax::Equal, Syntax::Word, Syntax::RCaret]);
}

#[test]
fn angle_interpolated_id_full() {
    check("<div#{cool}>", &[Syntax::LCaret, Syntax::Word, Syntax::Op, Syntax::Word, Syntax::RCaret]);
}

#[test]
fn angle_interpolated_id_partial() {
    check("<div#page-{id}>", &[Syntax::LCaret, Syntax::Word, Syntax::Op, Syntax::Word, Syntax::RCaret]);
}

#[test]
fn angle_interpolated_class_full() {
    check("<div.{cool}>", &[Syntax::LCaret, Syntax::Word, Syntax::Op, Syntax::Word, Syntax::RCaret]);
}

#[test]
fn angle_interpolated_class_partial() {
    check("<div.page-{id}>", &[Syntax::LCaret, Syntax::Word, Syntax::Op, Syntax::Word, Syntax::RCaret]);
}

#[test]
fn angle_interpolated_type_full() {
    check("<input:{cool}>", &[Syntax::LCaret, Syntax::Word, Syntax::Op, Syntax::Word, Syntax::RCaret]);
}

#[test]
fn angle_interpolated_type_partial() {
    check("<input:page-{id}>", &[Syntax::LCaret, Syntax::Word, Syntax::Op, Syntax::Word, Syntax::RCaret]);
}

#[test]
fn angle_interpolated_name_full() {
    check("<input@{cool}>", &[Syntax::LCaret, Syntax::Word, Syntax::Op, Syntax::Word, Syntax::RCaret]);
}

#[test]
fn angle_interpolated_name_partial() {
    check("<input@page-{id}>", &[Syntax::LCaret, Syntax::Word, Syntax::Op, Syntax::Word, Syntax::RCaret]);
}

#[test]
fn angle_interpolated_attr_value_partial() {
    check("<div data-name=some-{thing}/>", &[Syntax::LCaret, Syntax::Word, Syntax::Word, Syntax::Equal, Syntax::Word, Syntax::Slash, Syntax::RCaret]);
}

#[test]
fn angle_interpolated_attr_value_full() {
    check("<div data-name={true}/>", &[Syntax::LCaret, Syntax::Word, Syntax::Word, Syntax::Equal, Syntax::Word, Syntax::Slash, Syntax::RCaret]);
}

#[test]
fn angle_js() {
    check("<span onclick=(alert('He he he!'))>Something</span>", &[Syntax::LCaret, Syntax::Word, Syntax::Word, Syntax::Equal, Syntax::JS, Syntax::RCaret, Syntax::Word, Syntax::LCaret, Syntax::Slash, Syntax::Word, Syntax::RCaret]);
}

#[test]
fn angle_input_type() {
    check("<input:type>", &[Syntax::LCaret, Syntax::Word, Syntax::Op, Syntax::Word, Syntax::RCaret]);
}

#[test]
fn angle_input_name() {
    check("<input@name>", &[Syntax::LCaret, Syntax::Word, Syntax::Op, Syntax::Word, Syntax::RCaret]);
}

#[test]
fn basic_tag() {
    check("<b> Hey there", &[Syntax::LCaret, Syntax::Word, Syntax::RCaret, Syntax::Word, Syntax::Word]);
}

#[test]
fn self_closing_tag() {
    check("<end/> ok", &[Syntax::LCaret, Syntax::Word, Syntax::Slash, Syntax::RCaret, Syntax::Word]);
}

#[test]
fn nested_tag() {
    check("<b> Hey <i> there", &[Syntax::LCaret, Syntax::Word, Syntax::RCaret, Syntax::Word, Syntax::LCaret, Syntax::Word, Syntax::RCaret, Syntax::Word]);
}

#[test]
fn close_shortcut() {
    check("<b> Hey <i> there </> fren ", &[Syntax::LCaret, Syntax::Word, Syntax::RCaret, Syntax::Word, Syntax::LCaret, Syntax::Word, Syntax::RCaret, Syntax::Word, Syntax::LCaret, Syntax::Slash, Syntax::RCaret, Syntax::Word]);
}

#[test]
fn basic_id_shortcut() {
    check("<b#shout> Hey yo", &[Syntax::LCaret, Syntax::Word, Syntax::Op, Syntax::Word, Syntax::RCaret, Syntax::Word, Syntax::Word]);
}

#[test]
fn basic_class_shortcut() {
    check("<span.clear> Welcome ", &[Syntax::LCaret, Syntax::Word, Syntax::Op, Syntax::Word, Syntax::RCaret, Syntax::Word]);
}

#[test]
fn basic_classes() {
    check("<div.main.markdown> Yada yada... ", &[Syntax::LCaret, Syntax::Word, Syntax::Op, Syntax::Word, Syntax::Op, Syntax::Word, Syntax::RCaret, Syntax::Word, Syntax::Word, Syntax::Op]);
}

#[test]
fn basic_name_shortcut() {
    check("<input@text/>", &[Syntax::LCaret, Syntax::Word, Syntax::Op, Syntax::Word, Syntax::Slash, Syntax::RCaret]);
}

#[test]
fn basic_type_shortcut() {
    check("<input:submit/> ", &[Syntax::LCaret, Syntax::Word, Syntax::Op, Syntax::Word, Syntax::Slash, Syntax::RCaret]);
}

#[test]
fn mixed_shortcuts() {
    check("<div#main.markdown/> ", &[Syntax::LCaret, Syntax::Word, Syntax::Op, Syntax::Word, Syntax::Op, Syntax::Word, Syntax::Slash, Syntax::RCaret]);
}

#[test]
fn mixed_input_shortcuts() {
    check("<input#focused:text@search  /> ", &[Syntax::LCaret, Syntax::Word, Syntax::Op, Syntax::Word, Syntax::Op, Syntax::Word, Syntax::Op, Syntax::Word, Syntax::Slash, Syntax::RCaret]);
}

#[test]
fn basic_attribute() {
    check(r#"<div data-id="45">"#, &[Syntax::LCaret, Syntax::Word, Syntax::Word, Syntax::Equal, Syntax::String(false), Syntax::RCaret]);
}

#[test]
fn basic_attributes() {
    check(r#"<input name="thing" placeholder="Other..."/>"#, &[Syntax::LCaret, Syntax::Word, Syntax::Word, Syntax::Equal, Syntax::String(false), Syntax::Word, Syntax::Equal, Syntax::String(false), Syntax::Slash, Syntax::RCaret]);
}

#[test]
fn js_attributes() {
    check("<div onclick=(alert('lol'))>Click me", &[Syntax::LCaret, Syntax::Word, Syntax::Word, Syntax::Equal, Syntax::JS, Syntax::RCaret, Syntax::Word, Syntax::Word]);
}

#[test]
fn simple_code_attributes() {
    check("<div data-id=page.id>", &[Syntax::LCaret, Syntax::Word, Syntax::Word, Syntax::Equal, Syntax::Word, Syntax::Op, Syntax::Word, Syntax::RCaret]);
}

#[test]
fn shorthand_conditionals() {
    check("<div#id=has-id>", &[Syntax::LCaret, Syntax::Word, Syntax::Op, Syntax::Word, Syntax::Equal, Syntax::Word, Syntax::RCaret]);
}

#[test]
fn code_expr_attributes() {
    check("<div data-value={2 + 3}>", &[Syntax::LCaret, Syntax::Word, Syntax::Word, Syntax::Equal, Syntax::Word, Syntax::RCaret]);
}

#[test]
fn tag_everything() {
    check("<div#id.class1.class-2=is-it? :why-not @sure onclick=(alert(`it's ${2 + 2}`)) data-id=123 data-{value}=compute(value) />", &[Syntax::LCaret, Syntax::Word, Syntax::Op, Syntax::Word, Syntax::Op, Syntax::Word, Syntax::Op, Syntax::Word, Syntax::Equal, Syntax::Word, Syntax::Op, Syntax::Word, Syntax::Op, Syntax::Word, Syntax::Word, Syntax::Equal, Syntax::JS, Syntax::Word, Syntax::Equal, Syntax::Number, Syntax::Word, Syntax::Equal, Syntax::Word, Syntax::LParen, Syntax::Word, Syntax::RParen, Syntax::Slash, Syntax::RCaret]);
}

#[test]
fn ignore_whitespace_in_parens() {
    check(r#"
add(
    1,
    2,    3
)
"#, &[Syntax::Word, Syntax::LParen, Syntax::Semi, Syntax::Number, Syntax::Comma, Syntax::Semi, Syntax::Number, Syntax::Comma, Syntax::Number, Syntax::Semi, Syntax::RParen]);
}

#[test]
fn newlines_are_commas_in_fn_calls() {
    check(r#"
add(
    1
    2,    3
    4
)
"#, &[Syntax::Word, Syntax::LParen, Syntax::Semi, Syntax::Number, Syntax::Semi, Syntax::Number, Syntax::Comma, Syntax::Number, Syntax::Semi, Syntax::Number, Syntax::Semi, Syntax::RParen]);
}

#[test]
fn basic_indented_tag() {
    check(r#"
<ul>
    <li> Kewl
    <li> Very!
"#, &[Syntax::LCaret, Syntax::Word, Syntax::RCaret, Syntax::Indent, Syntax::LCaret, Syntax::Word, Syntax::RCaret, Syntax::Word, Syntax::Semi, Syntax::LCaret, Syntax::Word, Syntax::RCaret, Syntax::Word, Syntax::Op, Syntax::Semi, Syntax::Dedent]);
}

#[test]
fn basic_nested_tag() {
    check(r#"
<main> <ul>
    <li> Kewl <b> beans
    <li> Very!
"#, &[Syntax::LCaret, Syntax::Word, Syntax::RCaret, Syntax::LCaret, Syntax::Word, Syntax::RCaret, Syntax::Indent, Syntax::LCaret, Syntax::Word, Syntax::RCaret, Syntax::Word, Syntax::LCaret, Syntax::Word, Syntax::RCaret, Syntax::Word, Syntax::Semi, Syntax::LCaret, Syntax::Word, Syntax::RCaret, Syntax::Word, Syntax::Op, Syntax::Semi, Syntax::Dedent]);
}

#[test]
fn nested_tag_and_code() {
    check(r#"
<main> <ul> for bean in beans
    <li> Kewl <b> bean
    <li> Very: <b> if 2 > 1
        <em> Nuty!
"#, &[Syntax::LCaret, Syntax::Word, Syntax::RCaret, Syntax::LCaret, Syntax::Word, Syntax::RCaret, Syntax::For, Syntax::Word, Syntax::In, Syntax::Word, Syntax::Indent, Syntax::LCaret, Syntax::Word, Syntax::RCaret, Syntax::Word, Syntax::LCaret, Syntax::Word, Syntax::RCaret, Syntax::Word, Syntax::Semi, Syntax::LCaret, Syntax::Word, Syntax::RCaret, Syntax::Word, Syntax::Colon, Syntax::LCaret, Syntax::Word, Syntax::RCaret, Syntax::If, Syntax::Number, Syntax::Op, Syntax::Number, Syntax::Indent, Syntax::LCaret, Syntax::Word, Syntax::RCaret, Syntax::Word, Syntax::Op, Syntax::Semi, Syntax::Dedent, Syntax::Dedent]);
}
