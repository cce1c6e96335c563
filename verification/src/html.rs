//! How an evaluated tag is written out as HTML.

use vstd::prelude::*;
use crate::builtin::joined;
use crate::text::{push_char, push_str, str_eq};
use crate::value::{Value, spec_display};

verus! {

/// The text of one attribute. In a `<form>`, an attribute named `GET`
/// or `POST` is the shorthand for the method and action; otherwise a
/// string value is quoted, a boolean one leaves the bare name, and any
/// other is written as it prints. All but the form shorthand end in a
/// space.
pub open spec fn attr_text(is_form: bool, name: Seq<char>, val: Value) -> Seq<char> {
    if is_form && (name == "GET"@ || name == "POST"@) {
        "method='"@ + name + "' action='"@ + spec_display(val) + "'"@
    } else {
        match val {
            Value::String(s) => name + "='"@ + s@ + "' "@,
            Value::Bool(_) => name + " "@,
            _ => name + "="@ + spec_display(val) + " "@,
        }
    }
}

/// The texts of the attributes, in order.
pub open spec fn attrs_text(is_form: bool, attrs: Seq<(Seq<char>, Value)>) -> Seq<char>
    decreases attrs.len(),
{
    if attrs.len() == 0 {
        Seq::empty()
    } else {
        attrs_text(is_form, attrs.drop_last()) + attr_text(is_form, attrs.last().0, attrs.last().1)
    }
}

/// Does an attribute set `href`?
pub open spec fn has_href(attrs: Seq<(Seq<char>, Value)>) -> bool {
    exists|i: int| 0 <= i < attrs.len() && #[trigger] attrs[i].0 == "href"@
}

/// The opening of a tag, up to but not including its closing `>`: the
/// name, the id when there is one, the classes when the tag names any
/// (only those given here, which are the truthy ones), the attributes,
/// and `href='#'` for a link that has none. Each part ends in a space.
pub open spec fn tag_head(
    name: Seq<char>,
    id: Option<Value>,
    has_classes: bool,
    classes: Seq<Value>,
    attrs: Seq<(Seq<char>, Value)>,
) -> Seq<char> {
    let id_text = match id {
        Some(v) => "id='"@ + spec_display(v) + "' "@,
        None => Seq::empty(),
    };
    let class_text = if has_classes {
        "class='"@ + joined(classes, seq![' ']) + "' "@
    } else {
        Seq::empty()
    };
    let href_text = if name == "a"@ && !has_href(attrs) {
        "href='#' "@
    } else {
        Seq::empty()
    };
    seq!['<'] + name + seq![' '] + id_text + class_text + attrs_text(name == "form"@, attrs)
        + href_text
}

/// `s` without one trailing space, if it ends in one.
pub open spec fn trim_space(s: Seq<char>) -> Seq<char> {
    if s.len() > 0 && s.last() == ' ' {
        s.drop_last()
    } else {
        s
    }
}

/// A whole tag: self-closing, or with its body and closing tag.
pub open spec fn tag_html(head: Seq<char>, name: Seq<char>, closed: bool, body: Seq<char>) -> Seq<char> {
    if closed {
        head + "/>\n"@
    } else {
        trim_space(head) + seq!['>'] + body + "</"@ + name + ">\n"@
    }
}

/// Writes the text of one attribute.
fn push_attr(out: &mut String, is_form: bool, name: &str, val: &Value)
    ensures
        final(out)@ == old(out)@ + attr_text(is_form, name@, *val),
{
    proof {
        reveal_strlit("GET");
        reveal_strlit("POST");
        reveal_strlit("method='");
        reveal_strlit("' action='");
        reveal_strlit("'");
        reveal_strlit("='");
        reveal_strlit("' ");
        reveal_strlit(" ");
        reveal_strlit("=");
    }
    if is_form && (str_eq(name, "GET") || str_eq(name, "POST")) {
        push_str(out, "method='");
        push_str(out, name);
        push_str(out, "' action='");
        let v = val.to_string();
        push_str(out, v.as_str());
        push_str(out, "'");
        assert(final(out)@ =~= old(out)@ + attr_text(is_form, name@, *val));
    } else {
        match val {
            Value::String(s) => {
                push_str(out, name);
                push_str(out, "='");
                push_str(out, s.as_str());
                push_str(out, "' ");
                assert(final(out)@ =~= old(out)@ + attr_text(is_form, name@, *val));
            },
            Value::Bool(_) => {
                push_str(out, name);
                push_str(out, " ");
                assert(final(out)@ =~= old(out)@ + attr_text(is_form, name@, *val));
            },
            _ => {
                push_str(out, name);
                push_str(out, "=");
                let v = val.to_string();
                push_str(out, v.as_str());
                push_str(out, " ");
                assert(final(out)@ =~= old(out)@ + attr_text(is_form, name@, *val));
            },
        }
    }
}

/// The views of the attribute names and values.
pub open spec fn attr_views(attrs: Seq<(String, Value)>) -> Seq<(Seq<char>, Value)> {
    attrs.map_values(|a: (String, Value)| (a.0@, a.1))
}

/// Writes the classes, separated by spaces.
fn push_classes(out: &mut String, classes: &[Value])
    ensures
        final(out)@ == old(out)@ + joined(classes@, seq![' ']),
{
    let mut i: usize = 0;
    while i < classes.len()
        invariant
            i <= classes@.len(),
            out@ == old(out)@ + joined(classes@.take(i as int), seq![' ']),
        decreases classes.len() - i,
    {
        if i > 0 {
            push_char(out, ' ');
        }
        let s = classes[i].to_string();
        push_str(out, s.as_str());
        proof {
            let t = classes@.take(i + 1);
            assert(t.drop_last() == classes@.take(i as int));
            assert(t.last() == classes@[i as int]);
            if i == 0 {
                assert(joined(classes@.take(0), seq![' ']) == Seq::<char>::empty());
            }
        }
        i += 1;
    }
    assert(classes@.take(classes@.len() as int) == classes@);
}

/// Writes the attributes; tells whether one of them is `href`.
fn push_attrs(out: &mut String, is_form: bool, attrs: &[(String, Value)]) -> (href: bool)
    ensures
        final(out)@ == old(out)@ + attrs_text(is_form, attr_views(attrs@)),
        href == has_href(attr_views(attrs@)),
{
    proof {
        reveal_strlit("href");
    }
    let mut href = false;
    let mut i: usize = 0;
    while i < attrs.len()
        invariant
            i <= attrs@.len(),
            out@ == old(out)@ + attrs_text(is_form, attr_views(attrs@).take(i as int)),
            href == has_href(attr_views(attrs@).take(i as int)),
        decreases attrs.len() - i,
    {
        push_attr(out, is_form, attrs[i].0.as_str(), &attrs[i].1);
        let is_href = str_eq(attrs[i].0.as_str(), "href");
        proof {
            let v = attr_views(attrs@);
            let t = v.take(i + 1);
            assert(t.drop_last() == v.take(i as int));
            assert(t.last() == v[i as int]);
            if is_href {
                assert(t[i as int].0 == "href"@);
            }
            if has_href(t) {
                let j = choose|j: int| 0 <= j < t.len() && #[trigger] t[j].0 == "href"@;
                if j < i {
                    assert(v.take(i as int)[j].0 == "href"@);
                }
            }
            if has_href(v.take(i as int)) {
                let j = choose|j: int| 0 <= j < i && #[trigger] v.take(i as int)[j].0 == "href"@;
                assert(t[j].0 == "href"@);
            }
        }
        href = href || is_href;
        i += 1;
    }
    assert(attr_views(attrs@).take(attrs@.len() as int) == attr_views(attrs@));
    href
}

/// The opening of a tag; see `tag_head`.
pub fn write_head(
    name: &str,
    id: &Option<Value>,
    has_classes: bool,
    classes: &[Value],
    attrs: &[(String, Value)],
) -> (r: String)
    ensures
        r@ == tag_head(name@, *id, has_classes, classes@, attr_views(attrs@)),
{
    proof {
        reveal_strlit("id='");
        reveal_strlit("' ");
        reveal_strlit("class='");
        reveal_strlit("a");
        reveal_strlit("form");
        reveal_strlit("href='#' ");
    }
    let mut out = String::new();
    push_char(&mut out, '<');
    push_str(&mut out, name);
    push_char(&mut out, ' ');
    match id {
        Some(v) => {
            push_str(&mut out, "id='");
            let s = v.to_string();
            push_str(&mut out, s.as_str());
            push_str(&mut out, "' ");
        },
        None => {},
    }
    if has_classes {
        push_str(&mut out, "class='");
        push_classes(&mut out, classes);
        push_str(&mut out, "' ");
    }
    let ghost after_classes = out@;
    let is_form = str_eq(name, "form");
    let href = push_attrs(&mut out, is_form, attrs);
    if str_eq(name, "a") && !href {
        push_str(&mut out, "href='#' ");
    }
    proof {
        let vs = attr_views(attrs@);
        let href_text = if name@ == "a"@ && !has_href(vs) {
            "href='#' "@
        } else {
            Seq::<char>::empty()
        };
        assert(out@ =~= after_classes + attrs_text(is_form, vs) + href_text);
        let id_text = match id {
            Some(v) => "id='"@ + spec_display(*v) + "' "@,
            None => Seq::<char>::empty(),
        };
        let class_text = if has_classes {
            "class='"@ + joined(classes@, seq![' ']) + "' "@
        } else {
            Seq::<char>::empty()
        };
        assert(after_classes =~= seq!['<'] + name@ + seq![' '] + id_text + class_text);
    }
    out
}

/// A whole tag; see `tag_html`.
pub fn write_tag(head: String, name: &str, closed: bool, body: &str) -> (r: String)
    ensures
        r@ == tag_html(head@, name@, closed, body@),
{
    proof {
        reveal_strlit("/>\n");
        reveal_strlit("</");
        reveal_strlit(">\n");
    }
    let mut out = head;
    if closed {
        push_str(&mut out, "/>\n");
        return out;
    }
    let chars = crate::text::str_to_chars(out.as_str());
    let n = chars.len();
    let mut out = if n > 0 && chars[n - 1] == ' ' {
        crate::text::chars_to_string(chars.as_slice(), 0, n - 1)
    } else {
        out
    };
    assert(out@ == trim_space(head@)) by {
        if n > 0 && chars@[n - 1] == ' ' {
            assert(chars@.subrange(0, n - 1) =~= head@.drop_last());
        }
    }
    push_char(&mut out, '>');
    push_str(&mut out, body);
    push_str(&mut out, "</");
    push_str(&mut out, name);
    push_str(&mut out, ">\n");
    out
}

} // verus!
