//! The text pieces of the built-in SVG drawing: escaping labels for XML and
//! the stroke of each arrow style.
use vstd::prelude::*;
use crate::ast::Arrow;
use crate::text::{chars_of, replace, replace_all, string_of};

verus! {

/// `s` with `&`, `<`, `>` and `"` written as XML entities, in that order.
pub open spec fn xml_escaped(s: Seq<char>) -> Seq<char> {
    replace(replace(replace(replace(s, "&"@, "&amp;"@), "<"@, "&lt;"@), ">"@, "&gt;"@), "\""@, "&quot;"@)
}

/// Text made safe to stand in XML character data or an attribute value.
pub fn escape_xml(s: &str) -> (r: String)
    ensures
        r@ == xml_escaped(s@),
{
    proof {
        reveal_strlit("&");
        reveal_strlit("<");
        reveal_strlit(">");
        reveal_strlit("\"");
    }
    let v = chars_of(s);
    let a = replace_all(v.as_slice(), chars_of("&").as_slice(), chars_of("&amp;").as_slice());
    let b = replace_all(a.as_slice(), chars_of("<").as_slice(), chars_of("&lt;").as_slice());
    let c = replace_all(b.as_slice(), chars_of(">").as_slice(), chars_of("&gt;").as_slice());
    let d = replace_all(c.as_slice(), chars_of("\"").as_slice(), chars_of("&quot;").as_slice());
    string_of(d.as_slice())
}

/// How an arrow style is stroked: colour, dash pattern (empty for a solid
/// line), stroke width and the id of its arrowhead marker.
pub open spec fn stroke_of(arrow: Arrow) -> (Seq<char>, Seq<char>, Seq<char>, Seq<char>) {
    match arrow {
        Arrow::Normal => ("black"@, ""@, "1.5"@, "arr-normal"@),
        Arrow::Dotted => ("#555"@, "6 4"@, "1.5"@, "arr-dotted"@),
        Arrow::Thick => ("#333"@, ""@, "3"@, "arr-thick"@),
        Arrow::Circle => ("black"@, ""@, "1.5"@, "arr-circle"@),
        Arrow::Cross => ("black"@, ""@, "1.5"@, "arr-cross"@),
    }
}

/// The colour, dash pattern, stroke width and marker id of an arrow style.
pub fn arrow_style(arrow: Arrow) -> (r: (&'static str, &'static str, &'static str, &'static str))
    ensures
        (r.0@, r.1@, r.2@, r.3@) == stroke_of(arrow),
{
    match arrow {
        Arrow::Normal => ("black", "", "1.5", "arr-normal"),
        Arrow::Dotted => ("#555", "6 4", "1.5", "arr-dotted"),
        Arrow::Thick => ("#333", "", "3", "arr-thick"),
        Arrow::Circle => ("black", "", "1.5", "arr-circle"),
        Arrow::Cross => ("black", "", "1.5", "arr-cross"),
    }
}

} // verus!
