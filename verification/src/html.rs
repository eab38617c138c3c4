//! The pure parts of the HTML rendering: tagging a fragment and framing a
//! page body between the fixed header and footer.

use vstd::prelude::*;
use vstd::string::*;

verus! {

/// The fixed page header, up to and including the page heading.
pub const HEADER: &'static str =
    r#"<!DOCTYPE html><html><head><meta name=viewport content="width=device-width, initial-scale=1.0"><meta name=keywords content="actix-drop"><meta name=author content=@artnoi><meta charset=UTF-8><link href=https://artnoi.com/style.css rel=stylesheet><title>actix-drop</title></head><body><h1><a href="/">actix-drop</a></h1>"#;

/// The fixed page footer, closing the body.
pub const FOOTER: &'static str =
    r#"<footer><p><a href="https://github.com/artnoi43/actix-drop">Contribute on Github</a></p></footer></body></html>"#;

/// `s` framed between [`HEADER`] and [`FOOTER`].
pub fn wrap_html(s: &str) -> (r: String)
    ensures
        r@ == HEADER@ + s@ + FOOTER@,
{
    let mut out = HEADER.to_owned();
    out.append(s);
    out.append(FOOTER);
    out
}

/// `val` framed in an opening and closing `key` tag.
pub open spec fn tag_chars(key: Seq<char>, val: Seq<char>) -> Seq<char> {
    seq!['<'].add(key).add(seq!['>']).add(val).add(seq!['<', '/']).add(key).add(seq!['>'])
}

/// Renders `val` inside a `key` element.
pub fn tag_html(key: &str, val: &str) -> (r: String)
    ensures
        r@ == tag_chars(key@, val@),
{
    let mut out = String::from_str("<");
    out.append(key);
    out.append(">");
    out.append(val);
    out.append("</");
    out.append(key);
    out.append(">");
    proof {
        reveal_strlit("<");
        reveal_strlit(">");
        reveal_strlit("</");
        assert("<"@ =~= seq!['<']);
        assert(">"@ =~= seq!['>']);
        assert("</"@ =~= seq!['<', '/']);
        assert(out@ =~= tag_chars(key@, val@));
    }
    out
}

/// Renders `val` as a paragraph.
pub fn para(val: &str) -> (r: String)
    ensures
        r@ == tag_chars("p"@, val@),
{
    tag_html("p", val)
}

/// Renders `val` as inline code.
pub fn code(val: &str) -> (r: String)
    ensures
        r@ == tag_chars("code"@, val@),
{
    tag_html("code", val)
}

} // verus!
