//! The tags around which whitespace carries no meaning.

use vstd::prelude::*;

verus! {

/// Whether two texts hold the same characters.
pub fn text_eq(a: &str, b: &str) -> (r: bool)
    ensures
        r == (a@ == b@),
{
    let x = String::from_str(a);
    let y = String::from_str(b);
    x == y
}

/// Whether `name` is a tag whose surrounding whitespace is dropped: the
/// block-level elements of HTML and the document's own structure.
pub open spec fn is_insensitive(name: Seq<char>) -> bool {
    ||| name == "!doctype"@
    ||| name == "address"@
    ||| name == "article"@
    ||| name == "aside"@
    ||| name == "blockquote"@
    ||| name == "body"@
    ||| name == "br"@
    ||| name == "caption"@
    ||| name == "col"@
    ||| name == "colgroup"@
    ||| name == "dd"@
    ||| name == "div"@
    ||| name == "dl"@
    ||| name == "dt"@
    ||| name == "embed"@
    ||| name == "fieldset"@
    ||| name == "figcaption"@
    ||| name == "figure"@
    ||| name == "footer"@
    ||| name == "form"@
    ||| name == "h1"@
    ||| name == "h2"@
    ||| name == "h3"@
    ||| name == "h4"@
    ||| name == "h5"@
    ||| name == "h6"@
    ||| name == "head"@
    ||| name == "header"@
    ||| name == "hgroup"@
    ||| name == "hr"@
    ||| name == "html"@
    ||| name == "li"@
    ||| name == "main"@
    ||| name == "meta"@
    ||| name == "nav"@
    ||| name == "noscript"@
    ||| name == "ol"@
    ||| name == "output"@
    ||| name == "p"@
    ||| name == "pre"@
    ||| name == "section"@
    ||| name == "style"@
    ||| name == "table"@
    ||| name == "tbody"@
    ||| name == "td"@
    ||| name == "tfoot"@
    ||| name == "th"@
    ||| name == "thead"@
    ||| name == "title"@
    ||| name == "tr"@
    ||| name == "ul"@
}

/// Tells whether whitespace around the tag `name` is dropped.
pub fn whitespace_insensitive(name: &str) -> (r: bool)
    ensures
        r == is_insensitive(name@),
{
    text_eq(name, "!doctype") || text_eq(name, "address") || text_eq(name, "article") || text_eq(
        name,
        "aside",
    ) || text_eq(name, "blockquote") || text_eq(name, "body") || text_eq(name, "br") || text_eq(
        name,
        "caption",
    ) || text_eq(name, "col") || text_eq(name, "colgroup") || text_eq(name, "dd") || text_eq(
        name,
        "div",
    ) || text_eq(name, "dl") || text_eq(name, "dt") || text_eq(name, "embed") || text_eq(
        name,
        "fieldset",
    ) || text_eq(name, "figcaption") || text_eq(name, "figure") || text_eq(name, "footer")
        || text_eq(name, "form") || text_eq(name, "h1") || text_eq(name, "h2") || text_eq(
        name,
        "h3",
    ) || text_eq(name, "h4") || text_eq(name, "h5") || text_eq(name, "h6") || text_eq(
        name,
        "head",
    ) || text_eq(name, "header") || text_eq(name, "hgroup") || text_eq(name, "hr") || text_eq(
        name,
        "html",
    ) || text_eq(name, "li") || text_eq(name, "main") || text_eq(name, "meta") || text_eq(
        name,
        "nav",
    ) || text_eq(name, "noscript") || text_eq(name, "ol") || text_eq(name, "output") || text_eq(
        name,
        "p",
    ) || text_eq(name, "pre") || text_eq(name, "section") || text_eq(name, "style") || text_eq(
        name,
        "table",
    ) || text_eq(name, "tbody") || text_eq(name, "td") || text_eq(name, "tfoot") || text_eq(
        name,
        "th",
    ) || text_eq(name, "thead") || text_eq(name, "title") || text_eq(name, "tr") || text_eq(
        name,
        "ul",
    )
}

} // verus!
