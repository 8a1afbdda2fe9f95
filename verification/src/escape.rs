//! HTML escaping of text values.

use vstd::prelude::*;

verus! {

/// Whether `c` is one of the six characters that escaping replaces.
pub open spec fn is_special(c: char) -> bool {
    c == '&' || c == '<' || c == '>' || c == '"' || c == '\'' || c == '/'
}

/// What stands for `c` in escaped text: an entity for each of the six special
/// characters, the character itself for any other.
pub open spec fn escaped_char(c: char) -> Seq<char> {
    if c == '&' {
        "&amp;"@
    } else if c == '<' {
        "&lt;"@
    } else if c == '>' {
        "&gt;"@
    } else if c == '"' {
        "&quot;"@
    } else if c == '\'' {
        "&#x27;"@
    } else if c == '/' {
        "&#x2f;"@
    } else {
        seq![c]
    }
}

/// `text` with every special character replaced by its entity, and every
/// other character kept.
pub open spec fn escaped(text: Seq<char>) -> Seq<char>
    decreases text.len(),
{
    if text.len() == 0 {
        Seq::empty()
    } else {
        escaped(text.drop_last()) + escaped_char(text.last())
    }
}

/// `v_htmlescape::escape_string`: appends to a buffer the text with `"`, `&`,
/// `'`, `/`, `<` and `>` replaced by `&quot;`, `&amp;`, `&#x27;`, `&#x2f;`,
/// `&lt;` and `&gt;`, and everything else as it is. Here the buffer starts
/// empty, so the result is the escaped text.
#[verifier::external_body]
fn escape_string(text: &str) -> (out: String)
    ensures
        out@ == escaped(text@),
{
    let mut out = String::new();
    v_htmlescape::escape_string(text, &mut out);
    out
}

/// Escapes `text` for HTML: each of `&`, `<`, `>`, `"`, `'` and `/` becomes
/// its entity, and everything else stays as it is.
pub fn escape(text: &str) -> (out: String)
    ensures
        out@ == escaped(text@),
{
    escape_string(text)
}

/// Escaping leaves text without special characters as it is.
pub proof fn lemma_escape_plain(text: Seq<char>)
    requires
        forall|i: int| 0 <= i < text.len() ==> !is_special(#[trigger] text[i]),
    ensures
        escaped(text) == text,
    decreases text.len(),
{
    if text.len() > 0 {
        let p = text.drop_last();
        assert forall|i: int| 0 <= i < p.len() implies !is_special(#[trigger] p[i]) by {
            assert(p[i] == text[i]);
        }
        lemma_escape_plain(p);
        assert(!is_special(text[text.len() - 1]));
        assert(p + seq![text.last()] =~= text);
    }
}

/// Whether `c` can open or close a tag or an attribute value.
pub open spec fn is_markup(c: char) -> bool {
    c == '<' || c == '>' || c == '"' || c == '\'' || c == '/'
}

/// Escaped text holds no character that can open or close a tag or an
/// attribute value: of the six special characters only `&` is left, at the
/// start of an entity.
pub proof fn lemma_escaped_is_safe(text: Seq<char>)
    ensures
        forall|i: int| 0 <= i < escaped(text).len() ==> !is_markup(#[trigger] escaped(text)[i]),
    decreases text.len(),
{
    if text.len() > 0 {
        lemma_escaped_is_safe(text.drop_last());
        let head = escaped(text.drop_last());
        let tail = escaped_char(text.last());
        reveal_strlit("&amp;");
        reveal_strlit("&lt;");
        reveal_strlit("&gt;");
        reveal_strlit("&quot;");
        reveal_strlit("&#x27;");
        reveal_strlit("&#x2f;");
        assert forall|j: int| 0 <= j < tail.len() implies !is_markup(#[trigger] tail[j]) by {}
        assert forall|i: int| 0 <= i < escaped(text).len() implies !is_markup(
            #[trigger] escaped(text)[i],
        ) by {
            if i < head.len() {
                assert(escaped(text)[i] == head[i]);
            } else {
                assert(escaped(text)[i] == tail[i - head.len()]);
            }
        }
    }
}

/// Escaping works character by character: the escaped form of two texts put
/// together is their escaped forms put together.
pub proof fn lemma_escape_concat(a: Seq<char>, b: Seq<char>)
    ensures
        escaped(a + b) == escaped(a) + escaped(b),
    decreases b.len(),
{
    if b.len() == 0 {
        assert(a + b =~= a);
        assert(escaped(a) + escaped(b) =~= escaped(a));
    } else {
        lemma_escape_concat(a, b.drop_last());
        assert((a + b).drop_last() =~= a + b.drop_last());
        assert((a + b).last() == b.last());
        assert((escaped(a) + escaped(b.drop_last())) + escaped_char(b.last()) =~= escaped(a) + (
        escaped(b.drop_last()) + escaped_char(b.last())));
    }
}

} // verus!
