//! The name scanner: a run of tokens with no whitespace between them, read
//! as one tag name.

use crate::item::{Name, NameView};
use crate::span::{gap, spec_gap, SpanPos};
use crate::token::{views, TokenTree, TokenTreeView, TokenView};
use vstd::prelude::*;
use vstd::string::StringExecFns;

verus! {

/// Whether `c` has the Unicode property `Alphabetic`, as `char::is_alphabetic`
/// tells it.
pub uninterp spec fn alphabetic(c: char) -> bool;

/// `char::is_alphabetic`: the answer for `c` depends on `c` alone.
#[verifier::external_body]
pub(crate) fn is_alphabetic(c: char) -> (r: bool)
    ensures
        r == alphabetic(c),
{
    c.is_alphabetic()
}

/// Whether a token that starts with `first` may be a further part of a name,
/// `letter` telling whether `first` is alphabetic: it must start with a letter
/// or with `/`.
pub open spec fn starts_part(first: char, letter: bool) -> bool {
    letter || first == '/'
}

/// Whether a token `t` carries on a name whose last token ended at
/// `prev_end`: it follows without a gap, and starts with a letter or `/`.
pub open spec fn continues_name(prev_end: usize, t: TokenView) -> bool {
    &&& !spec_gap(prev_end as int, t.span.start as int)
    &&& t.text.len() > 0
    &&& starts_part(t.text[0], alphabetic(t.text[0]))
}

/// The position after the name whose last token so far is at `last`.
pub open spec fn name_end(ts: Seq<TokenTreeView>, last: int) -> int
    decreases ts.len() - last,
{
    if 0 <= last && last + 1 < ts.len() && continues_name(
        ts[last].token.span.end,
        ts[last + 1].token,
    ) {
        name_end(ts, last + 1)
    } else {
        last + 1
    }
}

/// The texts of the tokens at `from..to`, one after the other.
pub open spec fn joined(ts: Seq<TokenTreeView>, from: int, to: int) -> Seq<char>
    decreases to - from,
{
    if to <= from {
        Seq::empty()
    } else {
        joined(ts, from, to - 1) + ts[to - 1].token.text
    }
}

/// The name that starts with the token at `pos`.
pub open spec fn scanned_name(ts: Seq<TokenTreeView>, pos: int) -> NameView {
    let end = name_end(ts, pos);
    NameView {
        value: joined(ts, pos, end),
        span_pos: SpanPos { start: ts[pos].token.span.start, end: ts[end - 1].token.span.end },
    }
}

/// A name takes at least its first token and never runs past the stream.
pub proof fn lemma_name_end_bounds(ts: Seq<TokenTreeView>, last: int)
    requires
        0 <= last < ts.len(),
    ensures
        last < name_end(ts, last) <= ts.len(),
    decreases ts.len() - last,
{
    if last + 1 < ts.len() && continues_name(ts[last].token.span.end, ts[last + 1].token) {
        lemma_name_end_bounds(ts, last + 1);
    }
}

/// A name is maximal: every token in it but the first carries it on, and the
/// token after it, if there is one, does not.
pub proof fn lemma_name_maximal(ts: Seq<TokenTreeView>, last: int)
    requires
        0 <= last < ts.len(),
    ensures
        forall|k: int|
            last < k < name_end(ts, last) ==> continues_name(
                ts[k - 1].token.span.end,
                #[trigger] ts[k].token,
            ),
        name_end(ts, last) < ts.len() ==> !continues_name(
            ts[name_end(ts, last) - 1].token.span.end,
            ts[name_end(ts, last)].token,
        ),
    decreases ts.len() - last,
{
    if last + 1 < ts.len() && continues_name(ts[last].token.span.end, ts[last + 1].token) {
        lemma_name_maximal(ts, last + 1);
    }
}

fn carries_on(tokens: &Vec<TokenTree>, prev_end: usize, next: usize) -> (r: bool)
    ensures
        r == (next < tokens.len() && continues_name(prev_end, views(tokens@)[next as int].token)),
{
    if next >= tokens.len() {
        return false;
    }
    let t = &tokens[next].token;
    if gap(prev_end, t.span.start) {
        return false;
    }
    let s = t.text.as_str();
    if s.unicode_len() == 0 {
        return false;
    }
    let first = s.get_char(0);
    Name::accepts(first, is_alphabetic(first))
}

impl Name {
    /// Tells whether a token that starts with `first` may be a further part
    /// of a name, given in `letter` whether `first` is alphabetic.
    pub fn accepts(first: char, letter: bool) -> (r: bool)
        ensures
            r == starts_part(first, letter),
    {
        letter || first == '/'
    }

    /// Reads the name that starts with the token at `pos`.
    ///
    /// The first token is taken whatever it is. Each further token is taken as
    /// long as it follows the one before without a gap and starts with a
    /// letter or `/`. Returns the name and the position after its last token.
    pub fn parse(tokens: &Vec<TokenTree>, pos: usize) -> (r: (Name, usize))
        requires
            pos < tokens.len(),
        ensures
            r.0@ == scanned_name(views(tokens@), pos as int),
            r.1 == name_end(views(tokens@), pos as int),
            pos < r.1 <= tokens.len(),
    {
        let ghost ts = views(tokens@);
        let mut value = tokens[pos].token.text.clone();
        let mut span_pos = tokens[pos].token.span;
        let mut next = pos + 1;
        proof {
            lemma_name_end_bounds(ts, pos as int);
            assert(joined(ts, pos as int, pos as int) =~= Seq::<char>::empty());
            assert(value@ =~= joined(ts, pos as int, next as int));
        }
        let mut more = carries_on(tokens, span_pos.end, next);
        while more
            invariant
                ts == views(tokens@),
                pos < next <= tokens.len(),
                name_end(ts, next - 1) == name_end(ts, pos as int),
                value@ == joined(ts, pos as int, next as int),
                span_pos.start == ts[pos as int].token.span.start,
                span_pos.end == ts[next - 1].token.span.end,
                more == (next < tokens.len() && continues_name(span_pos.end, ts[next as int].token)),
            decreases tokens.len() - next,
        {
            let t = &tokens[next].token;
            span_pos.move_end(t.span);
            value.append(t.text.as_str());
            next += 1;
            more = carries_on(tokens, span_pos.end, next);
        }
        (Name { value, span_pos }, next)
    }
}

} // verus!
