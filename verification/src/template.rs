//! Whitespace normalisation: from the parsed items to the final sequence of
//! literals and directives.

use crate::item::{Braced, BracedView, Item, ItemElement, ItemElementView, ItemView};
use crate::span::{gap, spec_gap};
use crate::tags::{is_insensitive, whitespace_insensitive};
use crate::text::{
    append_chars, chars_of, collapse, collapsed, is_collapsed, is_space, lemma_collapsed_shape,
    lemma_trimmed_end_shape, lemma_trimmed_start_shape, string_of, trim_end, trim_start,
    trimmed_end, trimmed_start,
};
use crate::token::views;
use vstd::prelude::*;

verus! {

/// One element of a normalised template.
#[derive(Clone, Debug, PartialEq, Eq)]
pub enum Piece {
    /// Text to write as it stands.
    Literal(String),
    /// A directive, passed through untouched.
    Directive(Braced),
}

/// An element of a normalised template as a mathematical value.
pub enum PieceView {
    Literal(Seq<char>),
    Directive(BracedView),
}

impl View for Piece {
    type V = PieceView;

    open spec fn view(&self) -> PieceView {
        match self {
            Piece::Literal(l) => PieceView::Literal(l@),
            Piece::Directive(b) => PieceView::Directive(b@),
        }
    }
}

/// A normalised template: literals and directives in the order in which they
/// are written.
#[derive(Clone, Debug, PartialEq, Eq)]
pub struct Template {
    pub items: Vec<Piece>,
}

impl View for Template {
    type V = Seq<PieceView>;

    open spec fn view(&self) -> Seq<PieceView> {
        views(self.items@)
    }
}

/// The normaliser's registers between two items.
pub struct NormState {
    /// The pieces finished so far.
    pub done: Seq<PieceView>,
    /// The literal text gathered since the last directive.
    pub out: Seq<char>,
    /// Whether the tag named last is whitespace-insensitive.
    pub loose: bool,
    /// Whether a gap before the next item is to be dropped.
    pub skip: bool,
    /// Where the previous item ended.
    pub prev_end: usize,
}

/// The registers before the first item: nothing gathered, and a gap before
/// the first item is dropped.
pub open spec fn norm_start() -> NormState {
    NormState { done: Seq::empty(), out: Seq::empty(), loose: false, skip: true, prev_end: 0 }
}

/// `out` with one space added when a gap precedes an item that starts at
/// `start` and the gap is not to be dropped.
pub open spec fn with_gap(s: NormState, start: usize) -> Seq<char> {
    if !s.skip && spec_gap(s.prev_end as int, start as int) {
        s.out.push(' ')
    } else {
        s.out
    }
}

/// `done` followed by the gathered text as one collapsed literal, or `done`
/// alone when no text was gathered.
pub open spec fn flushed(done: Seq<PieceView>, out: Seq<char>) -> Seq<PieceView> {
    if out.len() > 0 {
        done.push(PieceView::Literal(collapsed(out)))
    } else {
        done
    }
}

/// The gathered text as a tag named `name` finds it: without its trailing
/// whitespace when the tag is whitespace-insensitive, untouched otherwise.
pub open spec fn before_tag(out: Seq<char>, name: Seq<char>) -> Seq<char> {
    if is_insensitive(name) {
        trimmed_end(out)
    } else {
        out
    }
}

/// The registers after one more item.
pub open spec fn norm_step(s: NormState, item: ItemView) -> NormState {
    let lead = with_gap(s, item.span_pos.start);
    let end = item.span_pos.end;
    match item.element {
        ItemElementView::Literal(l) => NormState {
            done: s.done,
            out: lead + l,
            loose: s.loose,
            skip: false,
            prev_end: end,
        },
        ItemElementView::Braced(b) => NormState {
            done: flushed(s.done, lead).push(PieceView::Directive(b)),
            out: Seq::empty(),
            loose: s.loose,
            skip: false,
            prev_end: end,
        },
        ItemElementView::StartOpenTag(n) => NormState {
            done: s.done,
            out: before_tag(lead, n.value) + seq!['<'] + n.value,
            loose: is_insensitive(n.value),
            skip: false,
            prev_end: end,
        },
        ItemElementView::StartCloseTag(n) => NormState {
            done: s.done,
            out: before_tag(lead, n.value) + seq!['<', '/'] + n.value,
            loose: is_insensitive(n.value),
            skip: false,
            prev_end: end,
        },
        ItemElementView::EndTag => NormState {
            done: s.done,
            out: lead.push('>'),
            loose: s.loose,
            skip: s.loose,
            prev_end: end,
        },
    }
}

/// The registers after all of `items`, taken in order.
pub open spec fn norm_run(items: Seq<ItemView>) -> NormState
    decreases items.len(),
{
    if items.len() == 0 {
        norm_start()
    } else {
        norm_step(norm_run(items.drop_last()), items.last())
    }
}

/// `pieces` without the whitespace that opens the template.
pub open spec fn strip_first(pieces: Seq<PieceView>) -> Seq<PieceView> {
    if pieces.len() > 0 && pieces.first() is Literal {
        let t = trimmed_start(pieces.first()->Literal_0);
        if t.len() == 0 {
            pieces.drop_first()
        } else {
            pieces.update(0, PieceView::Literal(t))
        }
    } else {
        pieces
    }
}

/// `pieces` without the whitespace that closes the template.
pub open spec fn strip_last(pieces: Seq<PieceView>) -> Seq<PieceView> {
    if pieces.len() > 0 && pieces.last() is Literal {
        let t = trimmed_end(pieces.last()->Literal_0);
        if t.len() == 0 {
            pieces.drop_last()
        } else {
            pieces.update(pieces.len() - 1, PieceView::Literal(t))
        }
    } else {
        pieces
    }
}

/// The normalised template of `items`: the items run through the registers,
/// the remaining text flushed, and the whitespace at the two ends of the
/// template removed.
pub open spec fn normalized(items: Seq<ItemView>) -> Seq<PieceView> {
    let s = norm_run(items);
    strip_last(strip_first(flushed(s.done, s.out)))
}

/// Whether a literal stands directly before the piece at `i`.
pub open spec fn literal_before(pieces: Seq<PieceView>, i: int) -> bool {
    pieces[i - 1] is Literal
}

/// Whether every literal of `pieces` holds text, with whitespace only as
/// single spaces, and no literal follows another.
pub open spec fn tidy(pieces: Seq<PieceView>) -> bool {
    &&& forall|i: int|
        0 <= i < pieces.len() && (#[trigger] pieces[i]) is Literal ==> pieces[i]->Literal_0.len()
            > 0 && is_collapsed(pieces[i]->Literal_0)
    &&& forall|i: int|
        0 < i < pieces.len() && pieces[i] is Literal ==> !#[trigger] literal_before(pieces, i)
}

/// What holds of every normalised template: its literals are tidy, and it
/// neither starts nor ends in whitespace.
pub open spec fn well_formed(pieces: Seq<PieceView>) -> bool {
    &&& tidy(pieces)
    &&& pieces.len() > 0 && pieces.first() is Literal ==> !is_space(
        pieces.first()->Literal_0.first(),
    )
    &&& pieces.len() > 0 && pieces.last() is Literal ==> !is_space(pieces.last()->Literal_0.last())
}

proof fn lemma_collapsed_part(s: Seq<char>, from: int, to: int)
    requires
        is_collapsed(s),
        0 <= from <= to <= s.len(),
    ensures
        is_collapsed(s.subrange(from, to)),
{
    let t = s.subrange(from, to);
    assert forall|i: int| 0 <= i < t.len() && is_space(#[trigger] t[i]) implies t[i] == ' ' by {
        assert(t[i] == s[from + i]);
    }
    assert forall|i: int| 0 <= i < t.len() - 1 && is_space(#[trigger] t[i]) implies !is_space(
        t[i + 1],
    ) by {
        assert(t[i] == s[from + i]);
        assert(t[i + 1] == s[from + i + 1]);
    }
}

/// The pieces finished while the items run are tidy, and the last of them is
/// a directive: text is flushed only when a directive follows it.
pub proof fn lemma_done_shape(items: Seq<ItemView>)
    ensures
        tidy(norm_run(items).done),
        norm_run(items).done.len() > 0 ==> norm_run(items).done.last() is Directive,
    decreases items.len(),
{
    if items.len() > 0 {
        let s = norm_run(items.drop_last());
        lemma_done_shape(items.drop_last());
        let item = items.last();
        if item.element is Braced {
            let lead = with_gap(s, item.span_pos.start);
            let f = flushed(s.done, lead);
            lemma_collapsed_shape(lead);
            let d = norm_run(items).done;
            assert(d == f.push(PieceView::Directive(item.element->Braced_0)));
            assert forall|i: int| 0 <= i < d.len() && (#[trigger] d[i]) is Literal implies d[i]->Literal_0.len()
                > 0 && is_collapsed(d[i]->Literal_0) by {
                if i < s.done.len() {
                    assert(d[i] == s.done[i]);
                }
            }
            assert forall|i: int| 0 < i < d.len() && d[i] is Literal implies !#[trigger] literal_before(
                d,
                i,
            ) by {
                if i < s.done.len() {
                    assert(d[i] == s.done[i]);
                    assert(d[i - 1] == s.done[i - 1]);
                    assert(!literal_before(s.done, i));
                } else {
                    assert(i == s.done.len());
                    assert(d[i - 1] == s.done.last());
                }
            }
        }
    }
}

proof fn lemma_flushed_tidy(done: Seq<PieceView>, out: Seq<char>)
    requires
        tidy(done),
        done.len() > 0 ==> done.last() is Directive,
    ensures
        tidy(flushed(done, out)),
{
    let f = flushed(done, out);
    lemma_collapsed_shape(out);
    assert forall|i: int| 0 <= i < f.len() && (#[trigger] f[i]) is Literal implies f[i]->Literal_0.len()
        > 0 && is_collapsed(f[i]->Literal_0) by {
        if i < done.len() {
            assert(f[i] == done[i]);
        }
    }
    assert forall|i: int| 0 < i < f.len() && f[i] is Literal implies !#[trigger] literal_before(
        f,
        i,
    ) by {
        if i < done.len() {
            assert(f[i] == done[i]);
            assert(f[i - 1] == done[i - 1]);
            assert(!literal_before(done, i));
        } else {
            assert(f[i - 1] == done.last());
        }
    }
}

proof fn lemma_strip_first_tidy(p: Seq<PieceView>)
    requires
        tidy(p),
    ensures
        tidy(strip_first(p)),
        strip_first(p).len() > 0 && strip_first(p).first() is Literal ==> !is_space(
            strip_first(p).first()->Literal_0.first(),
        ),
{
    let q = strip_first(p);
    if p.len() > 0 && p.first() is Literal {
        let c = p.first()->Literal_0;
        let t = trimmed_start(c);
        lemma_trimmed_start_shape(c);
        lemma_collapsed_part(c, c.len() - t.len(), c.len() as int);
        assert(c.skip(c.len() - t.len()) =~= c.subrange(c.len() - t.len(), c.len() as int));
        if t.len() == 0 {
            assert forall|i: int| 0 <= i < q.len() && (#[trigger] q[i]) is Literal implies q[i]->Literal_0.len()
                > 0 && is_collapsed(q[i]->Literal_0) by {
                assert(q[i] == p[i + 1]);
            }
            assert forall|i: int| 0 < i < q.len() && q[i] is Literal implies !#[trigger] literal_before(
                q,
                i,
            ) by {
                assert(q[i] == p[i + 1]);
                assert(q[i - 1] == p[i]);
                assert(!literal_before(p, i + 1));
            }
            if q.len() > 0 {
                assert(q[0] == p[1]);
                assert(p[1] is Literal ==> !literal_before(p, 1));
            }
        } else {
            assert forall|i: int| 0 <= i < q.len() && (#[trigger] q[i]) is Literal implies q[i]->Literal_0.len()
                > 0 && is_collapsed(q[i]->Literal_0) by {
                if i > 0 {
                    assert(q[i] == p[i]);
                }
            }
            assert forall|i: int| 0 < i < q.len() && q[i] is Literal implies !#[trigger] literal_before(
                q,
                i,
            ) by {
                assert(q[i] == p[i]);
                assert(!literal_before(p, i));
                if i > 1 {
                    assert(q[i - 1] == p[i - 1]);
                }
            }
        }
    }
}

proof fn lemma_strip_last_tidy(p: Seq<PieceView>)
    requires
        tidy(p),
        p.len() > 0 && p.first() is Literal ==> !is_space(p.first()->Literal_0.first()),
    ensures
        well_formed(strip_last(p)),
{
    let q = strip_last(p);
    if p.len() > 0 && p.last() is Literal {
        let c = p.last()->Literal_0;
        let t = trimmed_end(c);
        let n = p.len() - 1;
        lemma_trimmed_end_shape(c);
        lemma_collapsed_part(c, 0, t.len() as int);
        assert(t =~= c.subrange(0, t.len() as int));
        if t.len() == 0 {
            assert forall|i: int| 0 <= i < q.len() && (#[trigger] q[i]) is Literal implies q[i]->Literal_0.len()
                > 0 && is_collapsed(q[i]->Literal_0) by {
                assert(q[i] == p[i]);
            }
            assert forall|i: int| 0 < i < q.len() && q[i] is Literal implies !#[trigger] literal_before(
                q,
                i,
            ) by {
                assert(q[i] == p[i]);
                assert(q[i - 1] == p[i - 1]);
                assert(!literal_before(p, i));
            }
            if q.len() > 0 {
                assert(q.first() == p.first());
                assert(q.last() == p[n - 1]);
                assert(!literal_before(p, n));
            }
        } else {
            assert forall|i: int| 0 <= i < q.len() && (#[trigger] q[i]) is Literal implies q[i]->Literal_0.len()
                > 0 && is_collapsed(q[i]->Literal_0) by {
                if i < n {
                    assert(q[i] == p[i]);
                }
            }
            assert forall|i: int| 0 < i < q.len() && q[i] is Literal implies !#[trigger] literal_before(
                q,
                i,
            ) by {
                if i < n {
                    assert(q[i] == p[i]);
                }
                assert(q[i - 1] == p[i - 1]);
                assert(!literal_before(p, i));
            }
            if n == 0 {
                assert(t.first() == c.first());
            } else {
                assert(q.first() == p.first());
            }
        }
    }
}

/// A normalised template is well formed: every literal holds text, whitespace
/// occurs in it only as single spaces, no literal follows another, and the
/// template neither starts nor ends in whitespace.
pub proof fn lemma_normalized_well_formed(items: Seq<ItemView>)
    ensures
        well_formed(normalized(items)),
{
    let s = norm_run(items);
    lemma_done_shape(items);
    lemma_flushed_tidy(s.done, s.out);
    lemma_strip_first_tidy(flushed(s.done, s.out));
    lemma_strip_last_tidy(strip_first(flushed(s.done, s.out)));
}

proof fn lemma_views_push<T: View>(s: Seq<T>, x: T)
    ensures
        views(s.push(x)) == views(s).push(x@),
{
    assert(views(s.push(x)) =~= views(s).push(x@));
}

fn flush(done: &mut Vec<Piece>, out: &Vec<char>)
    ensures
        views(final(done)@) == flushed(views(old(done)@), out@),
{
    if out.len() > 0 {
        let text = string_of(&collapse(out));
        proof {
            lemma_views_push(done@, Piece::Literal(text));
        }
        done.push(Piece::Literal(text));
    }
}

fn strip_ends(pieces: &mut Vec<Piece>)
    ensures
        views(final(pieces)@) == strip_last(strip_first(views(old(pieces)@))),
{
    let ghost start = views(pieces@);
    if pieces.len() > 0 {
        let kept: Option<Vec<char>> = match &pieces[0] {
            Piece::Literal(l) => Some(trim_start(&chars_of(l.as_str()))),
            Piece::Directive(_) => None,
        };
        if let Some(t) = kept {
            if t.len() == 0 {
                pieces.remove(0);
                assert(views(pieces@) =~= start.drop_first());
            } else {
                pieces.set(0, Piece::Literal(string_of(&t)));
                assert(views(pieces@) =~= start.update(0, PieceView::Literal(t@)));
            }
        }
    }
    assert(views(pieces@) == strip_first(start));
    let ghost mid = views(pieces@);
    if pieces.len() > 0 {
        let last = pieces.len() - 1;
        let kept: Option<Vec<char>> = match &pieces[last] {
            Piece::Literal(l) => {
                let mut t = chars_of(l.as_str());
                trim_end(&mut t);
                Some(t)
            },
            Piece::Directive(_) => None,
        };
        if let Some(t) = kept {
            if t.len() == 0 {
                pieces.pop();
                assert(views(pieces@) =~= mid.drop_last());
            } else {
                pieces.set(last, Piece::Literal(string_of(&t)));
                assert(views(pieces@) =~= mid.update(last as int, PieceView::Literal(t@)));
            }
        }
    }
}

impl Template {
    /// Normalises a sequence of parsed items.
    ///
    /// Neighbouring text is merged into one literal, with one space wherever
    /// the source had a gap; whitespace next to a whitespace-insensitive tag
    /// and at the two ends of the template is dropped; every run of whitespace
    /// left in a literal becomes a single space. Directives are passed through
    /// as they are.
    pub fn normalize(items: &Vec<Item>) -> (t: Template)
        ensures
            t@ == normalized(views(items@)),
            well_formed(t@),
    {
        proof {
            lemma_normalized_well_formed(views(items@));
        }
        let ghost all = views(items@);
        let mut done: Vec<Piece> = Vec::new();
        let mut out: Vec<char> = Vec::new();
        let mut loose = false;
        let mut skip = true;
        let mut prev_end: usize = 0;
        let mut i: usize = 0;
        proof {
            assert(views(done@) =~= Seq::<PieceView>::empty());
        }
        while i < items.len()
            invariant
                0 <= i <= items.len(),
                all == views(items@),
                norm_run(all.take(i as int)) == (NormState {
                    done: views(done@),
                    out: out@,
                    loose,
                    skip,
                    prev_end,
                }),
            decreases items.len() - i,
        {
            let item = &items[i];
            proof {
                let t = all.take(i as int + 1);
                assert(t.drop_last() =~= all.take(i as int));
                assert(t.last() == item@);
            }
            if !skip && gap(prev_end, item.span_pos.start) {
                out.push(' ');
            }
            prev_end = item.span_pos.end;
            skip = false;
            match &item.element {
                ItemElement::Literal(l) => {
                    let cs = chars_of(l.as_str());
                    append_chars(&mut out, &cs);
                },
                ItemElement::Braced(b) => {
                    flush(&mut done, &out);
                    out = Vec::new();
                    let d = Piece::Directive(
                        Braced { directive: b.directive, expr: b.expr.clone() },
                    );
                    proof {
                        lemma_views_push(done@, d);
                    }
                    done.push(d);
                    assert(out@ =~= Seq::<char>::empty());
                },
                ItemElement::StartOpenTag(n) => {
                    loose = whitespace_insensitive(n.value.as_str());
                    if loose {
                        trim_end(&mut out);
                    }
                    let ghost base = out@;
                    out.push('<');
                    let cs = chars_of(n.value.as_str());
                    append_chars(&mut out, &cs);
                    assert(out@ =~= base + seq!['<'] + n.value@);
                },
                ItemElement::StartCloseTag(n) => {
                    loose = whitespace_insensitive(n.value.as_str());
                    if loose {
                        trim_end(&mut out);
                    }
                    let ghost base = out@;
                    out.push('<');
                    out.push('/');
                    let cs = chars_of(n.value.as_str());
                    append_chars(&mut out, &cs);
                    assert(out@ =~= base + seq!['<', '/'] + n.value@);
                },
                ItemElement::EndTag => {
                    if loose {
                        skip = true;
                    }
                    out.push('>');
                },
            }
            i += 1;
        }
        proof {
            assert(all.take(items.len() as int) =~= all);
        }
        flush(&mut done, &out);
        strip_ends(&mut done);
        Template { items: done }
    }
}

} // verus!
