//! Directives pass through the normaliser untouched.

use crate::item::{BracedView, ItemElementView, ItemView};
use crate::template::{flushed, norm_run, normalized, strip_first, with_gap, PieceView};
use crate::text::{trimmed_end, trimmed_start};
use vstd::prelude::*;

verus! {

/// The directive blocks among `items`, in order.
pub open spec fn blocks_of(items: Seq<ItemView>) -> Seq<BracedView>
    decreases items.len(),
{
    if items.len() == 0 {
        Seq::empty()
    } else {
        match items.last().element {
            ItemElementView::Braced(b) => blocks_of(items.drop_last()).push(b),
            _ => blocks_of(items.drop_last()),
        }
    }
}

/// The directives among `pieces`, in order.
pub open spec fn directives_of(pieces: Seq<PieceView>) -> Seq<BracedView>
    decreases pieces.len(),
{
    if pieces.len() == 0 {
        Seq::empty()
    } else {
        match pieces.last() {
            PieceView::Directive(b) => directives_of(pieces.drop_last()).push(b),
            PieceView::Literal(_) => directives_of(pieces.drop_last()),
        }
    }
}

proof fn lemma_directives_first(p: Seq<PieceView>, t: Seq<char>)
    requires
        p.len() > 0,
        p.first() is Literal,
    ensures
        directives_of(p.drop_first()) == directives_of(p),
        directives_of(p.update(0, PieceView::Literal(t))) == directives_of(p),
    decreases p.len(),
{
    if p.len() == 1 {
        assert(p.drop_first() =~= Seq::<PieceView>::empty());
        assert(p.drop_last() =~= Seq::<PieceView>::empty());
        assert(p.update(0, PieceView::Literal(t)).drop_last() =~= Seq::<PieceView>::empty());
    } else {
        let q = p.drop_last();
        lemma_directives_first(q, t);
        assert(p.drop_first().drop_last() =~= q.drop_first());
        assert(p.drop_first().last() == p.last());
        assert(p.update(0, PieceView::Literal(t)).drop_last() =~= q.update(
            0,
            PieceView::Literal(t),
        ));
        assert(p.update(0, PieceView::Literal(t)).last() == p.last());
    }
}

proof fn lemma_directives_last(p: Seq<PieceView>, t: Seq<char>)
    requires
        p.len() > 0,
        p.last() is Literal,
    ensures
        directives_of(p.drop_last()) == directives_of(p),
        directives_of(p.update(p.len() - 1, PieceView::Literal(t))) == directives_of(p),
{
    let u = p.update(p.len() - 1, PieceView::Literal(t));
    assert(u.drop_last() =~= p.drop_last());
}

proof fn lemma_directives_run(items: Seq<ItemView>)
    ensures
        directives_of(norm_run(items).done) == blocks_of(items),
    decreases items.len(),
{
    if items.len() > 0 {
        let s = norm_run(items.drop_last());
        lemma_directives_run(items.drop_last());
        let item = items.last();
        match item.element {
            ItemElementView::Braced(b) => {
                let f = flushed(s.done, with_gap(s, item.span_pos.start));
                if f.len() > s.done.len() {
                    assert(f.last() is Literal);
                    assert(f.drop_last() =~= s.done);
                }
                assert(directives_of(f) == directives_of(s.done));
                let d = norm_run(items).done;
                assert(d == f.push(PieceView::Directive(b)));
                assert(d.last() == PieceView::Directive(b));
                assert(d.drop_last() =~= f);
                assert(directives_of(d) == directives_of(f).push(b));
            },
            _ => {
                assert(norm_run(items).done == s.done);
            },
        }
    }
}

/// Normalising leaves the directives alone.
///
/// The directives of a normalised template are the directive blocks of the
/// items it was made from: all of them, in the same order, each with its
/// directive and its expression as they were. Only literal text is merged,
/// collapsed and trimmed.
pub proof fn lemma_directives_pass_through(items: Seq<ItemView>)
    ensures
        directives_of(normalized(items)) == blocks_of(items),
{
    let s = norm_run(items);
    lemma_directives_run(items);
    let f = flushed(s.done, s.out);
    if f.len() > s.done.len() {
        assert(f.drop_last() =~= s.done);
    }
    let g = strip_first(f);
    if f.len() > 0 && f.first() is Literal {
        lemma_directives_first(f, trimmed_start(f.first()->Literal_0));
    }
    if g.len() > 0 && g.last() is Literal {
        lemma_directives_last(g, trimmed_end(g.last()->Literal_0));
    }
}

} // verus!
