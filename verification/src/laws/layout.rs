//! The layout of the source does not matter: only the tokens and the places
//! of the gaps between them do.

use crate::braced::{has_bang, parsed_braced, spaced, ExprShape};
use crate::instruction::compiled;
use crate::item::{ItemElementView, ItemView};
use crate::laws::order::lemma_item_span;
use crate::name::{continues_name, joined, name_end, scanned_name};
use crate::laws::plain::{lemma_shapes_unused, no_directives};
use crate::parse::{parsed_from, parsed_item, parsed_items, parsed_template, shape_at};
use crate::render::{rendered, BindingView};
use crate::span::{spec_gap, SpanPos};
use crate::template::{norm_run, norm_start, norm_step, NormState};
use crate::token::{TokenTreeView, TokenView};
use vstd::prelude::*;

verus! {

/// Whether the source had a gap before the token at `j`.
pub open spec fn token_gap_before(p: Seq<TokenView>, j: int) -> bool {
    spec_gap(p[j - 1].span.end as int, p[j].span.start as int)
}

/// Whether the source had a gap before the unit at `i`.
pub open spec fn gap_before(ts: Seq<TokenTreeView>, i: int) -> bool {
    spec_gap(ts[i - 1].token.span.end as int, ts[i].token.span.start as int)
}

/// Whether two token sequences hold the same tokens with gaps at the same
/// places; where the tokens stand in the source may differ.
pub open spec fn same_tokens(p: Seq<TokenView>, q: Seq<TokenView>) -> bool {
    &&& p.len() == q.len()
    &&& forall|j: int|
        0 <= j < p.len() ==> (#[trigger] p[j]).kind == q[j].kind && p[j].text == q[j].text
    &&& forall|j: int| 0 < j < p.len() ==> #[trigger] token_gap_before(p, j) == token_gap_before(q, j)
}

/// Whether two template streams differ in layout only: they hold the same
/// units, directive blocks with the same tokens, and gaps at the same places.
/// How wide a gap is, and where anything stands in the source, may differ.
pub open spec fn same_layout(a: Seq<TokenTreeView>, b: Seq<TokenTreeView>) -> bool {
    &&& a.len() == b.len()
    &&& forall|i: int|
        0 <= i < a.len() ==> (#[trigger] a[i]).token.kind == b[i].token.kind && a[i].token.text
            == b[i].token.text && same_tokens(a[i].body, b[i].body)
    &&& forall|i: int| 0 < i < a.len() ==> #[trigger] gap_before(a, i) == gap_before(b, i)
}

spec fn same_element(x: ItemElementView, y: ItemElementView) -> bool {
    match x {
        ItemElementView::Literal(l) => y == ItemElementView::Literal(l),
        ItemElementView::Braced(d) => y == ItemElementView::Braced(d),
        ItemElementView::StartOpenTag(n) => y is StartOpenTag && y->StartOpenTag_0.value == n.value,
        ItemElementView::StartCloseTag(n) => y is StartCloseTag && y->StartCloseTag_0.value
            == n.value,
        ItemElementView::EndTag => y is EndTag,
    }
}

spec fn same_state(x: NormState, y: NormState) -> bool {
    x.done == y.done && x.out == y.out && x.loose == y.loose && x.skip == y.skip
}

spec fn norm_fold(s: NormState, items: Seq<ItemView>) -> NormState
    decreases items.len(),
{
    if items.len() == 0 {
        s
    } else {
        norm_fold(norm_step(s, items.first()), items.drop_first())
    }
}

proof fn lemma_fold_push(s: NormState, items: Seq<ItemView>, x: ItemView)
    ensures
        norm_fold(s, items.push(x)) == norm_step(norm_fold(s, items), x),
    decreases items.len(),
{
    let all = items.push(x);
    assert(all.len() > 0);
    assert(norm_fold(s, all) == norm_fold(norm_step(s, all.first()), all.drop_first()));
    if items.len() == 0 {
        assert(all.first() == x);
        assert(all.drop_first() =~= Seq::<ItemView>::empty());
        assert(norm_fold(norm_step(s, x), all.drop_first()) == norm_step(s, x));
        assert(norm_fold(s, items) == s);
    } else {
        assert(all.first() == items.first());
        assert(all.drop_first() =~= items.drop_first().push(x));
        lemma_fold_push(norm_step(s, items.first()), items.drop_first(), x);
    }
}

proof fn lemma_run_is_fold(items: Seq<ItemView>)
    ensures
        norm_run(items) == norm_fold(norm_start(), items),
    decreases items.len(),
{
    if items.len() > 0 {
        lemma_run_is_fold(items.drop_last());
        lemma_fold_push(norm_start(), items.drop_last(), items.last());
        assert(items.drop_last().push(items.last()) =~= items);
    }
}

proof fn lemma_spaced_same(p: Seq<TokenView>, q: Seq<TokenView>, from: int, to: int)
    requires
        same_tokens(p, q),
        0 <= from,
        to <= p.len(),
    ensures
        spaced(p, from, to) == spaced(q, from, to),
    decreases to - from,
{
    if to > from + 1 {
        lemma_spaced_same(p, q, from, to - 1);
        assert(p[to - 1].text == q[to - 1].text);
        assert(token_gap_before(p, to - 1) == token_gap_before(q, to - 1));
    } else if to == from + 1 {
        assert(p[from].text == q[from].text);
    }
}

proof fn lemma_braced_same(
    p: Seq<TokenView>,
    q: Seq<TokenView>,
    wp: SpanPos,
    wq: SpanPos,
    shape: ExprShape,
)
    requires
        same_tokens(p, q),
    ensures
        parsed_braced(p, wp, shape).element == parsed_braced(q, wq, shape).element,
{
    if p.len() > 0 {
        assert(p[0].kind == q[0].kind && p[0].text == q[0].text);
    }
    if p.len() > 1 {
        assert(p[1].kind == q[1].kind && p[1].text == q[1].text);
    }
    assert(has_bang(p) == has_bang(q));
    lemma_spaced_same(p, q, 0, p.len() as int);
    if p.len() >= 2 {
        lemma_spaced_same(p, q, 2, p.len() as int);
    }
}

proof fn lemma_continues_same(a: Seq<TokenTreeView>, b: Seq<TokenTreeView>, last: int)
    requires
        same_layout(a, b),
        0 <= last,
        last + 1 < a.len(),
    ensures
        continues_name(a[last].token.span.end, a[last + 1].token) == continues_name(
            b[last].token.span.end,
            b[last + 1].token,
        ),
{
    assert(a[last + 1].token.text == b[last + 1].token.text);
    assert(gap_before(a, last + 1) == gap_before(b, last + 1));
}

proof fn lemma_name_same(a: Seq<TokenTreeView>, b: Seq<TokenTreeView>, pos: int, last: int)
    requires
        same_layout(a, b),
        0 <= pos <= last < a.len(),
        joined(a, pos, last + 1) == joined(b, pos, last + 1),
    ensures
        name_end(a, last) == name_end(b, last),
        joined(a, pos, name_end(a, last)) == joined(b, pos, name_end(b, last)),
    decreases a.len() - last,
{
    if last + 1 < a.len() {
        lemma_continues_same(a, b, last);
        if continues_name(a[last].token.span.end, a[last + 1].token) {
            assert(a[last + 1].token.text == b[last + 1].token.text);
            assert(joined(a, pos, last + 2) == joined(a, pos, last + 1) + a[last + 1].token.text);
            assert(joined(b, pos, last + 2) == joined(b, pos, last + 1) + b[last + 1].token.text);
            lemma_name_same(a, b, pos, last + 1);
        }
    }
}

proof fn lemma_tag_same(a: Seq<TokenTreeView>, b: Seq<TokenTreeView>, at: int)
    requires
        same_layout(a, b),
        0 <= at < a.len(),
    ensures
        name_end(a, at) == name_end(b, at),
        scanned_name(a, at).value == scanned_name(b, at).value,
{
    assert(a[at].token.text == b[at].token.text);
    assert(joined(a, at, at) =~= Seq::<char>::empty());
    assert(joined(b, at, at) =~= Seq::<char>::empty());
    assert(joined(a, at, at + 1) == joined(a, at, at) + a[at].token.text);
    assert(joined(b, at, at + 1) == joined(b, at, at) + b[at].token.text);
    lemma_name_same(a, b, at, at);
}

proof fn lemma_item_same(
    a: Seq<TokenTreeView>,
    b: Seq<TokenTreeView>,
    pos: int,
    shape: ExprShape,
)
    requires
        same_layout(a, b),
        0 <= pos < a.len(),
    ensures
        parsed_item(a, pos, shape).next == parsed_item(b, pos, shape).next,
        same_element(parsed_item(a, pos, shape).item.element, parsed_item(b, pos, shape).item.element),
{
    assert(a[pos].token.kind == b[pos].token.kind && a[pos].token.text == b[pos].token.text);
    assert(a[pos].is_punct('<') == b[pos].is_punct('<'));
    assert(a[pos].is_punct('>') == b[pos].is_punct('>'));
    assert(a[pos].is_braced() == b[pos].is_braced());
    if a[pos].is_punct('<') {
        if pos + 1 < a.len() {
            assert(a[pos + 1].token.kind == b[pos + 1].token.kind && a[pos + 1].token.text == b[pos
                + 1].token.text);
            assert(a[pos + 1].is_punct('/') == b[pos + 1].is_punct('/'));
        }
        let close = pos + 1 < a.len() && a[pos + 1].is_punct('/');
        let at = if close {
            pos + 2
        } else {
            pos + 1
        };
        if at < a.len() {
            lemma_tag_same(a, b, at);
        }
    } else if a[pos].is_punct('>') {
    } else if a[pos].is_braced() {
        assert(same_tokens(a[pos].body, b[pos].body));
        lemma_braced_same(a[pos].body, b[pos].body, a[pos].token.span, b[pos].token.span, shape);
    }
}

proof fn lemma_step_same(sa: NormState, sb: NormState, ia: ItemView, ib: ItemView)
    requires
        same_state(sa, sb),
        same_element(ia.element, ib.element),
        sa.skip || spec_gap(sa.prev_end as int, ia.span_pos.start as int) == spec_gap(
            sb.prev_end as int,
            ib.span_pos.start as int,
        ),
    ensures
        same_state(norm_step(sa, ia), norm_step(sb, ib)),
{
}

proof fn lemma_fold_same(
    a: Seq<TokenTreeView>,
    b: Seq<TokenTreeView>,
    pos: int,
    shapes: Seq<ExprShape>,
    sa: NormState,
    sb: NormState,
)
    requires
        same_layout(a, b),
        same_state(sa, sb),
        0 <= pos <= a.len(),
        pos == 0 ==> sa.skip,
        pos > 0 ==> sa.prev_end == a[pos - 1].token.span.end && sb.prev_end == b[pos
            - 1].token.span.end,
    ensures
        same_state(
            norm_fold(sa, parsed_from(a, pos, shapes).items),
            norm_fold(sb, parsed_from(b, pos, shapes).items),
        ),
    decreases a.len() - pos,
{
    if pos < a.len() {
        let shape = shape_at(shapes, pos);
        let pa = parsed_item(a, pos, shape);
        let pb = parsed_item(b, pos, shape);
        lemma_item_same(a, b, pos, shape);
        lemma_item_span(a, pos, shape);
        lemma_item_span(b, pos, shape);
        if pos > 0 {
            assert(gap_before(a, pos) == gap_before(b, pos));
        }
        lemma_step_same(sa, sb, pa.item, pb.item);
        let ia = parsed_from(a, pos, shapes).items;
        let ib = parsed_from(b, pos, shapes).items;
        let ra = parsed_from(a, pa.next, shapes).items;
        let rb = parsed_from(b, pb.next, shapes).items;
        assert(ia == seq![pa.item] + ra);
        assert(ib == seq![pb.item] + rb);
        assert(ia.first() == pa.item);
        assert(ib.first() == pb.item);
        assert(ia.drop_first() =~= ra);
        assert(ib.drop_first() =~= rb);
        assert(norm_fold(sa, ia) == norm_fold(norm_step(sa, pa.item), ra));
        assert(norm_fold(sb, ib) == norm_fold(norm_step(sb, pb.item), rb));
        lemma_fold_same(a, b, pa.next, shapes, norm_step(sa, pa.item), norm_step(sb, pb.item));
    } else {
        assert(parsed_from(a, pos, shapes).items =~= Seq::<ItemView>::empty());
        assert(parsed_from(b, pos, shapes).items =~= Seq::<ItemView>::empty());
    }
}

/// A template means the same however its source is laid out.
///
/// Two streams that hold the same tokens, with gaps at the same places, and
/// whose expressions have the same shapes, give the same normalised template
/// and the same instruction list, and so the same output with any values:
/// extra line breaks, wider gaps and other positions in the source change
/// nothing.
pub proof fn lemma_layout_independent(
    a: Seq<TokenTreeView>,
    b: Seq<TokenTreeView>,
    shapes: Seq<ExprShape>,
)
    requires
        same_layout(a, b),
    ensures
        parsed_template(a, shapes) == parsed_template(b, shapes),
        compiled(a, shapes) == compiled(b, shapes),
        forall|values: Seq<BindingView>|
            rendered(compiled(a, shapes), values) == rendered(compiled(b, shapes), values),
{
    lemma_run_is_fold(parsed_items(a, shapes).items);
    lemma_run_is_fold(parsed_items(b, shapes).items);
    lemma_fold_same(a, b, 0, shapes, norm_start(), norm_start());
}

/// A template without directives means the same however its source is laid
/// out, whatever the expression parser would say of anything: the shapes are
/// of no account.
pub proof fn lemma_plain_layout_independent(
    a: Seq<TokenTreeView>,
    b: Seq<TokenTreeView>,
    shapes_a: Seq<ExprShape>,
    shapes_b: Seq<ExprShape>,
)
    requires
        same_layout(a, b),
        no_directives(a),
    ensures
        parsed_template(a, shapes_a) == parsed_template(b, shapes_b),
        compiled(a, shapes_a) == compiled(b, shapes_b),
        forall|values: Seq<BindingView>|
            rendered(compiled(a, shapes_a), values) == rendered(compiled(b, shapes_b), values),
{
    assert forall|i: int| 0 <= i < b.len() implies !(#[trigger] b[i]).is_braced() by {
        assert(a[i].token.kind == b[i].token.kind);
        assert(!a[i].is_braced());
    }
    lemma_shapes_unused(b, 0, shapes_a, shapes_b);
    lemma_layout_independent(a, b, shapes_a);
}

} // verus!
