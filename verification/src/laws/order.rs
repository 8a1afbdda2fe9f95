//! Spans of items: what they cover, and in what order they stand.

use crate::name::lemma_name_end_bounds;
use crate::braced::ExprShape;
use crate::parse::{lemma_item_advances, parsed_item};
use crate::token::TokenTreeView;
use vstd::prelude::*;

verus! {

/// Whether the unit at `i` starts at or after the end of the unit before it.
pub open spec fn follows(ts: Seq<TokenTreeView>, i: int) -> bool {
    ts[i - 1].token.span.end <= ts[i].token.span.start
}

/// Whether the units of a stream stand in the order of the source: each has a
/// valid span, and each starts at or after the end of the one before.
pub open spec fn in_source_order(ts: Seq<TokenTreeView>) -> bool {
    &&& forall|i: int| 0 <= i < ts.len() ==> (#[trigger] ts[i]).token.span.valid()
    &&& forall|i: int| 0 < i < ts.len() ==> #[trigger] follows(ts, i)
}

/// An item covers its tokens: its span runs from the start of its first token
/// to the end of its last.
pub proof fn lemma_item_span(ts: Seq<TokenTreeView>, pos: int, shape: ExprShape)
    requires
        0 <= pos < ts.len(),
    ensures
        pos < parsed_item(ts, pos, shape).next <= ts.len(),
        parsed_item(ts, pos, shape).item.span_pos.start == ts[pos].token.span.start,
        parsed_item(ts, pos, shape).item.span_pos.end == ts[parsed_item(ts, pos, shape).next - 1].token.span.end,
{
    lemma_item_advances(ts, pos, shape);
    if ts[pos].is_punct('<') {
        let close = pos + 1 < ts.len() && ts[pos + 1].is_punct('/');
        let at = if close {
            pos + 2
        } else {
            pos + 1
        };
        if at < ts.len() {
            lemma_name_end_bounds(ts, at);
        }
    }
}

proof fn lemma_order_spans(ts: Seq<TokenTreeView>, i: int, j: int)
    requires
        in_source_order(ts),
        0 <= i <= j < ts.len(),
    ensures
        ts[i].token.span.start <= ts[j].token.span.end,
        ts[i].token.span.end <= ts[j].token.span.end,
    decreases j - i,
{
    assert(ts[j].token.span.valid());
    if i < j {
        lemma_order_spans(ts, i, j - 1);
        assert(follows(ts, j));
    }
}

/// Items keep the order of the source.
///
/// When the tokens stand in the order of the source, every item has a valid
/// span, and the item after it starts at or after its end, whatever the shapes
/// of their expressions.
pub proof fn lemma_items_in_source_order(
    ts: Seq<TokenTreeView>,
    pos: int,
    shape: ExprShape,
    shape_after: ExprShape,
)
    requires
        in_source_order(ts),
        0 <= pos < ts.len(),
    ensures
        parsed_item(ts, pos, shape).item.span_pos.valid(),
        parsed_item(ts, pos, shape).next < ts.len() ==> parsed_item(ts, pos, shape).item.span_pos.end
            <= parsed_item(ts, parsed_item(ts, pos, shape).next, shape_after).item.span_pos.start,
{
    let next = parsed_item(ts, pos, shape).next;
    lemma_item_span(ts, pos, shape);
    lemma_order_spans(ts, pos, next - 1);
    if next < ts.len() {
        lemma_item_span(ts, next, shape_after);
        assert(follows(ts, next));
    }
}

} // verus!
