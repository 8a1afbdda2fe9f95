//! Templates without directives: their output is their text.

use crate::braced::ExprShape;
use crate::instruction::{compiled, InstructionView};
use crate::item::ItemView;
use crate::parse::{
    lemma_item_advances, parsed_from, parsed_item, parsed_items, parsed_template, shape_at,
};
use crate::render::{output_of, rendered, BindingView};
use crate::template::{flushed, norm_run, strip_first, strip_last, PieceView};
use crate::text::{collapsed, trimmed_end, trimmed_start};
use crate::token::TokenTreeView;
use vstd::prelude::*;
use vstd::utf8::encode_utf8;

verus! {

/// Whether no unit of the stream is a directive block.
pub open spec fn no_directives(ts: Seq<TokenTreeView>) -> bool {
    forall|i: int| 0 <= i < ts.len() ==> !(#[trigger] ts[i]).is_braced()
}

/// The text of a template without directives: everything its items gather,
/// with whitespace collapsed and the two ends trimmed.
pub open spec fn plain_text(ts: Seq<TokenTreeView>, shapes: Seq<ExprShape>) -> Seq<char> {
    trimmed_end(trimmed_start(collapsed(norm_run(parsed_items(ts, shapes).items).out)))
}

proof fn lemma_no_braced_items(ts: Seq<TokenTreeView>, pos: int, shapes: Seq<ExprShape>)
    requires
        no_directives(ts),
        0 <= pos,
    ensures
        forall|k: int|
            0 <= k < parsed_from(ts, pos, shapes).items.len() ==> !((#[trigger] parsed_from(ts, pos, shapes).items[k]).element is Braced),
    decreases ts.len() - pos,
{
    if pos < ts.len() {
        let p = parsed_item(ts, pos, shape_at(shapes, pos));
        lemma_item_advances(ts, pos, shape_at(shapes, pos));
        lemma_no_braced_items(ts, p.next, shapes);
        let rest = parsed_from(ts, p.next, shapes);
        assert(!ts[pos].is_braced());
        assert forall|k: int| 0 <= k < parsed_from(ts, pos, shapes).items.len() implies !((
        #[trigger] parsed_from(ts, pos, shapes).items[k]).element is Braced) by {
            if k > 0 {
                assert(parsed_from(ts, pos, shapes).items[k] == rest.items[k - 1]);
            }
        }
    }
}

proof fn lemma_nothing_done(items: Seq<ItemView>)
    requires
        forall|k: int| 0 <= k < items.len() ==> !((#[trigger] items[k]).element is Braced),
    ensures
        norm_run(items).done == Seq::<PieceView>::empty(),
    decreases items.len(),
{
    if items.len() > 0 {
        let p = items.drop_last();
        assert forall|k: int| 0 <= k < p.len() implies !((#[trigger] p[k]).element is Braced) by {
            assert(p[k] == items[k]);
        }
        lemma_nothing_done(p);
        assert(!(items[items.len() - 1].element is Braced));
    }
}

/// A template without directives writes its text, and nothing else.
///
/// Whatever the values are, the output of the compiled template is the UTF-8
/// form of the text that its items gather, with whitespace collapsed and the
/// two ends trimmed.
pub proof fn lemma_plain_template_output(
    ts: Seq<TokenTreeView>,
    shapes: Seq<ExprShape>,
    values: Seq<BindingView>,
)
    requires
        no_directives(ts),
    ensures
        rendered(compiled(ts, shapes), values) == encode_utf8(plain_text(ts, shapes)),
{
    let items = parsed_items(ts, shapes).items;
    lemma_no_braced_items(ts, 0, shapes);
    lemma_nothing_done(items);
    let out = norm_run(items).out;
    let pieces = parsed_template(ts, shapes);
    let text = plain_text(ts, shapes);
    assert(encode_utf8(Seq::<char>::empty()) =~= Seq::<u8>::empty());
    if out.len() == 0 {
        assert(pieces =~= Seq::<PieceView>::empty());
        assert(compiled(ts, shapes) =~= Seq::<InstructionView>::empty());
        assert(text =~= Seq::<char>::empty());
    } else {
        let c = collapsed(out);
        let one = seq![PieceView::Literal(c)];
        assert(flushed(Seq::<PieceView>::empty(), out) =~= one);
        let t = trimmed_start(c);
        if t.len() == 0 {
            assert(strip_first(one) =~= Seq::<PieceView>::empty());
            assert(pieces =~= Seq::<PieceView>::empty());
            assert(compiled(ts, shapes) =~= Seq::<InstructionView>::empty());
            assert(text =~= Seq::<char>::empty());
        } else {
            let two = seq![PieceView::Literal(t)];
            assert(strip_first(one) =~= two);
            if text.len() == 0 {
                assert(strip_last(two) =~= Seq::<PieceView>::empty());
                assert(pieces =~= Seq::<PieceView>::empty());
                assert(compiled(ts, shapes) =~= Seq::<InstructionView>::empty());
            } else {
                let three = seq![PieceView::Literal(text)];
                assert(strip_last(two) =~= three);
                assert(pieces == three);
                let list = compiled(ts, shapes);
                assert(list =~= seq![InstructionView::WriteLiteral(encode_utf8(text))]);
                assert(list.drop_last() =~= Seq::<InstructionView>::empty());
                assert(rendered(list.drop_last(), values) =~= Seq::<u8>::empty());
                assert(output_of(list.last(), values) == encode_utf8(text));
                assert(rendered(list, values) =~= encode_utf8(text));
            }
        }
    }
}

/// Without directives the shapes are of no account: whatever they are, the
/// stream parses into the same items with the same faults.
pub proof fn lemma_shapes_unused(
    ts: Seq<TokenTreeView>,
    pos: int,
    one: Seq<ExprShape>,
    other: Seq<ExprShape>,
)
    requires
        no_directives(ts),
        0 <= pos,
    ensures
        parsed_from(ts, pos, one) == parsed_from(ts, pos, other),
    decreases ts.len() - pos,
{
    if pos < ts.len() {
        assert(!ts[pos].is_braced());
        let p = parsed_item(ts, pos, shape_at(one, pos));
        assert(p == parsed_item(ts, pos, shape_at(other, pos)));
        lemma_item_advances(ts, pos, shape_at(one, pos));
        lemma_shapes_unused(ts, p.next, one, other);
    }
}

} // verus!
