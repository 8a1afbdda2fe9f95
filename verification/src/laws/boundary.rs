//! Whitespace at the boundaries of tags: what is kept and what is dropped.

use crate::item::{ItemElementView, ItemView};
use crate::span::spec_gap;
use crate::tags::is_insensitive;
use crate::template::{norm_step, with_gap, NormState};
use crate::text::{is_space, lemma_trimmed_end_shape, trimmed_end};
use vstd::prelude::*;

verus! {

/// Whether `item` is the start of a tag, opening or closing, whose name is
/// whitespace-insensitive.
pub open spec fn is_insensitive_tag(item: ItemView) -> bool {
    match item.element {
        ItemElementView::StartOpenTag(n) => is_insensitive(n.value),
        ItemElementView::StartCloseTag(n) => is_insensitive(n.value),
        _ => false,
    }
}

/// The text that an item adds to the gathered literal: its own text for a
/// literal, `<name` and `</name` for the start of a tag, `>` for its end, and
/// nothing for a directive.
pub open spec fn item_text(item: ItemView) -> Seq<char> {
    match item.element {
        ItemElementView::Literal(l) => l,
        ItemElementView::Braced(_) => Seq::empty(),
        ItemElementView::StartOpenTag(n) => seq!['<'] + n.value,
        ItemElementView::StartCloseTag(n) => seq!['<', '/'] + n.value,
        ItemElementView::EndTag => seq!['>'],
    }
}

/// Only a whitespace-insensitive tag takes whitespace away.
///
/// Before any item the gathered text grows by one space if the source had a
/// gap there and the gap is not to be dropped, and by nothing otherwise. An
/// item that is no directive and no whitespace-insensitive tag then adds its
/// own text and removes nothing. A whitespace-insensitive tag first removes
/// the whitespace at the end of the gathered text, and only whitespace. A gap
/// is dropped only at the start of the template and after the `>` of a
/// whitespace-insensitive tag.
pub proof fn lemma_only_insensitive_tags_strip(s: NormState, item: ItemView)
    ensures
        with_gap(s, item.span_pos.start) == if !s.skip && spec_gap(
            s.prev_end as int,
            item.span_pos.start as int,
        ) {
            s.out.push(' ')
        } else {
            s.out
        },
        !(item.element is Braced) && !is_insensitive_tag(item) ==> norm_step(s, item).out
            == with_gap(s, item.span_pos.start) + item_text(item),
        is_insensitive_tag(item) ==> norm_step(s, item).out == trimmed_end(
            with_gap(s, item.span_pos.start),
        ) + item_text(item),
        is_insensitive_tag(item) ==> trimmed_end(with_gap(s, item.span_pos.start)).is_prefix_of(
            with_gap(s, item.span_pos.start),
        ),
        is_insensitive_tag(item) ==> forall|i: int|
            trimmed_end(with_gap(s, item.span_pos.start)).len() <= i < with_gap(
                s,
                item.span_pos.start,
            ).len() ==> is_space(#[trigger] with_gap(s, item.span_pos.start)[i]),
        norm_step(s, item).skip == (item.element is EndTag && s.loose),
{
    let lead = with_gap(s, item.span_pos.start);
    lemma_trimmed_end_shape(lead);
    match item.element {
        ItemElementView::Literal(l) => {},
        ItemElementView::Braced(_) => {},
        ItemElementView::StartOpenTag(n) => {
            assert(norm_step(s, item).out =~= (if is_insensitive(n.value) {
                trimmed_end(lead)
            } else {
                lead
            }) + item_text(item));
        },
        ItemElementView::StartCloseTag(n) => {
            assert(norm_step(s, item).out =~= (if is_insensitive(n.value) {
                trimmed_end(lead)
            } else {
                lead
            }) + item_text(item));
        },
        ItemElementView::EndTag => {
            assert(lead.push('>') =~= lead + seq!['>']);
        },
    }
}

/// Inside and around a whitespace-sensitive tag a gap in the source stays as
/// exactly one space.
///
/// Take the `>` that ends a tag whose name is not whitespace-insensitive, and
/// any item after it that is no directive and no whitespace-insensitive tag.
/// If the source had a gap between the two, the gathered text is what it was
/// before the `>`, then `>`, one space, and the text of the item.
pub proof fn lemma_sensitive_tag_keeps_gap(s: NormState, end: ItemView, next: ItemView)
    requires
        end.element is EndTag,
        !s.loose,
        !(next.element is Braced),
        !is_insensitive_tag(next),
        spec_gap(end.span_pos.end as int, next.span_pos.start as int),
    ensures
        norm_step(norm_step(s, end), next).out == with_gap(s, end.span_pos.start) + seq!['>', ' ']
            + item_text(next),
{
    let lead = with_gap(s, end.span_pos.start);
    let mid = norm_step(s, end);
    lemma_only_insensitive_tags_strip(mid, next);
    assert(with_gap(mid, next.span_pos.start) =~= lead + seq!['>', ' ']);
}

/// After the `>` of a whitespace-insensitive tag a gap in the source leaves
/// no space.
pub proof fn lemma_insensitive_tag_drops_gap(s: NormState, end: ItemView, next: ItemView)
    requires
        end.element is EndTag,
        s.loose,
    ensures
        with_gap(norm_step(s, end), next.span_pos.start) == with_gap(s, end.span_pos.start).push(
            '>',
        ),
{
}

} // verus!
