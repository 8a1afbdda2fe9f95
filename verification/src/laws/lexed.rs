//! Templates as a lexer hands them over: nothing in them is left to collapse
//! or to trim.

use crate::braced::ExprShape;
use crate::item::ItemView;
use crate::laws::boundary::{is_insensitive_tag, item_text, lemma_only_insensitive_tags_strip};
use crate::name::{joined, lemma_name_end_bounds, name_end, scanned_name};
use crate::parse::{
    lemma_item_advances, parsed_from, parsed_item, parsed_items, parsed_template, shape_at,
};
use crate::template::{
    flushed, lemma_done_shape, norm_run, norm_step, normalized, strip_first, strip_last, with_gap, NormState,
    PieceView,
};
use crate::text::{
    collapsed, is_collapsed, is_space, lemma_collapsed_fixpoint, lemma_trimmed_end_shape,
    trimmed_end, trimmed_start,
};
use crate::token::TokenTreeView;
use vstd::prelude::*;

verus! {

/// Whether `text` holds something and no whitespace, as the text of a token
/// does when a lexer made it.
pub open spec fn solid(text: Seq<char>) -> bool {
    text.len() > 0 && forall|i: int| 0 <= i < text.len() ==> !is_space(#[trigger] text[i])
}

/// Whether the text that `item` adds, if it adds any, is solid.
pub open spec fn solid_item(item: ItemView) -> bool {
    item.element is Braced || solid(item_text(item))
}

/// The gathered text as the item at `k` finds it: what the items before it
/// gathered, and one space if a gap that counts precedes it.
pub open spec fn lead_at(items: Seq<ItemView>, k: int) -> Seq<char> {
    with_gap(norm_run(items.take(k)), items[k].span_pos.start)
}

spec fn settled(s: NormState, n: nat) -> bool {
    &&& is_collapsed(s.out)
    &&& s.out.len() > 0 ==> !is_space(s.out.last())
    &&& n == 0 ==> s.skip && s.out.len() == 0 && s.done.len() == 0
    &&& n > 0 && s.done.len() == 0 ==> s.out.len() > 0 && !is_space(s.out.first())
    &&& s.done.len() > 0 && s.done.first() is Literal ==> s.done.first()->Literal_0.len() > 0
        && !is_space(s.done.first()->Literal_0.first())
}

proof fn lemma_collapsed_join(a: Seq<char>, b: Seq<char>)
    requires
        is_collapsed(a),
        is_collapsed(b),
        a.len() > 0 && b.len() > 0 ==> !(is_space(a.last()) && is_space(b.first())),
    ensures
        is_collapsed(a + b),
{
    let c = a + b;
    assert forall|i: int| 0 <= i < c.len() && is_space(#[trigger] c[i]) implies c[i] == ' ' by {
        if i < a.len() {
            assert(c[i] == a[i]);
        } else {
            assert(c[i] == b[i - a.len()]);
        }
    }
    assert forall|i: int| 0 <= i < c.len() - 1 && is_space(#[trigger] c[i]) implies !is_space(
        c[i + 1],
    ) by {
        if i + 1 < a.len() {
            assert(c[i] == a[i]);
            assert(c[i + 1] == a[i + 1]);
        } else if i < a.len() {
            assert(c[i] == a.last());
            assert(c[i + 1] == b.first());
        } else {
            assert(c[i] == b[i - a.len()]);
            assert(c[i + 1] == b[i - a.len() + 1]);
        }
    }
}

proof fn lemma_solid_is_collapsed(t: Seq<char>)
    requires
        solid(t),
    ensures
        is_collapsed(t),
        !is_space(t.first()),
        !is_space(t.last()),
{
}

proof fn lemma_lead_settled(s: NormState, n: nat, start: usize)
    requires
        settled(s, n),
    ensures
        is_collapsed(with_gap(s, start)),
        n == 0 ==> with_gap(s, start).len() == 0,
        s.done.len() == 0 && with_gap(s, start).len() > 0 ==> !is_space(
            with_gap(s, start).first(),
        ),
{
    let lead = with_gap(s, start);
    if lead != s.out {
        let sp = seq![' '];
        assert(lead =~= s.out + sp);
        assert(is_collapsed(sp));
        lemma_collapsed_join(s.out, sp);
        if s.out.len() > 0 {
            assert(lead.first() == s.out.first());
        }
    }
}

proof fn lemma_step_settled(s: NormState, n: nat, item: ItemView)
    requires
        settled(s, n),
        solid_item(item),
    ensures
        settled(norm_step(s, item), n + 1),
        item.element is Braced ==> collapsed(with_gap(s, item.span_pos.start)) == with_gap(
            s,
            item.span_pos.start,
        ),
{
    let lead = with_gap(s, item.span_pos.start);
    let after = norm_step(s, item);
    lemma_lead_settled(s, n, item.span_pos.start);
    lemma_collapsed_fixpoint(lead);
    if item.element is Braced {
        let f = flushed(s.done, lead);
        if s.done.len() > 0 {
            assert(after.done.first() == s.done.first());
        } else if lead.len() > 0 {
            assert(after.done.first() == PieceView::Literal(lead));
        } else {
            assert(after.done.first() is Directive);
        }
    } else {
        let text = item_text(item);
        lemma_solid_is_collapsed(text);
        lemma_only_insensitive_tags_strip(s, item);
        lemma_trimmed_end_shape(lead);
        let base = if is_insensitive_tag(item) {
            trimmed_end(lead)
        } else {
            lead
        };
        assert(after.out == base + text);
        assert(base =~= lead.subrange(0, base.len() as int));
        assert forall|i: int| 0 <= i < base.len() && is_space(#[trigger] base[i]) implies base[i]
            == ' ' by {
            assert(base[i] == lead[i]);
        }
        assert forall|i: int| 0 <= i < base.len() - 1 && is_space(#[trigger] base[i]) implies !is_space(
            base[i + 1],
        ) by {
            assert(base[i] == lead[i]);
            assert(base[i + 1] == lead[i + 1]);
        }
        lemma_collapsed_join(base, text);
        assert(after.out.last() == text.last());
        if base.len() > 0 {
            assert(after.out.first() == base.first());
            assert(base.first() == lead.first());
        } else {
            assert(after.out.first() == text.first());
        }
    }
}

proof fn lemma_run_settled(items: Seq<ItemView>)
    requires
        forall|k: int| 0 <= k < items.len() ==> solid_item(#[trigger] items[k]),
    ensures
        settled(norm_run(items), items.len()),
        forall|k: int|
            0 <= k < items.len() && (#[trigger] items[k]).element is Braced ==> collapsed(
                lead_at(items, k),
            ) == lead_at(items, k),
    decreases items.len(),
{
    if items.len() > 0 {
        let p = items.drop_last();
        let n = p.len();
        assert forall|k: int| 0 <= k < p.len() implies solid_item(#[trigger] p[k]) by {
            assert(p[k] == items[k]);
        }
        lemma_run_settled(p);
        assert(solid_item(items[n as int]));
        lemma_step_settled(norm_run(p), n, items.last());
        assert forall|k: int|
            0 <= k < items.len() && (#[trigger] items[k]).element is Braced implies collapsed(
            lead_at(items, k),
        ) == lead_at(items, k) by {
            if k < n {
                assert(items.take(k) =~= p.take(k));
                assert(items[k] == p[k]);
                assert(lead_at(items, k) == lead_at(p, k));
            } else {
                assert(items.take(k) =~= p);
            }
        }
    }
}

/// With items as a lexer's tokens give them, nothing is left to collapse or
/// to trim.
///
/// Take items whose texts hold no whitespace and are not empty. Then the
/// text gathered before each directive, and the text left at the end, is
/// written as it was gathered: collapsing changes nothing in it, and trimming
/// the two ends of the template removes nothing. The only whitespace in the
/// template is the single spaces that stand for the gaps of the source.
pub proof fn lemma_solid_items_stay_as_gathered(items: Seq<ItemView>)
    requires
        forall|k: int| 0 <= k < items.len() ==> solid_item(#[trigger] items[k]),
    ensures
        forall|k: int|
            0 <= k < items.len() && (#[trigger] items[k]).element is Braced ==> collapsed(
                lead_at(items, k),
            ) == lead_at(items, k),
        collapsed(norm_run(items).out) == norm_run(items).out,
        normalized(items) == flushed(norm_run(items).done, norm_run(items).out),
{
    let s = norm_run(items);
    lemma_run_settled(items);
    lemma_collapsed_fixpoint(s.out);
    let f = flushed(s.done, s.out);
    if f.len() > 0 && f.first() is Literal {
        let t = f.first()->Literal_0;
        if s.done.len() > 0 {
            assert(f.first() == s.done.first());
        } else {
            assert(t == s.out);
        }
        assert(trimmed_start(t) == t);
        assert(f.update(0, PieceView::Literal(t)) =~= f);
    }
    assert(strip_first(f) == f);
    if f.len() > 0 && f.last() is Literal {
        let t = f.last()->Literal_0;
        if s.out.len() > 0 {
            assert(t == s.out);
        } else {
            lemma_done_shape(items);
        }
        assert(trimmed_end(t) == t);
        assert(f.update(f.len() - 1, PieceView::Literal(t)) =~= f);
    }
    assert(strip_last(f) == f);
}

/// Whether every unit of the stream has solid text.
pub open spec fn solid_tokens(ts: Seq<TokenTreeView>) -> bool {
    forall|i: int| 0 <= i < ts.len() ==> solid((#[trigger] ts[i]).token.text)
}

proof fn lemma_joined_solid(ts: Seq<TokenTreeView>, from: int, to: int)
    requires
        solid_tokens(ts),
        0 <= from <= to <= ts.len(),
    ensures
        forall|i: int| 0 <= i < joined(ts, from, to).len() ==> !is_space(
            #[trigger] joined(ts, from, to)[i],
        ),
    decreases to - from,
{
    if to > from {
        lemma_joined_solid(ts, from, to - 1);
        let head = joined(ts, from, to - 1);
        let tail = ts[to - 1].token.text;
        assert(solid(tail));
        assert forall|i: int| 0 <= i < joined(ts, from, to).len() implies !is_space(
            #[trigger] joined(ts, from, to)[i],
        ) by {
            if i < head.len() {
                assert(joined(ts, from, to)[i] == head[i]);
            } else {
                assert(joined(ts, from, to)[i] == tail[i - head.len()]);
            }
        }
    }
}

proof fn lemma_tag_text_solid(lead: Seq<char>, name: Seq<char>)
    requires
        lead == seq!['<'] || lead == seq!['<', '/'],
        forall|i: int| 0 <= i < name.len() ==> !is_space(#[trigger] name[i]),
    ensures
        solid(lead + name),
{
    let t = lead + name;
    assert forall|i: int| 0 <= i < t.len() implies !is_space(#[trigger] t[i]) by {
        if i < lead.len() {
            assert(t[i] == lead[i]);
        } else {
            assert(t[i] == name[i - lead.len()]);
        }
    }
}

proof fn lemma_item_solid(ts: Seq<TokenTreeView>, pos: int, shape: ExprShape)
    requires
        solid_tokens(ts),
        0 <= pos < ts.len(),
        parsed_item(ts, pos, shape).errors.len() == 0,
    ensures
        solid_item(parsed_item(ts, pos, shape).item),
{
    let t = ts[pos];
    assert(solid(t.token.text));
    if t.is_punct('<') {
        let close = pos + 1 < ts.len() && ts[pos + 1].is_punct('/');
        let at = if close {
            pos + 2
        } else {
            pos + 1
        };
        let lead = if close {
            seq!['<', '/']
        } else {
            seq!['<']
        };
        if at < ts.len() {
            lemma_name_end_bounds(ts, at);
            lemma_joined_solid(ts, at, name_end(ts, at));
            lemma_tag_text_solid(lead, scanned_name(ts, at).value);
        }
    } else if t.is_punct('>') {
        assert(solid(seq!['>']));
    } else if t.is_braced() {
    }
}

proof fn lemma_items_solid(ts: Seq<TokenTreeView>, pos: int, shapes: Seq<ExprShape>)
    requires
        solid_tokens(ts),
        0 <= pos,
        parsed_from(ts, pos, shapes).errors.len() == 0,
    ensures
        forall|k: int|
            0 <= k < parsed_from(ts, pos, shapes).items.len() ==> solid_item(
                #[trigger] parsed_from(ts, pos, shapes).items[k],
            ),
    decreases ts.len() - pos,
{
    if pos < ts.len() {
        let p = parsed_item(ts, pos, shape_at(shapes, pos));
        lemma_item_advances(ts, pos, shape_at(shapes, pos));
        let rest = parsed_from(ts, p.next, shapes);
        assert(parsed_from(ts, pos, shapes).errors == p.errors + rest.errors);
        assert(p.errors.len() == 0 && rest.errors.len() == 0);
        lemma_item_solid(ts, pos, shape_at(shapes, pos));
        lemma_items_solid(ts, p.next, shapes);
        assert forall|k: int| 0 <= k < parsed_from(ts, pos, shapes).items.len() implies solid_item(
            #[trigger] parsed_from(ts, pos, shapes).items[k],
        ) by {
            if k > 0 {
                assert(parsed_from(ts, pos, shapes).items[k] == rest.items[k - 1]);
            }
        }
    }
}

/// A template as a lexer hands it over is written as it is gathered.
///
/// Take a stream without faults in which every token has text and none has
/// whitespace in it. Its normalised template is what its items gather, cut at
/// the directives: collapsing changes nothing, and trimming the two ends
/// removes nothing.
pub proof fn lemma_lexed_template_stays_as_gathered(
    ts: Seq<TokenTreeView>,
    shapes: Seq<ExprShape>,
)
    requires
        solid_tokens(ts),
        parsed_items(ts, shapes).errors.len() == 0,
    ensures
        forall|k: int|
            0 <= k < parsed_items(ts, shapes).items.len() && (#[trigger] parsed_items(ts, shapes).items[k]).element is Braced ==> collapsed(lead_at(parsed_items(ts, shapes).items, k))
                == lead_at(parsed_items(ts, shapes).items, k),
        collapsed(norm_run(parsed_items(ts, shapes).items).out) == norm_run(parsed_items(ts, shapes).items).out,
        parsed_template(ts, shapes) == flushed(
            norm_run(parsed_items(ts, shapes).items).done,
            norm_run(parsed_items(ts, shapes).items).out,
        ),
{
    lemma_items_solid(ts, 0, shapes);
    lemma_solid_items_stay_as_gathered(parsed_items(ts, shapes).items);
}

} // verus!
