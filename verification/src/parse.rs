//! The item grammar: from the token stream to the sequence of items.

use crate::braced::{no_op, parsed_braced, silent, ExprShape};
use crate::error::{msg_expected_tag_name, ParseError, ParseErrorView};
use crate::item::{Braced, Item, ItemElement, ItemElementView, ItemView, Name, NameView};
use crate::name::{lemma_name_end_bounds, name_end, scanned_name};
use crate::span::SpanPos;
use crate::template::{normalized, well_formed, PieceView, Template};
use crate::token::{views, TokenKind, TokenTree, TokenTreeView};
use vstd::prelude::*;

verus! {

/// What parsing one item gives: the item, the position after it, and the
/// faults found in it.
pub struct ParsedItem {
    pub item: ItemView,
    pub next: int,
    pub errors: Seq<ParseErrorView>,
}

/// The start of a tag named `name`: of a closing tag if `close`, of an opening
/// tag otherwise.
pub open spec fn tag_start(close: bool, name: NameView) -> ItemElementView {
    if close {
        ItemElementView::StartCloseTag(name)
    } else {
        ItemElementView::StartOpenTag(name)
    }
}

/// The item that starts with the token at `pos`; `shape` is the shape of the
/// expression if the token is a directive block, and of no account otherwise.
///
/// `<` and a name start an opening tag, `<`, `/` and a name a closing tag; a
/// `<` or `</` that ends the stream is a fault, and an item that writes
/// nothing stands in its place. `>` ends a tag. A group in braces is a
/// directive block. Any other token is literal text.
pub open spec fn parsed_item(ts: Seq<TokenTreeView>, pos: int, shape: ExprShape) -> ParsedItem {
    let t = ts[pos];
    if t.is_punct('<') {
        let close = pos + 1 < ts.len() && ts[pos + 1].is_punct('/');
        let at = if close {
            pos + 2
        } else {
            pos + 1
        };
        if at < ts.len() {
            let name = scanned_name(ts, at);
            ParsedItem {
                item: ItemView {
                    element: tag_start(close, name),
                    span_pos: SpanPos { start: t.token.span.start, end: name.span_pos.end },
                },
                next: name_end(ts, at),
                errors: Seq::empty(),
            }
        } else {
            let span = SpanPos { start: t.token.span.start, end: ts[at - 1].token.span.end };
            ParsedItem {
                item: ItemView { element: no_op(), span_pos: span },
                next: at,
                errors: seq![ParseErrorView { span, message: msg_expected_tag_name() }],
            }
        }
    } else if t.is_punct('>') {
        ParsedItem {
            item: ItemView { element: ItemElementView::EndTag, span_pos: t.token.span },
            next: pos + 1,
            errors: Seq::empty(),
        }
    } else if t.is_braced() {
        let b = parsed_braced(t.body, t.token.span, shape);
        ParsedItem {
            item: ItemView { element: b.element, span_pos: t.token.span },
            next: pos + 1,
            errors: b.errors,
        }
    } else {
        ParsedItem {
            item: ItemView {
                element: ItemElementView::Literal(t.token.text),
                span_pos: t.token.span,
            },
            next: pos + 1,
            errors: Seq::empty(),
        }
    }
}

/// An item takes at least one token and never runs past the stream.
pub proof fn lemma_item_advances(ts: Seq<TokenTreeView>, pos: int, shape: ExprShape)
    requires
        0 <= pos < ts.len(),
    ensures
        pos < parsed_item(ts, pos, shape).next <= ts.len(),
{
    if ts[pos].is_punct('<') {
        let close = pos + 1 < ts.len() && ts[pos + 1].is_punct('/');
        let at = if close {
            pos + 2
        } else {
            pos + 1
        };
        if at < ts.len() {
            lemma_name_end_bounds(ts, at);
        }
    }
}

/// The items of a template and the faults found in them.
pub struct ParsedItems {
    pub items: Seq<ItemView>,
    pub errors: Seq<ParseErrorView>,
}

/// The shape that `shapes` holds for the unit at `pos`; where it holds none,
/// the expression counts as one that does not parse.
pub open spec fn shape_at(shapes: Seq<ExprShape>, pos: int) -> ExprShape {
    if 0 <= pos < shapes.len() {
        shapes[pos]
    } else {
        ExprShape::Invalid
    }
}

/// The items that the tokens from `pos` on parse into, one after the other,
/// and their faults in the same order; `shapes` holds, for each unit that is a
/// directive block, the shape of its expression.
pub open spec fn parsed_from(ts: Seq<TokenTreeView>, pos: int, shapes: Seq<ExprShape>) -> ParsedItems
    decreases ts.len() - pos,
{
    if 0 <= pos < ts.len() {
        let p = parsed_item(ts, pos, shape_at(shapes, pos));
        proof {
            lemma_item_advances(ts, pos, shape_at(shapes, pos));
        }
        let rest = parsed_from(ts, p.next, shapes);
        ParsedItems { items: seq![p.item] + rest.items, errors: p.errors + rest.errors }
    } else {
        ParsedItems { items: Seq::empty(), errors: Seq::empty() }
    }
}

/// The items of the whole stream `ts`.
pub open spec fn parsed_items(ts: Seq<TokenTreeView>, shapes: Seq<ExprShape>) -> ParsedItems {
    parsed_from(ts, 0, shapes)
}

proof fn lemma_views_concat<T: View>(a: Seq<T>, b: Seq<T>)
    ensures
        views(a + b) == views(a) + views(b),
{
    assert(views(a + b) =~= views(a) + views(b));
}

fn tag(close: bool, name: Name) -> (e: ItemElement)
    ensures
        e@ == tag_start(close, name@),
{
    if close {
        ItemElement::StartCloseTag(name)
    } else {
        ItemElement::StartOpenTag(name)
    }
}

fn shape_for(shapes: &Vec<ExprShape>, pos: usize) -> (shape: ExprShape)
    ensures
        shape == shape_at(shapes@, pos as int),
{
    if pos < shapes.len() {
        shapes[pos]
    } else {
        ExprShape::Invalid
    }
}

impl Item {
    /// Parses the item that starts with the token at `pos`; `shape` is the
    /// shape of the expression if that token is a directive block. Returns the
    /// item, the position after it, and the faults found in it.
    pub fn parse(tokens: &Vec<TokenTree>, pos: usize, shape: ExprShape) -> (r: (
        Item,
        usize,
        Vec<ParseError>,
    ))
        requires
            pos < tokens.len(),
        ensures
            r.0@ == parsed_item(views(tokens@), pos as int, shape).item,
            r.1 == parsed_item(views(tokens@), pos as int, shape).next,
            views(r.2@) == parsed_item(views(tokens@), pos as int, shape).errors,
            pos < r.1 <= tokens.len(),
    {
        let ghost ts = views(tokens@);
        let t = &tokens[pos];
        let mut span_pos = t.token.span;
        let mut errors: Vec<ParseError> = Vec::new();
        proof {
            assert(views(errors@) =~= Seq::<ParseErrorView>::empty());
            assert(ts[pos as int] == t@);
        }
        if t.token.is_punct('<') {
            let close = pos + 1 < tokens.len() && tokens[pos + 1].token.is_punct('/');
            let at = if close {
                pos + 2
            } else {
                pos + 1
            };
            if at < tokens.len() {
                let (name, next) = Name::parse(tokens, at);
                span_pos.move_end(name.span_pos);
                (Item::new(span_pos, tag(close, name)), next, errors)
            } else {
                span_pos.move_end(tokens[at - 1].token.span);
                errors.push(ParseError::new(span_pos, "expected tag name"));
                proof {
                    assert(views(errors@) =~= seq![
                        ParseErrorView { span: span_pos, message: msg_expected_tag_name() },
                    ]);
                }
                (Item::new(span_pos, silent()), at, errors)
            }
        } else if t.token.is_punct('>') {
            (Item::new(span_pos, ItemElement::EndTag), pos + 1, errors)
        } else if t.token.kind == TokenKind::Braced {
            let (element, faults) = Braced::parse(&t.body, span_pos, shape);
            (Item::new(span_pos, element), pos + 1, faults)
        } else {
            (Item::new(span_pos, ItemElement::Literal(t.token.text.clone())), pos + 1, errors)
        }
    }
}

/// Asks the expression parser for the shape of the expression of every
/// directive block of the stream. The answer has one entry for each unit: for
/// a block what the parser said, which nothing foretells, and `Other` for a
/// unit that is no block, where the entry is of no account.
pub fn block_shapes(tokens: &Vec<TokenTree>) -> (shapes: Vec<ExprShape>)
    ensures
        shapes.len() == tokens.len(),
        forall|i: int|
            0 <= i < tokens.len() && !views(tokens@)[i].is_braced() ==> #[trigger] shapes@[i]
                == ExprShape::Other,
{
    let mut shapes: Vec<ExprShape> = Vec::new();
    let mut i: usize = 0;
    while i < tokens.len()
        invariant
            0 <= i <= tokens.len(),
            shapes.len() == i,
            forall|k: int|
                0 <= k < i && !views(tokens@)[k].is_braced() ==> #[trigger] shapes@[k]
                    == ExprShape::Other,
        decreases tokens.len() - i,
    {
        if tokens[i].token.kind == TokenKind::Braced {
            shapes.push(Braced::shape(&tokens[i].body));
        } else {
            shapes.push(ExprShape::Other);
        }
        i += 1;
    }
    shapes
}

/// Parses the whole token stream into items, with `shapes` holding the shape
/// of the expression of each directive block, at the block's place in the
/// stream. Parsing goes on after a fault, so that all the faults of a template
/// are found in one pass.
pub fn parse_items(tokens: &Vec<TokenTree>, shapes: &Vec<ExprShape>) -> (r: (
    Vec<Item>,
    Vec<ParseError>,
))
    ensures
        views(r.0@) == parsed_items(views(tokens@), shapes@).items,
        views(r.1@) == parsed_items(views(tokens@), shapes@).errors,
{
    let ghost ts = views(tokens@);
    let mut items: Vec<Item> = Vec::new();
    let mut errors: Vec<ParseError> = Vec::new();
    let mut pos: usize = 0;
    proof {
        assert(views(items@) + parsed_from(ts, 0, shapes@).items =~= parsed_from(
            ts,
            0,
            shapes@,
        ).items);
        assert(views(errors@) + parsed_from(ts, 0, shapes@).errors =~= parsed_from(
            ts,
            0,
            shapes@,
        ).errors);
    }
    while pos < tokens.len()
        invariant
            ts == views(tokens@),
            0 <= pos <= tokens.len(),
            views(items@) + parsed_from(ts, pos as int, shapes@).items == parsed_items(
                ts,
                shapes@,
            ).items,
            views(errors@) + parsed_from(ts, pos as int, shapes@).errors == parsed_items(
                ts,
                shapes@,
            ).errors,
        decreases tokens.len() - pos,
    {
        let (item, next, mut faults) = Item::parse(tokens, pos, shape_for(shapes, pos));
        proof {
            let p = parsed_item(ts, pos as int, shape_at(shapes@, pos as int));
            let rest = parsed_from(ts, p.next, shapes@);
            assert(views(items@.push(item)) =~= views(items@) + seq![p.item]);
            assert((views(items@) + seq![p.item]) + rest.items =~= views(items@) + (seq![p.item]
                + rest.items));
            lemma_views_concat(errors@, faults@);
            assert((views(errors@) + p.errors) + rest.errors =~= views(errors@) + (p.errors
                + rest.errors));
        }
        items.push(item);
        errors.append(&mut faults);
        pos = next;
    }
    proof {
        assert(views(items@) + Seq::<ItemView>::empty() =~= views(items@));
        assert(views(errors@) + Seq::<ParseErrorView>::empty() =~= views(errors@));
    }
    (items, errors)
}

/// The normalised template of the token stream `ts`, with the expressions of
/// its directive blocks of the shapes `shapes`.
pub open spec fn parsed_template(ts: Seq<TokenTreeView>, shapes: Seq<ExprShape>) -> Seq<PieceView> {
    normalized(parsed_items(ts, shapes).items)
}

/// Whether `r` is what the stream `ts` parses into when the expressions of
/// its directive blocks have the shapes `shapes`: the normalised template, and
/// the faults in the order of the source.
pub open spec fn parsed_as(
    r: (Template, Vec<ParseError>),
    ts: Seq<TokenTreeView>,
    shapes: Seq<ExprShape>,
) -> bool {
    &&& r.0@ == parsed_template(ts, shapes)
    &&& views(r.1@) == parsed_items(ts, shapes).errors
}

impl Template {
    /// Parses a token stream into a normalised template and the faults found
    /// on the way, with `shapes` holding the shape of the expression of each
    /// directive block, at the block's place in the stream. The template is
    /// the best that can be made of the stream; it is what the stream means
    /// only when there are no faults.
    pub fn parse_with(tokens: &Vec<TokenTree>, shapes: &Vec<ExprShape>) -> (r: (
        Template,
        Vec<ParseError>,
    ))
        ensures
            parsed_as(r, views(tokens@), shapes@),
            well_formed(r.0@),
    {
        let (items, errors) = parse_items(tokens, shapes);
        (Template::normalize(&items), errors)
    }

    /// Parses a token stream into a normalised template and the faults found
    /// on the way. The shapes of the expressions are asked of the expression
    /// parser, one for each directive block; the result is what the stream
    /// parses into with the shapes that came back.
    pub fn parse(tokens: &Vec<TokenTree>) -> (r: (Template, Vec<ParseError>))
        ensures
            exists|shapes: Seq<ExprShape>| parsed_as(r, views(tokens@), shapes),
            well_formed(r.0@),
    {
        let shapes = block_shapes(tokens);
        Template::parse_with(tokens, &shapes)
    }
}

} // verus!
