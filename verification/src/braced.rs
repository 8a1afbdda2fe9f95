//! Directive blocks: the modifier, the expression, and what is made of them.

use crate::error::{
    msg_expected_call, msg_expected_expression, msg_expected_modifier, msg_expected_path,
    msg_unknown_modifier, ParseError, ParseErrorView,
};
use crate::item::{Braced, BracedView, Directive, ItemElement, ItemElementView};
use crate::span::{gap, spec_gap, SpanPos};
use crate::tags::text_eq;
use crate::token::{views, Token, TokenKind, TokenView};
use vstd::prelude::*;
use vstd::string::StringExecFns;

verus! {

/// What sort of expression a text is.
#[derive(Clone, Copy, Debug, PartialEq, Eq, Structural)]
pub enum ExprShape {
    /// A call: a callee and its arguments in parentheses.
    Call,
    /// A path: a name, possibly qualified.
    Path,
    /// Any other expression.
    Other,
    /// Not an expression.
    Invalid,
}

/// `syn::parse_str::<syn::Expr>`: parses all of `text` as one Rust
/// expression, and the answer tells a call and a path apart from the other
/// expressions, and all of them from text that does not parse. How the text
/// is split into tokens is the business of the process that runs the parser,
/// so nothing is promised of the answer.
#[verifier::external_body]
pub(crate) fn expr_shape(text: &str) -> (shape: ExprShape) {
    match syn::parse_str::<syn::Expr>(text) {
        Ok(syn::Expr::Call(_)) => ExprShape::Call,
        Ok(syn::Expr::Path(_)) => ExprShape::Path,
        Ok(_) => ExprShape::Other,
        Err(_) => ExprShape::Invalid,
    }
}

/// The directive that a modifier names, if it names one.
pub open spec fn modifier_directive(modifier: Seq<char>) -> Option<Directive> {
    if modifier == "q"@ {
        Some(Directive::Quote)
    } else if modifier == "b"@ {
        Some(Directive::Bytes)
    } else if modifier == "t"@ {
        Some(Directive::ChildCall)
    } else if modifier == "c"@ {
        Some(Directive::ChildCapability)
    } else {
        None
    }
}

/// Looks a modifier up: `q`, `b`, `t` and `c` name a directive, nothing else
/// does.
pub fn lookup_modifier(modifier: &str) -> (d: Option<Directive>)
    ensures
        d == modifier_directive(modifier@),
{
    if text_eq(modifier, "q") {
        Some(Directive::Quote)
    } else if text_eq(modifier, "b") {
        Some(Directive::Bytes)
    } else if text_eq(modifier, "t") {
        Some(Directive::ChildCall)
    } else if text_eq(modifier, "c") {
        Some(Directive::ChildCapability)
    } else {
        None
    }
}

/// The texts of the tokens at `from..to`, with one space wherever the source
/// had a gap between two of them.
pub open spec fn spaced(body: Seq<TokenView>, from: int, to: int) -> Seq<char>
    decreases to - from,
{
    if to <= from {
        Seq::empty()
    } else if to == from + 1 {
        body[from].text
    } else if spec_gap(body[to - 2].span.end as int, body[to - 1].span.start as int) {
        spaced(body, from, to - 1).push(' ') + body[to - 1].text
    } else {
        spaced(body, from, to - 1) + body[to - 1].text
    }
}

/// The span of the tokens from `from` to the end of `body`, or `whole` when
/// there are none.
pub open spec fn span_from(body: Seq<TokenView>, from: int, whole: SpanPos) -> SpanPos {
    if 0 <= from < body.len() {
        SpanPos { start: body[from].span.start, end: body.last().span.end }
    } else {
        whole
    }
}

/// What a directive block comes to: the element that stands for it, and the
/// faults found in it.
pub struct Built {
    pub element: ItemElementView,
    pub errors: Seq<ParseErrorView>,
}

/// The element that stands in for a block that cannot be used: it writes
/// nothing.
pub open spec fn no_op() -> ItemElementView {
    ItemElementView::Literal(Seq::empty())
}

/// What a block with this modifier and expression comes to, given the shape
/// of the expression.
///
/// A modifier that names no directive is a fault, and the block is read as if
/// it had none. An expression that does not parse, a child call that is no
/// call and a child capability that is no path are faults; such a block writes
/// nothing.
pub open spec fn built(
    modifier: Option<TokenView>,
    expr: Seq<char>,
    at: SpanPos,
    shape: ExprShape,
) -> Built {
    let named = match modifier {
        Some(m) => modifier_directive(m.text),
        None => Some(Directive::Default),
    };
    let directive = match named {
        Some(d) => d,
        None => Directive::Default,
    };
    let unknown: Seq<ParseErrorView> = if named is None {
        seq![
            ParseErrorView {
                span: modifier->Some_0.span,
                message: msg_unknown_modifier(modifier->Some_0.text),
            },
        ]
    } else {
        Seq::empty()
    };
    if shape == ExprShape::Invalid {
        Built {
            element: no_op(),
            errors: unknown.push(ParseErrorView { span: at, message: msg_expected_expression() }),
        }
    } else if directive == Directive::ChildCall && shape != ExprShape::Call {
        Built {
            element: no_op(),
            errors: unknown.push(ParseErrorView { span: at, message: msg_expected_call() }),
        }
    } else if directive == Directive::ChildCapability && shape != ExprShape::Path {
        Built {
            element: no_op(),
            errors: unknown.push(ParseErrorView { span: at, message: msg_expected_path() }),
        }
    } else {
        Built { element: ItemElementView::Braced(BracedView { directive, expr }), errors: unknown }
    }
}

/// The view of a token that may be absent.
pub open spec fn viewed(token: Option<&Token>) -> Option<TokenView> {
    match token {
        Some(t) => Some(t@),
        None => None,
    }
}

/// Whether a block's body starts with the `!` that announces a modifier.
pub open spec fn has_bang(body: Seq<TokenView>) -> bool {
    body.len() > 0 && body[0].kind == TokenKind::Punct && body[0].text == seq!['!']
}

/// Where the expression of a block starts: after `!` and the modifier if
/// the block has them, at the first token otherwise; a block whose `!` no
/// modifier follows has no expression.
pub open spec fn expr_start(body: Seq<TokenView>) -> int {
    if !has_bang(body) {
        0
    } else if body.len() > 1 && body[1].kind == TokenKind::Ident {
        2
    } else {
        body.len() as int
    }
}

/// The text of the expression of a block.
pub open spec fn block_expr(body: Seq<TokenView>) -> Seq<char> {
    spaced(body, expr_start(body), body.len() as int)
}

/// What the block with the tokens `body` comes to when its expression has
/// the shape `shape`; `whole` is the span of the block.
pub open spec fn parsed_braced(body: Seq<TokenView>, whole: SpanPos, shape: ExprShape) -> Built {
    if !has_bang(body) {
        built(None, block_expr(body), span_from(body, 0, whole), shape)
    } else if body.len() > 1 && body[1].kind == TokenKind::Ident {
        built(Some(body[1]), block_expr(body), span_from(body, 2, whole), shape)
    } else {
        Built {
            element: no_op(),
            errors: seq![
                ParseErrorView {
                    span: if body.len() > 1 {
                        body[1].span
                    } else {
                        body[0].span
                    },
                    message: msg_expected_modifier(),
                },
            ],
        }
    }
}

fn join_spaced(body: &Vec<Token>, from: usize) -> (expr: String)
    requires
        from <= body.len(),
    ensures
        expr@ == spaced(views(body@), from as int, body.len() as int),
{
    let ghost ts = views(body@);
    let mut expr = String::new();
    let mut i = from;
    while i < body.len()
        invariant
            ts == views(body@),
            from <= i <= body.len(),
            expr@ == spaced(ts, from as int, i as int),
        decreases body.len() - i,
    {
        if i > from && gap(body[i - 1].span.end, body[i].span.start) {
            expr.append(" ");
            proof {
                reveal_strlit(" ");
                assert(" "@ =~= seq![' ']);
                assert(spaced(ts, from as int, i as int) + seq![' '] =~= spaced(
                    ts,
                    from as int,
                    i as int,
                ).push(' '));
            }
        }
        expr.append(body[i].text.as_str());
        proof {
            if i == from {
                assert(expr@ =~= ts[i as int].text);
            }
        }
        i += 1;
    }
    expr
}

fn span_of_rest(body: &Vec<Token>, from: usize, whole: SpanPos) -> (at: SpanPos)
    ensures
        at == span_from(views(body@), from as int, whole),
{
    if from < body.len() {
        SpanPos { start: body[from].span.start, end: body[body.len() - 1].span.end }
    } else {
        whole
    }
}

/// The element that stands in for what cannot be used.
pub fn silent() -> (e: ItemElement)
    ensures
        e@ == no_op(),
{
    ItemElement::Literal(String::new())
}

impl Braced {
    /// Makes the element for a block from its parts, once the shape of its
    /// expression is known: `modifier` is the token after `!`, if the block has
    /// one, `expr` the text of the expression and `at` its span.
    pub fn build(modifier: Option<&Token>, expr: String, at: SpanPos, shape: ExprShape) -> (r: (
        ItemElement,
        Vec<ParseError>,
    ))
        ensures
            r.0@ == built(viewed(modifier), expr@, at, shape).element,
            views(r.1@) == built(viewed(modifier), expr@, at, shape).errors,
    {
        let mut errors: Vec<ParseError> = Vec::new();
        let mut directive = Directive::Default;
        if let Some(m) = modifier {
            match lookup_modifier(m.text.as_str()) {
                Some(d) => {
                    directive = d;
                },
                None => {
                    errors.push(ParseError::unknown_modifier(m.span, m.text.as_str()));
                },
            }
        }
        let ghost unknown = views(errors@);
        let fault: Option<&str> = if shape == ExprShape::Invalid {
            Some("expected expression")
        } else if directive == Directive::ChildCall && shape != ExprShape::Call {
            Some("expected call expression here")
        } else if directive == Directive::ChildCapability && shape != ExprShape::Path {
            Some("expected path expression here")
        } else {
            None
        };
        match fault {
            Some(message) => {
                errors.push(ParseError::new(at, message));
                proof {
                    assert(views(errors@) =~= unknown.push(
                        ParseErrorView { span: at, message: message@ },
                    ));
                }
                (silent(), errors)
            },
            None => {
                proof {
                    assert(views(errors@) =~= unknown);
                }
                (ItemElement::Braced(Braced { directive, expr }), errors)
            },
        }
    }

    /// The text of the expression of a block: its tokens after `!` and the
    /// modifier, with one space wherever the source had a gap.
    pub fn expression(body: &Vec<Token>) -> (expr: String)
        ensures
            expr@ == block_expr(views(body@)),
    {
        let bang = body.len() > 0 && body[0].is_punct('!');
        if !bang {
            join_spaced(body, 0)
        } else if body.len() > 1 && body[1].kind == TokenKind::Ident {
            join_spaced(body, 2)
        } else {
            join_spaced(body, body.len())
        }
    }

    /// Asks the expression parser what shape the expression of a block has.
    /// The answer is the parser's: nothing is known of it beforehand.
    pub fn shape(body: &Vec<Token>) -> ExprShape {
        let expr = Braced::expression(body);
        expr_shape(expr.as_str())
    }

    /// Parses the body of a directive block: an optional `!` and modifier,
    /// then an expression up to the end of the block. `whole` is the span of
    /// the block, `shape` the shape of its expression.
    pub fn parse(body: &Vec<Token>, whole: SpanPos, shape: ExprShape) -> (r: (
        ItemElement,
        Vec<ParseError>,
    ))
        ensures
            r.0@ == parsed_braced(views(body@), whole, shape).element,
            views(r.1@) == parsed_braced(views(body@), whole, shape).errors,
    {
        let bang = body.len() > 0 && body[0].is_punct('!');
        if !bang {
            let expr = Braced::expression(body);
            Braced::build(None, expr, span_of_rest(body, 0, whole), shape)
        } else if body.len() > 1 && body[1].kind == TokenKind::Ident {
            let expr = Braced::expression(body);
            Braced::build(Some(&body[1]), expr, span_of_rest(body, 2, whole), shape)
        } else {
            let span = if body.len() > 1 {
                body[1].span
            } else {
                body[0].span
            };
            let mut errors: Vec<ParseError> = Vec::new();
            errors.push(ParseError::new(span, "expected identifier"));
            proof {
                assert(views(errors@) =~= seq![
                    ParseErrorView { span, message: msg_expected_modifier() },
                ]);
            }
            (silent(), errors)
        }
    }
}

} // verus!
