//! The items a template is parsed into: literal text, tag markers and
//! directives, each with the place it came from.

use crate::span::SpanPos;
use vstd::prelude::*;

verus! {

/// How the value of an embedded expression is written.
#[derive(Clone, Copy, Debug, PartialEq, Eq, Structural)]
pub enum Directive {
    /// Written as text, escaped for HTML.
    Default,
    /// Written as text between double quotes, not escaped.
    Quote,
    /// Written as the bytes it holds.
    Bytes,
    /// A call of another template, which writes to the same sink.
    ChildCall,
    /// A value that can render itself into the sink.
    ChildCapability,
}

/// A directive block: the directive and the expression it applies to.
#[derive(Clone, Debug, PartialEq, Eq)]
pub struct Braced {
    pub directive: Directive,
    pub expr: String,
}

/// A directive block as a mathematical value.
pub struct BracedView {
    pub directive: Directive,
    pub expr: Seq<char>,
}

impl View for Braced {
    type V = BracedView;

    open spec fn view(&self) -> BracedView {
        BracedView { directive: self.directive, expr: self.expr@ }
    }
}

/// The name of a tag, with the span of the tokens it was read from.
#[derive(Clone, Debug, PartialEq, Eq)]
pub struct Name {
    pub value: String,
    pub span_pos: SpanPos,
}

/// A tag name as a mathematical value.
pub struct NameView {
    pub value: Seq<char>,
    pub span_pos: SpanPos,
}

impl View for Name {
    type V = NameView;

    open spec fn view(&self) -> NameView {
        NameView { value: self.value@, span_pos: self.span_pos }
    }
}

/// What an item is.
#[derive(Clone, Debug, PartialEq, Eq)]
pub enum ItemElement {
    /// Text that is written as it stands.
    Literal(String),
    /// A directive block.
    Braced(Braced),
    /// The start of an opening tag: `<name`.
    StartOpenTag(Name),
    /// The start of a closing tag: `</name`.
    StartCloseTag(Name),
    /// The `>` that ends a tag.
    EndTag,
}

/// What an item is, as a mathematical value.
pub enum ItemElementView {
    Literal(Seq<char>),
    Braced(BracedView),
    StartOpenTag(NameView),
    StartCloseTag(NameView),
    EndTag,
}

impl View for ItemElement {
    type V = ItemElementView;

    open spec fn view(&self) -> ItemElementView {
        match self {
            ItemElement::Literal(l) => ItemElementView::Literal(l@),
            ItemElement::Braced(b) => ItemElementView::Braced(b@),
            ItemElement::StartOpenTag(n) => ItemElementView::StartOpenTag(n@),
            ItemElement::StartCloseTag(n) => ItemElementView::StartCloseTag(n@),
            ItemElement::EndTag => ItemElementView::EndTag,
        }
    }
}

/// One parsed item and the span of the source it covers. The span decides
/// only whether whitespace stood between neighbours; it is never written.
#[derive(Clone, Debug, PartialEq, Eq)]
pub struct Item {
    pub element: ItemElement,
    pub span_pos: SpanPos,
}

/// An item as a mathematical value.
pub struct ItemView {
    pub element: ItemElementView,
    pub span_pos: SpanPos,
}

impl View for Item {
    type V = ItemView;

    open spec fn view(&self) -> ItemView {
        ItemView { element: self.element@, span_pos: self.span_pos }
    }
}

impl Item {
    /// The item `element`, covering `span_pos`.
    pub fn new(span_pos: SpanPos, element: ItemElement) -> (item: Item)
        ensures
            item@ == (ItemView { element: element@, span_pos }),
    {
        Item { span_pos, element }
    }
}

} // verus!
