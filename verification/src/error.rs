//! What a template can be rejected for, and where.

use crate::span::SpanPos;
use vstd::prelude::*;
use vstd::string::StringExecFns;

verus! {

/// One fault found while parsing: the span at fault and what is wrong there.
#[derive(Clone, Debug, PartialEq, Eq)]
pub struct ParseError {
    pub span: SpanPos,
    pub message: String,
}

/// A parse error as a mathematical value.
pub struct ParseErrorView {
    pub span: SpanPos,
    pub message: Seq<char>,
}

impl View for ParseError {
    type V = ParseErrorView;

    open spec fn view(&self) -> ParseErrorView {
        ParseErrorView { span: self.span, message: self.message@ }
    }
}

/// The message for a modifier that names no directive.
pub open spec fn msg_unknown_modifier(modifier: Seq<char>) -> Seq<char> {
    "invalid formatting directive: "@ + modifier
}

/// The message for a `!` that no modifier follows.
pub open spec fn msg_expected_modifier() -> Seq<char> {
    "expected identifier"@
}

/// The message for a directive body that is no expression.
pub open spec fn msg_expected_expression() -> Seq<char> {
    "expected expression"@
}

/// The message for a child call whose body is no call.
pub open spec fn msg_expected_call() -> Seq<char> {
    "expected call expression here"@
}

/// The message for a child capability whose body is no path.
pub open spec fn msg_expected_path() -> Seq<char> {
    "expected path expression here"@
}

/// The message for a `<` or `</` at the end of the template.
pub open spec fn msg_expected_tag_name() -> Seq<char> {
    "expected tag name"@
}

impl ParseError {
    /// The error `message` at `span`.
    pub fn new(span: SpanPos, message: &str) -> (e: ParseError)
        ensures
            e@ == (ParseErrorView { span, message: message@ }),
    {
        ParseError { span, message: String::from_str(message) }
    }

    /// The error for the modifier `modifier`, found at `span`, that names no
    /// directive.
    pub fn unknown_modifier(span: SpanPos, modifier: &str) -> (e: ParseError)
        ensures
            e@ == (ParseErrorView { span, message: msg_unknown_modifier(modifier@) }),
    {
        let message = String::from_str("invalid formatting directive: ").concat(modifier);
        ParseError { span, message }
    }
}

} // verus!
