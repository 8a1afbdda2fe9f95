//! The compiled form of a template: a list of write instructions, run one
//! after the other.

use crate::error::ParseError;
use crate::item::{BracedView, Directive};
use crate::braced::ExprShape;
use crate::parse::{block_shapes, parsed_items, parsed_template};
use crate::template::{Piece, PieceView, Template};
use crate::token::{views, TokenTree, TokenTreeView};
use vstd::prelude::*;
use vstd::string::StrSliceExecFns;
use vstd::utf8::encode_utf8;

verus! {

/// One step of a compiled template. The steps of a list run in order, and
/// the list ends in success: there is no branch and no loop.
#[derive(Clone, Debug, PartialEq, Eq)]
pub enum Instruction {
    /// Write these bytes.
    WriteLiteral(Vec<u8>),
    /// Write the text value of the expression, escaped for HTML.
    WriteEscaped(String),
    /// Write the text value of the expression between double quotes, as it
    /// is: nothing is escaped.
    WriteQuoted(String),
    /// Write the bytes that the expression holds.
    WriteRawBytes(String),
    /// Let the child that the expression names write to the same sink.
    InvokeChild(String),
}

/// An instruction as a mathematical value.
pub enum InstructionView {
    WriteLiteral(Seq<u8>),
    WriteEscaped(Seq<char>),
    WriteQuoted(Seq<char>),
    WriteRawBytes(Seq<char>),
    InvokeChild(Seq<char>),
}

impl View for Instruction {
    type V = InstructionView;

    open spec fn view(&self) -> InstructionView {
        match self {
            Instruction::WriteLiteral(b) => InstructionView::WriteLiteral(b@),
            Instruction::WriteEscaped(e) => InstructionView::WriteEscaped(e@),
            Instruction::WriteQuoted(e) => InstructionView::WriteQuoted(e@),
            Instruction::WriteRawBytes(e) => InstructionView::WriteRawBytes(e@),
            Instruction::InvokeChild(e) => InstructionView::InvokeChild(e@),
        }
    }
}

/// The instruction for a directive block.
pub open spec fn directive_instruction(b: BracedView) -> InstructionView {
    match b.directive {
        Directive::Default => InstructionView::WriteEscaped(b.expr),
        Directive::Quote => InstructionView::WriteQuoted(b.expr),
        Directive::Bytes => InstructionView::WriteRawBytes(b.expr),
        Directive::ChildCall => InstructionView::InvokeChild(b.expr),
        Directive::ChildCapability => InstructionView::InvokeChild(b.expr),
    }
}

/// The instruction for one piece of a template: a literal is written as its
/// UTF-8 bytes, a directive as its kind says.
pub open spec fn instruction_of(p: PieceView) -> InstructionView {
    match p {
        PieceView::Literal(text) => InstructionView::WriteLiteral(encode_utf8(text)),
        PieceView::Directive(b) => directive_instruction(b),
    }
}

/// The instructions for the pieces of a template, one for each, in order.
pub open spec fn emitted(pieces: Seq<PieceView>) -> Seq<InstructionView> {
    Seq::new(pieces.len(), |i: int| instruction_of(pieces[i]))
}

/// The instruction list that the token stream `ts` compiles to, with the
/// expressions of its directive blocks of the shapes `shapes`.
pub open spec fn compiled(ts: Seq<TokenTreeView>, shapes: Seq<ExprShape>) -> Seq<InstructionView> {
    emitted(parsed_template(ts, shapes))
}

/// Whether `r` is what compiling the stream `ts` gives when the expressions
/// of its directive blocks have the shapes `shapes`: the instruction list of a
/// stream without faults, all the faults of a stream that has any.
pub open spec fn compiled_as(
    r: Result<Vec<Instruction>, Vec<ParseError>>,
    ts: Seq<TokenTreeView>,
    shapes: Seq<ExprShape>,
) -> bool {
    match r {
        Ok(list) => parsed_items(ts, shapes).errors.len() == 0 && views(list@) == compiled(
            ts,
            shapes,
        ),
        Err(errors) => errors.len() > 0 && views(errors@) == parsed_items(ts, shapes).errors,
    }
}

impl Piece {
    /// The instruction that writes this piece.
    pub fn to_instruction(&self) -> (ins: Instruction)
        ensures
            ins@ == instruction_of(self@),
    {
        match self {
            Piece::Literal(text) => Instruction::WriteLiteral(text.as_str().as_bytes_vec()),
            Piece::Directive(b) => match b.directive {
                Directive::Default => Instruction::WriteEscaped(b.expr.clone()),
                Directive::Quote => Instruction::WriteQuoted(b.expr.clone()),
                Directive::Bytes => Instruction::WriteRawBytes(b.expr.clone()),
                Directive::ChildCall => Instruction::InvokeChild(b.expr.clone()),
                Directive::ChildCapability => Instruction::InvokeChild(b.expr.clone()),
            },
        }
    }
}

impl Template {
    /// The instruction list of this template: one instruction for each piece,
    /// in order. Running off the end of the list is success.
    pub fn to_instructions(&self) -> (list: Vec<Instruction>)
        ensures
            views(list@) == emitted(self@),
    {
        let mut list: Vec<Instruction> = Vec::new();
        let mut i: usize = 0;
        while i < self.items.len()
            invariant
                0 <= i <= self.items.len(),
                views(list@) == emitted(self@.take(i as int)),
            decreases self.items.len() - i,
        {
            let ins = self.items[i].to_instruction();
            proof {
                assert(self@[i as int] == self.items@[i as int]@);
                assert(emitted(self@.take(i as int + 1)) =~= emitted(self@.take(i as int)).push(
                    instruction_of(self@[i as int]),
                ));
                assert(views(list@.push(ins)) =~= views(list@).push(ins@));
            }
            list.push(ins);
            i += 1;
        }
        proof {
            assert(self@.take(self.items.len() as int) =~= self@);
        }
        list
    }
}

/// Compiles a token stream into an instruction list, with `shapes` holding
/// the shape of the expression of each directive block, at the block's place
/// in the stream.
///
/// A stream without faults gives its instruction list. A stream with faults
/// gives all of them, in the order of the source, and no list.
pub fn compile_with(tokens: &Vec<TokenTree>, shapes: &Vec<ExprShape>) -> (r: Result<
    Vec<Instruction>,
    Vec<ParseError>,
>)
    ensures
        compiled_as(r, views(tokens@), shapes@),
{
    let (template, errors) = Template::parse_with(tokens, shapes);
    if errors.len() > 0 {
        Err(errors)
    } else {
        Ok(template.to_instructions())
    }
}

/// Compiles a token stream into an instruction list. The shapes of the
/// expressions are asked of the expression parser, one for each directive
/// block; the result is what the stream compiles to with the shapes that came
/// back.
pub fn compile(tokens: &Vec<TokenTree>) -> (r: Result<Vec<Instruction>, Vec<ParseError>>)
    ensures
        exists|shapes: Seq<ExprShape>| compiled_as(r, views(tokens@), shapes),
{
    let shapes = block_shapes(tokens);
    compile_with(tokens, &shapes)
}

} // verus!
