//! Templates compiled to a flat list of write instructions.
//!
//! A template is markup with embedded expressions: literal text, tags, and
//! directive blocks in braces. It arrives as a stream of tokens, each with the
//! place it had in the source. Compiling it takes four steps:
//!
//! 1. [`parse`] reads the stream into items: literal text, `<name`, `</name`,
//!    `>`, and directive blocks ([`name`] reads tag names, [`braced`] the
//!    blocks).
//! 2. [`template`] normalises whitespace: one space wherever the source had a
//!    gap, none next to a whitespace-insensitive tag ([`tags`]) or at the ends
//!    of the template, and every run of whitespace collapsed ([`text`]).
//! 3. [`instruction`] turns the normalised template into instructions.
//! 4. [`render`] runs an instruction list against a sink, with the values of
//!    the expressions.
//!
//! [`laws`] states what holds of every template.

pub mod braced;
pub mod error;
pub mod escape;
pub mod instruction;
pub mod item;
pub mod laws;
pub mod name;
pub mod parse;
pub mod render;
pub mod span;
pub mod tags;
pub mod template;
pub mod text;
pub mod token;

pub use crate::escape::escape;
