//! What holds of every template: laws of the parser, of the normaliser and
//! of the output.

pub mod boundary;
pub mod directives;
pub mod layout;
pub mod lexed;
pub mod order;
pub mod plain;
