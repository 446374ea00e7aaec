//! The current front end: a tokeniser with format strings, a parser that
//! builds a spanned syntax tree, and the tree itself.

pub mod quotes;
pub mod tokens;
pub mod ast;
pub mod parser;
