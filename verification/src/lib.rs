//! Bang: a small, strongly typed scripting language.
//!
//! This crate holds the language front end: tokenisers, parsers, the
//! opinionated formatter, the linter and the typechecker.

pub mod text;
pub mod diagnostic;
pub mod token;
pub mod error;
pub mod tokens;
pub mod syntax;
pub mod formatter;
pub mod typechecker;
pub mod linter;
pub mod print;
pub mod scanner;
pub mod ast;
pub mod chunk;
pub mod compiler;
pub mod parser;
